//! Where the selection of a list rests, and how it moves.

use vstd::prelude::*;

use crate::rows;
use crate::rows::{RowModel, SidebarRow};
use crate::text;

verus! {

/// The selected row of a list, and the row that its view begins at.
#[derive(Debug, Clone, Copy, PartialEq, Eq, Structural)]
pub struct ListState {
    pub selected: Option<usize>,
    pub offset: usize,
}

/// A list with another selection. Without one, the view goes back to the top.
pub open spec fn selecting(state: ListState, row: Option<usize>) -> ListState {
    ListState {
        selected: row,
        offset: if row is None {
            0
        } else {
            state.offset
        },
    }
}

impl ListState {
    pub fn new() -> (r: Self)
        ensures
            r == (ListState { selected: None, offset: 0 }),
    {
        ListState { selected: None, offset: 0 }
    }

    pub fn select(&mut self, row: Option<usize>)
        ensures
            *final(self) == selecting(*old(self), row),
    {
        self.selected = row;
        if row.is_none() {
            self.offset = 0;
        }
    }
}

/// The first row that `p` holds of.
pub open spec fn first_row(ms: Seq<RowModel>, p: spec_fn(RowModel) -> bool) -> Option<usize>
    decreases ms.len(),
{
    if ms.len() == 0 {
        None
    } else if p(ms[0]) {
        Some(0)
    } else {
        match first_row(ms.skip(1), p) {
            Some(k) => Some((k + 1) as usize),
            None => None,
        }
    }
}

pub proof fn lemma_first_row(ms: Seq<RowModel>, p: spec_fn(RowModel) -> bool, k: int)
    requires
        0 <= k <= ms.len() <= usize::MAX,
        k < ms.len() ==> p(ms[k]),
        forall|j: int| 0 <= j < k ==> !p(#[trigger] ms[j]),
    ensures
        first_row(ms, p) == (if k < ms.len() {
            Some(k as usize)
        } else {
            None::<usize>
        }),
    decreases ms.len(),
{
    if ms.len() > 0 && k > 0 {
        assert(!p(ms[0]));
        let rest = ms.skip(1);
        if k < ms.len() {
            assert(rest[k - 1] == ms[k]);
        }
        assert forall|j: int| 0 <= j < k - 1 implies !p(#[trigger] rest[j]) by {
            assert(rest[j] == ms[j + 1]);
        }
        lemma_first_row(rest, p, k - 1);
    }
}

/// The agent of a row, none for a row of another kind.
pub open spec fn agent_at(ms: Seq<RowModel>, row: int) -> Option<usize> {
    if 0 <= row < ms.len() {
        match ms[row] {
            RowModel::Agent(i) => Some(i as usize),
            _ => None,
        }
    } else {
        None
    }
}

/// Agent index of a row, `None` for a header.
pub fn agent_of_row(rows: &Vec<SidebarRow>, row: usize) -> (r: Option<usize>)
    ensures
        r == agent_at(rows::models(rows@), row as int),
{
    if row < rows.len() {
        match &rows[row] {
            SidebarRow::Agent(idx) => Some(*idx),
            _ => None,
        }
    } else {
        None
    }
}

/// The row of agent `i`.
pub open spec fn row_with(ms: Seq<RowModel>, i: usize) -> Option<usize> {
    first_row(ms, |m: RowModel| m == RowModel::Agent(i as int))
}

pub fn row_of_agent(rows: &Vec<SidebarRow>, agent_idx: usize) -> (r: Option<usize>)
    ensures
        r == row_with(rows::models(rows@), agent_idx),
        r matches Some(k) ==> k < rows@.len(),
{
    let ghost ms = rows::models(rows@);
    let ghost p = |m: RowModel| m == RowModel::Agent(agent_idx as int);
    let n: usize = rows.len();
    let mut i: usize = 0;
    while i < n
        invariant
            n == rows@.len(),
            ms == rows::models(rows@),
            p == (|m: RowModel| m == RowModel::Agent(agent_idx as int)),
            i <= n,
            forall|j: int| 0 <= j < i ==> !p(#[trigger] ms[j]),
        decreases n - i,
    {
        let found = match &rows[i] {
            SidebarRow::Agent(idx) => *idx == agent_idx,
            _ => false,
        };
        proof {
            assert(ms[i as int] == rows@[i as int]@);
            assert(found == p(ms[i as int]));
        }
        if found {
            proof {
                lemma_first_row(ms, p, i as int);
            }
            return Some(i);
        }
        i += 1;
    }
    proof {
        lemma_first_row(ms, p, i as int);
    }
    None
}

pub open spec fn distance(a: int, b: int) -> int {
    if a < b {
        b - a
    } else {
        a - b
    }
}

/// Among the first `k` rows, that of the agent whose index is nearest to `i`, the first of equals.
pub open spec fn nearest(ms: Seq<RowModel>, i: int, k: int) -> Option<usize>
    decreases k,
{
    if k <= 0 {
        None
    } else {
        let best = nearest(ms, i, k - 1);
        match ms[k - 1] {
            RowModel::Agent(a) => match best {
                Some(r) => if distance(a, i) < distance(ms[r as int]->Agent_0, i) {
                    Some((k - 1) as usize)
                } else {
                    best
                },
                None => Some((k - 1) as usize),
            },
            _ => best,
        }
    }
}

proof fn lemma_nearest(ms: Seq<RowModel>, i: int, k: int)
    requires
        0 <= k <= ms.len() <= usize::MAX,
    ensures
        nearest(ms, i, k) matches Some(r) ==> r < k && ms[r as int] is Agent,
        nearest(ms, i, k) is None ==> forall|j: int| 0 <= j < k ==> !((#[trigger] ms[j]) is Agent),
    decreases k,
{
    if k > 0 {
        lemma_nearest(ms, i, k - 1);
    }
}

pub fn nearest_agent_row(rows: &Vec<SidebarRow>, agent_idx: usize) -> (r: Option<usize>)
    ensures
        r == nearest(rows::models(rows@), agent_idx as int, rows@.len() as int),
        r matches Some(k) ==> k < rows@.len(),
{
    let ghost ms = rows::models(rows@);
    let n: usize = rows.len();
    let mut best: Option<usize> = None;
    let mut best_distance: usize = 0;
    let mut i: usize = 0;
    while i < n
        invariant
            n == rows@.len(),
            ms == rows::models(rows@),
            i <= n,
            best == nearest(ms, agent_idx as int, i as int),
            best matches Some(r) ==> r < i && ms[r as int] is Agent && best_distance == distance(
                ms[r as int]->Agent_0,
                agent_idx as int,
            ),
        decreases n - i,
    {
        proof {
            assert(ms[i as int] == rows@[i as int]@);
        }
        match &rows[i] {
            SidebarRow::Agent(idx) => {
                let d: usize = if *idx < agent_idx {
                    agent_idx - *idx
                } else {
                    *idx - agent_idx
                };
                if best.is_none() || d < best_distance {
                    best = Some(i);
                    best_distance = d;
                }
            },
            _ => {},
        }
        i += 1;
    }
    best
}

/// The row that a selection of agent `i` rests on: its own, or the nearest agent's where it is
/// folded away.
pub open spec fn resting_row(ms: Seq<RowModel>, i: Option<usize>) -> Option<usize> {
    match i {
        Some(i) => match row_with(ms, i) {
            Some(row) => Some(row),
            None => nearest(ms, i as int, ms.len() as int),
        },
        None => None,
    }
}

pub fn row_for(rows: &Vec<SidebarRow>, agent_idx: Option<usize>) -> (r: Option<usize>)
    ensures
        r == resting_row(rows::models(rows@), agent_idx),
        r matches Some(k) ==> k < rows@.len(),
{
    match agent_idx {
        Some(idx) => match row_of_agent(rows, idx) {
            Some(row) => Some(row),
            None => nearest_agent_row(rows, idx),
        },
        None => None,
    }
}

/// A selection is never lost while an agent is shown: the row it rests on is that of an agent.
pub proof fn law_selection_rests_on_an_agent(ms: Seq<RowModel>, i: usize)
    requires
        ms.len() <= usize::MAX,
    ensures
        match resting_row(ms, Some(i)) {
            Some(r) => r < ms.len() && ms[r as int] is Agent,
            None => forall|j: int| 0 <= j < ms.len() ==> !((#[trigger] ms[j]) is Agent),
        },
        rows::shows_agent(ms, i as int) ==> (resting_row(ms, Some(i)) matches Some(r) && ms[r as int]
            == RowModel::Agent(i as int)),
{
    let p = |m: RowModel| m == RowModel::Agent(i as int);
    lemma_first_row_of(ms, p);
    lemma_nearest(ms, i as int, ms.len() as int);
    if rows::shows_agent(ms, i as int) {
        let r = choose|r: int| 0 <= r < ms.len() && #[trigger] ms[r] == RowModel::Agent(i as int);
        assert(p(ms[r]));
    }
}

proof fn lemma_first_row_of(ms: Seq<RowModel>, p: spec_fn(RowModel) -> bool)
    requires
        ms.len() <= usize::MAX,
    ensures
        match first_row(ms, p) {
            Some(k) => k < ms.len() && p(ms[k as int]),
            None => forall|j: int| 0 <= j < ms.len() ==> !p(#[trigger] ms[j]),
        },
    decreases ms.len(),
{
    if ms.len() > 0 && !p(ms[0]) {
        let rest = ms.skip(1);
        lemma_first_row_of(rest, p);
        match first_row(rest, p) {
            Some(k) => {
                assert(rest[k as int] == ms[k as int + 1]);
            },
            None => {
                assert forall|j: int| 0 <= j < ms.len() implies !p(#[trigger] ms[j]) by {
                    if j > 0 {
                        assert(rest[j - 1] == ms[j]);
                    }
                }
            },
        }
    }
}

// ── Toggles ─────────────────────────────────────────────────────

/// The group that a row toggles, none where it is no toggle.
pub open spec fn toggled_group(m: RowModel) -> Option<Seq<char>> {
    match m {
        RowModel::StaleTail { group, .. } => Some(group),
        RowModel::StaleGroup { label, .. } => Some(label),
        _ => None,
    }
}

/// The row that toggles `group`.
pub open spec fn toggle_row(ms: Seq<RowModel>, group: Seq<char>) -> Option<usize> {
    first_row(ms, |m: RowModel| toggled_group(m) == Some(group))
}

pub fn toggle_row_of(rows: &Vec<SidebarRow>, group: &str) -> (r: Option<usize>)
    ensures
        r == toggle_row(rows::models(rows@), group@),
        r matches Some(k) ==> k < rows@.len(),
{
    let ghost ms = rows::models(rows@);
    let ghost p = |m: RowModel| toggled_group(m) == Some(group@);
    let n: usize = rows.len();
    let mut i: usize = 0;
    while i < n
        invariant
            n == rows@.len(),
            ms == rows::models(rows@),
            p == (|m: RowModel| toggled_group(m) == Some(group@)),
            i <= n,
            forall|j: int| 0 <= j < i ==> !p(#[trigger] ms[j]),
        decreases n - i,
    {
        let found = match &rows[i] {
            SidebarRow::StaleTail { group: label, .. } => text::same(label.as_str(), group),
            SidebarRow::StaleGroup { label, .. } => text::same(label.as_str(), group),
            _ => false,
        };
        proof {
            assert(ms[i as int] == rows@[i as int]@);
            assert(found == p(ms[i as int]));
        }
        if found {
            proof {
                lemma_first_row(ms, p, i as int);
            }
            return Some(i);
        }
        i += 1;
    }
    proof {
        lemma_first_row(ms, p, i as int);
    }
    None
}

pub proof fn lemma_toggle_row_is(ms: Seq<RowModel>, group: Seq<char>)
    requires
        ms.len() <= usize::MAX,
    ensures
        toggle_row(ms, group) matches Some(row) ==> toggle_at(ms, row as int) == Some(group),
{
    lemma_first_row_of(ms, |m: RowModel| toggled_group(m) == Some(group));
}

pub proof fn lemma_toggle_row(ms: Seq<RowModel>, group: Seq<char>)
    requires
        ms.len() <= usize::MAX,
        rows::offers(ms, group),
    ensures
        toggle_row(ms, group) matches Some(row) && toggle_at(ms, row as int) == Some(group),
    decreases ms.len(),
{
    let p = |m: RowModel| toggled_group(m) == Some(group);
    let r = choose|r: int| 0 <= r < ms.len() && #[trigger] toggled_group(ms[r]) == Some(group);
    if toggled_group(ms[0]) != Some(group) {
        let rest = ms.skip(1);
        assert(toggled_group(rest[r - 1]) == Some(group));
        lemma_toggle_row(rest, group);
        let row = toggle_row(rest, group)->0;
        assert(rest[row as int] == ms[row + 1]);
    }
}

/// The group that row `row` toggles.
pub open spec fn toggle_at(ms: Seq<RowModel>, row: int) -> Option<Seq<char>> {
    if 0 <= row < ms.len() {
        toggled_group(ms[row])
    } else {
        None
    }
}

pub fn toggle_of_row(rows: &Vec<SidebarRow>, row: usize) -> (r: Option<String>)
    ensures
        text::optional(r) == toggle_at(rows::models(rows@), row as int),
{
    if row < rows.len() {
        match &rows[row] {
            SidebarRow::StaleTail { group, .. } => Some(group.clone()),
            SidebarRow::StaleGroup { label, .. } => Some(label.clone()),
            _ => None,
        }
    } else {
        None
    }
}

// ── Steps ───────────────────────────────────────────────────────

/// Whether the selection can rest on a row: an agent, or a toggle that stands for folded ones.
pub open spec fn can_rest(m: RowModel) -> bool {
    m is Agent || m is StaleTail || m is StaleGroup
}

/// The rows that the selection can rest on, in order.
pub open spec fn resting_rows(ms: Seq<RowModel>) -> Seq<usize>
    decreases ms.len(),
{
    if ms.len() == 0 {
        seq![]
    } else {
        let rest = resting_rows(ms.drop_last());
        if can_rest(ms.last()) {
            rest.push((ms.len() - 1) as usize)
        } else {
            rest
        }
    }
}

proof fn lemma_resting_rows(ms: Seq<RowModel>)
    requires
        ms.len() <= usize::MAX,
    ensures
        resting_rows(ms).len() <= ms.len(),
        forall|i: int| 0 <= i < resting_rows(ms).len() ==> (#[trigger] resting_rows(ms)[i]) < ms.len() && can_rest(
            ms[resting_rows(ms)[i] as int],
        ),
        forall|i: int, j: int| 0 <= i < j < resting_rows(ms).len() ==> resting_rows(ms)[i] < resting_rows(ms)[j],
    decreases ms.len(),
{
    if ms.len() > 0 {
        lemma_resting_rows(ms.drop_last());
        let rest = resting_rows(ms.drop_last());
        let all = resting_rows(ms);
        assert forall|i: int| 0 <= i < all.len() implies (#[trigger] all[i]) < ms.len() && can_rest(
            ms[all[i] as int],
        ) by {
            if i < rest.len() {
                assert(all[i] == rest[i]);
                assert(ms.drop_last()[rest[i] as int] == ms[rest[i] as int]);
            }
        }
    }
}

pub fn selectable_rows(rows: &Vec<SidebarRow>) -> (r: Vec<usize>)
    ensures
        r@ == resting_rows(rows::models(rows@)),
{
    let ghost ms = rows::models(rows@);
    let mut r: Vec<usize> = Vec::new();
    let mut i: usize = 0;
    proof {
        assert(ms.take(0) =~= Seq::<RowModel>::empty());
    }
    while i < rows.len()
        invariant
            ms == rows::models(rows@),
            i <= rows.len(),
            r@ == resting_rows(ms.take(i as int)),
        decreases rows.len() - i,
    {
        proof {
            assert(ms.take(i + 1).drop_last() =~= ms.take(i as int));
            assert(ms.take(i + 1).last() == rows@[i as int]@);
        }
        match &rows[i] {
            SidebarRow::Agent(_) => r.push(i),
            SidebarRow::StaleTail { .. } => r.push(i),
            SidebarRow::StaleGroup { .. } => r.push(i),
            _ => {},
        }
        i += 1;
    }
    proof {
        assert(ms.take(i as int) =~= ms);
    }
    r
}

/// A step along a list of `n` places from place `at`, up or down: round the ends where it wraps,
/// up against them where it does not.
pub open spec fn stepped(n: int, at: int, down: bool, wrap: bool) -> int {
    let target = if down {
        at + 1
    } else {
        at - 1
    };
    if target < 0 {
        if wrap {
            n - 1
        } else {
            0
        }
    } else if target > n - 1 {
        if wrap {
            0
        } else {
            n - 1
        }
    } else {
        target
    }
}

/// The row that the selection steps to: the next place it can rest on, or the first such place
/// where it rested on none. Without any such place it stays.
pub open spec fn step_from(ms: Seq<RowModel>, selected: Option<usize>, down: bool, wrap: bool) -> Option<usize> {
    let list = resting_rows(ms);
    if list.len() == 0 {
        selected
    } else {
        match selected {
            Some(row) if list.contains(row) => Some(
                list[stepped(list.len() as int, list.index_of(row), down, wrap)],
            ),
            _ => Some(list[0]),
        }
    }
}

/// Steps the selection by one row that it can rest on.
pub fn step_selection(rows: &Vec<SidebarRow>, state: &mut ListState, down: bool, wrap: bool)
    ensures
        *final(state) == (ListState {
            selected: step_from(rows::models(rows@), old(state).selected, down, wrap),
            ..*old(state)
        }),
{
    let count: usize = rows.len();
    let list = selectable_rows(rows);
    if list.len() == 0 {
        return;
    }
    let ghost ms = rows::models(rows@);
    proof {
        assert(ms.len() == count);
        lemma_resting_rows(ms);
    }
    let next: usize = match state.selected {
        Some(row) => {
            let mut at: usize = 0;
            while at < list.len() && list[at] != row
                invariant
                    at <= list.len(),
                    forall|j: int| 0 <= j < at ==> list@[j] != row,
                decreases list.len() - at,
            {
                at += 1;
            }
            if at < list.len() {
                proof {
                    assert(list@.contains(row));
                    let k = list@.index_of(row);
                    assert(list@[k] == row);
                    assert(k == at);
                }
                let last: usize = list.len() - 1;
                if down {
                    if at == last {
                        if wrap {
                            0
                        } else {
                            last
                        }
                    } else {
                        at + 1
                    }
                } else if at == 0 {
                    if wrap {
                        last
                    } else {
                        0
                    }
                } else {
                    at - 1
                }
            } else {
                proof {
                    assert(!list@.contains(row));
                }
                0
            }
        },
        None => 0,
    };
    state.select(Some(list[next]));
}

/// Stepping rests on agents and toggles only: headers and rules are never selected.
pub proof fn law_steps_skip_headers(ms: Seq<RowModel>, selected: Option<usize>, down: bool, wrap: bool)
    requires
        ms.len() <= usize::MAX,
        resting_rows(ms).len() > 0,
    ensures
        step_from(ms, selected, down, wrap) matches Some(row) && row < ms.len() && can_rest(ms[row as int]),
{
    lemma_resting_rows(ms);
    let list = resting_rows(ms);
    if let Some(row) = selected {
        if list.contains(row) {
            let at = list.index_of(row);
            assert(list[at] == row);
            let next = stepped(list.len() as int, at, down, wrap);
            assert(0 <= next < list.len());
            assert(list[next] < ms.len());
        }
    }
    assert(list[0] < ms.len());
}

/// A wrapping step is undone by the step back.
pub proof fn law_steps_are_undone(ms: Seq<RowModel>, row: usize, down: bool)
    requires
        ms.len() <= usize::MAX,
        resting_rows(ms).contains(row),
    ensures
        step_from(ms, step_from(ms, Some(row), down, true), !down, true) == Some(row),
{
    lemma_resting_rows(ms);
    let list = resting_rows(ms);
    let at = list.index_of(row);
    assert(list[at] == row);
    let next = stepped(list.len() as int, at, down, true);
    assert(0 <= next < list.len());
    let other = list[next];
    assert(list.contains(other));
    let k = list.index_of(other);
    assert(list[k] == other);
    assert(k == next);
}

/// The selection after `count` wrapping steps.
pub open spec fn after_steps(ms: Seq<RowModel>, selected: Option<usize>, down: bool, count: nat) -> Option<usize>
    decreases count,
{
    if count == 0 {
        selected
    } else {
        step_from(ms, after_steps(ms, selected, down, (count - 1) as nat), down, true)
    }
}

/// The place `count` steps on from place `at`, round a list of `n` places.
spec fn round(n: int, at: int, down: bool, count: int) -> int {
    if down {
        if at + count < n {
            at + count
        } else {
            at + count - n
        }
    } else if at - count >= 0 {
        at - count
    } else {
        at - count + n
    }
}

proof fn lemma_after_steps(ms: Seq<RowModel>, at: int, down: bool, count: nat)
    requires
        ms.len() <= usize::MAX,
        0 <= at < resting_rows(ms).len(),
        count <= resting_rows(ms).len(),
    ensures
        ({
            let list = resting_rows(ms);
            let place = round(list.len() as int, at, down, count as int);
            &&& 0 <= place < list.len()
            &&& after_steps(ms, Some(list[at]), down, count) == Some(list[place])
        }),
    decreases count,
{
    let list = resting_rows(ms);
    let n = list.len() as int;
    lemma_resting_rows(ms);
    if count > 0 {
        lemma_after_steps(ms, at, down, (count - 1) as nat);
        let before = round(n, at, down, count - 1);
        let row = list[before];
        assert(list.contains(row));
        let k = list.index_of(row);
        assert(list[k] == row);
        assert(k == before);
        assert(stepped(n, before, down, true) == round(n, at, down, count as int));
    }
}

/// As many wrapping steps as there are rows to rest on visit each of these rows exactly once, and end
/// where they began.
pub proof fn law_steps_go_round(ms: Seq<RowModel>, row: usize, down: bool)
    requires
        ms.len() <= usize::MAX,
        resting_rows(ms).contains(row),
    ensures
        ({
            let n = resting_rows(ms).len();
            &&& after_steps(ms, Some(row), down, n) == Some(row)
            &&& forall|target: usize| #[trigger]
                resting_rows(ms).contains(target) ==> exists|k: nat|
                    1 <= k <= n && #[trigger] after_steps(ms, Some(row), down, k) == Some(target)
            &&& forall|j: nat, k: nat|
                1 <= j < k <= n ==> #[trigger] after_steps(ms, Some(row), down, j) != #[trigger] after_steps(
                    ms,
                    Some(row),
                    down,
                    k,
                )
        }),
{
    let list = resting_rows(ms);
    let n = list.len();
    lemma_resting_rows(ms);
    let at = list.index_of(row);
    assert(list[at] == row);
    lemma_after_steps(ms, at, down, n);
    assert forall|target: usize| #[trigger] list.contains(target) implies exists|k: nat|
        1 <= k <= n && #[trigger] after_steps(ms, Some(row), down, k) == Some(target) by {
        let t = list.index_of(target);
        assert(list[t] == target);
        let ahead = if down {
            t - at
        } else {
            at - t
        };
        let k = (if ahead > 0 {
            ahead
        } else {
            ahead + n
        }) as nat;
        lemma_after_steps(ms, at, down, k);
        assert(after_steps(ms, Some(row), down, k) == Some(target));
    }
    assert forall|j: nat, k: nat| 1 <= j < k <= n implies #[trigger] after_steps(ms, Some(row), down, j)
        != #[trigger] after_steps(ms, Some(row), down, k) by {
        lemma_after_steps(ms, at, down, j);
        lemma_after_steps(ms, at, down, k);
        let (a, b) = (round(n as int, at, down, j as int), round(n as int, at, down, k as int));
        assert(a != b);
        if a < b {
            assert(list[a] < list[b]);
        } else {
            assert(list[b] < list[a]);
        }
    }
}

/// The first row of an agent.
pub open spec fn first_agent_row(ms: Seq<RowModel>) -> Option<usize> {
    first_row(ms, |m: RowModel| m is Agent)
}

pub fn first_agent(rows: &Vec<SidebarRow>) -> (r: Option<usize>)
    ensures
        r == first_agent_row(rows::models(rows@)),
{
    let ghost ms = rows::models(rows@);
    let ghost p = |m: RowModel| m is Agent;
    let n: usize = rows.len();
    let mut i: usize = 0;
    while i < n
        invariant
            n == rows@.len(),
            ms == rows::models(rows@),
            p == (|m: RowModel| m is Agent),
            i <= n,
            forall|j: int| 0 <= j < i ==> !p(#[trigger] ms[j]),
        decreases n - i,
    {
        let found = matches!(&rows[i], SidebarRow::Agent(_));
        proof {
            assert(ms[i as int] == rows@[i as int]@);
            assert(found == p(ms[i as int]));
        }
        if found {
            proof {
                lemma_first_row(ms, p, i as int);
            }
            return Some(i);
        }
        i += 1;
    }
    proof {
        lemma_first_row(ms, p, i as int);
    }
    None
}

// ── Where steps lead ────────────────────────────────────────────

/// Whether the selection stops at a row: at agents and at toggles, never at a header or a rule.
pub open spec fn stops(ms: Seq<RowModel>, row: int) -> bool {
    0 <= row < ms.len() && !(ms[row] is Header) && !(ms[row] is Rule)
}

proof fn lemma_stops(ms: Seq<RowModel>)
    requires
        ms.len() <= usize::MAX,
    ensures
        forall|row: int| #[trigger] stops(ms, row) ==> resting_rows(ms).contains(row as usize),
        forall|k: int| 0 <= k < resting_rows(ms).len() ==> stops(ms, #[trigger] resting_rows(ms)[k] as int),
    decreases ms.len(),
{
    lemma_resting_rows(ms);
    if ms.len() > 0 {
        let front = ms.drop_last();
        lemma_stops(front);
        let all = resting_rows(ms);
        let rest = resting_rows(front);
        assert forall|row: int| #[trigger] stops(ms, row) implies all.contains(row as usize) by {
            if row < ms.len() - 1 {
                assert(stops(front, row));
                let k = choose|k: int| 0 <= k < rest.len() && rest[k] == row as usize;
                assert(all[k] == row as usize);
            } else {
                assert(all[all.len() - 1] == row as usize);
            }
        }
        assert forall|k: int| 0 <= k < all.len() implies stops(ms, #[trigger] all[k] as int) by {
            if k < rest.len() {
                assert(all[k] == rest[k]);
                assert(stops(front, rest[k] as int));
            }
        }
    }
}

/// A step leads from a row to the next one that the selection stops at, down or up, with none such
/// between. From the last one there is, a step leads round to the other end where it wraps, and
/// nowhere where it does not.
pub proof fn law_steps_lead_to_the_neighbour(ms: Seq<RowModel>, row: usize, down: bool, wrap: bool)
    requires
        ms.len() <= usize::MAX,
        stops(ms, row as int),
    ensures
        ({
            let to = step_from(ms, Some(row), down, wrap);
            let t = to->0 as int;
            let below = exists|k: int| k > row && #[trigger] stops(ms, k);
            let above = exists|k: int| k < row && #[trigger] stops(ms, k);
            &&& to is Some
            &&& stops(ms, t)
            &&& down && below ==> row < t && forall|k: int| row < k < t ==> !#[trigger] stops(ms, k)
            &&& !down && above ==> t < row && forall|k: int| t < k < row ==> !#[trigger] stops(ms, k)
            &&& down && !below && !wrap ==> t == row
            &&& !down && !above && !wrap ==> t == row
            &&& down && !below && wrap ==> forall|k: int| k < t ==> !#[trigger] stops(ms, k)
            &&& !down && !above && wrap ==> forall|k: int| k > t ==> !#[trigger] stops(ms, k)
        }),
{
    lemma_resting_rows(ms);
    lemma_stops(ms);
    let list = resting_rows(ms);
    let at = list.index_of(row);
    assert(list.contains(row));
    assert(list[at] == row);
    let n = list.len() as int;
    let next = stepped(n, at, down, wrap);
    assert(0 <= next < n);
    let t = list[next] as int;
    assert(stops(ms, t));
    assert forall|k: int| #[trigger] stops(ms, k) implies exists|j: int| 0 <= j < n && #[trigger] list[j] == k by {
        assert(list.contains(k as usize));
        let j = choose|j: int| 0 <= j < n && list[j] == k as usize;
        assert(list[j] == k);
    }
    if at + 1 < n {
        assert(stops(ms, list[at + 1] as int));
    }
    if at > 0 {
        assert(stops(ms, list[at - 1] as int));
    }
    assert forall|k: int| #[trigger] stops(ms, k) implies {
        &&& k > row ==> at + 1 < n && list[at + 1] <= k
        &&& k < row ==> at > 0 && list[at - 1] >= k
        &&& list[0] <= k <= list[n - 1]
    } by {
        let j = choose|j: int| 0 <= j < n && #[trigger] list[j] == k;
        if j < at {
            assert(list[j] < list[at]);
            if j < at - 1 {
                assert(list[j] < list[at - 1]);
            }
        }
        if j > at {
            assert(list[at] < list[j]);
            if j > at + 1 {
                assert(list[at + 1] < list[j]);
            }
        }
        if j > 0 {
            assert(list[0] < list[j]);
        }
        if j < n - 1 {
            assert(list[j] < list[n - 1]);
        }
    }
}

/// A selection that rests nowhere steps to the first row that there is to stop at. Where there is
/// none, it stays.
pub proof fn law_steps_begin_at_the_top(ms: Seq<RowModel>, selected: Option<usize>, down: bool, wrap: bool)
    requires
        ms.len() <= usize::MAX,
        selected matches Some(row) ==> !stops(ms, row as int),
    ensures
        (forall|k: int| !#[trigger] stops(ms, k)) ==> step_from(ms, selected, down, wrap) == selected,
        (exists|k: int| #[trigger] stops(ms, k)) ==> ({
            let to = step_from(ms, selected, down, wrap);
            &&& to is Some
            &&& stops(ms, to->0 as int)
            &&& forall|k: int| k < to->0 ==> !#[trigger] stops(ms, k)
        }),
{
    lemma_resting_rows(ms);
    lemma_stops(ms);
    let list = resting_rows(ms);
    if list.len() > 0 {
        assert(stops(ms, list[0] as int));
        assert forall|k: int| k < list[0] implies !#[trigger] stops(ms, k) by {
            if stops(ms, k) {
                let j = choose|j: int| 0 <= j < list.len() && list[j] == k as usize;
                if j > 0 {
                    assert(list[0] < list[j]);
                }
            }
        }
        if let Some(row) = selected {
            if list.contains(row) {
                let j = choose|j: int| 0 <= j < list.len() && list[j] == row;
                assert(stops(ms, list[j] as int));
            }
        }
    } else if exists|k: int| #[trigger] stops(ms, k) {
        let k = choose|k: int| #[trigger] stops(ms, k);
        assert(list.contains(k as usize));
    }
}

/// The last row to stop at has none behind it.
pub proof fn law_the_last_stop_is_last(ms: Seq<RowModel>)
    requires
        ms.len() <= usize::MAX,
    ensures
        resting_rows(ms).len() > 0 <==> exists|k: int| #[trigger] stops(ms, k),
        resting_rows(ms).len() > 0 ==> stops(ms, resting_rows(ms).last() as int) && forall|k: int|
            k > resting_rows(ms).last() ==> !#[trigger] stops(ms, k),
{
    lemma_resting_rows(ms);
    lemma_stops(ms);
    let list = resting_rows(ms);
    if list.len() > 0 {
        let last = list.len() - 1;
        assert(stops(ms, list[last] as int));
        assert forall|k: int| k > list[last] implies !#[trigger] stops(ms, k) by {
            if stops(ms, k) {
                let j = choose|j: int| 0 <= j < list.len() && list[j] == k as usize;
                if j < last {
                    assert(list[j] < list[last]);
                }
            }
        }
    } else if exists|k: int| #[trigger] stops(ms, k) {
        let k = choose|k: int| #[trigger] stops(ms, k);
        assert(list.contains(k as usize));
    }
}

proof fn lemma_first_of(ms: Seq<RowModel>, p: spec_fn(RowModel) -> bool)
    requires
        ms.len() <= usize::MAX,
    ensures
        first_row(ms, p) matches Some(k) ==> k < ms.len() && p(ms[k as int]) && forall|j: int|
            0 <= j < k ==> !p(#[trigger] ms[j]),
        first_row(ms, p) is None ==> forall|j: int| 0 <= j < ms.len() ==> !p(#[trigger] ms[j]),
    decreases ms.len(),
{
    if ms.len() > 0 && !p(ms[0]) {
        let rest = ms.skip(1);
        lemma_first_of(rest, p);
        assert forall|j: int| 0 < j < ms.len() implies #[trigger] ms[j] == rest[j - 1] by {}
    }
}

/// The first agent's row is an agent's, with none before it.
pub proof fn law_the_first_agent_is_first(ms: Seq<RowModel>)
    requires
        ms.len() <= usize::MAX,
    ensures
        first_agent_row(ms) matches Some(k) ==> k < ms.len() && ms[k as int] is Agent && forall|j: int|
            0 <= j < k ==> !((#[trigger] ms[j]) is Agent),
        first_agent_row(ms) is None ==> forall|j: int| 0 <= j < ms.len() ==> !((#[trigger] ms[j]) is Agent),
{
    lemma_first_of(ms, |m: RowModel| m is Agent);
}

proof fn lemma_nearest_is_nearest(ms: Seq<RowModel>, i: int, k: int)
    requires
        0 <= k <= ms.len() <= usize::MAX,
    ensures
        nearest(ms, i, k) matches Some(r) ==> r < k && ms[r as int] is Agent && forall|j: int|
            0 <= j < k && (#[trigger] ms[j]) is Agent ==> {
                let (best, a) = (ms[r as int]->Agent_0, ms[j]->Agent_0);
                &&& best - i <= a - i || best - i <= i - a
                &&& i - best <= a - i || i - best <= i - a
            },
        nearest(ms, i, k) is None ==> forall|j: int| 0 <= j < k ==> !((#[trigger] ms[j]) is Agent),
    decreases k,
{
    if k > 0 {
        lemma_nearest_is_nearest(ms, i, k - 1);
    }
}

/// A selection of an agent rests on that agent's row where there is one. Where it is folded away, it
/// rests on an agent's row, and no other agent with a row is closer by its place among the agents.
/// It rests nowhere only where no agent has a row.
pub proof fn law_selections_rest_close_by(ms: Seq<RowModel>, i: usize)
    requires
        ms.len() <= usize::MAX,
    ensures
        ({
            let row = resting_row(ms, Some(i));
            let has = exists|j: int| 0 <= j < ms.len() && #[trigger] ms[j] == RowModel::Agent(i as int);
            &&& has ==> row is Some && ms[row->0 as int] == RowModel::Agent(i as int) && forall|j: int|
                0 <= j < row->0 ==> #[trigger] ms[j] != RowModel::Agent(i as int)
            &&& row is None <==> forall|j: int| 0 <= j < ms.len() ==> !((#[trigger] ms[j]) is Agent)
            &&& row is Some ==> row->0 < ms.len() && ms[row->0 as int] is Agent && forall|j: int|
                0 <= j < ms.len() && (#[trigger] ms[j]) is Agent ==> {
                    let (best, a) = (ms[row->0 as int]->Agent_0, ms[j]->Agent_0);
                    &&& best - i <= a - i || best - i <= i - a
                    &&& i - best <= a - i || i - best <= i - a
                }
        }),
        resting_row(ms, None) is None,
{
    let p = |m: RowModel| m == RowModel::Agent(i as int);
    lemma_first_of(ms, p);
    lemma_nearest_is_nearest(ms, i as int, ms.len() as int);
    assert forall|j: int| 0 <= j < ms.len() implies p(#[trigger] ms[j]) == (ms[j] == RowModel::Agent(i as int)) by {}
}

/// A toggle is found by its group: the row folds that group, and none before it does.
pub proof fn law_toggles_are_found(ms: Seq<RowModel>, group: Seq<char>)
    requires
        ms.len() <= usize::MAX,
    ensures
        ({
            let folds = |m: RowModel|
                match m {
                    RowModel::StaleTail { group: g, .. } => g == group,
                    RowModel::StaleGroup { label: g, .. } => g == group,
                    _ => false,
                };
            &&& toggle_row(ms, group) matches Some(k) ==> k < ms.len() && folds(ms[k as int]) && forall|j: int|
                0 <= j < k ==> !folds(#[trigger] ms[j])
            &&& toggle_row(ms, group) is None ==> forall|j: int| 0 <= j < ms.len() ==> !folds(#[trigger] ms[j])
            &&& forall|j: int|
                0 <= j < ms.len() ==> (toggle_at(ms, j) == Some(group) <==> folds(#[trigger] ms[j]))
        }),
{
    let p = |m: RowModel| toggled_group(m) == Some(group);
    lemma_first_of(ms, p);
    assert forall|j: int| 0 <= j < ms.len() implies p(#[trigger] ms[j]) == (toggled_group(ms[j]) == Some(group)) by {}
}

/// Taking the selection away brings the view back to the top; moving it leaves the view where it is.
pub proof fn law_views_stay_with_the_selection(state: ListState, row: usize)
    ensures
        selecting(state, Some(row)) == (ListState { selected: Some(row), offset: state.offset }),
        selecting(state, None) == (ListState { selected: None, offset: 0 }),
{
}

/// A row leads to an agent exactly where it shows one.
pub proof fn law_rows_lead_to_their_agents(ms: Seq<RowModel>, row: int, i: int)
    requires
        0 <= row < ms.len(),
        0 <= i <= usize::MAX,
    ensures
        ms[row] == RowModel::Agent(i) ==> agent_at(ms, row) == Some(i as usize),
        !(ms[row] is Agent) ==> agent_at(ms, row) is None,
        agent_at(ms, ms.len() as int) is None && agent_at(ms, -1) is None,
{
}

} // verus!
