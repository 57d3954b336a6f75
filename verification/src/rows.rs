//! The rows of a vertical sidebar: section headers, agents, and the folds that stand for stale ones.

use vstd::prelude::*;

use crate::collections::StrSet;
use crate::selection;
use crate::text;

verus! {

/// One rendered entry of a vertical sidebar list.
///
/// Headers are presentation only: they are never selected, never counted by a jump number, and
/// never stand for an agent under the mouse.
#[derive(Debug, PartialEq, Eq)]
pub enum SidebarRow {
    Header { label: String, count: usize },
    Agent(usize),
    /// A labeled rule. Marks where the groups that hold no live work begin.
    Rule { label: String },
    /// Stands for the stale agents of a group that also holds live ones, and toggles them.
    StaleTail { group: String, count: usize, expanded: bool },
    /// Header of a group with no live agents. It doubles as the toggle for the whole group.
    StaleGroup { label: String, count: usize, expanded: bool },
}

/// A row, by its contents.
pub enum RowModel {
    Header { label: Seq<char>, count: nat },
    Agent(int),
    Rule { label: Seq<char> },
    StaleTail { group: Seq<char>, count: nat, expanded: bool },
    StaleGroup { label: Seq<char>, count: nat, expanded: bool },
}

impl View for SidebarRow {
    type V = RowModel;

    open spec fn view(&self) -> RowModel {
        match *self {
            SidebarRow::Header { label, count } => RowModel::Header { label: label@, count: count as nat },
            SidebarRow::Agent(idx) => RowModel::Agent(idx as int),
            SidebarRow::Rule { label } => RowModel::Rule { label: label@ },
            SidebarRow::StaleTail { group, count, expanded } => RowModel::StaleTail {
                group: group@,
                count: count as nat,
                expanded,
            },
            SidebarRow::StaleGroup { label, count, expanded } => RowModel::StaleGroup {
                label: label@,
                count: count as nat,
                expanded,
            },
        }
    }
}

/// The contents of a run of rows.
pub open spec fn models(rows: Seq<SidebarRow>) -> Seq<RowModel> {
    Seq::new(rows.len(), |i: int| rows[i]@)
}

/// Label of the rule above the groups that hold nothing but stale agents.
pub const STALE_RULE_LABEL: &'static str = "STALE";

/// What the rows of grouped agents are made from, each agent by its index.
pub struct RowInputs {
    pub labels: Seq<Seq<char>>,
    /// Which agents fold.
    pub folds: Seq<bool>,
    /// Labels of the groups whose folds are open.
    pub expanded: Set<Seq<char>>,
    /// The agent of the sidebar's own window.
    pub host: Option<usize>,
}

/// One past the last of the agents from `i` on that have the label `l`.
pub open spec fn run_end(labels: Seq<Seq<char>>, l: Seq<char>, i: int) -> int
    decreases labels.len() - i,
{
    if 0 <= i < labels.len() && labels[i] == l {
        run_end(labels, l, i + 1)
    } else {
        i
    }
}

/// The runs of equal labels from agent `start` on, as bounds.
pub open spec fn groups(labels: Seq<Seq<char>>, start: int) -> Seq<(int, int)>
    decreases labels.len() - start,
{
    if 0 <= start < labels.len() {
        let end = run_end(labels, labels[start], start);
        if start < end <= labels.len() {
            seq![(start, end)] + groups(labels, end)
        } else {
            seq![]
        }
    } else {
        seq![]
    }
}

/// The agents `start..end` that fold, or that do not, as rows.
pub open spec fn agent_rows(folds: Seq<bool>, which: bool, start: int, end: int) -> Seq<RowModel>
    decreases end - start,
{
    if start >= end {
        seq![]
    } else {
        let rest = agent_rows(folds, which, start, end - 1);
        if folds[end - 1] == which {
            rest.push(RowModel::Agent(end - 1))
        } else {
            rest
        }
    }
}

/// The agents `start..end` as rows.
pub open spec fn all_agent_rows(start: int, end: int) -> Seq<RowModel> {
    Seq::new((end - start) as nat, |i: int| RowModel::Agent(start + i))
}

/// Whether the agents `start..end` all fold.
pub open spec fn all_fold(folds: Seq<bool>, start: int, end: int) -> bool {
    forall|i: int| start <= i < end ==> #[trigger] folds[i]
}

/// The agent that a folded group still shows: that of the sidebar's own window, so that the
/// sidebar never hides where the user is.
pub open spec fn pinned(inputs: RowInputs, start: int, end: int) -> Option<int> {
    match inputs.host {
        Some(h) => if !inputs.expanded.contains(inputs.labels[start]) && start <= h < end && inputs.folds[h as int] {
            Some(h as int)
        } else {
            None
        },
        None => None,
    }
}

pub open spec fn pinned_row(p: Option<int>) -> Seq<RowModel> {
    match p {
        Some(i) => seq![RowModel::Agent(i)],
        None => seq![],
    }
}

/// How many agents of a group its fold stands for.
pub open spec fn folded(inputs: RowInputs, start: int, end: int) -> int {
    agent_rows(inputs.folds, true, start, end).len() - pinned_row(pinned(inputs, start, end)).len()
}

/// The rows of one group.
pub open spec fn group_rows(inputs: RowInputs, start: int, end: int) -> Seq<RowModel> {
    let label = inputs.labels[start];
    let expanded = inputs.expanded.contains(label);
    let count = (end - start) as nat;
    let shown = pinned_row(pinned(inputs, start, end));
    if all_fold(inputs.folds, start, end) {
        seq![RowModel::StaleGroup { label, count, expanded }] + (if expanded {
            all_agent_rows(start, end)
        } else {
            shown
        })
    } else {
        let hidden = folded(inputs, start, end);
        seq![RowModel::Header { label, count }] + agent_rows(inputs.folds, false, start, end) + (if hidden > 0 {
            seq![RowModel::StaleTail { group: label, count: hidden as nat, expanded }]
        } else {
            seq![]
        }) + (if expanded {
            agent_rows(inputs.folds, true, start, end)
        } else {
            shown
        })
    }
}

/// The rows of several groups, one after the other.
pub open spec fn joined_rows(inputs: RowInputs, gs: Seq<(int, int)>) -> Seq<RowModel>
    decreases gs.len(),
{
    if gs.len() == 0 {
        seq![]
    } else {
        joined_rows(inputs, gs.drop_last()) + group_rows(inputs, gs.last().0, gs.last().1)
    }
}

/// How many groups stand before the trailing run of groups that fold as a whole.
pub open spec fn live_groups(folds: Seq<bool>, gs: Seq<(int, int)>) -> nat
    decreases gs.len(),
{
    if gs.len() > 0 && all_fold(folds, gs.last().0, gs.last().1) {
        live_groups(folds, gs.drop_last())
    } else {
        gs.len()
    }
}

/// The rows of grouped agents. Where `rule` is set, a labeled rule marks where live work ends:
/// above the trailing run of groups that fold as a whole, unless those are all there is.
pub open spec fn grouped_rows(inputs: RowInputs, rule: bool) -> Seq<RowModel> {
    let gs = groups(inputs.labels, 0);
    let rows = joined_rows(inputs, gs);
    let live = live_groups(inputs.folds, gs) as int;
    let at = joined_rows(inputs, gs.take(live)).len() as int;
    if rule && live < gs.len() && at > 0 {
        rows.insert(at, RowModel::Rule { label: STALE_RULE_LABEL@ })
    } else {
        rows
    }
}

pub proof fn lemma_run_end(labels: Seq<Seq<char>>, l: Seq<char>, i: int)
    requires
        0 <= i <= labels.len(),
    ensures
        i <= run_end(labels, l, i) <= labels.len(),
        forall|j: int| i <= j < run_end(labels, l, i) ==> labels[j] == l,
        run_end(labels, l, i) < labels.len() ==> labels[run_end(labels, l, i)] != l,
    decreases labels.len() - i,
{
    if i < labels.len() && labels[i] == l {
        lemma_run_end(labels, l, i + 1);
    }
}

pub proof fn lemma_run_end_is(labels: Seq<Seq<char>>, l: Seq<char>, i: int, e: int)
    requires
        0 <= i <= e <= labels.len(),
        forall|j: int| i <= j < e ==> labels[j] == l,
        e < labels.len() ==> labels[e] != l,
    ensures
        run_end(labels, l, i) == e,
{
    lemma_run_end(labels, l, i);
    let r = run_end(labels, l, i);
    if r < e {
        assert(labels[r] == l);
    }
    if e < r {
        assert(labels[e] == l);
    }
}

proof fn lemma_agent_rows_len(folds: Seq<bool>, start: int, end: int)
    requires
        0 <= start <= end <= folds.len(),
    ensures
        agent_rows(folds, true, start, end).len() + agent_rows(folds, false, start, end).len() == end - start,
        (agent_rows(folds, true, start, end).len() == end - start) == all_fold(folds, start, end),
    decreases end - start,
{
    if start < end {
        lemma_agent_rows_len(folds, start, end - 1);
        if all_fold(folds, start, end) {
            assert(folds[end - 1]);
            assert(all_fold(folds, start, end - 1));
        }
        if agent_rows(folds, true, start, end).len() == end - start {
            assert(all_fold(folds, start, end - 1));
            assert forall|i: int| start <= i < end implies #[trigger] folds[i] by {
                if i < end - 1 {
                    assert(folds[i]);
                }
            }
        }
    }
}

proof fn lemma_pinned_counts(folds: Seq<bool>, start: int, end: int, h: int)
    requires
        0 <= start <= h < end <= folds.len(),
        folds[h],
    ensures
        agent_rows(folds, true, start, end).len() > 0,
    decreases end - start,
{
    if h < end - 1 {
        lemma_pinned_counts(folds, start, end - 1, h);
    }
}

fn push_agents(rows: &mut Vec<SidebarRow>, folds: &Vec<bool>, which: bool, start: usize, end: usize)
    requires
        start <= end <= folds.len(),
    ensures
        models(final(rows)@) == models(old(rows)@) + agent_rows(folds@, which, start as int, end as int),
{
    let mut i: usize = start;
    proof {
        assert(models(rows@) + agent_rows(folds@, which, start as int, start as int) =~= models(rows@));
    }
    while i < end
        invariant
            start <= i <= end <= folds.len(),
            models(rows@) == models(old(rows)@) + agent_rows(folds@, which, start as int, i as int),
        decreases end - i,
    {
        let ghost before = rows@;
        if folds[i] == which {
            rows.push(SidebarRow::Agent(i));
            proof {
                assert(models(rows@) =~= models(before).push(RowModel::Agent(i as int)));
            }
        }
        proof {
            assert(models(rows@) =~= models(old(rows)@) + agent_rows(folds@, which, start as int, i + 1));
        }
        i += 1;
    }
}

fn count_folds(folds: &Vec<bool>, start: usize, end: usize) -> (r: usize)
    requires
        start <= end <= folds.len(),
    ensures
        r == agent_rows(folds@, true, start as int, end as int).len(),
        r <= end - start,
{
    let mut n: usize = 0;
    let mut i: usize = start;
    while i < end
        invariant
            start <= i <= end <= folds.len(),
            n == agent_rows(folds@, true, start as int, i as int).len(),
            n <= i - start,
        decreases end - i,
    {
        if folds[i] {
            n += 1;
        }
        i += 1;
    }
    n
}

fn push_row(rows: &mut Vec<SidebarRow>, row: SidebarRow)
    ensures
        models(final(rows)@) == models(old(rows)@).push(row@),
{
    rows.push(row);
    proof {
        assert(models(rows@) =~= models(old(rows)@).push(row@));
    }
}

fn push_pinned(rows: &mut Vec<SidebarRow>, p: Option<usize>)
    ensures
        models(final(rows)@) == models(old(rows)@) + pinned_row(match p {
            Some(i) => Some(i as int),
            None => None,
        }),
{
    match p {
        Some(i) => push_row(rows, SidebarRow::Agent(i)),
        None => {},
    }
    proof {
        assert(models(rows@) =~= models(old(rows)@) + pinned_row(match p {
            Some(i) => Some(i as int),
            None => None,
        }));
    }
}

fn push_group(
    rows: &mut Vec<SidebarRow>,
    labels: &Vec<String>,
    folds: &Vec<bool>,
    expanded_groups: &StrSet,
    host: Option<usize>,
    start: usize,
    end: usize,
    Ghost(inputs): Ghost<RowInputs>,
) -> (r: bool)
    requires
        start < end <= labels.len(),
        labels.len() == folds.len(),
        inputs == (RowInputs {
            labels: text::texts(labels@),
            folds: folds@,
            expanded: expanded_groups@,
            host,
        }),
    ensures
        models(final(rows)@) == models(old(rows)@) + group_rows(inputs, start as int, end as int),
        r == all_fold(folds@, start as int, end as int),
{
    let label = labels[start].clone();
    let expanded = expanded_groups.contains(label.as_str());
    let count: usize = end - start;
    let hidden: usize = count_folds(folds, start, end);
    let pin: Option<usize> = match host {
        Some(h) => if !expanded && start <= h && h < end && folds[h] {
            Some(h)
        } else {
            None
        },
        None => None,
    };
    proof {
        lemma_agent_rows_len(folds@, start as int, end as int);
        assert(inputs.labels[start as int] == label@);
        if let Some(h) = pin {
            lemma_pinned_counts(folds@, start as int, end as int, h as int);
        }
    }
    let ghost before = models(rows@);
    if hidden == count {
        push_row(rows, SidebarRow::StaleGroup { label, count, expanded });
        if expanded {
            let ghost mid = models(rows@);
            push_agents(rows, folds, true, start, end);
            proof {
                lemma_all_rows(folds@, start as int, end as int);
            }
        } else {
            push_pinned(rows, pin);
        }
        proof {
            assert(models(rows@) =~= before + group_rows(inputs, start as int, end as int));
        }
        true
    } else {
        let tail = label.clone();
        push_row(rows, SidebarRow::Header { label, count });
        push_agents(rows, folds, false, start, end);
        let left: usize = if pin.is_some() {
            hidden - 1
        } else {
            hidden
        };
        if left > 0 {
            push_row(rows, SidebarRow::StaleTail { group: tail, count: left, expanded });
        }
        if expanded {
            push_agents(rows, folds, true, start, end);
        } else {
            push_pinned(rows, pin);
        }
        proof {
            assert(models(rows@) =~= before + group_rows(inputs, start as int, end as int));
        }
        false
    }
}

proof fn lemma_all_rows(folds: Seq<bool>, start: int, end: int)
    requires
        0 <= start <= end <= folds.len(),
        all_fold(folds, start, end),
    ensures
        agent_rows(folds, true, start, end) == all_agent_rows(start, end),
    decreases end - start,
{
    if start < end {
        assert(all_fold(folds, start, end - 1)) by {
            assert forall|i: int| start <= i < end - 1 implies #[trigger] folds[i] by {}
        }
        lemma_all_rows(folds, start, end - 1);
        assert(folds[end - 1]);
        assert(all_agent_rows(start, end) =~= all_agent_rows(start, end - 1).push(RowModel::Agent(end - 1)));
    } else {
        assert(agent_rows(folds, true, start, end) =~= all_agent_rows(start, end));
    }
}

proof fn lemma_groups_step(labels: Seq<Seq<char>>, start: int)
    requires
        0 <= start < labels.len(),
    ensures
        ({
            let end = run_end(labels, labels[start], start);
            &&& start < end <= labels.len()
            &&& groups(labels, start) == seq![(start, end)] + groups(labels, end)
        }),
{
    lemma_run_end(labels, labels[start], start);
    lemma_run_end(labels, labels[start], start + 1);
}

/// Builds the rows of grouped agents, given the label of each agent and which of them fold.
pub fn build_rows(
    labels: &Vec<String>,
    folds: &Vec<bool>,
    expanded_groups: &StrSet,
    host: Option<usize>,
    rule: bool,
) -> (rows: Vec<SidebarRow>)
    requires
        labels.len() == folds.len(),
    ensures
        models(rows@) == grouped_rows(
            (RowInputs { labels: text::texts(labels@), folds: folds@, expanded: expanded_groups@, host }),
            rule,
        ),
{
    let ghost inputs = RowInputs { labels: text::texts(labels@), folds: folds@, expanded: expanded_groups@, host };
    let ghost all = groups(inputs.labels, 0);
    let mut rows: Vec<SidebarRow> = Vec::new();
    let n: usize = labels.len();
    let mut start: usize = 0;
    // The row that the trailing run of wholly folded groups begins at, once one has begun.
    let mut tail: Option<usize> = None;
    let ghost mut done: Seq<(int, int)> = Seq::empty();
    proof {
        assert(done + groups(inputs.labels, 0) =~= all);
        assert(models(rows@) =~= joined_rows(inputs, done));
    }
    while start < n
        invariant
            n == labels.len() == folds.len(),
            inputs == (RowInputs {
                labels: text::texts(labels@),
                folds: folds@,
                expanded: expanded_groups@,
                host,
            }),
            all == groups(inputs.labels, 0),
            0 <= start <= n,
            all == done + groups(inputs.labels, start as int),
            models(rows@) == joined_rows(inputs, done),
            live_groups(inputs.folds, done) <= done.len(),
            match tail {
                Some(row) => live_groups(inputs.folds, done) < done.len() && row == joined_rows(
                    inputs,
                    done.take(live_groups(inputs.folds, done) as int),
                ).len(),
                None => live_groups(inputs.folds, done) == done.len(),
            },
        decreases n - start,
    {
        let mut end: usize = start + 1;
        while end < n && text::same(labels[end].as_str(), labels[start].as_str())
            invariant
                start < end <= n,
                n == labels.len(),
                forall|j: int| start <= j < end ==> text::texts(labels@)[j] == text::texts(labels@)[start as int],
            decreases n - end,
        {
            end += 1;
        }
        proof {
            lemma_run_end_is(inputs.labels, inputs.labels[start as int], start as int, end as int);
            lemma_groups_step(inputs.labels, start as int);
        }
        let row: usize = rows.len();
        let whole = push_group(&mut rows, labels, folds, expanded_groups, host, start, end, Ghost(inputs));
        proof {
            let g = (start as int, end as int);
            let next = done.push(g);
            assert(next.drop_last() =~= done);
            assert(all =~= next + groups(inputs.labels, end as int));
            let live0 = live_groups(inputs.folds, done) as int;
            assert(next.take(live0) =~= done.take(live0));
            assert(next.take(done.len() as int) =~= done);
            assert(row == joined_rows(inputs, done).len());
            done = next;
        }
        if whole {
            if tail.is_none() {
                tail = Some(row);
            }
        } else {
            tail = None;
        }
        start = end;
    }
    proof {
        assert(groups(inputs.labels, start as int) =~= Seq::<(int, int)>::empty());
        assert(done =~= all);
    }
    if rule {
        match tail {
            Some(row) => {
                if row > 0 {
                    let ghost before = rows@;
                    proof {
                        lemma_joined_prefix(inputs, done, live_groups(inputs.folds, done) as int);
                    }
                    rows.insert(row, SidebarRow::Rule { label: STALE_RULE_LABEL.to_owned() });
                    proof {
                        assert(models(rows@) =~= models(before).insert(
                            row as int,
                            RowModel::Rule { label: STALE_RULE_LABEL@ },
                        ));
                    }
                }
            },
            None => {},
        }
    }
    rows
}

proof fn lemma_joined_prefix(inputs: RowInputs, gs: Seq<(int, int)>, k: int)
    requires
        0 <= k <= gs.len(),
    ensures
        joined_rows(inputs, gs.take(k)).len() <= joined_rows(inputs, gs).len(),
    decreases gs.len(),
{
    if k < gs.len() {
        lemma_joined_prefix(inputs, gs.drop_last(), k);
        assert(gs.drop_last().take(k) =~= gs.take(k));
    } else {
        assert(gs.take(k) =~= gs);
    }
}

// ── Which agents the rows show ──────────────────────────────────

/// The agents of a run of rows that are among `wanted`, in row order.
pub open spec fn agents_in(rows: Seq<RowModel>, wanted: Seq<bool>) -> Seq<int>
    decreases rows.len(),
{
    if rows.len() == 0 {
        seq![]
    } else {
        let rest = agents_in(rows.drop_last(), wanted);
        match rows.last() {
            RowModel::Agent(i) => if 0 <= i < wanted.len() && wanted[i] {
                rest.push(i)
            } else {
                rest
            },
            _ => rest,
        }
    }
}

/// The indices below `k` that are `wanted`, in order.
pub open spec fn wanted_below(wanted: Seq<bool>, k: int) -> Seq<int>
    decreases k,
{
    if k <= 0 {
        seq![]
    } else {
        let rest = wanted_below(wanted, k - 1);
        if wanted[k - 1] {
            rest.push(k - 1)
        } else {
            rest
        }
    }
}

/// The indices in `start..end` that are `wanted`, in order.
spec fn wanted_in(wanted: Seq<bool>, start: int, end: int) -> Seq<int>
    decreases end - start,
{
    if start >= end {
        seq![]
    } else {
        let rest = wanted_in(wanted, start, end - 1);
        if wanted[end - 1] {
            rest.push(end - 1)
        } else {
            rest
        }
    }
}

proof fn lemma_wanted_split(wanted: Seq<bool>, start: int, end: int)
    requires
        0 <= start <= end <= wanted.len(),
    ensures
        wanted_below(wanted, end) == wanted_below(wanted, start) + wanted_in(wanted, start, end),
    decreases end - start,
{
    if start < end {
        lemma_wanted_split(wanted, start, end - 1);
    }
    assert(wanted_below(wanted, end) =~= wanted_below(wanted, start) + wanted_in(wanted, start, end));
}

proof fn lemma_agents_in_add(a: Seq<RowModel>, b: Seq<RowModel>, wanted: Seq<bool>)
    ensures
        agents_in(a + b, wanted) == agents_in(a, wanted) + agents_in(b, wanted),
    decreases b.len(),
{
    if b.len() == 0 {
        assert(a + b =~= a);
        assert(agents_in(a, wanted) + agents_in(b, wanted) =~= agents_in(a, wanted));
    } else {
        lemma_agents_in_add(a, b.drop_last(), wanted);
        assert((a + b).drop_last() =~= a + b.drop_last());
        assert((a + b).last() == b.last());
        assert(agents_in(a + b, wanted) =~= agents_in(a, wanted) + agents_in(b, wanted));
    }
}

proof fn lemma_agents_in_live(folds: Seq<bool>, wanted: Seq<bool>, start: int, end: int)
    requires
        0 <= start <= end <= folds.len(),
        folds.len() == wanted.len(),
        forall|i: int| 0 <= i < folds.len() && #[trigger] folds[i] ==> !wanted[i],
    ensures
        agents_in(agent_rows(folds, false, start, end), wanted) == wanted_in(wanted, start, end),
        agents_in(agent_rows(folds, true, start, end), wanted) == Seq::<int>::empty(),
    decreases end - start,
{
    if start < end {
        lemma_agents_in_live(folds, wanted, start, end - 1);
        let live = agent_rows(folds, false, start, end);
        let stale = agent_rows(folds, true, start, end);
        if folds[end - 1] {
            assert(stale.drop_last() =~= agent_rows(folds, true, start, end - 1));
        } else {
            assert(live.drop_last() =~= agent_rows(folds, false, start, end - 1));
        }
    }
}

proof fn lemma_agents_in_one(row: RowModel, wanted: Seq<bool>)
    ensures
        agents_in(seq![row], wanted) == (match row {
            RowModel::Agent(i) => if 0 <= i < wanted.len() && wanted[i] {
                seq![i]
            } else {
                seq![]
            },
            _ => seq![],
        }),
{
    let s = seq![row];
    assert(s.drop_last() =~= Seq::<RowModel>::empty());
    assert(agents_in(s.drop_last(), wanted) =~= Seq::<int>::empty());
    assert(s.last() == row);
}

proof fn lemma_agents_in_group(inputs: RowInputs, wanted: Seq<bool>, start: int, end: int)
    requires
        0 <= start < end <= inputs.folds.len(),
        inputs.folds.len() == wanted.len(),
        forall|i: int| 0 <= i < wanted.len() && #[trigger] inputs.folds[i] ==> !wanted[i],
    ensures
        agents_in(group_rows(inputs, start, end), wanted) == wanted_in(wanted, start, end),
{
    let folds = inputs.folds;
    let label = inputs.labels[start];
    let expanded = inputs.expanded.contains(label);
    let count = (end - start) as nat;
    let shown = pinned_row(pinned(inputs, start, end));
    lemma_agents_in_live(folds, wanted, start, end);
    assert(agents_in(shown, wanted) == Seq::<int>::empty()) by {
        if let Some(i) = pinned(inputs, start, end) {
            lemma_agents_in_one(RowModel::Agent(i), wanted);
            assert(folds[i]);
        }
    }
    if all_fold(folds, start, end) {
        let head = RowModel::StaleGroup { label, count, expanded };
        lemma_all_rows(folds, start, end);
        lemma_agents_in_one(head, wanted);
        let tail = if expanded {
            all_agent_rows(start, end)
        } else {
            shown
        };
        lemma_agents_in_add(seq![head], tail, wanted);
        lemma_none_wanted(folds, wanted, start, end);
    } else {
        let hidden = folded(inputs, start, end);
        let head = RowModel::Header { label, count };
        let fold = if hidden > 0 {
            seq![RowModel::StaleTail { group: label, count: hidden as nat, expanded }]
        } else {
            seq![]
        };
        let tail = if expanded {
            agent_rows(folds, true, start, end)
        } else {
            shown
        };
        let live = agent_rows(folds, false, start, end);
        lemma_agents_in_one(head, wanted);
        lemma_agents_in_one(RowModel::StaleTail { group: label, count: hidden as nat, expanded }, wanted);
        lemma_agents_in_add(seq![head], live, wanted);
        lemma_agents_in_add(seq![head] + live, fold, wanted);
        lemma_agents_in_add(seq![head] + live + fold, tail, wanted);
        assert(agents_in(group_rows(inputs, start, end), wanted) =~= wanted_in(wanted, start, end));
    }
}

proof fn lemma_none_wanted(folds: Seq<bool>, wanted: Seq<bool>, start: int, end: int)
    requires
        0 <= start <= end <= folds.len(),
        folds.len() == wanted.len(),
        all_fold(folds, start, end),
        forall|i: int| 0 <= i < folds.len() && #[trigger] folds[i] ==> !wanted[i],
    ensures
        wanted_in(wanted, start, end) == Seq::<int>::empty(),
    decreases end - start,
{
    if start < end {
        assert(all_fold(folds, start, end - 1)) by {
            assert forall|i: int| start <= i < end - 1 implies #[trigger] folds[i] by {}
        }
        lemma_none_wanted(folds, wanted, start, end - 1);
        assert(folds[end - 1]);
    }
}

/// Whether `gs` are bounds of neighbouring runs that begin at `start` and end at `end`.
spec fn chained(gs: Seq<(int, int)>, start: int, end: int) -> bool
    decreases gs.len(),
{
    if gs.len() == 0 {
        start == end
    } else {
        let g = gs.last();
        start <= g.0 < g.1 == end && chained(gs.drop_last(), start, g.0)
    }
}

proof fn lemma_chained_front(g: (int, int), gs: Seq<(int, int)>, end: int)
    requires
        g.0 < g.1,
        chained(gs, g.1, end),
    ensures
        chained(seq![g] + gs, g.0, end),
    decreases gs.len(),
{
    let all = seq![g] + gs;
    if gs.len() == 0 {
        assert(all.drop_last() =~= Seq::<(int, int)>::empty());
        assert(all.last() == g);
        assert(chained(Seq::<(int, int)>::empty(), g.0, g.0));
    } else {
        lemma_chained_front(g, gs.drop_last(), gs.last().0);
        assert(all.drop_last() =~= seq![g] + gs.drop_last());
        assert(all.last() == gs.last());
        lemma_chained_order(gs.drop_last(), g.1, gs.last().0);
    }
}

proof fn lemma_chained_order(gs: Seq<(int, int)>, start: int, end: int)
    requires
        chained(gs, start, end),
    ensures
        start <= end,
    decreases gs.len(),
{
    if gs.len() > 0 {
        lemma_chained_order(gs.drop_last(), start, gs.last().0);
    }
}

proof fn lemma_groups_chained(labels: Seq<Seq<char>>, start: int)
    requires
        0 <= start <= labels.len(),
    ensures
        chained(groups(labels, start), start, labels.len() as int),
    decreases labels.len() - start,
{
    if start < labels.len() {
        lemma_groups_step(labels, start);
        let end = run_end(labels, labels[start], start);
        lemma_groups_chained(labels, end);
        lemma_chained_front((start, end), groups(labels, end), labels.len() as int);
    }
}

proof fn lemma_agents_in_joined(inputs: RowInputs, wanted: Seq<bool>, gs: Seq<(int, int)>, end: int)
    requires
        chained(gs, 0, end),
        end <= wanted.len(),
        inputs.folds.len() == wanted.len(),
        forall|i: int| 0 <= i < wanted.len() && #[trigger] inputs.folds[i] ==> !wanted[i],
    ensures
        agents_in(joined_rows(inputs, gs), wanted) == wanted_below(wanted, end),
    decreases gs.len(),
{
    if gs.len() > 0 {
        let g = gs.last();
        lemma_chained_order(gs.drop_last(), 0, g.0);
        lemma_agents_in_joined(inputs, wanted, gs.drop_last(), g.0);
        lemma_agents_in_group(inputs, wanted, g.0, g.1);
        lemma_agents_in_add(joined_rows(inputs, gs.drop_last()), group_rows(inputs, g.0, g.1), wanted);
        lemma_wanted_split(wanted, g.0, g.1);
    }
}

proof fn lemma_agents_in_rule(rows: Seq<RowModel>, at: int, label: Seq<char>, wanted: Seq<bool>)
    requires
        0 <= at <= rows.len(),
    ensures
        agents_in(rows.insert(at, RowModel::Rule { label }), wanted) == agents_in(rows, wanted),
{
    let (a, b) = (rows.take(at), rows.skip(at));
    let rule = RowModel::Rule { label };
    lemma_agents_in_add(a, b, wanted);
    lemma_agents_in_add(a, seq![rule], wanted);
    lemma_agents_in_add(a + seq![rule], b, wanted);
    lemma_agents_in_one(rule, wanted);
    assert(rows =~= a + b);
    assert(rows.insert(at, rule) =~= a + seq![rule] + b);
    assert(agents_in(a, wanted) + Seq::<int>::empty() =~= agents_in(a, wanted));
}

/// Of agents that do not fold, the rows show each once, in the order of the agents.
pub proof fn law_live_agents_keep_their_order(inputs: RowInputs, rule: bool, wanted: Seq<bool>)
    requires
        inputs.labels.len() == wanted.len(),
        inputs.folds.len() == wanted.len(),
        forall|i: int| 0 <= i < wanted.len() && #[trigger] inputs.folds[i] ==> !wanted[i],
    ensures
        agents_in(grouped_rows(inputs, rule), wanted) == wanted_below(wanted, wanted.len() as int),
{
    let gs = groups(inputs.labels, 0);
    lemma_groups_chained(inputs.labels, 0);
    lemma_agents_in_joined(inputs, wanted, gs, wanted.len() as int);
    let live = live_groups(inputs.folds, gs) as int;
    lemma_live_groups(inputs.folds, gs);
    lemma_joined_prefix(inputs, gs, live);
    let at = joined_rows(inputs, gs.take(live)).len() as int;
    lemma_agents_in_rule(joined_rows(inputs, gs), at, STALE_RULE_LABEL@, wanted);
}

proof fn lemma_live_groups(folds: Seq<bool>, gs: Seq<(int, int)>)
    ensures
        live_groups(folds, gs) <= gs.len(),
    decreases gs.len(),
{
    if gs.len() > 0 && all_fold(folds, gs.last().0, gs.last().1) {
        lemma_live_groups(folds, gs.drop_last());
    }
}

/// Whether agent `i` is that of the sidebar's own window.
pub open spec fn is_host(inputs: RowInputs, i: int) -> bool {
    inputs.host matches Some(h) && h == i
}

/// Whether a row is that of agent `i`.
pub open spec fn shows_agent(rows: Seq<RowModel>, i: int) -> bool {
    exists|r: int| 0 <= r < rows.len() && #[trigger] rows[r] == RowModel::Agent(i)
}

/// Whether every agent row is that of one of `n` agents.
pub open spec fn within(rows: Seq<RowModel>, n: nat) -> bool {
    forall|r: int| 0 <= r < rows.len() ==> ((#[trigger] rows[r]) matches RowModel::Agent(i) ==> 0 <= i < n)
}

proof fn lemma_agent_rows_at(folds: Seq<bool>, which: bool, start: int, end: int)
    requires
        0 <= start <= end <= folds.len(),
    ensures
        forall|r: int|
            0 <= r < agent_rows(folds, which, start, end).len() ==> ((#[trigger] agent_rows(folds, which, start, end)[r]) matches RowModel::Agent(
                i,
            ) && start <= i < end),
        forall|i: int|
            start <= i < end && #[trigger] folds[i] == which ==> shows_agent(agent_rows(folds, which, start, end), i),
    decreases end - start,
{
    if start < end {
        lemma_agent_rows_at(folds, which, start, end - 1);
        let rest = agent_rows(folds, which, start, end - 1);
        let all = agent_rows(folds, which, start, end);
        assert forall|i: int| start <= i < end && #[trigger] folds[i] == which implies shows_agent(all, i) by {
            if i < end - 1 {
                assert(shows_agent(rest, i));
                let r = choose|r: int| 0 <= r < rest.len() && #[trigger] rest[r] == RowModel::Agent(i);
                assert(all[r] == RowModel::Agent(i));
            } else {
                assert(all[rest.len() as int] == RowModel::Agent(i));
            }
        }
    }
}

proof fn lemma_group_rows_at(inputs: RowInputs, start: int, end: int, n: nat)
    requires
        0 <= start < end <= inputs.folds.len(),
        end <= n,
    ensures
        within(group_rows(inputs, start, end), n),
        forall|i: int|
            start <= i < end && (!inputs.folds[i] || inputs.expanded.contains(inputs.labels[start]) || is_host(inputs, i)) ==> #[trigger] shows_agent(group_rows(inputs, start, end), i),
{
    let folds = inputs.folds;
    let rows = group_rows(inputs, start, end);
    let expanded = inputs.expanded.contains(inputs.labels[start]);
    lemma_agent_rows_at(folds, true, start, end);
    lemma_agent_rows_at(folds, false, start, end);
    if all_fold(folds, start, end) {
        assert forall|i: int|
            start <= i < end && (!inputs.folds[i] || expanded || is_host(inputs, i)) implies #[trigger] shows_agent(
            rows,
            i,
        ) by {
            assert(folds[i]);
            if expanded {
                assert(rows[1 + i - start] == RowModel::Agent(i));
            } else {
                assert(rows[1] == RowModel::Agent(i));
            }
        }
    } else {
        let live = agent_rows(folds, false, start, end);
        let stale = agent_rows(folds, true, start, end);
        let offset = if folded(inputs, start, end) > 0 {
            2int
        } else {
            1int
        };
        assert forall|i: int|
            start <= i < end && (!inputs.folds[i] || expanded || is_host(inputs, i)) implies #[trigger] shows_agent(
            rows,
            i,
        ) by {
            if !folds[i] {
                assert(shows_agent(live, i));
                let r = choose|r: int| 0 <= r < live.len() && #[trigger] live[r] == RowModel::Agent(i);
                assert(rows[1 + r] == RowModel::Agent(i));
            } else if expanded {
                assert(shows_agent(stale, i));
                let r = choose|r: int| 0 <= r < stale.len() && #[trigger] stale[r] == RowModel::Agent(i);
                assert(rows[offset + live.len() + r] == RowModel::Agent(i));
            } else {
                assert(rows[offset + live.len()] == RowModel::Agent(i));
            }
        }
        assert forall|r: int| 0 <= r < rows.len() implies ((#[trigger] rows[r]) matches RowModel::Agent(i) ==> 0 <= i
            < n) by {
            if 1 <= r < 1 + live.len() {
                assert(rows[r] == live[r - 1]);
            } else if r >= offset + live.len() && expanded {
                assert(rows[r] == stale[r - offset - live.len()]);
            }
        }
    }
}

proof fn lemma_joined_rows_at(inputs: RowInputs, gs: Seq<(int, int)>, end: int, n: nat)
    requires
        chained(gs, 0, end),
        end <= n,
        inputs.folds.len() == n,
        inputs.labels.len() == n,
        forall|g: int, i: int| 0 <= g < gs.len() && (#[trigger] gs[g]).0 <= i < gs[g].1 ==> (#[trigger] inputs.labels[i]) == inputs.labels[gs[g].0],
    ensures
        within(joined_rows(inputs, gs), n),
        forall|i: int|
            0 <= i < end && (!inputs.folds[i] || inputs.expanded.contains(inputs.labels[i]) || is_host(inputs, i)) ==> #[trigger] shows_agent(joined_rows(inputs, gs), i),
    decreases gs.len(),
{
    if gs.len() > 0 {
        let g = gs.last();
        let front = gs.drop_last();
        lemma_chained_order(front, 0, g.0);
        assert forall|q: int, i: int| 0 <= q < front.len() && (#[trigger] front[q]).0 <= i < front[q].1 implies (#[trigger] inputs.labels[i]) == inputs.labels[front[q].0] by {
            assert(front[q] == gs[q]);
        }
        lemma_joined_rows_at(inputs, front, g.0, n);
        lemma_group_rows_at(inputs, g.0, g.1, n);
        let a = joined_rows(inputs, front);
        let b = group_rows(inputs, g.0, g.1);
        let rows = joined_rows(inputs, gs);
        assert forall|r: int| 0 <= r < rows.len() implies ((#[trigger] rows[r]) matches RowModel::Agent(i) ==> 0 <= i
            < n) by {
            if r < a.len() {
                assert(rows[r] == a[r]);
            } else {
                assert(rows[r] == b[r - a.len()]);
            }
        }
        assert forall|i: int|
            0 <= i < end && (!inputs.folds[i] || inputs.expanded.contains(inputs.labels[i]) || is_host(inputs, i)) implies #[trigger] shows_agent(rows, i) by {
            if i < g.0 {
                assert(shows_agent(a, i));
                let r = choose|r: int| 0 <= r < a.len() && #[trigger] a[r] == RowModel::Agent(i);
                assert(rows[r] == RowModel::Agent(i));
            } else {
                assert(gs[gs.len() - 1] == g);
                assert(inputs.labels[i] == inputs.labels[g.0]);
                assert(shows_agent(b, i));
                let r = choose|r: int| 0 <= r < b.len() && #[trigger] b[r] == RowModel::Agent(i);
                assert(rows[a.len() + r] == RowModel::Agent(i));
            }
        }
    }
}

proof fn lemma_groups_labels(labels: Seq<Seq<char>>, start: int)
    requires
        0 <= start <= labels.len(),
    ensures
        forall|g: int, i: int| 0 <= g < groups(labels, start).len() && (#[trigger] groups(labels, start)[g]).0 <= i < groups(labels, start)[g].1 ==> (#[trigger] labels[i]) == labels[groups(labels, start)[g].0],
    decreases labels.len() - start,
{
    if start < labels.len() {
        lemma_groups_step(labels, start);
        let end = run_end(labels, labels[start], start);
        lemma_run_end(labels, labels[start], start);
        lemma_groups_labels(labels, end);
        let gs = groups(labels, start);
        assert forall|g: int, i: int| 0 <= g < gs.len() && (#[trigger] gs[g]).0 <= i < gs[g].1 implies (#[trigger] labels[i]) == labels[gs[g].0] by {
            if g > 0 {
                assert(gs[g] == groups(labels, end)[g - 1]);
            }
        }
    }
}

/// The rows show every agent that does not fold, every agent of an expanded group, and the agent
/// of the sidebar's own window. They show no agent that there is not.
pub proof fn law_rows_never_hide_the_host(inputs: RowInputs, rule: bool)
    requires
        inputs.labels.len() == inputs.folds.len(),
    ensures
        within(grouped_rows(inputs, rule), inputs.labels.len()),
        forall|i: int|
            0 <= i < inputs.labels.len() && (!inputs.folds[i] || inputs.expanded.contains(inputs.labels[i])
                || is_host(inputs, i)) ==> #[trigger] shows_agent(grouped_rows(inputs, rule), i),
{
    let n = inputs.labels.len();
    let gs = groups(inputs.labels, 0);
    lemma_groups_chained(inputs.labels, 0);
    lemma_groups_labels(inputs.labels, 0);
    lemma_joined_rows_at(inputs, gs, n as int, n);
    let live = live_groups(inputs.folds, gs) as int;
    lemma_live_groups(inputs.folds, gs);
    lemma_joined_prefix(inputs, gs, live);
    let at = joined_rows(inputs, gs.take(live)).len() as int;
    let plain = joined_rows(inputs, gs);
    let rows = grouped_rows(inputs, rule);
    if rows != plain {
        let rule_row = RowModel::Rule { label: STALE_RULE_LABEL@ };
        assert(rows == plain.insert(at, rule_row));
        assert forall|r: int| 0 <= r < rows.len() implies ((#[trigger] rows[r]) matches RowModel::Agent(i) ==> 0 <= i
            < n) by {
            if r < at {
                assert(rows[r] == plain[r]);
            } else if r > at {
                assert(rows[r] == plain[r - 1]);
            }
        }
        assert forall|i: int|
            0 <= i < n && (!inputs.folds[i] || inputs.expanded.contains(inputs.labels[i]) || is_host(inputs, i)) implies #[trigger] shows_agent(rows, i) by {
            assert(shows_agent(plain, i));
            let r = choose|r: int| 0 <= r < plain.len() && #[trigger] plain[r] == RowModel::Agent(i);
            if r < at {
                assert(rows[r] == RowModel::Agent(i));
            } else {
                assert(rows[r + 1] == RowModel::Agent(i));
            }
        }
    }
}

// ── One row for each agent ──────────────────────────────────────

/// The label of the group that row `r` stands under: that of the nearest header at or above it.
pub open spec fn heading(rows: Seq<RowModel>, r: int) -> Option<Seq<char>>
    decreases r + 1,
{
    if r < 0 {
        None
    } else {
        match rows[r] {
            RowModel::Header { label, .. } => Some(label),
            RowModel::StaleGroup { label, .. } => Some(label),
            _ => heading(rows, r - 1),
        }
    }
}

/// Whether an agent has a row: it does not fold, its group is expanded, or it is that of the
/// sidebar's own window.
pub open spec fn in_view(inputs: RowInputs, i: int) -> bool {
    !inputs.folds[i] || inputs.expanded.contains(inputs.labels[i]) || is_host(inputs, i)
}

/// Whether the rows of agents are those of agents in view, each under the header of its group.
pub open spec fn well_headed(rows: Seq<RowModel>, inputs: RowInputs) -> bool {
    forall|r: int|
        0 <= r < rows.len() ==> ((#[trigger] rows[r]) matches RowModel::Agent(i) ==> 0 <= i < inputs.labels.len()
            && in_view(inputs, i) && heading(rows, r) == Some(inputs.labels[i]))
}

/// Whether no agent has two rows.
pub open spec fn no_agent_twice(rows: Seq<RowModel>) -> bool {
    forall|r: int, q: int|
        0 <= r < rows.len() && 0 <= q < rows.len() && (#[trigger] rows[r]) is Agent && #[trigger] rows[q] == rows[r]
            ==> r == q
}

proof fn lemma_agent_rows_once(folds: Seq<bool>, which: bool, start: int, end: int)
    requires
        0 <= start <= end <= folds.len(),
    ensures
        no_agent_twice(agent_rows(folds, which, start, end)),
        forall|r: int|
            0 <= r < agent_rows(folds, which, start, end).len() ==> ((#[trigger] agent_rows(folds, which, start, end)[r]) matches RowModel::Agent(
                i,
            ) && start <= i < end && folds[i] == which),
    decreases end - start,
{
    if start < end {
        lemma_agent_rows_once(folds, which, start, end - 1);
        let rest = agent_rows(folds, which, start, end - 1);
        let all = agent_rows(folds, which, start, end);
        assert forall|r: int, q: int|
            0 <= r < all.len() && 0 <= q < all.len() && (#[trigger] all[r]) is Agent && #[trigger] all[q]
                == all[r] implies r == q by {
            if r < rest.len() {
                assert(all[r] == rest[r]);
            }
            if q < rest.len() {
                assert(all[q] == rest[q]);
            }
        }
        assert forall|r: int| 0 <= r < all.len() implies ((#[trigger] all[r]) matches RowModel::Agent(i) && start <= i
            < end && folds[i] == which) by {
            if r < rest.len() {
                assert(all[r] == rest[r]);
            }
        }
    }
}

proof fn lemma_heading_below(rows: Seq<RowModel>, label: Seq<char>, r: int)
    requires
        0 <= r < rows.len(),
        heading(rows, 0) == Some(label),
        forall|q: int| 0 < q < rows.len() ==> !((#[trigger] rows[q]) is Header) && !(rows[q] is StaleGroup),
    ensures
        heading(rows, r) == Some(label),
    decreases r,
{
    if r > 0 {
        lemma_heading_below(rows, label, r - 1);
        assert(!(rows[r] is Header) && !(rows[r] is StaleGroup));
    }
}

proof fn lemma_heading_add(a: Seq<RowModel>, b: Seq<RowModel>, r: int)
    requires
        0 <= r < a.len() + b.len(),
    ensures
        r < a.len() ==> heading(a + b, r) == heading(a, r),
        r >= a.len() && heading(b, r - a.len()) is Some ==> heading(a + b, r) == heading(b, r - a.len()),
    decreases r,
{
    let rows = a + b;
    if r < a.len() {
        assert(rows[r] == a[r]);
    } else {
        assert(rows[r] == b[r - a.len()]);
    }
    if r > 0 {
        lemma_heading_add(a, b, r - 1);
    }
}

proof fn lemma_group_rows_once(inputs: RowInputs, start: int, end: int)
    requires
        0 <= start < end <= inputs.folds.len(),
        inputs.labels.len() == inputs.folds.len(),
        forall|i: int| start <= i < end ==> #[trigger] inputs.labels[i] == inputs.labels[start],
    ensures
        well_headed(group_rows(inputs, start, end), inputs),
        no_agent_twice(group_rows(inputs, start, end)),
        forall|r: int|
            0 <= r < group_rows(inputs, start, end).len() ==> ((#[trigger] group_rows(inputs, start, end)[r]) matches RowModel::Agent(
                i,
            ) ==> start <= i < end),
{
    let folds = inputs.folds;
    let rows = group_rows(inputs, start, end);
    let label = inputs.labels[start];
    let expanded = inputs.expanded.contains(label);
    let live = agent_rows(folds, false, start, end);
    let stale = agent_rows(folds, true, start, end);
    lemma_agent_rows_once(folds, true, start, end);
    lemma_agent_rows_once(folds, false, start, end);
    if all_fold(folds, start, end) {
        assert forall|r: int| 0 < r < rows.len() implies (#[trigger] rows[r]) matches RowModel::Agent(i) && start <= i
            < end && in_view(inputs, i) && (expanded ==> i == start + r - 1) by {
            if expanded {
                assert(rows[r] == RowModel::Agent(start + r - 1));
                assert(inputs.labels[start + r - 1] == label);
            }
        }
        assert forall|r: int, q: int|
            0 <= r < rows.len() && 0 <= q < rows.len() && (#[trigger] rows[r]) is Agent && #[trigger] rows[q]
                == rows[r] implies r == q by {}
    } else {
        let tail = 1 + live.len() as int;
        let after = if folded(inputs, start, end) > 0 {
            tail + 1
        } else {
            tail
        };
        assert forall|r: int| 0 < r < tail implies (#[trigger] rows[r]) == live[r - 1] by {}
        assert forall|r: int| after <= r < rows.len() implies (#[trigger] rows[r]) matches RowModel::Agent(i) && start
            <= i < end && folds[i] && in_view(inputs, i) && (expanded ==> rows[r] == stale[r - after]) by {
            if expanded {
                assert(rows[r] == stale[r - after]);
                let i = stale[r - after]->Agent_0;
                assert(inputs.labels[i] == label);
            }
        }
        assert forall|r: int, q: int|
            0 <= r < rows.len() && 0 <= q < rows.len() && (#[trigger] rows[r]) is Agent && #[trigger] rows[q]
                == rows[r] implies r == q by {
            if 0 < r < tail {
                assert(rows[r] == live[r - 1]);
                if 0 < q < tail {
                    assert(rows[q] == live[q - 1]);
                }
            }
            if r >= after && q >= after && expanded {
                assert(rows[r] == stale[r - after]);
                assert(rows[q] == stale[q - after]);
            }
            if 0 < q < tail {
                assert(rows[q] == live[q - 1]);
            }
        }
    }
    assert forall|r: int| 0 <= r < rows.len() implies ((#[trigger] rows[r]) matches RowModel::Agent(i) ==> 0 <= i
        < inputs.labels.len() && in_view(inputs, i) && heading(rows, r) == Some(inputs.labels[i])) by {
        lemma_heading_below(rows, label, r);
        if let RowModel::Agent(i) = rows[r] {
            assert(inputs.labels[i] == label);
        }
    }
}

proof fn lemma_joined_rows_once(inputs: RowInputs, gs: Seq<(int, int)>, end: int)
    requires
        chained(gs, 0, end),
        end <= inputs.folds.len(),
        inputs.labels.len() == inputs.folds.len(),
        forall|g: int, i: int| 0 <= g < gs.len() && (#[trigger] gs[g]).0 <= i < gs[g].1 ==> (#[trigger] inputs.labels[i]) == inputs.labels[gs[g].0],
    ensures
        well_headed(joined_rows(inputs, gs), inputs),
        no_agent_twice(joined_rows(inputs, gs)),
        forall|r: int|
            0 <= r < joined_rows(inputs, gs).len() ==> ((#[trigger] joined_rows(inputs, gs)[r]) matches RowModel::Agent(
                i,
            ) ==> 0 <= i < end),
    decreases gs.len(),
{
    if gs.len() > 0 {
        let g = gs.last();
        let front = gs.drop_last();
        lemma_chained_order(front, 0, g.0);
        assert forall|q: int, i: int| 0 <= q < front.len() && (#[trigger] front[q]).0 <= i < front[q].1 implies (#[trigger] inputs.labels[i]) == inputs.labels[front[q].0] by {
            assert(front[q] == gs[q]);
        }
        lemma_joined_rows_once(inputs, front, g.0);
        assert(gs[gs.len() - 1] == g);
        lemma_group_rows_once(inputs, g.0, g.1);
        let a = joined_rows(inputs, front);
        let b = group_rows(inputs, g.0, g.1);
        let rows = joined_rows(inputs, gs);
        assert forall|r: int| 0 <= r < rows.len() implies ((#[trigger] rows[r]) matches RowModel::Agent(i) ==> 0 <= i
            < end && in_view(inputs, i) && heading(rows, r) == Some(inputs.labels[i])) by {
            lemma_heading_add(a, b, r);
            if r < a.len() {
                assert(rows[r] == a[r]);
            } else {
                assert(rows[r] == b[r - a.len()]);
            }
        }
        assert forall|r: int, q: int|
            0 <= r < rows.len() && 0 <= q < rows.len() && (#[trigger] rows[r]) is Agent && #[trigger] rows[q]
                == rows[r] implies r == q by {
            if r < a.len() {
                assert(rows[r] == a[r]);
            } else {
                assert(rows[r] == b[r - a.len()]);
            }
            if q < a.len() {
                assert(rows[q] == a[q]);
            } else {
                assert(rows[q] == b[q - a.len()]);
            }
        }
    }
}

proof fn lemma_heading_rule(rows: Seq<RowModel>, at: int, label: Seq<char>, r: int)
    requires
        0 <= at <= rows.len(),
        0 <= r <= rows.len(),
    ensures
        heading(rows.insert(at, RowModel::Rule { label }), r) == heading(
            rows,
            if r < at {
                r
            } else {
                r - 1
            },
        ),
    decreases r,
{
    let ruled = rows.insert(at, RowModel::Rule { label });
    if r < at {
        assert(ruled[r] == rows[r]);
    } else if r > at {
        assert(ruled[r] == rows[r - 1]);
    }
    if r > 0 {
        lemma_heading_rule(rows, at, label, r - 1);
    }
}

/// Each agent that does not fold, whose group is expanded, or that is the sidebar's own, has exactly
/// one row, under the header of its group; no other agent has one.
pub proof fn law_agents_have_one_row_in_their_group(inputs: RowInputs, rule: bool)
    requires
        inputs.labels.len() == inputs.folds.len(),
    ensures
        well_headed(grouped_rows(inputs, rule), inputs),
        no_agent_twice(grouped_rows(inputs, rule)),
        forall|i: int|
            0 <= i < inputs.labels.len() ==> #[trigger] shows_agent(grouped_rows(inputs, rule), i) == in_view(inputs, i),
{
    let n = inputs.labels.len();
    let gs = groups(inputs.labels, 0);
    lemma_groups_chained(inputs.labels, 0);
    lemma_groups_labels(inputs.labels, 0);
    lemma_joined_rows_once(inputs, gs, n as int);
    law_rows_never_hide_the_host(inputs, rule);
    let live = live_groups(inputs.folds, gs) as int;
    lemma_live_groups(inputs.folds, gs);
    lemma_joined_prefix(inputs, gs, live);
    let at = joined_rows(inputs, gs.take(live)).len() as int;
    let plain = joined_rows(inputs, gs);
    let rows = grouped_rows(inputs, rule);
    if rows != plain {
        assert(rows == plain.insert(at, RowModel::Rule { label: STALE_RULE_LABEL@ }));
        assert forall|r: int| 0 <= r < rows.len() implies ((#[trigger] rows[r]) matches RowModel::Agent(i) ==> 0 <= i
            < n && in_view(inputs, i) && heading(rows, r) == Some(inputs.labels[i])) by {
            lemma_heading_rule(plain, at, STALE_RULE_LABEL@, r);
            if r < at {
                assert(rows[r] == plain[r]);
            } else if r > at {
                assert(rows[r] == plain[r - 1]);
            }
        }
        assert forall|r: int, q: int|
            0 <= r < rows.len() && 0 <= q < rows.len() && (#[trigger] rows[r]) is Agent && #[trigger] rows[q]
                == rows[r] implies r == q by {
            let r0 = if r < at {
                r
            } else {
                r - 1
            };
            let q0 = if q < at {
                q
            } else {
                q - 1
            };
            assert(rows[r] == plain[r0]);
            assert(rows[q] == plain[q0]);
        }
    }
    assert forall|i: int| 0 <= i < n implies #[trigger] shows_agent(rows, i) == in_view(inputs, i) by {
        if shows_agent(rows, i) {
            let r = choose|r: int| 0 <= r < rows.len() && #[trigger] rows[r] == RowModel::Agent(i);
            assert(rows[r] == RowModel::Agent(i));
        }
    }
}

// ── Toggles ─────────────────────────────────────────────────────

/// Whether one of the rows toggles `group`.
pub open spec fn offers(rows: Seq<RowModel>, group: Seq<char>) -> bool {
    exists|r: int| 0 <= r < rows.len() && #[trigger] selection::toggled_group(rows[r]) == Some(group)
}

proof fn lemma_group_offers(inputs: RowInputs, wider: RowInputs, start: int, end: int, group: Seq<char>)
    requires
        0 <= start < end <= inputs.folds.len(),
        wider == (RowInputs { expanded: wider.expanded, ..inputs }),
        inputs.expanded.subset_of(wider.expanded),
        offers(group_rows(inputs, start, end), group),
    ensures
        offers(group_rows(wider, start, end), group),
{
    let folds = inputs.folds;
    let was = group_rows(inputs, start, end);
    let now = group_rows(wider, start, end);
    let r = choose|r: int| 0 <= r < was.len() && #[trigger] selection::toggled_group(was[r]) == Some(group);
    lemma_agent_rows_at(folds, true, start, end);
    lemma_agent_rows_at(folds, false, start, end);
    if all_fold(folds, start, end) {
        assert(r == 0);
        assert(selection::toggled_group(now[0]) == Some(group));
    } else {
        let live = agent_rows(folds, false, start, end);
        let stale = agent_rows(folds, true, start, end);
        let tail = 1 + live.len() as int;
        if 1 <= r < tail {
            assert(was[r] == live[r - 1]);
        }
        if folded(inputs, start, end) > 0 {
            if r > tail && inputs.expanded.contains(inputs.labels[start]) {
                assert(was[r] == stale[r - tail - 1]);
            }
        } else if r >= tail && inputs.expanded.contains(inputs.labels[start]) {
            assert(was[r] == stale[r - tail]);
        }
        assert(r == tail);
        assert(folded(wider, start, end) >= folded(inputs, start, end));
        assert(selection::toggled_group(now[tail]) == Some(group));
    }
}

proof fn lemma_joined_offer(inputs: RowInputs, wider: RowInputs, gs: Seq<(int, int)>, end: int, group: Seq<char>)
    requires
        chained(gs, 0, end),
        end <= inputs.folds.len(),
        wider == (RowInputs { expanded: wider.expanded, ..inputs }),
        inputs.expanded.subset_of(wider.expanded),
        offers(joined_rows(inputs, gs), group),
    ensures
        offers(joined_rows(wider, gs), group),
    decreases gs.len(),
{
    if gs.len() > 0 {
        let g = gs.last();
        let front = gs.drop_last();
        lemma_chained_order(front, 0, g.0);
        let (a, b) = (joined_rows(inputs, front), group_rows(inputs, g.0, g.1));
        let (c, d) = (joined_rows(wider, front), group_rows(wider, g.0, g.1));
        let rows = joined_rows(inputs, gs);
        let now = joined_rows(wider, gs);
        let r = choose|r: int| 0 <= r < rows.len() && #[trigger] selection::toggled_group(rows[r]) == Some(group);
        if r < a.len() {
            assert(selection::toggled_group(a[r]) == Some(group));
            lemma_joined_offer(inputs, wider, front, g.0, group);
            let q = choose|q: int| 0 <= q < c.len() && #[trigger] selection::toggled_group(c[q]) == Some(group);
            assert(selection::toggled_group(now[q]) == Some(group));
        } else {
            assert(selection::toggled_group(b[r - a.len()]) == Some(group));
            lemma_group_offers(inputs, wider, g.0, g.1, group);
            let q = choose|q: int| 0 <= q < d.len() && #[trigger] selection::toggled_group(d[q]) == Some(group);
            assert(selection::toggled_group(now[c.len() + q]) == Some(group));
        }
    }
}

proof fn lemma_rule_offers(inputs: RowInputs, rule: bool, group: Seq<char>)
    requires
        inputs.labels.len() == inputs.folds.len(),
    ensures
        offers(grouped_rows(inputs, rule), group) == offers(joined_rows(inputs, groups(inputs.labels, 0)), group),
{
    let gs = groups(inputs.labels, 0);
    let live = live_groups(inputs.folds, gs) as int;
    lemma_live_groups(inputs.folds, gs);
    lemma_joined_prefix(inputs, gs, live);
    let at = joined_rows(inputs, gs.take(live)).len() as int;
    let plain = joined_rows(inputs, gs);
    let rows = grouped_rows(inputs, rule);
    if rows != plain {
        assert(rows == plain.insert(at, RowModel::Rule { label: STALE_RULE_LABEL@ }));
        if offers(plain, group) {
            let r = choose|r: int| 0 <= r < plain.len() && #[trigger] selection::toggled_group(plain[r]) == Some(group);
            let q = if r < at {
                r
            } else {
                r + 1
            };
            assert(selection::toggled_group(rows[q]) == Some(group));
        }
        if offers(rows, group) {
            let r = choose|r: int| 0 <= r < rows.len() && #[trigger] selection::toggled_group(rows[r]) == Some(group);
            let q = if r < at {
                r
            } else {
                r - 1
            };
            assert(selection::toggled_group(plain[q]) == Some(group));
        }
    }
}

/// Unfolding takes no toggle away: where a row toggles a group, one still does once more groups are
/// expanded.
pub proof fn law_unfolding_keeps_the_toggles(inputs: RowInputs, wider: RowInputs, rule: bool, group: Seq<char>)
    requires
        inputs.labels.len() == inputs.folds.len(),
        wider == (RowInputs { expanded: wider.expanded, ..inputs }),
        inputs.expanded.subset_of(wider.expanded),
        offers(grouped_rows(inputs, rule), group),
    ensures
        offers(grouped_rows(wider, rule), group),
{
    lemma_groups_chained(inputs.labels, 0);
    lemma_rule_offers(inputs, rule, group);
    lemma_joined_offer(inputs, wider, groups(inputs.labels, 0), inputs.labels.len() as int, group);
    lemma_rule_offers(wider, rule, group);
}

// ── Jump numbers ────────────────────────────────────────────────

/// The number of each of `n` agents when those of `list` are numbered from zero on.
pub open spec fn numbers_of(list: Seq<int>, n: nat) -> Seq<Option<usize>>
    decreases list.len(),
{
    if list.len() == 0 {
        Seq::new(n, |i: int| None::<usize>)
    } else {
        numbers_of(list.drop_last(), n).update(list.last(), Some((list.len() - 1) as usize))
    }
}

/// Numbers the agents that the rows show and that are `wanted`, in row order.
pub fn jump_numbers(rows: &Vec<SidebarRow>, wanted: &Vec<bool>) -> (numbers: Vec<Option<usize>>)
    requires
        within(models(rows@), wanted@.len()),
    ensures
        numbers@ == numbers_of(agents_in(models(rows@), wanted@), wanted@.len()),
{
    let n: usize = wanted.len();
    let mut numbers: Vec<Option<usize>> = Vec::new();
    let mut k: usize = 0;
    while k < n
        invariant
            k <= n,
            numbers@ =~= Seq::new(k as nat, |i: int| None::<usize>),
        decreases n - k,
    {
        numbers.push(None);
        k += 1;
    }
    let mut next: usize = 0;
    let mut r: usize = 0;
    let ghost ms = models(rows@);
    proof {
        assert(agents_in(ms.take(0), wanted@) =~= Seq::<int>::empty());
    }
    while r < rows.len()
        invariant
            n == wanted@.len(),
            ms == models(rows@),
            within(ms, wanted@.len()),
            0 <= r <= rows.len(),
            next <= r,
            next == agents_in(ms.take(r as int), wanted@).len(),
            numbers@.len() == n,
            numbers@ == numbers_of(agents_in(ms.take(r as int), wanted@), n as nat),
        decreases rows.len() - r,
    {
        proof {
            assert(ms[r as int] == rows@[r as int]@);
            assert(ms.take(r + 1).drop_last() =~= ms.take(r as int));
            assert(ms.take(r + 1).last() == ms[r as int]);
        }
        match &rows[r] {
            SidebarRow::Agent(idx) => {
                let i: usize = *idx;
                if wanted[i] {
                    proof {
                        let list = agents_in(ms.take(r as int), wanted@);
                        assert(list.push(i as int).drop_last() =~= list);
                    }
                    numbers.set(i, Some(next));
                    next += 1;
                }
            },
            _ => {},
        }
        r += 1;
    }
    proof {
        assert(ms.take(r as int) =~= ms);
    }
    numbers
}

proof fn lemma_numbers_below(wanted: Seq<bool>, k: int, i: int)
    requires
        0 <= i < wanted.len(),
        0 <= k <= wanted.len(),
    ensures
        numbers_of(wanted_below(wanted, k), wanted.len()).len() == wanted.len(),
        numbers_of(wanted_below(wanted, k), wanted.len())[i] == (if i < k && wanted[i] {
            Some(wanted_below(wanted, i).len() as usize)
        } else {
            None::<usize>
        }),
    decreases k,
{
    if k > 0 {
        lemma_numbers_below(wanted, k - 1, i);
        let rest = wanted_below(wanted, k - 1);
        if wanted[k - 1] {
            assert(wanted_below(wanted, k).drop_last() =~= rest);
        }
    }
}

/// The number of an agent that is `wanted` is how many wanted agents stand before it.
pub open spec fn closed_up(wanted: Seq<bool>) -> Seq<Option<usize>> {
    Seq::new(
        wanted.len(),
        |i: int|
            if wanted[i] {
                Some(wanted_below(wanted, i).len() as usize)
            } else {
                None
            },
    )
}

/// Jump numbers close up: whatever is folded, headed or ruled, the number of an agent is how many
/// agents with a number stand before it.
pub proof fn law_jump_numbers_close_up(rows: Seq<RowModel>, wanted: Seq<bool>)
    requires
        agents_in(rows, wanted) == wanted_below(wanted, wanted.len() as int),
    ensures
        numbers_of(agents_in(rows, wanted), wanted.len()) == closed_up(wanted),
{
    assert forall|i: int| 0 <= i < wanted.len() implies numbers_of(agents_in(rows, wanted), wanted.len())[i]
        == closed_up(wanted)[i] by {
        lemma_numbers_below(wanted, wanted.len() as int, i);
    }
    if wanted.len() > 0 {
        lemma_numbers_below(wanted, wanted.len() as int, 0);
    } else {
        assert(wanted_below(wanted, 0) =~= Seq::<int>::empty());
    }
    assert(numbers_of(agents_in(rows, wanted), wanted.len()) =~= closed_up(wanted));
}

/// A flat list shows every agent once, in order.
pub proof fn lemma_flat_agents(wanted: Seq<bool>, k: int)
    requires
        0 <= k <= wanted.len(),
    ensures
        agents_in(all_agent_rows(0, k), wanted) == wanted_below(wanted, k),
    decreases k,
{
    if k > 0 {
        lemma_flat_agents(wanted, k - 1);
        assert(all_agent_rows(0, k).drop_last() =~= all_agent_rows(0, k - 1));
    }
}

/// One row per agent.
pub fn flat_rows(n: usize) -> (rows: Vec<SidebarRow>)
    ensures
        models(rows@) == all_agent_rows(0, n as int),
{
    let mut rows: Vec<SidebarRow> = Vec::new();
    let mut i: usize = 0;
    proof {
        assert(models(rows@) =~= all_agent_rows(0, 0));
    }
    while i < n
        invariant
            i <= n,
            models(rows@) == all_agent_rows(0, i as int),
        decreases n - i,
    {
        push_row(&mut rows, SidebarRow::Agent(i));
        proof {
            assert(all_agent_rows(0, i + 1) =~= all_agent_rows(0, i as int).push(RowModel::Agent(i as int)));
        }
        i += 1;
    }
    rows
}

// ── What the rows are for ───────────────────────────────────────

proof fn lemma_runs(labels: Seq<Seq<char>>, start: int)
    requires
        0 <= start <= labels.len(),
    ensures
        ({
            let gs = groups(labels, start);
            &&& start < labels.len() ==> gs.len() > 0 && gs[0].0 == start
            &&& gs.len() > 0 ==> gs.last().1 == labels.len()
            &&& forall|g: int| 0 <= g < gs.len() ==> start <= (#[trigger] gs[g]).0 < gs[g].1 <= labels.len()
            &&& forall|g: int|
                0 <= g < gs.len() - 1 ==> (#[trigger] gs[g]).1 == gs[g + 1].0 && labels[gs[g].0] != labels[gs[g + 1].0]
        }),
    decreases labels.len() - start,
{
    if start < labels.len() {
        lemma_groups_step(labels, start);
        let end = run_end(labels, labels[start], start);
        lemma_run_end(labels, labels[start], start);
        lemma_runs(labels, end);
        let gs = groups(labels, start);
        let rest = groups(labels, end);
        assert forall|g: int| 0 <= g < gs.len() implies start <= (#[trigger] gs[g]).0 < gs[g].1 <= labels.len() by {
            if g > 0 {
                assert(gs[g] == rest[g - 1]);
            }
        }
        assert forall|g: int| 0 <= g < gs.len() - 1 implies (#[trigger] gs[g]).1 == gs[g + 1].0 && labels[gs[g].0]
            != labels[gs[g + 1].0] by {
            assert(gs[g + 1] == rest[g]);
            if g > 0 {
                assert(gs[g] == rest[g - 1]);
            }
        }
    }
}

/// Agents are parted into groups wherever the label changes: the groups follow each other without a
/// gap, hold one label each, and no two neighbours hold the same.
pub proof fn law_groups_are_runs_of_a_label(labels: Seq<Seq<char>>, g: int, i: int)
    requires
        0 <= g < groups(labels, 0).len(),
        groups(labels, 0)[g].0 <= i < groups(labels, 0)[g].1,
    ensures
        ({
            let gs = groups(labels, 0);
            &&& 0 <= gs[g].0 < gs[g].1 <= labels.len()
            &&& labels[i] == labels[gs[g].0]
            &&& gs[0].0 == 0
            &&& g + 1 < gs.len() ==> gs[g].1 == gs[g + 1].0 && labels[gs[g].0] != labels[gs[g + 1].0]
            &&& g + 1 == gs.len() ==> gs[g].1 == labels.len()
        }),
{
    lemma_runs(labels, 0);
    lemma_groups_labels(labels, 0);
    let gs = groups(labels, 0);
    assert(gs[g].0 <= i);
    assert(labels[i] == labels[gs[g].0]);
}

/// The rows of a group begin with its header, which counts all of its agents. A group that still has a
/// live agent is headed plainly, and its live agents come first; a toggle below them counts those that
/// are folded. A group without any is its own toggle. A toggle is open exactly where the group is
/// expanded.
pub proof fn law_groups_are_headed(inputs: RowInputs, start: int, end: int)
    requires
        0 <= start < end <= inputs.folds.len(),
        inputs.labels.len() == inputs.folds.len(),
    ensures
        ({
            let rows = group_rows(inputs, start, end);
            let label = inputs.labels[start];
            let open = inputs.expanded.contains(label);
            let live = exists|i: int| start <= i < end && !#[trigger] inputs.folds[i];
            let shown = agent_rows(inputs.folds, false, start, end);
            let hidden = end - start - shown.len() - (if pinned(inputs, start, end) is Some {
                1int
            } else {
                0int
            });
            &&& rows.len() > 0
            &&& live ==> rows[0] == (RowModel::Header { label, count: (end - start) as nat })
            &&& !live ==> rows[0] == (RowModel::StaleGroup { label, count: (end - start) as nat, expanded: open })
            &&& live ==> rows.len() > shown.len() && rows.subrange(1, 1 + shown.len() as int) == shown
            &&& live && hidden > 0 ==> rows.len() > 1 + shown.len() && rows[1 + shown.len() as int] == (
            RowModel::StaleTail { group: label, count: hidden as nat, expanded: open })
            &&& forall|r: int|
                0 < r < rows.len() ==> !((#[trigger] rows[r]) is Header) && !(rows[r] is StaleGroup) && !(rows[r] is Rule)
        }),
{
    let rows = group_rows(inputs, start, end);
    let folds = inputs.folds;
    lemma_agent_rows_len(folds, start, end);
    lemma_agent_rows_at(folds, false, start, end);
    lemma_agent_rows_at(folds, true, start, end);
    let shown = agent_rows(folds, false, start, end);
    if !all_fold(folds, start, end) {
        assert(rows.subrange(1, 1 + shown.len() as int) =~= shown);
        let i = choose|i: int| start <= i < end && !#[trigger] folds[i];
        assert(!folds[i]);
    }
}

/// A folded group still shows the agent of the sidebar's own window; no other folded agent is picked
/// out, and none at all where the group is open.
pub proof fn law_folded_groups_show_the_host(inputs: RowInputs, start: int, end: int)
    requires
        0 <= start < end <= inputs.folds.len(),
    ensures
        match pinned(inputs, start, end) {
            Some(i) => inputs.host is Some && inputs.host->0 == i && start <= i < end && inputs.folds[i]
                && !inputs.expanded.contains(inputs.labels[start]),
            None => inputs.host is None || !(start <= inputs.host->0 < end) || !inputs.folds[inputs.host->0 as int]
                || inputs.expanded.contains(inputs.labels[start]),
        },
{
}

proof fn lemma_live_prefix(folds: Seq<bool>, gs: Seq<(int, int)>)
    ensures
        ({
            let live = live_groups(folds, gs) as int;
            &&& 0 <= live <= gs.len()
            &&& live > 0 ==> !all_fold(folds, gs[live - 1].0, gs[live - 1].1)
            &&& forall|g: int| live <= g < gs.len() ==> all_fold(folds, (#[trigger] gs[g]).0, gs[g].1)
        }),
    decreases gs.len(),
{
    if gs.len() > 0 && all_fold(folds, gs.last().0, gs.last().1) {
        let front = gs.drop_last();
        lemma_live_prefix(folds, front);
        let live = live_groups(folds, front) as int;
        assert forall|g: int| live <= g < gs.len() implies all_fold(folds, (#[trigger] gs[g]).0, gs[g].1) by {
            if g < front.len() {
                assert(front[g] == gs[g]);
            }
        }
        if live > 0 {
            assert(front[live - 1] == gs[live - 1]);
        }
    }
}

proof fn lemma_no_header_below(inputs: RowInputs, gs: Seq<(int, int)>, live: int)
    requires
        0 <= live <= gs.len(),
        forall|g: int|
            live <= g < gs.len() ==> 0 <= (#[trigger] gs[g]).0 < gs[g].1 <= inputs.folds.len() && all_fold(
                inputs.folds,
                gs[g].0,
                gs[g].1,
            ),
        inputs.labels.len() == inputs.folds.len(),
    ensures
        ({
            let at = joined_rows(inputs, gs.take(live)).len() as int;
            let rows = joined_rows(inputs, gs);
            &&& at <= rows.len()
            &&& forall|r: int| at <= r < rows.len() ==> !((#[trigger] rows[r]) is Header)
        }),
    decreases gs.len() - live,
{
    if live == gs.len() {
        assert(gs.take(live) =~= gs);
    } else {
        let front = gs.drop_last();
        assert(front.take(live) =~= gs.take(live));
        assert forall|g: int| live <= g < front.len() implies 0 <= (#[trigger] front[g]).0 < front[g].1
            <= inputs.folds.len() && all_fold(inputs.folds, front[g].0, front[g].1) by {
            assert(front[g] == gs[g]);
        }
        lemma_no_header_below(inputs, front, live);
        let g = gs[gs.len() - 1];
        law_groups_are_headed(inputs, g.0, g.1);
        let a = joined_rows(inputs, front);
        let b = group_rows(inputs, g.0, g.1);
        assert(all_fold(inputs.folds, g.0, g.1));
        let rows = joined_rows(inputs, gs);
        assert(rows == a + b);
        let at = joined_rows(inputs, gs.take(live)).len() as int;
        assert forall|r: int| at <= r < rows.len() implies !((#[trigger] rows[r]) is Header) by {
            if r < a.len() {
                assert(rows[r] == a[r]);
            } else {
                assert(rows[r] == b[r - a.len()]);
            }
        }
    }
}

/// The rule parts groups with live work from those without: below it no group has any, and above it
/// there is one that has. It is there exactly where groups of both sorts follow each other so and it is
/// asked for, and at most once.
pub proof fn law_the_rule_parts_live_from_stale(inputs: RowInputs, rule: bool)
    requires
        inputs.labels.len() == inputs.folds.len(),
    ensures
        ({
            let rows = grouped_rows(inputs, rule);
            let gs = groups(inputs.labels, 0);
            let some_live = exists|i: int| 0 <= i < inputs.folds.len() && !#[trigger] inputs.folds[i];
            let last_stale = gs.len() > 0 && all_fold(inputs.folds, gs.last().0, gs.last().1);
            let ruled = exists|r: int| 0 <= r < rows.len() && (#[trigger] rows[r]) is Rule;
            &&& ruled <==> rule && some_live && last_stale
            &&& forall|r: int, q: int|
                0 <= r < q < rows.len() && (#[trigger] rows[r]) is Rule ==> !((#[trigger] rows[q]) is Rule)
                    && !(rows[q] is Header)
        }),
{
    let gs = groups(inputs.labels, 0);
    let live = live_groups(inputs.folds, gs) as int;
    lemma_rule_place(inputs);
    let rows = joined_rows(inputs, gs);
    let at = joined_rows(inputs, gs.take(live)).len() as int;
    lemma_ruled(rows, at, STALE_RULE_LABEL@);
    if rule && live < gs.len() && at > 0 {
        assert(grouped_rows(inputs, rule) == rows.insert(at, RowModel::Rule { label: STALE_RULE_LABEL@ }));
    } else {
        assert(grouped_rows(inputs, rule) == rows);
    }
}

proof fn lemma_ruled(rows: Seq<RowModel>, at: int, label: Seq<char>)
    requires
        0 <= at <= rows.len(),
        forall|r: int| 0 <= r < rows.len() ==> !((#[trigger] rows[r]) is Rule),
        forall|r: int| at <= r < rows.len() ==> !((#[trigger] rows[r]) is Header),
    ensures
        ({
            let all = rows.insert(at, RowModel::Rule { label });
            &&& exists|r: int| 0 <= r < all.len() && (#[trigger] all[r]) is Rule
            &&& forall|r: int, q: int|
                0 <= r < q < all.len() && (#[trigger] all[r]) is Rule ==> !((#[trigger] all[q]) is Rule)
                    && !(all[q] is Header)
        }),
{
    let all = rows.insert(at, RowModel::Rule { label });
    assert(all[at] is Rule);
    assert forall|r: int, q: int| 0 <= r < q < all.len() && (#[trigger] all[r]) is Rule implies !((#[trigger] all[q]) is Rule)
        && !(all[q] is Header) by {
        if r < at {
            assert(all[r] == rows[r]);
        } else if r > at {
            assert(all[r] == rows[r - 1]);
        }
        assert(r == at);
        assert(all[q] == rows[q - 1]);
    }
}

proof fn lemma_rule_place(inputs: RowInputs)
    requires
        inputs.labels.len() == inputs.folds.len(),
    ensures
        ({
            let gs = groups(inputs.labels, 0);
            let live = live_groups(inputs.folds, gs) as int;
            let rows = joined_rows(inputs, gs);
            let at = joined_rows(inputs, gs.take(live)).len() as int;
            let some_live = exists|i: int| 0 <= i < inputs.folds.len() && !#[trigger] inputs.folds[i];
            let last_stale = gs.len() > 0 && all_fold(inputs.folds, gs.last().0, gs.last().1);
            &&& 0 <= at <= rows.len()
            &&& at > 0 <==> some_live
            &&& live < gs.len() <==> last_stale
            &&& forall|r: int| 0 <= r < rows.len() ==> !((#[trigger] rows[r]) is Rule)
            &&& forall|r: int| at <= r < rows.len() ==> !((#[trigger] rows[r]) is Header)
        }),
{
    let gs = groups(inputs.labels, 0);
    let folds = inputs.folds;
    let live = live_groups(folds, gs) as int;
    lemma_live_prefix(folds, gs);
    lemma_runs(inputs.labels, 0);
    lemma_no_rule(inputs, gs);
    assert forall|g: int| live <= g < gs.len() implies 0 <= (#[trigger] gs[g]).0 < gs[g].1 <= folds.len() && all_fold(
        folds,
        gs[g].0,
        gs[g].1,
    ) by {}
    lemma_no_header_below(inputs, gs, live);
    if live > 0 {
        let g = gs[live - 1];
        let i = choose|i: int| g.0 <= i < g.1 && !#[trigger] folds[i];
        assert(!folds[i]);
        law_groups_are_headed(inputs, g.0, g.1);
        assert(gs.take(live).last() == g);
    } else {
        assert(gs.take(0) =~= Seq::empty());
        assert forall|i: int| 0 <= i < folds.len() implies #[trigger] folds[i] by {
            lemma_in_some_group(inputs.labels, 0, i);
            let g = choose|g: int| 0 <= g < gs.len() && (#[trigger] gs[g]).0 <= i < gs[g].1;
            assert(all_fold(folds, gs[g].0, gs[g].1));
        }
    }
    if gs.len() > 0 {
        assert(gs[gs.len() - 1] == gs.last());
    }
}

proof fn lemma_in_some_group(labels: Seq<Seq<char>>, start: int, i: int)
    requires
        0 <= start <= i < labels.len(),
    ensures
        exists|g: int|
            0 <= g < groups(labels, start).len() && (#[trigger] groups(labels, start)[g]).0 <= i < groups(
                labels,
                start,
            )[g].1,
    decreases labels.len() - start,
{
    lemma_groups_step(labels, start);
    let end = run_end(labels, labels[start], start);
    let gs = groups(labels, start);
    let rest = groups(labels, end);
    if i < end {
        assert(gs[0].0 <= i < gs[0].1);
    } else {
        lemma_in_some_group(labels, end, i);
        let g = choose|g: int| 0 <= g < rest.len() && (#[trigger] rest[g]).0 <= i < rest[g].1;
        assert(gs[g + 1] == rest[g]);
    }
}

proof fn lemma_no_rule(inputs: RowInputs, gs: Seq<(int, int)>)
    requires
        inputs.labels.len() == inputs.folds.len(),
        forall|g: int| 0 <= g < gs.len() ==> 0 <= (#[trigger] gs[g]).0 < gs[g].1 <= inputs.folds.len(),
    ensures
        forall|r: int| 0 <= r < joined_rows(inputs, gs).len() ==> !((#[trigger] joined_rows(inputs, gs)[r]) is Rule),
    decreases gs.len(),
{
    if gs.len() > 0 {
        let front = gs.drop_last();
        assert forall|g: int| 0 <= g < front.len() implies 0 <= (#[trigger] front[g]).0 < front[g].1
            <= inputs.folds.len() by {
            assert(front[g] == gs[g]);
        }
        lemma_no_rule(inputs, front);
        let g = gs[gs.len() - 1];
        law_groups_are_headed(inputs, g.0, g.1);
        let a = joined_rows(inputs, front);
        let b = group_rows(inputs, g.0, g.1);
        assert forall|r: int| 0 <= r < joined_rows(inputs, gs).len() implies !((#[trigger] joined_rows(inputs, gs)[r]) is Rule) by {
            if r < a.len() {
                assert(joined_rows(inputs, gs)[r] == a[r]);
            } else {
                assert(joined_rows(inputs, gs)[r] == b[r - a.len()]);
            }
        }
    }
}

proof fn lemma_none_between(wanted: Seq<bool>, from: int, to: int)
    requires
        0 <= from <= to <= wanted.len(),
        forall|k: int| from <= k < to ==> !#[trigger] wanted[k],
    ensures
        wanted_below(wanted, to) == wanted_below(wanted, from),
    decreases to,
{
    if from < to {
        lemma_none_between(wanted, from, to - 1);
        assert(!wanted[to - 1]);
    }
}

proof fn lemma_wanted_len(wanted: Seq<bool>, k: int)
    requires
        0 <= k <= wanted.len(),
    ensures
        wanted_below(wanted, k).len() <= k,
    decreases k,
{
    if k > 0 {
        lemma_wanted_len(wanted, k - 1);
    }
}

/// Agents that answer to a number are numbered from zero without a gap: the first of them has none, and
/// each one more than the one before it. All others have no number.
pub proof fn law_numbers_count_up(wanted: Seq<bool>, i: int, j: int)
    requires
        0 <= i < j < wanted.len() <= usize::MAX,
        wanted[j],
        forall|k: int| i < k < j ==> !#[trigger] wanted[k],
    ensures
        wanted[i] ==> closed_up(wanted)[i] is Some && closed_up(wanted)[j] is Some && closed_up(wanted)[j]->0
            == closed_up(wanted)[i]->0 + 1,
        !wanted[i] ==> closed_up(wanted)[i] is None,
        i == 0 && !wanted[i] ==> closed_up(wanted)[j] == Some(0usize),
        i == 0 && wanted[i] ==> closed_up(wanted)[i] == Some(0usize),
{
    lemma_none_between(wanted, i + 1, j);
    lemma_wanted_len(wanted, i);
    lemma_wanted_len(wanted, j);
    if i == 0 {
        assert(wanted_below(wanted, 0).len() == 0);
    }
}

} // verus!
