//! What lies under the mouse, what stays in view, and when to draw again.

use vstd::prelude::*;

use crate::app::{HitBox, SidebarApp, SidebarLayoutMode};
use crate::collections::{StrMap, StrSet};
use crate::model::{AgentPane, AgentStatus, CheckState, CheckSummary, SidebarGroupBy, SidebarPosition};
use crate::rows;
use crate::selection;
use crate::snapshot;
use crate::text;

verus! {

/// The height of tile row `row` when it was last drawn, three lines where that is unknown.
pub open spec fn tile_height(heights: Seq<usize>, row: int) -> nat {
    if 0 <= row < heights.len() {
        heights[row] as nat
    } else {
        3
    }
}

/// The row at line `line`, counted from the first line of row `row`.
pub open spec fn tile_row_at(heights: Seq<usize>, n: int, row: int, line: int) -> Option<usize>
    decreases n - row,
{
    if row >= n {
        None
    } else if line < tile_height(heights, row) {
        Some(row as usize)
    } else {
        tile_row_at(heights, n, row + 1, line - tile_height(heights, row))
    }
}

/// The first item of the top bar that covers `column`.
pub open spec fn item_at(boxes: Seq<HitBox>, column: u16, k: int) -> Option<usize>
    decreases boxes.len() - k,
{
    if k < 0 || k >= boxes.len() {
        None
    } else if boxes[k].x_start <= column < boxes[k].x_end {
        Some(boxes[k].idx)
    } else {
        item_at(boxes, column, k + 1)
    }
}

fn item_under(boxes: &Vec<HitBox>, column: u16) -> (r: Option<usize>)
    ensures
        r == item_at(boxes@, column, 0),
{
    let mut k: usize = 0;
    while k < boxes.len()
        invariant
            k <= boxes@.len(),
            item_at(boxes@, column, 0) == item_at(boxes@, column, k as int),
        decreases boxes@.len() - k,
    {
        let hit = boxes[k];
        if column >= hit.x_start && column < hit.x_end {
            return Some(hit.idx);
        }
        k += 1;
    }
    None
}

fn tile_under(heights: &Vec<usize>, n: usize, offset: usize, line: usize) -> (r: Option<usize>)
    ensures
        r == tile_row_at(heights@, n as int, offset as int, line as int),
{
    let mut at: usize = offset;
    let mut left: usize = line;
    while at < n
        invariant
            tile_row_at(heights@, n as int, offset as int, line as int) == tile_row_at(
                heights@,
                n as int,
                at as int,
                left as int,
            ),
        decreases n - at,
    {
        let h: usize = if at < heights.len() {
            heights[at]
        } else {
            3
        };
        if left < h {
            return Some(at);
        }
        left = left - h;
        at += 1;
    }
    None
}

impl SidebarApp {
    /// The presentation row under the mouse, where it is over the list.
    pub open spec fn row_at(&self, column: u16, row: u16) -> Option<usize> {
        let area = self.list_area;
        let line = row - area.y;
        if self.agents@.len() == 0 || row < area.y || row >= area.y + area.height {
            None
        } else if self.position == SidebarPosition::Top {
            item_at(self.horizontal_hitboxes@, column, 0)
        } else {
            match self.layout_mode {
                SidebarLayoutMode::Compact => {
                    let at = self.list_state.offset + line;
                    if at < self.rows@.len() {
                        Some(at as usize)
                    } else {
                        None
                    }
                },
                SidebarLayoutMode::Tiles => tile_row_at(
                    self.tile_heights@,
                    self.rows@.len() as int,
                    self.list_state.offset as int,
                    line,
                ),
            }
        }
    }

    fn hit_test_row(&self, column: u16, row: u16) -> (r: Option<usize>)
        ensures
            r == self.row_at(column, row),
    {
        let area = self.list_area;
        if self.agents.len() == 0 || row < area.y || row as u32 >= area.y as u32 + area.height as u32 {
            return None;
        }
        if matches!(self.position, SidebarPosition::Top) {
            return item_under(&self.horizontal_hitboxes, column);
        }
        let line: usize = (row - area.y) as usize;
        let offset: usize = self.list_state.offset;
        let n: usize = self.rows.len();
        match self.layout_mode {
            SidebarLayoutMode::Compact => if offset < n && line < n - offset {
                Some(offset + line)
            } else {
                None
            },
            SidebarLayoutMode::Tiles => tile_under(&self.tile_heights, n, offset, line),
        }
    }

    /// The agent under the mouse.
    pub fn hit_test(&self, column: u16, row: u16) -> (r: Option<usize>)
        ensures
            r == (match self.row_at(column, row) {
                Some(at) => selection::agent_at(rows::models(self.rows@), at as int),
                None => None,
            }),
    {
        match self.hit_test_row(column, row) {
            Some(at) => self.agent_of_row(at),
            None => None,
        }
    }

    /// The group whose toggle lies under the mouse.
    pub fn hit_test_toggle(&self, column: u16, row: u16) -> (r: Option<String>)
        ensures
            text::optional(r) == (match self.row_at(column, row) {
                Some(at) => selection::toggle_at(rows::models(self.rows@), at as int),
                None => None,
            }),
    {
        match self.hit_test_row(column, row) {
            Some(at) => selection::toggle_of_row(&self.rows, at),
            None => None,
        }
    }

    /// Scrolls the top bar so that the selected item is among the `visible_count` drawn.
    pub fn ensure_selected_visible(&mut self, visible_count: usize)
        ensures
            *final(self) == (SidebarApp {
                first_visible_agent_idx: scrolled(
                    old(self).first_visible_agent_idx,
                    old(self).list_state.selected,
                    visible_count,
                ),
                ..*old(self)
            }),
    {
        match self.list_state.selected {
            Some(selected) => {
                let first: usize = self.first_visible_agent_idx;
                if selected < first {
                    self.first_visible_agent_idx = selected;
                } else if visible_count > 0 && selected - first >= visible_count {
                    self.first_visible_agent_idx = selected - visible_count + 1;
                }
            },
            None => {},
        }
    }

    /// Advances the spinner.
    pub fn tick(&mut self)
        ensures
            *final(self) == (SidebarApp {
                spinner_frame: ((if old(self).spinner_frame == 255 {
                    0
                } else {
                    old(self).spinner_frame + 1
                }) % 10) as u8,
                ..*old(self)
            }),
    {
        self.spinner_frame = self.spinner_frame.wrapping_add(1) % 10;
    }
}

/// Headers and rules are presentation only: under the mouse they stand for no agent and toggle
/// nothing, and no row does both.
pub proof fn law_headers_are_not_hit(app: SidebarApp, column: u16, row: u16, at: usize)
    requires
        app.row_at(column, row) == Some(at),
    ensures
        selection::agent_at(rows::models(app.rows@), at as int) is Some ==> rows::models(app.rows@)[at as int] is Agent,
        selection::toggle_at(rows::models(app.rows@), at as int) is Some ==> rows::models(app.rows@)[at as int] is StaleTail
            || rows::models(app.rows@)[at as int] is StaleGroup,
{
}

/// The first item to draw so that the selected one is in view.
pub open spec fn scrolled(first: usize, selected: Option<usize>, count: usize) -> usize {
    match selected {
        Some(s) => if s < first {
            s
        } else if count > 0 && s >= first + count {
            (s + 1 - count) as usize
        } else {
            first
        },
        None => first,
    }
}

/// Scrolling brings the selected item into view and moves no further than it must.
pub proof fn law_scrolling_shows_the_selection(first: usize, s: usize, count: usize)
    requires
        count > 0,
    ensures
        ({
            let now = scrolled(first, Some(s), count);
            &&& now <= s < now + count
            &&& first <= s < first + count ==> now == first
        }),
{
}

// ── Drawing again ───────────────────────────────────────────────

/// Milliseconds between frames of something that moves.
pub const ANIMATION_INTERVAL_MS: u64 = 250;

/// Milliseconds between frames of an elapsed time.
pub const ELAPSED_INTERVAL_MS: u64 = 1000;

/// Whether something moves: the loading spinner, a working agent without an icon of its own, or
/// checks that are pending.
pub open spec fn animated(app: SidebarApp) -> bool {
    ||| !app.has_loaded_snapshot
    ||| app.status_icons.working is None && exists|i: int|
        0 <= i < app.agents@.len() && (#[trigger] app.agents@[i]).status == Some(AgentStatus::Working)
    ||| exists|k: Seq<char>|
        app.check_statuses@.dom().contains(k) && (#[trigger] app.check_statuses@[k]).state is Pending
}

/// Whether a row shows an elapsed time.
pub open spec fn shows_time(agents: Seq<AgentPane>) -> bool {
    exists|i: int| 0 <= i < agents.len() && (#[trigger] agents[i]).status_ts is Some
}

fn any_working(agents: &Vec<AgentPane>) -> (r: bool)
    ensures
        r == exists|i: int|
            0 <= i < agents@.len() && (#[trigger] agents@[i]).status == Some(AgentStatus::Working),
{
    let mut i: usize = 0;
    while i < agents.len()
        invariant
            i <= agents.len(),
            forall|j: int| 0 <= j < i ==> (#[trigger] agents@[j]).status != Some(AgentStatus::Working),
        decreases agents.len() - i,
    {
        if matches!(agents[i].status, Some(AgentStatus::Working)) {
            return true;
        }
        i += 1;
    }
    false
}

fn any_pending(checks: &StrMap<CheckSummary>) -> (r: bool)
    ensures
        r == exists|k: Seq<char>| checks@.dom().contains(k) && (#[trigger] checks@[k]).state is Pending,
{
    let mut i: usize = 0;
    let n: usize = checks.len();
    while i < n
        invariant
            n == checks.keys().len(),
            i <= n,
            forall|j: int| 0 <= j < i ==> !(checks@[#[trigger] checks.keys()[j]].state is Pending),
        decreases n - i,
    {
        let key = checks.key_at(i);
        let summary = checks.value_at(i);
        if matches!(summary.state, CheckState::Pending { .. }) {
            proof {
                assert(checks@.dom().contains(key@) && checks@[key@].state is Pending);
            }
            return true;
        }
        i += 1;
    }
    proof {
        checks.lemma_keys();
        assert forall|k: Seq<char>| checks@.dom().contains(k) implies !((#[trigger] checks@[k]).state is Pending) by {
            assert(checks.keys().contains(k));
            let j = choose|j: int| 0 <= j < checks.keys().len() && checks.keys()[j] == k;
            assert(!(checks@[checks.keys()[j]].state is Pending));
        }
    }
    false
}

fn any_timestamp(agents: &Vec<AgentPane>) -> (r: bool)
    ensures
        r == shows_time(agents@),
{
    let mut i: usize = 0;
    while i < agents.len()
        invariant
            i <= agents.len(),
            forall|j: int| 0 <= j < i ==> (#[trigger] agents@[j]).status_ts is None,
        decreases agents.len() - i,
    {
        if agents[i].status_ts.is_some() {
            return true;
        }
        i += 1;
    }
    false
}

impl SidebarApp {
    /// Milliseconds after which the sidebar should be drawn again, `None` where nothing on it
    /// changes by itself.
    pub fn refresh_interval(&self) -> (r: Option<u64>)
        ensures
            r == (if animated(*self) {
                Some(ANIMATION_INTERVAL_MS)
            } else if shows_time(self.agents@) {
                Some(ELAPSED_INTERVAL_MS)
            } else {
                None
            }),
    {
        if !self.has_loaded_snapshot || (self.status_icons.working.is_none() && any_working(&self.agents)) || any_pending(
            &self.check_statuses,
        ) {
            Some(ANIMATION_INTERVAL_MS)
        } else if any_timestamp(&self.agents) {
            Some(ELAPSED_INTERVAL_MS)
        } else {
            None
        }
    }
}

// ── The grouping hint ───────────────────────────────────────────

/// The projects of agents, by the labels of their groups.
pub open spec fn projects(agents: Seq<AgentPane>) -> Set<Seq<char>> {
    Set::new(
        |k: Seq<char>|
            exists|i: int|
                0 <= i < agents.len() && snapshot::label(#[trigger] agents[i], SidebarGroupBy::Project) == k,
    )
}

/// Whether the grouping hint is offered: while it is on offer, where there is more than one
/// project to group, not in the top bar, and not over a template failure.
pub open spec fn hint_shown(app: SidebarApp) -> bool {
    app.hint_pending && app.position != SidebarPosition::Top && app.template_error is None && projects(
        app.agents@,
    ).len() > 1
}

impl SidebarApp {
    fn distinct_projects(&self) -> (r: usize)
        ensures
            projects(self.agents@).finite(),
            r == projects(self.agents@).len(),
    {
        let mode = SidebarGroupBy::Project;
        let mut set = StrSet::new();
        let mut i: usize = 0;
        while i < self.agents.len()
            invariant
                mode == SidebarGroupBy::Project,
                i <= self.agents.len(),
                forall|k: Seq<char>| #[trigger]
                    set@.contains(k) <==> exists|j: int|
                        0 <= j < i && snapshot::label(#[trigger] self.agents@[j], mode) == k,
            decreases self.agents.len() - i,
        {
            let ghost before = set@;
            set.insert(snapshot::group_label(&self.agents[i], mode));
            proof {
                assert forall|k: Seq<char>| #[trigger]
                    set@.contains(k) <==> exists|j: int|
                        0 <= j < i + 1 && snapshot::label(#[trigger] self.agents@[j], mode) == k by {
                    if before.contains(k) {
                        let j = choose|j: int| 0 <= j < i && snapshot::label(#[trigger] self.agents@[j], mode) == k;
                        assert(snapshot::label(self.agents@[j], mode) == k);
                    }
                    if snapshot::label(self.agents@[i as int], mode) == k {
                        assert(set@.contains(k));
                    }
                }
            }
            i += 1;
        }
        proof {
            assert(set@ =~= projects(self.agents@));
        }
        set.len()
    }

    pub fn show_hint(&self) -> (r: bool)
        ensures
            r == hint_shown(*self),
    {
        self.hint_pending && !matches!(self.position, SidebarPosition::Top) && self.template_error.is_none()
            && self.distinct_projects() > 1
    }

    /// Takes the hint down once the user answered it. Returns whether that is to be recorded.
    pub fn dismiss_hint(&mut self) -> (r: bool)
        ensures
            r == old(self).hint_pending,
            *final(self) == (SidebarApp { hint_pending: false, ..*old(self) }),
    {
        let was = self.hint_pending;
        self.hint_pending = false;
        was
    }
}

/// How long the grouping hint stays on offer, in seconds: a fortnight.
pub const HINT_LIFETIME_SECS: u64 = 1_209_600;

/// What is recorded of the hint, for every sidebar.
#[derive(Debug)]
pub struct HintRecord {
    pub version: Option<String>,
    pub since: Option<u64>,
    pub dismissed: bool,
}

/// Whether the hint is on offer: a new version offers it afresh; otherwise it is until it was
/// answered or has been left alone for its lifetime.
pub open spec fn hint_offered(record: HintRecord, version: Seq<char>, now: u64) -> bool {
    if text::optional(record.version) != Some(version) {
        true
    } else {
        !record.dismissed && (record.since matches Some(since) && now - since < HINT_LIFETIME_SECS)
    }
}

/// Decides whether this sidebar still offers the grouping hint. For a version that was not
/// recorded yet, gives the record to keep.
pub fn claim_hint_for_this_version(record: &HintRecord, version: &str, now: u64) -> (r: (bool, Option<HintRecord>))
    ensures
        r.0 == hint_offered(*record, version@, now),
        r.1 is Some == (text::optional(record.version) != Some(version@)),
        r.1 matches Some(new) ==> text::optional(new.version) == Some(version@) && new.since == Some(now)
            && !new.dismissed,
{
    let known = match &record.version {
        Some(v) => text::same(v.as_str(), version),
        None => false,
    };
    if !known {
        return (true, Some(HintRecord { version: Some(version.to_owned()), since: Some(now), dismissed: false }));
    }
    let offered = !record.dismissed && match record.since {
        Some(since) => now.saturating_sub(since) < HINT_LIFETIME_SECS,
        None => false,
    };
    (offered, None)
}

// ── What lies where ─────────────────────────────────────────────

/// The lines that the tiles from `from` to before `to` take.
pub open spec fn lines_between(heights: Seq<usize>, from: int, to: int) -> nat
    decreases to - from,
{
    if from >= to {
        0
    } else {
        tile_height(heights, from) + lines_between(heights, from + 1, to)
    }
}

/// A line belongs to the tile whose lines it lies among, counted from the first tile in view: the tiles
/// before it do not reach it, and with it they do. Below the last tile there is none.
pub proof fn law_lines_belong_to_their_tile(heights: Seq<usize>, n: int, row: int, line: int)
    requires
        0 <= row,
        0 <= line,
        n <= usize::MAX,
    ensures
        match tile_row_at(heights, n, row, line) {
            Some(r) => row <= r < n && lines_between(heights, row, r as int) <= line < lines_between(
                heights,
                row,
                r as int,
            ) + tile_height(heights, r as int),
            None => lines_between(heights, row, n) <= line,
        },
    decreases n - row,
{
    if row < n && line >= tile_height(heights, row) {
        law_lines_belong_to_their_tile(heights, n, row + 1, line - tile_height(heights, row));
    }
}

/// A tile has the height that it was drawn with, and three lines until it was drawn.
pub proof fn law_tiles_have_their_height(heights: Seq<usize>, row: int)
    ensures
        0 <= row < heights.len() ==> tile_height(heights, row) == heights[row],
        row >= heights.len() ==> tile_height(heights, row) == 3,
{
}

proof fn lemma_item_at(boxes: Seq<HitBox>, column: u16, k: int)
    requires
        0 <= k <= boxes.len(),
    ensures
        match item_at(boxes, column, k) {
            Some(idx) => exists|j: int|
                k <= j < boxes.len() && (#[trigger] boxes[j]).idx == idx && boxes[j].x_start <= column < boxes[j].x_end,
            None => forall|j: int|
                k <= j < boxes.len() ==> !((#[trigger] boxes[j]).x_start <= column < boxes[j].x_end),
        },
    decreases boxes.len() - k,
{
    if k < boxes.len() {
        if boxes[k].x_start <= column < boxes[k].x_end {
            assert(boxes[k].idx == item_at(boxes, column, k)->0);
        } else {
            lemma_item_at(boxes, column, k + 1);
        }
    }
}

/// What the mouse points at: nothing outside of the list. On the left, the row that is drawn on that
/// line; in compact lists that is one row a line. On top, the item whose columns it is over.
pub proof fn law_the_mouse_points_at_what_is_drawn(app: SidebarApp, column: u16, row: u16)
    requires
        app.agents@.len() > 0,
    ensures
        row < app.list_area.y || row >= app.list_area.y + app.list_area.height ==> app.row_at(column, row) is None,
        app.list_area.y <= row < app.list_area.y + app.list_area.height ==> {
            let line = row - app.list_area.y;
            let at = app.list_state.offset + line;
            &&& app.position is Left && app.layout_mode is Compact && at < app.rows@.len() ==> app.row_at(column, row)
                == Some(at as usize)
            &&& app.position is Left && app.layout_mode is Compact && at >= app.rows@.len() ==> app.row_at(
                column,
                row,
            ) is None
            &&& app.position is Left && app.layout_mode is Tiles ==> {
                match app.row_at(column, row) {
                    Some(r) => app.list_state.offset <= r < app.rows@.len() && lines_between(
                        app.tile_heights@,
                        app.list_state.offset as int,
                        r as int,
                    ) <= line < lines_between(app.tile_heights@, app.list_state.offset as int, r as int)
                        + tile_height(app.tile_heights@, r as int),
                    None => lines_between(
                        app.tile_heights@,
                        app.list_state.offset as int,
                        app.rows@.len() as int,
                    ) <= line,
                }
            }
            &&& app.position is Top ==> {
                let boxes = app.horizontal_hitboxes@;
                match app.row_at(column, row) {
                    Some(idx) => exists|j: int|
                        0 <= j < boxes.len() && (#[trigger] boxes[j]).idx == idx && boxes[j].x_start <= column
                            < boxes[j].x_end,
                    None => forall|j: int|
                        0 <= j < boxes.len() ==> !((#[trigger] boxes[j]).x_start <= column < boxes[j].x_end),
                }
            }
        },
{
    lemma_item_at(app.horizontal_hitboxes@, column, 0);
    assert(app.rows.len() == app.rows@.len());
    if row >= app.list_area.y {
        law_lines_belong_to_their_tile(
            app.tile_heights@,
            app.rows@.len() as int,
            app.list_state.offset as int,
            row - app.list_area.y,
        );
    }
}

/// The grouping hint is offered while it is pending, on the left, and while no template failed, exactly
/// where two agents belong to different projects.
pub proof fn law_hints_need_two_projects(app: SidebarApp)
    ensures
        ({
            let two = exists|i: int, j: int|
                #![trigger app.agents@[i], app.agents@[j]]
                0 <= i < app.agents@.len() && 0 <= j < app.agents@.len() && snapshot::label(
                    app.agents@[i],
                    SidebarGroupBy::Project,
                ) != snapshot::label(app.agents@[j], SidebarGroupBy::Project);
            hint_shown(app) <==> app.hint_pending && app.position is Left && app.template_error is None && two
        }),
{
    let agents = app.agents@;
    let set = projects(agents);
    lemma_projects(agents);
    if exists|i: int, j: int|
        #![trigger agents[i], agents[j]]
        0 <= i < agents.len() && 0 <= j < agents.len() && snapshot::label(agents[i], SidebarGroupBy::Project)
            != snapshot::label(agents[j], SidebarGroupBy::Project) {
        let (i, j) = choose|i: int, j: int|
            #![trigger agents[i], agents[j]]
            0 <= i < agents.len() && 0 <= j < agents.len() && snapshot::label(agents[i], SidebarGroupBy::Project)
                != snapshot::label(agents[j], SidebarGroupBy::Project);
        let (a, b) = (
            snapshot::label(agents[i], SidebarGroupBy::Project),
            snapshot::label(agents[j], SidebarGroupBy::Project),
        );
        assert(set.contains(a) && set.contains(b));
        assert(set.remove(a).contains(b));
        assert(set.remove(a).len() == set.len() - 1);
        if set.remove(a).len() == 0 {
            assert(set.remove(a) =~= Set::empty());
        }
    } else if set.len() > 1 {
        let a = set.choose();
        assert(set.contains(a)) by {
            if forall|k: Seq<char>| !set.contains(k) {
                assert(set =~= Set::empty());
            }
        }
        let rest = set.remove(a);
        assert(rest.len() > 0);
        let b = rest.choose();
        assert(rest.contains(b)) by {
            if forall|k: Seq<char>| !rest.contains(k) {
                assert(rest =~= Set::empty());
            }
        }
        let i = choose|i: int|
            0 <= i < agents.len() && snapshot::label(#[trigger] agents[i], SidebarGroupBy::Project) == a;
        let j = choose|j: int|
            0 <= j < agents.len() && snapshot::label(#[trigger] agents[j], SidebarGroupBy::Project) == b;
        assert(snapshot::label(agents[i], SidebarGroupBy::Project) != snapshot::label(
            agents[j],
            SidebarGroupBy::Project,
        ));
    }
}

proof fn lemma_projects(agents: Seq<AgentPane>)
    ensures
        projects(agents).finite(),
    decreases agents.len(),
{
    if agents.len() == 0 {
        assert(projects(agents) =~= Set::empty());
    } else {
        let front = agents.drop_last();
        lemma_projects(front);
        let last = snapshot::label(agents.last(), SidebarGroupBy::Project);
        assert forall|k: Seq<char>| projects(agents).contains(k) implies projects(front).insert(last).contains(k) by {
            let i = choose|i: int|
                0 <= i < agents.len() && snapshot::label(#[trigger] agents[i], SidebarGroupBy::Project) == k;
            if i < front.len() {
                assert(front[i] == agents[i]);
            }
        }
        vstd::set_lib::lemma_set_subset_finite(projects(front).insert(last), projects(agents));
    }
}

/// A version that was not seen before offers the hint. One that was seen offers it for a fortnight,
/// until it is answered.
pub proof fn law_hints_are_offered_for_a_fortnight(record: HintRecord, version: Seq<char>, now: u64)
    ensures
        record.version is None || record.version->0@ != version ==> hint_offered(record, version, now),
        record.version is Some && record.version->0@ == version ==> {
            &&& record.dismissed ==> !hint_offered(record, version, now)
            &&& record.since is None ==> !hint_offered(record, version, now)
            &&& record.since is Some && !record.dismissed ==> (hint_offered(record, version, now) <==> now
                < record.since->0 + 14 * 24 * 3600)
        },
{
}

/// Something moves on a sidebar while it loads, while an agent works that has no icon of its own to
/// show for it, and while checks run.
pub proof fn law_spinners_call_for_frames(app: SidebarApp, i: int, path: Seq<char>)
    ensures
        !app.has_loaded_snapshot ==> animated(app),
        0 <= i < app.agents@.len() && app.agents@[i].status == Some(AgentStatus::Working) && app.status_icons.working is None
            ==> animated(app),
        app.check_statuses@.dom().contains(path) && app.check_statuses@[path].state is Pending ==> animated(app),
        app.has_loaded_snapshot && app.status_icons.working is Some && app.check_statuses@.dom() == Set::<Seq<char>>::empty()
            ==> !animated(app),
        0 <= i < app.agents@.len() && app.agents@[i].status_ts is Some ==> shows_time(app.agents@),
        app.agents@.len() == 0 ==> !shows_time(app.agents@),
{
}

} // verus!
