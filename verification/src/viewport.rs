//! Which rows of a list are visible, and which header is pinned above them.

use vstd::prelude::*;

use crate::app::{Area, SidebarApp};
use crate::chrome;
use crate::rows;
use crate::rows::{RowModel, SidebarRow};

verus! {

// ── Headers above ───────────────────────────────────────────────

/// Whether a row heads a group.
pub open spec fn heads(m: RowModel) -> bool {
    m is Header || m is StaleGroup
}

/// The last row before `row` that heads a group.
pub open spec fn last_head(ms: Seq<RowModel>, row: int) -> Option<usize>
    decreases row,
{
    if row <= 0 {
        None
    } else if heads(ms[row - 1]) {
        Some((row - 1) as usize)
    } else {
        last_head(ms, row - 1)
    }
}

fn is_head(row: &SidebarRow) -> (r: bool)
    ensures
        r == heads(row@),
{
    matches!(row, SidebarRow::Header { .. } | SidebarRow::StaleGroup { .. })
}

/// Finds the header that owns a row, if one stands above it.
pub fn header_above(rows: &Vec<SidebarRow>, row: usize) -> (r: Option<usize>)
    requires
        row <= rows@.len(),
    ensures
        r == last_head(rows::models(rows@), row as int),
{
    let ghost ms = rows::models(rows@);
    let mut i: usize = row;
    while i > 0
        invariant
            ms == rows::models(rows@),
            i <= row <= rows@.len(),
            last_head(ms, row as int) == last_head(ms, i as int),
        decreases i,
    {
        if is_head(&rows[i - 1]) {
            return Some(i - 1);
        }
        i -= 1;
    }
    None
}

/// Whether row `row` exists and is an agent.
pub open spec fn agent_there(ms: Seq<RowModel>, row: int) -> bool {
    0 <= row < ms.len() && ms[row] is Agent
}

/// Whether row `row` exists and heads a group.
pub open spec fn head_there(ms: Seq<RowModel>, row: int) -> bool {
    0 <= row < ms.len() && heads(ms[row])
}

pub fn opens_on_agent(rows: &Vec<SidebarRow>, row: usize) -> (r: bool)
    ensures
        r == agent_there(rows::models(rows@), row as int),
{
    row < rows.len() && matches!(&rows[row], SidebarRow::Agent(_))
}

pub fn opens_on_head(rows: &Vec<SidebarRow>, row: usize) -> (r: bool)
    ensures
        r == head_there(rows::models(rows@), row as int),
{
    row < rows.len() && is_head(&rows[row])
}

// ── Compact lists ───────────────────────────────────────────────

/// The first visible row of a list of one-line rows: the offset, moved as little as keeps the
/// selected row visible.
pub open spec fn first_shown(offset: int, selected: int, height: int) -> int {
    if height == 0 {
        offset
    } else if selected < offset {
        selected
    } else if selected >= offset + height {
        selected + 1 - height
    } else {
        offset
    }
}

/// Moves an offset so that the selected row stays visible.
pub fn compact_offset(offset: usize, selected: usize, height: usize) -> (r: usize)
    ensures
        r == first_shown(offset as int, selected as int, height as int),
{
    if height == 0 {
        return offset;
    }
    let start: usize = if offset <= selected {
        offset
    } else {
        selected
    };
    if selected - start >= height {
        selected - (height - 1)
    } else {
        start
    }
}

/// The selected row is among the visible ones, and drawing the list again moves nothing.
pub proof fn law_compact_lists_show_the_selection(offset: int, selected: int, height: int)
    requires
        0 <= offset,
        0 <= selected,
        height > 0,
    ensures
        first_shown(offset, selected, height) <= selected < first_shown(offset, selected, height) + height,
        first_shown(first_shown(offset, selected, height), selected, height) == first_shown(offset, selected, height),
{
}

/// The first visible row of a compact list and the header pinned above it.
pub struct CompactPlan {
    pub start: usize,
    pub sticky: Option<usize>,
}

/// The selected row, or the first.
pub open spec fn selected_or(selected: Option<usize>, otherwise: usize) -> usize {
    match selected {
        Some(row) => row,
        None => otherwise,
    }
}

/// How a compact list is placed: where it opens inside a group, the group's header is pinned and
/// takes a row, unless the smaller list opens on a header of its own.
pub open spec fn compact_placing(ms: Seq<RowModel>, offset: usize, selected: Option<usize>, height: int) -> (
    int,
    Option<usize>,
) {
    let row = selected_or(selected, 0) as int;
    let full = first_shown(offset as int, row, height);
    let shrunk = first_shown(offset as int, row, height - 1);
    if height > 1 && agent_there(ms, full) && last_head(ms, full) is Some && !head_there(ms, shrunk) {
        (shrunk, last_head(ms, shrunk))
    } else {
        (full, None)
    }
}

impl SidebarApp {
    /// Places a compact list in `area`. The pinned header is no row, so it is left out of the
    /// list's area.
    pub fn plan_compact(&mut self, area: Area) -> (r: CompactPlan)
        requires
            chrome::on_screen(area),
        ensures
            (r.start as int, r.sticky) == compact_placing(
                rows::models(old(self).rows@),
                old(self).list_state.offset,
                old(self).list_state.selected,
                area.height as int,
            ),
            *final(self) == (SidebarApp {
                list_state: crate::selection::ListState { offset: r.start, ..old(self).list_state },
                list_area: if r.sticky is Some {
                    chrome::below(area, 1)
                } else {
                    area
                },
                ..*old(self)
            }),
    {
        let selected: usize = match self.list_state.selected {
            Some(row) => row,
            None => 0,
        };
        let height: usize = area.height as usize;
        let offset: usize = self.list_state.offset;
        let full = compact_offset(offset, selected, height);
        let mut start: usize = full;
        let mut sticky: Option<usize> = None;
        if height > 1 && opens_on_agent(&self.rows, full) && header_above(&self.rows, full).is_some() {
            let shrunk = compact_offset(offset, selected, height - 1);
            if !opens_on_head(&self.rows, shrunk) {
                sticky = header_above(&self.rows, shrunk);
                start = shrunk;
            }
        }
        self.list_state.offset = start;
        self.list_area = if sticky.is_some() {
            Area { y: area.y + 1, height: area.height - 1, ..area }
        } else {
            area
        };
        CompactPlan { start, sticky }
    }
}

/// A compact list with a header pinned still shows the selected row, and so does one without.
pub proof fn law_pinning_keeps_the_selection(ms: Seq<RowModel>, offset: usize, selected: usize, height: int)
    requires
        height > 0,
    ensures
        ({
            let (start, sticky) = compact_placing(ms, offset, Some(selected), height);
            let rows = if sticky is Some {
                height - 1
            } else {
                height
            };
            start <= selected < start + rows
        }),
{
}

/// The header pinned above a list is the one of the group that the list opens in.
pub proof fn law_pinned_headers_head_the_first_row(ms: Seq<RowModel>, offset: usize, selected: Option<usize>, height: int)
    requires
        ms.len() <= usize::MAX,
    ensures
        compact_placing(ms, offset, selected, height).1 matches Some(head) ==> {
            let start = compact_placing(ms, offset, selected, height).0;
            &&& head < start
            &&& heads(ms[head as int])
            &&& forall|i: int| head < i < start ==> !heads(#[trigger] ms[i])
        },
{
    let (start, sticky) = compact_placing(ms, offset, selected, height);
    if sticky is Some {
        lemma_last_head(ms, start);
    }
}

pub proof fn lemma_last_head(ms: Seq<RowModel>, row: int)
    requires
        row <= ms.len() <= usize::MAX,
    ensures
        last_head(ms, row) matches Some(head) ==> {
            &&& head < row
            &&& heads(ms[head as int])
            &&& forall|i: int| head < i < row ==> !heads(#[trigger] ms[i])
        },
        last_head(ms, row) is None ==> forall|i: int| 0 <= i < row ==> !heads(#[trigger] ms[i]),
    decreases row,
{
    if row > 0 && !heads(ms[row - 1]) {
        lemma_last_head(ms, row - 1);
    }
}

// ── Tiles ───────────────────────────────────────────────────────

/// The lines of the rows `from..to`.
pub open spec fn lines_of(heights: Seq<usize>, from: int, to: int) -> nat
    decreases to - from,
{
    if from >= to {
        0
    } else {
        lines_of(heights, from, to - 1) + heights[to - 1] as nat
    }
}

/// The first row from `start` on that, together with all rows up to the selected one, takes no
/// more lines than there are.
pub open spec fn opening(heights: Seq<usize>, start: int, selected: int, budget: int) -> int
    decreases selected - start,
{
    if start < selected && lines_of(heights, start, selected + 1) > budget {
        opening(heights, start + 1, selected, budget)
    } else {
        start
    }
}

/// One past the last row that still fits when the first one is `start` and `end` rows are in.
pub open spec fn closing(heights: Seq<usize>, start: int, end: int, budget: int) -> int
    decreases heights.len() - end,
{
    if end < heights.len() && lines_of(heights, start, end + 1) <= budget {
        closing(heights, start, end + 1, budget)
    } else {
        end
    }
}

/// The rows that fit into `budget` lines, the selected one among them.
pub open spec fn fitting_rows(heights: Seq<usize>, offset: int, selected: int, budget: int) -> (int, int) {
    let start = opening(heights, chrome::least(offset, selected), selected, budget);
    (start, closing(heights, start, selected + 1, budget))
}

/// Fully visible tiles, and whether a line is kept for saying that there are more.
#[derive(Debug, Clone, Copy, PartialEq, Eq, Structural)]
pub struct TileViewport {
    pub start: usize,
    pub end: usize,
    pub more: bool,
}

/// The tiles that are visible, none where the selected one does not fit. Where some are left out
/// below, a line is kept for saying so, unless the tiles then reach the end without it.
pub open spec fn visible_tiles(heights: Seq<usize>, offset: int, selected: int, height: int) -> Option<(int, int, bool)> {
    let n = heights.len() as int;
    let sel = chrome::least(selected, n - 1);
    if n == 0 || heights[sel] > height {
        None
    } else {
        let (start, end) = fitting_rows(heights, offset, sel, height);
        if end < n && heights[sel] < height {
            let (start, end) = fitting_rows(heights, offset, sel, height - 1);
            if fitting_rows(heights, start, sel, height).1 == n {
                Some((start, n, false))
            } else {
                Some((start, end, true))
            }
        } else {
            Some((start, end, false))
        }
    }
}

/// A viewport, by its contents.
pub open spec fn view_model(v: Option<TileViewport>) -> Option<(int, int, bool)> {
    match v {
        Some(v) => Some((v.start as int, v.end as int, v.more)),
        None => None,
    }
}

proof fn lemma_lines_first(heights: Seq<usize>, from: int, to: int)
    requires
        0 <= from < to <= heights.len(),
    ensures
        lines_of(heights, from, to) == heights[from] + lines_of(heights, from + 1, to),
    decreases to - from,
{
    if from < to - 1 {
        lemma_lines_first(heights, from, to - 1);
    } else {
        assert(lines_of(heights, from, from) == 0);
        assert(lines_of(heights, to, to) == 0);
    }
}

proof fn lemma_opening(heights: Seq<usize>, start: int, selected: int, budget: int)
    requires
        0 <= start <= selected < heights.len(),
        heights[selected] <= budget,
    ensures
        start <= opening(heights, start, selected, budget) <= selected,
        lines_of(heights, opening(heights, start, selected, budget), selected + 1) <= budget,
    decreases selected - start,
{
    if start < selected && lines_of(heights, start, selected + 1) > budget {
        lemma_opening(heights, start + 1, selected, budget);
    } else if start == selected {
        assert(lines_of(heights, selected, selected) == 0);
    }
}

proof fn lemma_closing(heights: Seq<usize>, start: int, end: int, budget: int)
    requires
        0 <= start <= end <= heights.len(),
        lines_of(heights, start, end) <= budget,
    ensures
        end <= closing(heights, start, end, budget) <= heights.len(),
        lines_of(heights, start, closing(heights, start, end, budget)) <= budget,
    decreases heights.len() - end,
{
    if end < heights.len() && lines_of(heights, start, end + 1) <= budget {
        lemma_closing(heights, start, end + 1, budget);
    }
}

proof fn lemma_fitting(heights: Seq<usize>, offset: int, selected: int, budget: int)
    requires
        0 <= offset,
        0 <= selected < heights.len(),
        heights[selected] <= budget,
    ensures
        ({
            let (start, end) = fitting_rows(heights, offset, selected, budget);
            &&& 0 <= start <= selected < end <= heights.len()
            &&& lines_of(heights, start, end) <= budget
        }),
{
    lemma_opening(heights, chrome::least(offset, selected), selected, budget);
    let start = opening(heights, chrome::least(offset, selected), selected, budget);
    lemma_closing(heights, start, selected + 1, budget);
}

/// A row that opens a viewport opens it again.
proof fn lemma_reopening(heights: Seq<usize>, start: int, selected: int, budget: int)
    requires
        0 <= start <= selected < heights.len(),
        lines_of(heights, start, selected + 1) <= budget,
    ensures
        fitting_rows(heights, start, selected, budget) == (start, closing(heights, start, selected + 1, budget)),
{
}

/// The selected tile is wholly visible, no more lines are drawn than there are, with one kept for
/// saying that there are more, and that is said only where there are.
pub proof fn law_viewports_show_the_selection(heights: Seq<usize>, offset: int, selected: int, height: int)
    requires
        0 <= offset,
        0 <= selected < heights.len(),
        0 <= height,
    ensures
        match visible_tiles(heights, offset, selected, height) {
            Some((start, end, more)) => {
                &&& heights[selected] <= height
                &&& 0 <= start <= selected < end <= heights.len()
                &&& lines_of(heights, start, end) + (if more {
                    1int
                } else {
                    0
                }) <= height
                &&& more ==> end < heights.len()
            },
            None => heights[selected] > height,
        },
{
    if heights[selected] <= height {
        lemma_fitting(heights, offset, selected, height);
        if heights[selected] < height {
            lemma_fitting(heights, offset, selected, height - 1);
            let (start, end) = fitting_rows(heights, offset, selected, height - 1);
            lemma_fitting(heights, start, selected, height);
            lemma_opening(heights, chrome::least(offset, selected), selected, height - 1);
            lemma_reopening(heights, start, selected, height);
            lemma_closing_grows(heights, start, selected + 1, height - 1, height);
        }
    }
}

proof fn lemma_closing_grows(heights: Seq<usize>, start: int, end: int, small: int, large: int)
    requires
        small <= large,
    ensures
        closing(heights, start, end, small) <= closing(heights, start, end, large),
    decreases heights.len() - end,
{
    if end < heights.len() && lines_of(heights, start, end + 1) <= small {
        lemma_closing_grows(heights, start, end + 1, small, large);
    } else {
        lemma_closing_at_least(heights, start, end, large);
    }
}

proof fn lemma_closing_at_least(heights: Seq<usize>, start: int, end: int, budget: int)
    ensures
        end <= closing(heights, start, end, budget),
    decreases heights.len() - end,
{
    if end < heights.len() && lines_of(heights, start, end + 1) <= budget {
        lemma_closing_at_least(heights, start, end + 1, budget);
    }
}

/// Drawing the tiles again, from where they were drawn, shows the same ones.
pub proof fn law_viewports_stay_put(heights: Seq<usize>, offset: int, selected: int, height: int)
    requires
        0 <= offset,
        0 <= selected < heights.len(),
        0 <= height,
    ensures
        visible_tiles(heights, offset, selected, height) matches Some((start, end, more)) ==> visible_tiles(
            heights,
            start,
            selected,
            height,
        ) == Some((start, end, more)),
{
    if heights[selected] <= height {
        lemma_fitting(heights, offset, selected, height);
        let (start, end) = fitting_rows(heights, offset, selected, height);
        lemma_opening(heights, chrome::least(offset, selected), selected, height);
        lemma_reopening(heights, start, selected, height);
        if end < heights.len() && heights[selected] < height {
            let (start, end) = fitting_rows(heights, offset, selected, height - 1);
            lemma_fitting(heights, offset, selected, height - 1);
            lemma_opening(heights, chrome::least(offset, selected), selected, height - 1);
            lemma_reopening(heights, start, selected, height - 1);
            lemma_reopening(heights, start, selected, height);
            lemma_fitting(heights, start, selected, height);
            lemma_fitting(heights, start, selected, height - 1);
        }
    }
}

/// Finds the rows that fit into `budget` lines.
fn fit(heights: &Vec<usize>, offset: usize, selected: usize, budget: usize) -> (r: (usize, usize))
    requires
        selected < heights@.len(),
        heights@[selected as int] <= budget,
    ensures
        (r.0 as int, r.1 as int) == fitting_rows(heights@, offset as int, selected as int, budget as int),
{
    let n: usize = heights.len();
    let ghost h = heights@;
    let first: usize = if offset <= selected {
        offset
    } else {
        selected
    };
    proof {
        lemma_opening(h, first as int, selected as int, budget as int);
    }
    let mut lines: u128 = 0;
    let mut i: usize = first;
    while i <= selected
        invariant
            h == heights@,
            first <= i <= selected + 1,
            selected < n == h.len(),
            lines == lines_of(h, first as int, i as int),
            lines <= (i - first) * 0xffff_ffff_ffff_ffff,
        decreases selected + 1 - i,
    {
        proof {
            assert((i - first) * 0xffff_ffff_ffff_ffff <= 0xffff_ffff_ffff_ffff * 0xffff_ffff_ffff_ffff);
        }
        lines = lines + heights[i] as u128;
        i += 1;
    }
    let mut start: usize = first;
    while start < selected && lines > budget as u128
        invariant
            h == heights@,
            first <= start <= selected < n == h.len(),
            lines == lines_of(h, start as int, selected + 1),
            opening(h, first as int, selected as int, budget as int) == opening(
                h,
                start as int,
                selected as int,
                budget as int,
            ),
        decreases selected - start,
    {
        proof {
            lemma_lines_first(h, start as int, selected + 1);
        }
        lines = lines - heights[start] as u128;
        start += 1;
    }
    proof {
        if start == selected {
            assert(lines_of(h, selected as int, selected as int) == 0);
        }
        assert(lines <= budget);
    }
    let mut end: usize = selected + 1;
    while end < n && lines + heights[end] as u128 <= budget as u128
        invariant
            h == heights@,
            n == h.len(),
            start < end <= n,
            lines <= budget,
            lines == lines_of(h, start as int, end as int),
            closing(h, start as int, selected + 1, budget as int) == closing(h, start as int, end as int, budget as int),
        decreases n - end,
    {
        lines = lines + heights[end] as u128;
        end += 1;
    }
    (start, end)
}

/// Finds the tiles that are visible.
pub fn tile_viewport(heights: &Vec<usize>, offset: usize, selected: usize, height: usize) -> (r: Option<TileViewport>)
    ensures
        view_model(r) == visible_tiles(heights@, offset as int, selected as int, height as int),
{
    let n: usize = heights.len();
    if n == 0 {
        return None;
    }
    let sel: usize = if selected < n {
        selected
    } else {
        n - 1
    };
    if heights[sel] > height {
        return None;
    }
    let (start, end) = fit(heights, offset, sel, height);
    if end < n && heights[sel] < height {
        let (start, end) = fit(heights, offset, sel, height - 1);
        let (_, full_end) = fit(heights, start, sel, height);
        if full_end == n {
            Some(TileViewport { start, end: full_end, more: false })
        } else {
            Some(TileViewport { start, end, more: true })
        }
    } else {
        Some(TileViewport { start, end, more: false })
    }
}

// ── How far views move ──────────────────────────────────────────

/// A compact list does not scroll while the selected row is in view. A row above it becomes the first
/// one shown, a row below it the last.
pub proof fn law_lists_scroll_as_little_as_they_must(offset: int, selected: int, height: int)
    requires
        0 <= offset,
        0 <= selected,
        height > 0,
    ensures
        offset <= selected < offset + height ==> first_shown(offset, selected, height) == offset,
        selected < offset ==> first_shown(offset, selected, height) == selected,
        selected >= offset + height ==> first_shown(offset, selected, height) + height - 1 == selected,
        first_shown(offset, selected, 0) == offset,
{
}

proof fn lemma_opening_is_least(heights: Seq<usize>, start: int, selected: int, budget: int)
    requires
        0 <= start <= selected < heights.len(),
    ensures
        ({
            let o = opening(heights, start, selected, budget);
            &&& start <= o <= selected
            &&& o > start ==> lines_of(heights, o - 1, selected + 1) > budget
        }),
    decreases selected - start,
{
    if start < selected && lines_of(heights, start, selected + 1) > budget {
        lemma_opening_is_least(heights, start + 1, selected, budget);
    }
}

proof fn lemma_closing_is_most(heights: Seq<usize>, start: int, end: int, budget: int)
    requires
        0 <= start <= end <= heights.len(),
    ensures
        ({
            let c = closing(heights, start, end, budget);
            &&& end <= c <= heights.len()
            &&& c < heights.len() ==> lines_of(heights, start, c + 1) > budget
        }),
    decreases heights.len() - end,
{
    if end < heights.len() && lines_of(heights, start, end + 1) <= budget {
        lemma_closing_is_most(heights, start, end + 1, budget);
    }
}

/// Tiles open where they did before, or at the selected one where that is above; further down only
/// where one row more would push the selected tile out. They go on until the next one does not fit.
pub proof fn law_tiles_use_their_room(heights: Seq<usize>, offset: int, selected: int, budget: int)
    requires
        0 <= offset,
        0 <= selected < heights.len(),
        heights[selected] <= budget,
    ensures
        ({
            let (start, end) = fitting_rows(heights, offset, selected, budget);
            let first = if offset <= selected {
                offset
            } else {
                selected
            };
            &&& first <= start <= selected < end <= heights.len()
            &&& start > first ==> lines_of(heights, start - 1, selected + 1) > budget
            &&& end < heights.len() ==> lines_of(heights, start, end + 1) > budget
        }),
{
    let first = chrome::least(offset, selected);
    lemma_opening_is_least(heights, first, selected, budget);
    let start = opening(heights, first, selected, budget);
    lemma_closing_is_most(heights, start, selected + 1, budget);
}

/// Where tiles are left out below, that is said, unless the selected tile takes all the lines there
/// are.
pub proof fn law_left_out_tiles_are_told(heights: Seq<usize>, offset: int, selected: int, height: int)
    requires
        0 <= offset,
        0 <= selected < heights.len(),
        0 <= height,
    ensures
        visible_tiles(heights, offset, selected, height) matches Some((start, end, more)) ==> (end < heights.len()
            ==> more || heights[selected] == height),
        heights[selected] > height ==> visible_tiles(heights, offset, selected, height) is None,
        heights[selected] <= height ==> visible_tiles(heights, offset, selected, height) is Some,
{
}

/// A list that opens inside a group has the group's header pinned, where there is room for more than
/// one row and the row it would then open on is no header itself.
pub proof fn law_headers_are_pinned(ms: Seq<RowModel>, offset: usize, selected: usize, height: int)
    requires
        height > 1,
        ms.len() <= usize::MAX,
    ensures
        ({
            let full = first_shown(offset as int, selected as int, height);
            let shrunk = first_shown(offset as int, selected as int, height - 1);
            let inside = 0 <= full < ms.len() && ms[full] is Agent && exists|h: int|
                0 <= h < full && ((#[trigger] ms[h]) is Header || ms[h] is StaleGroup);
            let headed = 0 <= shrunk < ms.len() && (ms[shrunk] is Header || ms[shrunk] is StaleGroup);
            let (start, sticky) = compact_placing(ms, offset, Some(selected), height);
            &&& inside && !headed && shrunk <= ms.len() ==> sticky is Some && start == shrunk
            &&& !inside || headed ==> sticky is None && start == full
        }),
{
    let full = first_shown(offset as int, selected as int, height);
    let shrunk = first_shown(offset as int, selected as int, height - 1);
    if 0 <= full < ms.len() {
        lemma_last_head(ms, full);
        assert(full <= shrunk);
        if last_head(ms, full) is Some && shrunk <= ms.len() {
            lemma_last_head(ms, shrunk);
            let h = last_head(ms, full)->0 as int;
            assert(heads(ms[h]));
        }
    }
}

} // verus!
