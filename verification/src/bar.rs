//! The top bar: agents side by side, as many as there is room for.

use vstd::prelude::*;

use crate::app::{Area, HitBox, SidebarApp};
use crate::chrome;
use crate::pointer;
use crate::style;
use crate::style::{Palette, Span, SpanModel, Style};
use crate::templates::{Token, TokenId};
use crate::text;

verus! {

// ── Templates ───────────────────────────────────────────────────

/// Whether a token is a literal of nothing but white space.
pub open spec fn blank_literal(t: Token) -> bool {
    t matches Token::Literal(s) && s@.len() > 0 && text::trimmed(s@).len() == 0
}

/// A template without the status icon and the blanks right behind it.
pub open spec fn without_icon(template: Seq<Token>) -> Seq<Token>
    decreases template.len(),
{
    if template.len() == 0 {
        seq![]
    } else if template[0] == Token::Field(TokenId::StatusIcon) {
        if template.len() > 1 && blank_literal(template[1]) {
            without_icon(template.skip(2))
        } else {
            without_icon(template.skip(1))
        }
    } else {
        seq![template[0]] + without_icon(template.skip(1))
    }
}

fn is_blank_literal(t: &Token) -> (r: bool)
    ensures
        r == blank_literal(*t),
{
    match t {
        Token::Literal(s) => !s.as_str().is_empty() && text::trim(s.as_str()).is_empty(),
        _ => false,
    }
}

/// Takes the status icon out of a template, for an agent that has none to show.
pub fn remove_blank_status_prefix(template: &Vec<Token>) -> (r: Vec<Token>)
    ensures
        r@ == without_icon(template@),
{
    let n: usize = template.len();
    let mut out: Vec<Token> = Vec::new();
    let mut i: usize = 0;
    proof {
        assert(template@.skip(0) =~= template@);
    }
    while i < n
        invariant
            n == template@.len(),
            i <= n,
            out@ + without_icon(template@.skip(i as int)) == without_icon(template@),
        decreases n - i,
    {
        let ghost rest = template@.skip(i as int);
        proof {
            assert(rest[0] == template@[i as int]);
            assert(rest.skip(1) =~= template@.skip(i + 1));
            if i + 1 < n {
                assert(rest[1] == template@[i + 1]);
                assert(rest.skip(2) =~= template@.skip(i + 2));
            }
        }
        if matches!(&template[i], Token::Field(TokenId::StatusIcon)) {
            if i + 1 < n && is_blank_literal(&template[i + 1]) {
                i += 2;
            } else {
                i += 1;
            }
        } else {
            let ghost before = out@;
            out.push(template[i].clone());
            proof {
                assert(out@ + without_icon(rest.skip(1)) =~= before + without_icon(rest));
            }
            i += 1;
        }
    }
    proof {
        assert(template@.skip(i as int) =~= Seq::<Token>::empty());
        assert(out@ =~= out@ + without_icon(template@.skip(i as int)));
    }
    out
}

/// The templates of the bar that are filled in: those of the first `k` that are not blank, no more
/// than there are rows.
pub open spec fn used_templates(blank: Seq<bool>, rows: int, k: int) -> Seq<usize>
    decreases k,
{
    if k <= 0 {
        seq![]
    } else {
        let before = used_templates(blank, rows, k - 1);
        if blank[k - 1] || before.len() >= rows {
            before
        } else {
            before.push((k - 1) as usize)
        }
    }
}

/// Picks the templates of the bar.
pub fn bar_templates(blank: &Vec<bool>, rows: usize) -> (r: Vec<usize>)
    ensures
        r@ == used_templates(blank@, rows as int, blank@.len() as int),
{
    let mut r: Vec<usize> = Vec::new();
    let mut k: usize = 0;
    while k < blank.len()
        invariant
            k <= blank@.len(),
            r@ == used_templates(blank@, rows as int, k as int),
        decreases blank.len() - k,
    {
        if !blank[k] && r.len() < rows {
            r.push(k);
        }
        k += 1;
    }
    r
}

/// The template of one line of the bar.
#[derive(Debug, Clone, Copy, PartialEq, Eq, Structural)]
pub enum BarTemplate {
    /// One of the bar's own, by its index.
    Own(usize),
    /// That of compact rows.
    Compact,
}

/// The templates of the lines of the bar: its own that are not blank, as many as there are rows;
/// where none is left, the compact one stands in.
pub open spec fn line_templates(blank: Seq<bool>, rows: int) -> Seq<BarTemplate> {
    let used = used_templates(blank, rows, blank.len() as int);
    if used.len() == 0 {
        seq![BarTemplate::Compact]
    } else {
        used.map_values(|i: usize| BarTemplate::Own(i))
    }
}

/// Chooses the template of each line of the bar.
pub fn bar_line_templates(blank: &Vec<bool>, rows: usize) -> (r: Vec<BarTemplate>)
    ensures
        r@ == line_templates(blank@, rows as int),
{
    let used = bar_templates(blank, rows);
    let mut r: Vec<BarTemplate> = Vec::new();
    if used.len() == 0 {
        r.push(BarTemplate::Compact);
        proof {
            assert(r@ =~= line_templates(blank@, rows as int));
        }
        return r;
    }
    let mut i: usize = 0;
    while i < used.len()
        invariant
            used@ == used_templates(blank@, rows as int, blank@.len() as int),
            i <= used@.len(),
            r@ =~= used@.take(i as int).map_values(|i: usize| BarTemplate::Own(i)),
        decreases used.len() - i,
    {
        r.push(BarTemplate::Own(used[i]));
        i += 1;
    }
    proof {
        assert(used@.take(i as int) =~= used@);
    }
    r
}

// ── Slots ───────────────────────────────────────────────────────

/// Room for one agent in the bar.
#[derive(Debug, Clone, Copy, PartialEq, Eq, Structural)]
pub struct BarSlot {
    pub idx: usize,
    pub x: u16,
    pub width: u16,
    /// Whether a separator stands behind it.
    pub parted: bool,
}

/// The slots of the agents from `idx` on, from the column `x` to before `end`.
pub open spec fn slots(x: int, end: int, idx: int, n: int, item_width: int) -> Seq<BarSlot>
    decreases n - idx,
{
    if idx >= n || x >= end {
        seq![]
    } else {
        let width = chrome::least(end - x, item_width);
        let parted = x + width + 2 < end && idx + 1 < n;
        let slot = BarSlot { idx: idx as usize, x: x as u16, width: width as u16, parted };
        seq![slot] + slots(
            x + width + (if parted {
                3int
            } else {
                0
            }),
            end,
            idx + 1,
            n,
            item_width,
        )
    }
}

/// The column past an area.
pub open spec fn right_of(area: Area) -> int {
    chrome::least(area.x + area.width, u16::MAX as int)
}

fn bar_slots(inner: Area, start: usize, n: usize, item_width: usize) -> (r: Vec<BarSlot>)
    ensures
        r@ == slots(inner.x as int, right_of(inner), start as int, n as int, item_width as int),
{
    let end: u16 = inner.x.saturating_add(inner.width);
    let mut r: Vec<BarSlot> = Vec::new();
    let mut x: u16 = inner.x;
    let mut idx: usize = start;
    let ghost all = slots(inner.x as int, end as int, start as int, n as int, item_width as int);
    while idx < n && x < end
        invariant
            x <= end,
            r@ + slots(x as int, end as int, idx as int, n as int, item_width as int) =~= all,
        decreases n - idx,
    {
        let available: usize = (end - x) as usize;
        let width: u16 = if available <= item_width {
            end - x
        } else {
            item_width as u16
        };
        let next: u16 = x + width;
        let parted = end - next > 2 && idx + 1 < n;
        let slot = BarSlot { idx, x, width, parted };
        let ghost before = r@;
        r.push(slot);
        let ghost was = x;
        x = if parted {
            next + 3
        } else {
            next
        };
        proof {
            assert(before + slots(was as int, end as int, idx as int, n as int, item_width as int) =~= r@ + slots(
                x as int,
                end as int,
                idx + 1,
                n as int,
                item_width as int,
            ));
        }
        idx += 1;
    }
    r
}

/// The slots of the bar lie side by side within it, for consecutive agents.
pub proof fn law_slots_lie_side_by_side(x: int, end: int, idx: int, n: int, item_width: int)
    requires
        0 <= x,
        end <= u16::MAX,
        0 <= idx,
        n <= usize::MAX,
        0 <= item_width,
    ensures
        ({
            let ss = slots(x, end, idx, n, item_width);
            &&& forall|i: int|
                0 <= i < ss.len() ==> (#[trigger] ss[i]).idx == idx + i && x <= ss[i].x && ss[i].x + ss[i].width <= end
                    && ss[i].width <= item_width
            &&& forall|i: int, j: int|
                0 <= i < j < ss.len() ==> (#[trigger] ss[i]).x + ss[i].width <= (#[trigger] ss[j]).x
            &&& idx <= n ==> ss.len() <= n - idx
        }),
    decreases n - idx,
{
    let ss = slots(x, end, idx, n, item_width);
    if idx < n && x < end {
        let width = chrome::least(end - x, item_width);
        let parted = x + width + 2 < end && idx + 1 < n;
        let next = x + width + (if parted {
            3int
        } else {
            0
        });
        law_slots_lie_side_by_side(next, end, idx + 1, n, item_width);
        let rest = slots(next, end, idx + 1, n, item_width);
        assert forall|i: int| 0 <= i < ss.len() implies (#[trigger] ss[i]).idx == idx + i && x <= ss[i].x && ss[i].x
            + ss[i].width <= end && ss[i].width <= item_width by {
            if i > 0 {
                assert(ss[i] == rest[i - 1]);
            }
        }
        assert forall|i: int, j: int| 0 <= i < j < ss.len() implies (#[trigger] ss[i]).x + ss[i].width <= (
        #[trigger] ss[j]).x by {
            assert(ss[j] == rest[j - 1]);
            if i > 0 {
                assert(ss[i] == rest[i - 1]);
            }
        }
    }
}

// ── Items ───────────────────────────────────────────────────────

/// Whether spans show anything.
pub open spec fn telling(spans: Seq<SpanModel>) -> bool {
    exists|i: int| 0 <= i < spans.len() && text::trimmed((#[trigger] spans[i]).content).len() > 0
}

pub fn shows_something(spans: &Vec<Span>) -> (r: bool)
    ensures
        r == telling(style::models(spans@)),
{
    let ghost ms = style::models(spans@);
    let mut i: usize = 0;
    while i < spans.len()
        invariant
            ms == style::models(spans@),
            i <= spans@.len(),
            forall|j: int| 0 <= j < i ==> text::trimmed((#[trigger] ms[j]).content).len() == 0,
        decreases spans.len() - i,
    {
        if !text::trim(spans[i].content.as_str()).is_empty() {
            proof {
                assert(text::trimmed(ms[i as int].content).len() > 0);
            }
            return true;
        }
        i += 1;
    }
    false
}

/// Whether an item has a line that shows anything.
pub open spec fn has_content(item: Seq<Seq<SpanModel>>) -> bool {
    exists|i: int| 0 <= i < item.len() && telling(#[trigger] item[i])
}

fn item_has_content(item: &Vec<Vec<Span>>) -> (r: bool)
    ensures
        r == has_content(chrome::line_models(item@)),
{
    let ghost ms = chrome::line_models(item@);
    let mut i: usize = 0;
    while i < item.len()
        invariant
            ms == chrome::line_models(item@),
            i <= item@.len(),
            forall|j: int| 0 <= j < i ==> !telling(#[trigger] ms[j]),
        decreases item.len() - i,
    {
        if shows_something(&item[i]) {
            proof {
                assert(telling(ms[i as int]));
            }
            return true;
        }
        i += 1;
    }
    false
}

/// Contents of items.
pub open spec fn item_models(items: Seq<Vec<Vec<Span>>>) -> Seq<Seq<Seq<SpanModel>>> {
    Seq::new(items.len(), |i: int| chrome::line_models(items[i]@))
}

/// How many items are drawn: those before the first without content.
pub open spec fn drawn(items: Seq<Seq<Seq<SpanModel>>>, from: int) -> int
    decreases items.len() - from,
{
    if 0 <= from < items.len() && has_content(items[from]) {
        drawn(items, from + 1)
    } else {
        from
    }
}

fn count_drawn(items: &Vec<Vec<Vec<Span>>>) -> (r: usize)
    ensures
        r <= items@.len(),
        r == drawn(item_models(items@), 0),
{
    let ghost ms = item_models(items@);
    let n: usize = items.len();
    let mut i: usize = 0;
    while i < n
        invariant
            n == items@.len(),
            ms == item_models(items@),
            i <= n,
            drawn(ms, 0) == drawn(ms, i as int),
        decreases n - i,
    {
        if !item_has_content(&items[i]) {
            return i;
        }
        i += 1;
    }
    n
}

/// One line of an item: on the selection's background where it is selected, and filled up.
pub open spec fn item_line(p: Palette, line: Seq<SpanModel>, width: nat, selected: bool) -> Seq<SpanModel> {
    if selected {
        style::padded(style::backed(line, p.highlight_row_bg), width, Some(p.highlight_row_bg))
    } else {
        style::padded(line, width, None)
    }
}

/// The separator between items.
pub open spec fn separator(p: Palette) -> Seq<SpanModel> {
    seq![
        style::span(" "@, Style::plain()),
        style::span("│"@, Style::colored(p.border)),
        style::span(" "@, Style::plain()),
    ]
}

/// A row of the bar: the lines of the first `k` items, and the separators behind them.
pub open spec fn bar_row(
    p: Palette,
    ss: Seq<BarSlot>,
    items: Seq<Seq<Seq<SpanModel>>>,
    selected: Option<usize>,
    row: int,
    k: int,
) -> Seq<SpanModel>
    decreases k,
{
    if k <= 0 {
        seq![]
    } else {
        let slot = ss[k - 1];
        bar_row(p, ss, items, selected, row, k - 1) + item_line(
            p,
            items[k - 1][row],
            slot.width as nat,
            selected == Some(slot.idx),
        ) + (if slot.parted {
            separator(p)
        } else {
            seq![]
        })
    }
}

fn push_item(spans: &mut Vec<Span>, palette: &Palette, slot: &BarSlot, line: &Vec<Span>, selected: Option<usize>)
    ensures
        style::models(final(spans)@) == style::models(old(spans)@) + item_line(
            *palette,
            style::models(line@),
            slot.width as nat,
            selected == Some(slot.idx),
        ) + (if slot.parted {
            separator(*palette)
        } else {
            seq![]
        }),
{
    let ghost before = style::models(spans@);
    let mut shown = style::copy_spans(line);
    if selected == Some(slot.idx) {
        style::apply_selection_bg(&mut shown, palette.highlight_row_bg);
        style::pad_spans_to_width(&mut shown, slot.width as usize, Some(palette.highlight_row_bg));
    } else {
        style::pad_spans_to_width(&mut shown, slot.width as usize, None);
    }
    style::push_all(spans, &shown);
    let ghost mid = style::models(spans@);
    if slot.parted {
        style::push_span(spans, " ".to_owned(), Style::new());
        style::push_span(spans, "│".to_owned(), Style::fg(palette.border));
        style::push_span(spans, " ".to_owned(), Style::new());
        proof {
            assert(style::models(spans@) =~= mid + separator(*palette));
        }
    } else {
        proof {
            assert(style::models(spans@) =~= mid + Seq::<SpanModel>::empty());
        }
    }
}

/// Puts the items of a row side by side.
fn bar_row_spans(
    palette: &Palette,
    ss: &Vec<BarSlot>,
    items: &Vec<Vec<Vec<Span>>>,
    selected: Option<usize>,
    row: usize,
    count: usize,
) -> (r: Vec<Span>)
    requires
        count <= ss@.len() == items@.len(),
        forall|i: int| 0 <= i < items@.len() ==> row < (#[trigger] items@[i])@.len(),
    ensures
        style::models(r@) == bar_row(*palette, ss@, item_models(items@), selected, row as int, count as int),
{
    let ghost ms = item_models(items@);
    let mut r: Vec<Span> = Vec::new();
    let mut k: usize = 0;
    proof {
        assert(style::models(r@) =~= Seq::<SpanModel>::empty());
    }
    while k < count
        invariant
            count <= ss@.len() == items@.len(),
            forall|i: int| 0 <= i < items@.len() ==> row < (#[trigger] items@[i])@.len(),
            ms == item_models(items@),
            k <= count,
            style::models(r@) == bar_row(*palette, ss@, ms, selected, row as int, k as int),
        decreases count - k,
    {
        proof {
            assert(ms[k as int][row as int] == style::models(items@[k as int]@[row as int]@));
        }
        push_item(&mut r, palette, &ss[k], &items[k][row], selected);
        k += 1;
    }
    r
}

/// Where the mouse finds the first `k` items.
pub open spec fn hitboxes(ss: Seq<BarSlot>, k: int) -> Seq<HitBox> {
    Seq::new(
        k as nat,
        |i: int| HitBox { idx: ss[i].idx, x_start: ss[i].x, x_end: (ss[i].x + ss[i].width) as u16 },
    )
}

fn bar_hitboxes(ss: &Vec<BarSlot>, count: usize) -> (r: Vec<HitBox>)
    requires
        count <= ss@.len(),
        forall|i: int| 0 <= i < ss@.len() ==> (#[trigger] ss@[i]).x + ss@[i].width <= u16::MAX,
    ensures
        r@ == hitboxes(ss@, count as int),
{
    let mut r: Vec<HitBox> = Vec::new();
    let mut i: usize = 0;
    while i < count
        invariant
            count <= ss@.len(),
            forall|j: int| 0 <= j < ss@.len() ==> (#[trigger] ss@[j]).x + ss@[j].width <= u16::MAX,
            i <= count,
            r@ =~= hitboxes(ss@, i as int),
        decreases count - i,
    {
        let s = ss[i];
        r.push(HitBox { idx: s.idx, x_start: s.x, x_end: s.x + s.width });
        i += 1;
    }
    r
}

impl SidebarApp {
    /// The first agent that the bar draws.
    pub open spec fn bar_start(&self) -> int {
        chrome::least(self.first_visible_agent_idx as int, self.agents@.len() - 1)
    }

    /// Starts a frame of the top bar: hands out the room for each agent, from the first visible
    /// one on. There is none without agents.
    pub fn plan_bar(&mut self, inner: Area) -> (r: Vec<BarSlot>)
        ensures
            old(self).agents@.len() > 0 ==> r@ == slots(
                inner.x as int,
                right_of(inner),
                old(self).bar_start(),
                old(self).agents@.len() as int,
                old(self).horizontal_item_width as int,
            ),
            old(self).agents@.len() == 0 ==> r@.len() == 0,
            final(self).horizontal_hitboxes@.len() == 0,
            *final(self) == (SidebarApp {
                list_area: inner,
                horizontal_hitboxes: final(self).horizontal_hitboxes,
                first_visible_agent_idx: if old(self).agents@.len() > 0 {
                    old(self).bar_start() as usize
                } else {
                    old(self).first_visible_agent_idx
                },
                ..*old(self)
            }),
    {
        self.list_area = inner;
        self.horizontal_hitboxes = Vec::new();
        let n: usize = self.agents.len();
        if n == 0 {
            return Vec::new();
        }
        let start: usize = if self.first_visible_agent_idx < n {
            self.first_visible_agent_idx
        } else {
            n - 1
        };
        self.first_visible_agent_idx = start;
        bar_slots(inner, start, n, self.horizontal_item_width)
    }

    /// Finishes a frame of the top bar, given the templates filled in for each slot: draws items up
    /// to the first without content, and scrolls so that the selected one is drawn next time.
    pub fn draw_bar(&mut self, ss: &Vec<BarSlot>, items: &Vec<Vec<Vec<Span>>>, rows: usize) -> (r: Vec<Vec<Span>>)
        requires
            ss@.len() == items@.len(),
            forall|i: int| 0 <= i < ss@.len() ==> (#[trigger] ss@[i]).x + ss@[i].width <= u16::MAX,
            forall|i: int| 0 <= i < items@.len() ==> rows <= (#[trigger] items@[i])@.len(),
        ensures
            r@.len() == rows,
            forall|row: int|
                0 <= row < rows ==> style::models((#[trigger] r@[row])@) == bar_row(
                    old(self).palette,
                    ss@,
                    item_models(items@),
                    old(self).selected_agent(),
                    row,
                    drawn(item_models(items@), 0),
                ),
            final(self).horizontal_hitboxes@ == hitboxes(ss@, drawn(item_models(items@), 0)),
            *final(self) == (SidebarApp {
                horizontal_hitboxes: final(self).horizontal_hitboxes,
                first_visible_agent_idx: pointer::scrolled(
                    old(self).first_visible_agent_idx,
                    old(self).list_state.selected,
                    drawn(item_models(items@), 0) as usize,
                ),
                ..*old(self)
            }),
    {
        let count = count_drawn(items);
        let selected = self.selected_agent_idx();
        let r = bar_rows(&self.palette, ss, items, selected, rows, count);
        self.horizontal_hitboxes = bar_hitboxes(ss, count);
        self.ensure_selected_visible(count);
        r
    }
}

fn bar_rows(
    palette: &Palette,
    ss: &Vec<BarSlot>,
    items: &Vec<Vec<Vec<Span>>>,
    selected: Option<usize>,
    rows: usize,
    count: usize,
) -> (r: Vec<Vec<Span>>)
    requires
        count <= ss@.len() == items@.len(),
        forall|i: int| 0 <= i < items@.len() ==> rows <= (#[trigger] items@[i])@.len(),
    ensures
        r@.len() == rows,
        forall|row: int|
            0 <= row < rows ==> style::models((#[trigger] r@[row])@) == bar_row(
                *palette,
                ss@,
                item_models(items@),
                selected,
                row,
                count as int,
            ),
{
    let mut r: Vec<Vec<Span>> = Vec::new();
    let mut row: usize = 0;
    while row < rows
        invariant
            count <= ss@.len() == items@.len(),
            forall|i: int| 0 <= i < items@.len() ==> rows <= (#[trigger] items@[i])@.len(),
            row <= rows,
            r@.len() == row,
            forall|j: int|
                0 <= j < row ==> style::models((#[trigger] r@[j])@) == bar_row(
                    *palette,
                    ss@,
                    item_models(items@),
                    selected,
                    j,
                    count as int,
                ),
        decreases rows - row,
    {
        r.push(bar_row_spans(palette, ss, items, selected, row, count));
        row += 1;
    }
    r
}

// ── What the bar is for ─────────────────────────────────────────

/// A template without its icon has no field for it left. One that had none stays as it is; where the
/// icon is taken out, so is the blank right behind it, and nothing else.
pub proof fn law_icons_are_taken_out(template: Seq<Token>, rest: Seq<Token>, gap: Token)
    ensures
        forall|i: int|
            0 <= i < without_icon(template).len() ==> #[trigger] without_icon(template)[i] != Token::Field(
                TokenId::StatusIcon,
            ),
        (forall|i: int| 0 <= i < template.len() ==> #[trigger] template[i] != Token::Field(TokenId::StatusIcon))
            ==> without_icon(template) == template,
        blank_literal(gap) ==> without_icon(seq![Token::Field(TokenId::StatusIcon), gap] + rest) == without_icon(rest),
        rest.len() > 0 && !blank_literal(rest[0]) ==> without_icon(seq![Token::Field(TokenId::StatusIcon)] + rest)
            == without_icon(rest),
        gap != Token::Field(TokenId::StatusIcon) ==> without_icon(seq![gap] + rest) == seq![gap] + without_icon(rest),
    decreases template.len(),
{
    let icon = Token::Field(TokenId::StatusIcon);
    let none = Seq::<Token>::empty();
    if template.len() > 0 {
        law_icons_are_taken_out(template.skip(1), none, icon);
        if template.len() > 1 {
            law_icons_are_taken_out(template.skip(2), none, icon);
        }
        if template[0] != icon {
            let tail = without_icon(template.skip(1));
            assert(without_icon(template) == seq![template[0]] + tail);
            assert forall|i: int| 0 <= i < without_icon(template).len() implies #[trigger] without_icon(template)[i]
                != icon by {
                if i > 0 {
                    assert(without_icon(template)[i] == tail[i - 1]);
                }
            }
            if forall|i: int| 0 <= i < template.len() ==> #[trigger] template[i] != icon {
                assert forall|i: int| 0 <= i < template.skip(1).len() implies #[trigger] template.skip(1)[i] != icon by {
                    assert(template.skip(1)[i] == template[i + 1]);
                }
                assert(without_icon(template) =~= template);
            }
        }
    }
    let a = seq![icon, gap] + rest;
    assert(a.skip(2) =~= rest);
    assert(a[0] == icon && a[1] == gap);
    let b = seq![icon] + rest;
    assert(b.skip(1) =~= rest);
    assert(b[0] == icon);
    if rest.len() > 0 {
        assert(b[1] == rest[0]);
    }
    let c = seq![gap] + rest;
    assert(c.skip(1) =~= rest);
    assert(c[0] == gap);
}

proof fn lemma_used_templates(blank: Seq<bool>, rows: int, k: int)
    requires
        0 <= k <= blank.len() <= usize::MAX,
        rows >= 0,
    ensures
        ({
            let used = used_templates(blank, rows, k);
            &&& used.len() <= rows
            &&& forall|i: int| 0 <= i < used.len() ==> (#[trigger] used[i]) < k && !blank[used[i] as int]
            &&& forall|i: int, j: int| 0 <= i < j < used.len() ==> used[i] < used[j]
            &&& forall|t: int|
                #![trigger blank[t]]
                0 <= t < k && !blank[t] && !used.contains(t as usize) ==> used.len() == rows && forall|i: int|
                    0 <= i < used.len() ==> #[trigger] used[i] < t
        }),
    decreases k,
{
    if k > 0 {
        lemma_used_templates(blank, rows, k - 1);
        let before = used_templates(blank, rows, k - 1);
        let used = used_templates(blank, rows, k);
        assert forall|t: int|
            #![trigger blank[t]]
            0 <= t < k && !blank[t] && !used.contains(t as usize) implies used.len() == rows && forall|i: int|
            0 <= i < used.len() ==> #[trigger] used[i] < t by {
            if t < k - 1 {
                if before.contains(t as usize) {
                    let i = choose|i: int| 0 <= i < before.len() && before[i] == t as usize;
                    assert(used[i] == t as usize);
                }
            } else if used.len() > before.len() {
                assert(used[used.len() - 1] == t as usize);
            }
        }
    }
}

/// The bar fills its rows with the first of its templates that are not blank, in their order; one is
/// left out only where the rows are used up by those before it. Where none is left, one line is filled
/// with the compact one.
pub proof fn law_bars_use_their_first_templates(blank: Seq<bool>, rows: int)
    requires
        blank.len() <= usize::MAX,
        rows >= 0,
    ensures
        ({
            let used = used_templates(blank, rows, blank.len() as int);
            &&& used.len() <= rows
            &&& forall|i: int| 0 <= i < used.len() ==> (#[trigger] used[i]) < blank.len() && !blank[used[i] as int]
            &&& forall|i: int, j: int| 0 <= i < j < used.len() ==> used[i] < used[j]
            &&& forall|t: int|
                #![trigger blank[t]]
                0 <= t < blank.len() && !blank[t] && !used.contains(t as usize) ==> used.len() == rows && forall|i: int|
                    0 <= i < used.len() ==> #[trigger] used[i] < t
            &&& used.len() == 0 ==> line_templates(blank, rows) == seq![BarTemplate::Compact]
            &&& used.len() > 0 ==> line_templates(blank, rows).len() == used.len() && forall|i: int|
                0 <= i < used.len() ==> line_templates(blank, rows)[i] == BarTemplate::Own(#[trigger] used[i])
        }),
{
    lemma_used_templates(blank, rows, blank.len() as int);
}

/// The bar is used up: its slots begin at its left edge, each is as wide as an item or as the room that
/// is left, and the next begins right behind it, or three columns on where a separator stands between.
/// Agents are left out only where the bar is full.
pub proof fn law_bars_are_used_up(x: int, end: int, idx: int, n: int, item_width: int, i: int)
    requires
        0 <= x,
        end <= u16::MAX,
        0 <= idx,
        n <= usize::MAX,
        0 <= item_width,
        0 <= i < slots(x, end, idx, n, item_width).len(),
    ensures
        ({
            let ss = slots(x, end, idx, n, item_width);
            let s = ss[i];
            &&& ss[0].x == x && ss[0].idx == idx
            &&& item_width <= end - s.x ==> s.width == item_width
            &&& item_width > end - s.x ==> s.width == end - s.x
            &&& s.parted <==> s.x + s.width + 2 < end && s.idx + 1 < n
            &&& i + 1 < ss.len() ==> ss[i + 1].idx == s.idx + 1 && ss[i + 1].x == s.x + s.width + (if s.parted {
                3int
            } else {
                0int
            })
            &&& i + 1 == ss.len() ==> s.idx + 1 == n || s.x + s.width + (if s.parted {
                3int
            } else {
                0int
            }) >= end
        }),
    decreases n - idx,
{
    let ss = slots(x, end, idx, n, item_width);
    let width = chrome::least(end - x, item_width);
    let parted = x + width + 2 < end && idx + 1 < n;
    let next = x + width + (if parted {
        3int
    } else {
        0
    });
    let rest = slots(next, end, idx + 1, n, item_width);
    assert(ss.skip(1) =~= rest);
    if i > 0 {
        law_bars_are_used_up(next, end, idx + 1, n, item_width, i - 1);
        assert(ss[i] == rest[i - 1]);
        if i + 1 < ss.len() {
            assert(ss[i + 1] == rest[i]);
        }
    } else if ss.len() > 1 {
        law_bars_are_used_up(next, end, idx + 1, n, item_width, 0);
        assert(ss[1] == rest[0]);
    }
}

proof fn lemma_drawn(items: Seq<Seq<Seq<SpanModel>>>, from: int)
    requires
        0 <= from <= items.len(),
    ensures
        from <= drawn(items, from) <= items.len(),
        forall|i: int| from <= i < drawn(items, from) ==> has_content(#[trigger] items[i]),
        drawn(items, from) < items.len() ==> !has_content(items[drawn(items, from)]),
    decreases items.len() - from,
{
    if from < items.len() && has_content(items[from]) {
        lemma_drawn(items, from + 1);
    }
}

/// Items are drawn up to the first that shows nothing but white space, and that one not.
pub proof fn law_bars_end_at_a_gap(items: Seq<Seq<Seq<SpanModel>>>)
    ensures
        0 <= drawn(items, 0) <= items.len(),
        forall|i: int|
            0 <= i < drawn(items, 0) ==> exists|l: int, k: int|
                #![trigger items[i][l][k]]
                0 <= l < (#[trigger] items[i]).len() && 0 <= k < items[i][l].len() && text::trimmed(
                    items[i][l][k].content,
                ).len() > 0,
        drawn(items, 0) < items.len() ==> forall|l: int, k: int|
            #![trigger items[drawn(items, 0)][l][k]]
            0 <= l < items[drawn(items, 0)].len() && 0 <= k < items[drawn(items, 0)][l].len() ==> text::trimmed(
                items[drawn(items, 0)][l][k].content,
            ).len() == 0,
{
    lemma_drawn(items, 0);
    assert forall|i: int| 0 <= i < drawn(items, 0) implies exists|l: int, k: int|
        #![trigger items[i][l][k]]
        0 <= l < (#[trigger] items[i]).len() && 0 <= k < items[i][l].len() && text::trimmed(
            items[i][l][k].content,
        ).len() > 0 by {
        assert(has_content(items[i]));
        let l = choose|l: int| 0 <= l < items[i].len() && telling(#[trigger] items[i][l]);
        let k = choose|k: int| 0 <= k < items[i][l].len() && text::trimmed((#[trigger] items[i][l][k]).content).len() > 0;
        assert(text::trimmed(items[i][l][k].content).len() > 0);
    }
    let d = drawn(items, 0);
    if d < items.len() {
        assert forall|l: int, k: int|
            #![trigger items[d][l][k]]
            0 <= l < items[d].len() && 0 <= k < items[d][l].len() implies text::trimmed(items[d][l][k].content).len()
            == 0 by {
            if text::trimmed(items[d][l][k].content).len() > 0 {
                assert(telling(items[d][l]));
                assert(has_content(items[d]));
            }
        }
    }
}

/// An item fills its slot, and stands on the colour of the selection, all of it, exactly where it is
/// selected.
pub proof fn law_selected_items_stand_out(p: Palette, line: Seq<SpanModel>, width: nat)
    requires
        style::columns_of(' ') == 1,
        style::span_columns(line) <= width,
        forall|i: int| 0 <= i < line.len() ==> (#[trigger] line[i]).style.bg is None,
    ensures
        style::span_columns(item_line(p, line, width, false)) == width,
        forall|i: int|
            0 <= i < item_line(p, line, width, true).len() ==> (#[trigger] item_line(p, line, width, true)[i]).style.bg
                == Some(p.highlight_row_bg),
        forall|i: int|
            0 <= i < item_line(p, line, width, false).len() ==> (#[trigger] item_line(
                p,
                line,
                width,
                false,
            )[i]).style.bg is None,
        item_line(p, line, width, false).take(line.len() as int) == line,
{
    style::law_padded_lines_fill_the_width(line, width, None);
    style::law_padded_lines_fill_the_width(
        style::backed(line, p.highlight_row_bg),
        width,
        Some(p.highlight_row_bg),
    );
    if style::span_columns(line) == width {
        assert(line.take(line.len() as int) =~= line);
    }
}

/// The mouse finds an item from the first to the last column of its slot.
pub proof fn law_items_are_found_in_their_slot(ss: Seq<BarSlot>, k: int, i: int)
    requires
        0 <= i < k <= ss.len(),
        ss[i].x + ss[i].width <= u16::MAX,
    ensures
        hitboxes(ss, k).len() == k,
        hitboxes(ss, k)[i].idx == ss[i].idx,
        hitboxes(ss, k)[i].x_start == ss[i].x,
        hitboxes(ss, k)[i].x_end == ss[i].x + ss[i].width,
{
}

/// The bar begins with the first visible agent, or with the last one where that is gone; its items end
/// where it ends.
pub proof fn law_bars_begin_where_they_were_scrolled(app: SidebarApp, area: Area)
    requires
        app.agents@.len() > 0,
    ensures
        app.first_visible_agent_idx < app.agents@.len() ==> app.bar_start() == app.first_visible_agent_idx,
        app.first_visible_agent_idx >= app.agents@.len() ==> app.bar_start() == app.agents@.len() - 1,
        area.x + area.width <= 0xffff ==> right_of(area) == area.x + area.width,
{
}

/// A row of the bar grows by one item at a time: its line, and a bar between blanks where it is parted
/// from the next.
pub proof fn law_items_are_drawn_in_turn(
    p: Palette,
    ss: Seq<BarSlot>,
    items: Seq<Seq<Seq<SpanModel>>>,
    selected: Option<usize>,
    row: int,
    k: int,
)
    requires
        0 <= k < ss.len(),
    ensures
        bar_row(p, ss, items, selected, row, 0).len() == 0,
        ({
            let before = bar_row(p, ss, items, selected, row, k);
            let line = item_line(p, items[k][row], ss[k].width as nat, selected == Some(ss[k].idx));
            let after = bar_row(p, ss, items, selected, row, k + 1);
            &&& !ss[k].parted ==> after == before + line
            &&& ss[k].parted ==> after.len() == before.len() + line.len() + 3 && after.take(after.len() - 3) == before
                + line && after[after.len() - 3].content == seq![' '] && after[after.len() - 2].content == seq![
                '\u{2502}',
            ] && after[after.len() - 2].style.fg == Some(p.border) && after[after.len() - 1].content == seq![' ']
        }),
{
    reveal_strlit(" ");
    reveal_strlit("│");
    assert(" "@ =~= seq![' ']);
    assert("│"@ =~= seq!['\u{2502}']);
    let before = bar_row(p, ss, items, selected, row, k);
    let line = item_line(p, items[k][row], ss[k].width as nat, selected == Some(ss[k].idx));
    let after = bar_row(p, ss, items, selected, row, k + 1);
    if ss[k].parted {
        assert(after.take(after.len() - 3) =~= before + line);
    } else {
        assert(after =~= before + line);
    }
}

} // verus!
