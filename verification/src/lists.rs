//! The lines of a vertical list: one per row, or tiles.

use vstd::prelude::*;

use crate::app::{Area, SidebarApp};
use crate::chrome;
use crate::context;
use crate::context::RowContext;
use crate::rows;
use crate::rows::{RowModel, SidebarRow};
use crate::selection::ListState;
use crate::style;
use crate::style::{Palette, Span, SpanModel, Style};
use crate::templates::TokenId;
use crate::text;
use crate::viewport;
use crate::viewport::TileViewport;

verus! {

// ── What rows are made from ─────────────────────────────────────

/// Templates filled in for one row: the lines of an agent, or the header of a group.
pub open spec fn part_models(parts: Seq<Vec<Vec<Span>>>) -> Seq<Seq<Seq<SpanModel>>> {
    Seq::new(parts.len(), |i: int| chrome::line_models(parts[i]@))
}

/// Whether there is a part for every row that a template is filled in for, and a context for
/// every agent.
pub open spec fn parts_match(app: SidebarApp, contexts: Seq<RowContext>, parts: Seq<Vec<Vec<Span>>>, lines: int) -> bool {
    &&& contexts.len() == app.agents@.len()
    &&& parts.len() == app.rows@.len()
    &&& forall|i: int|
        0 <= i < app.rows@.len() ==> match (#[trigger] app.rows@[i]) {
            SidebarRow::Agent(idx) => idx < app.agents@.len() && parts[i]@.len() == lines,
            SidebarRow::Header { .. } => parts[i]@.len() >= 1,
            SidebarRow::StaleGroup { .. } => parts[i]@.len() >= 1,
            _ => true,
        }
}

// ── Compact rows ────────────────────────────────────────────────

/// One row of a compact list.
pub open spec fn compact_row(
    app: SidebarApp,
    contexts: Seq<RowContext>,
    part: Seq<Seq<SpanModel>>,
    row: int,
    width: nat,
) -> Seq<SpanModel> {
    let p = app.palette;
    let selected = app.list_state.selected == Some(row as usize);
    match app.rows@[row]@ {
        RowModel::Agent(i) => if contexts[i].is_selected {
            style::backed(part[0], p.highlight_row_bg)
        } else {
            part[0]
        },
        RowModel::Header { .. } => chrome::header_band(p, part[0], width),
        RowModel::Rule { label } => chrome::rule(p, label, width),
        RowModel::StaleTail { count, expanded, .. } => chrome::stale_tail(p, count, expanded, selected, width),
        RowModel::StaleGroup { expanded, .. } => chrome::stale_group(p, part[0], expanded, selected, width),
    }
}

fn compact_line(app: &SidebarApp, contexts: &Vec<RowContext>, part: &Vec<Vec<Span>>, row: usize, width: usize) -> (r: Vec<
    Span,
>)
    requires
        row < app.rows@.len(),
        match app.rows@[row as int] {
            SidebarRow::Agent(idx) => idx < contexts@.len() && part@.len() == 1,
            SidebarRow::Header { .. } => part@.len() >= 1,
            SidebarRow::StaleGroup { .. } => part@.len() >= 1,
            _ => true,
        },
    ensures
        style::models(r@) == compact_row(*app, contexts@, chrome::line_models(part@), row as int, width as nat),
{
    let selected = app.list_state.selected == Some(row);
    match &app.rows[row] {
        SidebarRow::Agent(idx) => {
            let mut spans = style::copy_spans(&part[0]);
            if contexts[*idx].is_selected {
                style::apply_selection_bg(&mut spans, app.palette.highlight_row_bg);
            }
            spans
        },
        SidebarRow::Header { .. } => chrome::header_line(&app.palette, &part[0], width),
        SidebarRow::Rule { label } => chrome::labeled_rule(&app.palette, label.as_str(), width),
        SidebarRow::StaleTail { count, expanded, .. } => chrome::stale_tail_line(
            &app.palette,
            *count,
            *expanded,
            selected,
            width,
        ),
        SidebarRow::StaleGroup { expanded, .. } => chrome::stale_group_line(
            &app.palette,
            &part[0],
            *expanded,
            selected,
            width,
        ),
    }
}

/// Lays out the rows of a compact list. `parts` holds, for each row, the compact template of its
/// agent, or the header template of its group.
pub fn compact_items(app: &SidebarApp, contexts: &Vec<RowContext>, parts: &Vec<Vec<Vec<Span>>>, width: usize) -> (r: Vec<
    Vec<Span>,
>)
    requires
        parts_match(*app, contexts@, parts@, 1),
    ensures
        r@.len() == app.rows@.len(),
        forall|i: int|
            0 <= i < app.rows@.len() ==> style::models((#[trigger] r@[i])@) == compact_row(
                *app,
                contexts@,
                part_models(parts@)[i],
                i,
                width as nat,
            ),
{
    let n: usize = app.rows.len();
    let mut r: Vec<Vec<Span>> = Vec::new();
    let mut i: usize = 0;
    while i < n
        invariant
            n == app.rows@.len(),
            parts_match(*app, contexts@, parts@, 1),
            i <= n,
            r@.len() == i,
            forall|j: int|
                0 <= j < i ==> style::models((#[trigger] r@[j])@) == compact_row(
                    *app,
                    contexts@,
                    part_models(parts@)[j],
                    j,
                    width as nat,
                ),
        decreases n - i,
    {
        let line = compact_line(app, contexts, &parts[i], i, width);
        r.push(line);
        i += 1;
    }
    r
}

/// The columns that the status icons of a compact list take: those of the widest.
pub open spec fn widest_icon(contexts: Seq<RowContext>) -> usize
    decreases contexts.len(),
{
    if contexts.len() == 0 {
        0
    } else {
        let before = widest_icon(contexts.drop_last());
        let w = context::row_width(contexts.last(), TokenId::StatusIcon);
        if w > before {
            w
        } else {
            before
        }
    }
}

pub fn status_icon_width(contexts: &Vec<RowContext>) -> (r: usize)
    ensures
        r == widest_icon(contexts@),
{
    let mut widest: usize = 0;
    let mut i: usize = 0;
    proof {
        assert(contexts@.take(0) =~= Seq::empty());
    }
    while i < contexts.len()
        invariant
            i <= contexts@.len(),
            widest == widest_icon(contexts@.take(i as int)),
        decreases contexts.len() - i,
    {
        let w = contexts[i].natural_width(TokenId::StatusIcon);
        if w > widest {
            widest = w;
        }
        proof {
            assert(contexts@.take(i + 1).drop_last() =~= contexts@.take(i as int));
        }
        i += 1;
    }
    proof {
        assert(contexts@.take(i as int) =~= contexts@);
    }
    widest
}

/// The pinned header of a compact list, none where the row heads no group.
pub open spec fn compact_pin(p: Palette, m: RowModel, header: Seq<SpanModel>, width: nat) -> Option<Seq<SpanModel>> {
    match m {
        RowModel::Header { .. } => Some(chrome::header_band(p, header, width)),
        RowModel::StaleGroup { expanded, .. } => Some(chrome::stale_group(p, header, expanded, false, width)),
        _ => None,
    }
}

pub fn pinned_compact(palette: &Palette, row: &SidebarRow, header: &Vec<Span>, width: usize) -> (r: Option<Vec<Span>>)
    ensures
        match r {
            Some(line) => Some(style::models(line@)) == compact_pin(
                *palette,
                row@,
                style::models(header@),
                width as nat,
            ),
            None => compact_pin(*palette, row@, style::models(header@), width as nat) is None,
        },
{
    match row {
        SidebarRow::Header { .. } => Some(chrome::header_line(palette, header, width)),
        SidebarRow::StaleGroup { expanded, .. } => Some(
            chrome::stale_group_line(palette, header, *expanded, false, width),
        ),
        _ => None,
    }
}

/// The columns that the header of a group is filled in for among tiles: a stripe takes one, except
/// where the header of a group without live agents is pinned.
pub open spec fn head_columns(m: RowModel, pinned: bool, width: nat) -> nat {
    if pinned && m is StaleGroup || width == 0 {
        width
    } else {
        (width - 1) as nat
    }
}

pub fn tile_head_width(row: &SidebarRow, pinned: bool, width: usize) -> (r: usize)
    ensures
        r == head_columns(row@, pinned, width as nat),
{
    if pinned && matches!(row, SidebarRow::StaleGroup { .. }) {
        width
    } else {
        width.saturating_sub(1)
    }
}

/// The pinned header of a list of tiles, none where the row heads no group.
pub open spec fn tile_pin(p: Palette, m: RowModel, header: Seq<SpanModel>, width: nat) -> Option<Seq<Seq<SpanModel>>> {
    match m {
        RowModel::Header { .. } => Some(chrome::tile_header(p, header, width, true)),
        RowModel::StaleGroup { expanded, .. } => Some(seq![chrome::stale_group(p, header, expanded, false, width)]),
        _ => None,
    }
}

pub fn pinned_tile(palette: &Palette, row: &SidebarRow, header: &Vec<Span>, width: usize) -> (r: Option<Vec<Vec<Span>>>)
    ensures
        match r {
            Some(lines) => Some(chrome::line_models(lines@)) == tile_pin(
                *palette,
                row@,
                style::models(header@),
                width as nat,
            ),
            None => tile_pin(*palette, row@, style::models(header@), width as nat) is None,
        },
{
    match row {
        SidebarRow::Header { .. } => Some(chrome::tile_header_lines(palette, header, width, true)),
        SidebarRow::StaleGroup { expanded, .. } => {
            let mut lines: Vec<Vec<Span>> = Vec::new();
            lines.push(chrome::stale_group_line(palette, header, *expanded, false, width));
            proof {
                assert(chrome::line_models(lines@) =~= seq![
                    chrome::stale_group(*palette, style::models(header@), *expanded, false, width as nat),
                ]);
            }
            Some(lines)
        },
        _ => None,
    }
}

// ── Tiles ───────────────────────────────────────────────────────

/// The columns that the templates of a tile are filled in for: a stripe, the icon, a gap and the
/// right margin are drawn beside them.
pub fn tile_body_width(width: usize) -> (r: usize)
    ensures
        r == body_columns(width as nat),
{
    width.saturating_sub(6)
}

pub open spec fn body_columns(width: nat) -> nat {
    if width >= 6 {
        (width - 6) as nat
    } else {
        0
    }
}

/// The stripe along a tile.
pub open spec fn stripe(p: Palette, ctx: RowContext) -> SpanModel {
    let color = if ctx.is_stale {
        p.dimmed
    } else {
        ctx.status_color
    };
    style::span(
        "▌ "@,
        Style {
            bg: if ctx.is_selected {
                Some(p.highlight_row_bg)
            } else {
                None
            },
            ..Style::colored(color)
        },
    )
}

/// The icon column of a tile: the status icon on its first line, filled up to two columns, blanks
/// below.
pub open spec fn icon_column(ctx: RowContext, first: bool) -> Seq<SpanModel> {
    if first {
        let icon = style::models(ctx.status_icon_spans@);
        let cols = style::span_columns(icon);
        icon.push(
            style::span(
                style::repeated(
                    ' ',
                    if cols < 2 {
                        (2 - cols) as nat
                    } else {
                        0
                    },
                ),
                Style::plain(),
            ),
        )
    } else {
        seq![style::span("  "@, Style::plain())]
    }
}

/// One line of a tile. A template that sets a background keeps it where the tile is selected.
pub open spec fn tile_line(p: Palette, ctx: RowContext, body: Seq<SpanModel>, first: bool) -> Seq<SpanModel> {
    let spans = seq![stripe(p, ctx)] + icon_column(ctx, first) + seq![style::span(" "@, Style::plain())] + body
        + seq![style::span(" "@, Style::plain())];
    if ctx.is_selected {
        style::backed(spans, p.highlight_row_bg)
    } else {
        spans
    }
}

fn tile_line_spans(palette: &Palette, ctx: &RowContext, body: &Vec<Span>, first: bool) -> (r: Vec<Span>)
    ensures
        style::models(r@) == tile_line(*palette, *ctx, style::models(body@), first),
{
    let mut spans = stripe_span(palette, ctx);
    if first {
        style::push_all(&mut spans, &ctx.status_icon_spans);
        let cols: u128 = style::spans_width(&ctx.status_icon_spans);
        let pad: usize = if cols < 2 {
            2 - cols as usize
        } else {
            0
        };
        style::push_span(&mut spans, style::repeat(' ', pad), Style::new());
    } else {
        style::push_span(&mut spans, "  ".to_owned(), Style::new());
    }
    style::push_span(&mut spans, " ".to_owned(), Style::new());
    style::push_all(&mut spans, body);
    style::push_span(&mut spans, " ".to_owned(), Style::new());
    proof {
        assert(style::models(spans@) =~= seq![stripe(*palette, *ctx)] + icon_column(*ctx, first) + seq![
            style::span(" "@, Style::plain()),
        ] + style::models(body@) + seq![style::span(" "@, Style::plain())]);
    }
    if ctx.is_selected {
        style::apply_selection_bg(&mut spans, palette.highlight_row_bg);
    }
    spans
}

fn stripe_span(palette: &Palette, ctx: &RowContext) -> (r: Vec<Span>)
    ensures
        style::models(r@) == seq![stripe(*palette, *ctx)],
{
    let color = if ctx.is_stale {
        palette.dimmed
    } else {
        ctx.status_color
    };
    let bg = if ctx.is_selected {
        Some(palette.highlight_row_bg)
    } else {
        None
    };
    let look = Style { bg, ..Style::fg(color) };
    let mut r: Vec<Span> = Vec::new();
    style::push_span(&mut r, "▌ ".to_owned(), look);
    proof {
        assert(style::models(r@) =~= seq![stripe(*palette, *ctx)]);
    }
    r
}

/// The lines of a tile from its first `k` templates. Blank templates take no line, and a collapsed
/// tile keeps one line only.
pub open spec fn tile_lines(
    p: Palette,
    ctx: RowContext,
    bodies: Seq<Seq<SpanModel>>,
    blank: Seq<bool>,
    collapsed: bool,
    k: int,
) -> Seq<Seq<SpanModel>>
    decreases k,
{
    if k <= 0 {
        seq![]
    } else {
        let before = tile_lines(p, ctx, bodies, blank, collapsed, k - 1);
        if blank[k - 1] || (collapsed && before.len() > 0) {
            before
        } else {
            before.push(tile_line(p, ctx, bodies[k - 1], k == 1))
        }
    }
}

/// What a tile without any lines draws.
pub open spec fn blank_tile(p: Palette, ctx: RowContext, body: nat) -> Seq<SpanModel> {
    seq![
        stripe(p, ctx),
        style::span("  "@, Style::plain()),
        style::span(" "@, Style::plain()),
        style::span(style::repeated(' ', body), Style::plain()),
        style::span(" "@, Style::plain()),
    ]
}

/// The lines of an agent's tile, without dividers: at least one.
pub open spec fn agent_tile(
    p: Palette,
    ctx: RowContext,
    bodies: Seq<Seq<SpanModel>>,
    blank: Seq<bool>,
    collapsed: bool,
    body: nat,
) -> Seq<Seq<SpanModel>> {
    let lines = tile_lines(p, ctx, bodies, blank, collapsed, bodies.len() as int);
    if lines.len() == 0 {
        seq![blank_tile(p, ctx, body)]
    } else {
        lines
    }
}

fn push_agent_tile(
    lines: &mut Vec<Vec<Span>>,
    palette: &Palette,
    ctx: &RowContext,
    bodies: &Vec<Vec<Span>>,
    blank: &Vec<bool>,
    collapsed: bool,
    body: usize,
)
    requires
        bodies@.len() == blank@.len(),
    ensures
        chrome::line_models(final(lines)@) == chrome::line_models(old(lines)@) + agent_tile(
            *palette,
            *ctx,
            chrome::line_models(bodies@),
            blank@,
            collapsed,
            body as nat,
        ),
{
    let ghost before = chrome::line_models(lines@);
    let ghost bs = chrome::line_models(bodies@);
    let n: usize = bodies.len();
    let mut shown = false;
    let mut k: usize = 0;
    proof {
        assert(before + Seq::<Seq<SpanModel>>::empty() =~= before);
    }
    while k < n
        invariant
            n == bodies@.len() == blank@.len(),
            bs == chrome::line_models(bodies@),
            k <= n,
            chrome::line_models(lines@) == before + tile_lines(*palette, *ctx, bs, blank@, collapsed, k as int),
            shown == (tile_lines(*palette, *ctx, bs, blank@, collapsed, k as int).len() > 0),
        decreases n - k,
    {
        if !blank[k] && !(collapsed && shown) {
            let line = tile_line_spans(palette, ctx, &bodies[k], k == 0);
            let ghost was = chrome::line_models(lines@);
            lines.push(line);
            shown = true;
            proof {
                assert(chrome::line_models(lines@) =~= was.push(style::models(line@)));
                assert(chrome::line_models(lines@) =~= before + tile_lines(
                    *palette,
                    *ctx,
                    bs,
                    blank@,
                    collapsed,
                    k + 1,
                ));
            }
        }
        k += 1;
    }
    if !shown {
        let mut line = stripe_span(palette, ctx);
        style::push_span(&mut line, "  ".to_owned(), Style::new());
        style::push_span(&mut line, " ".to_owned(), Style::new());
        style::push_span(&mut line, style::repeat(' ', body), Style::new());
        style::push_span(&mut line, " ".to_owned(), Style::new());
        let ghost was = chrome::line_models(lines@);
        lines.push(line);
        proof {
            assert(style::models(line@) =~= blank_tile(*palette, *ctx, body as nat));
            assert(chrome::line_models(lines@) =~= was.push(style::models(line@)));
            assert(chrome::line_models(lines@) =~= before + agent_tile(
                *palette,
                *ctx,
                bs,
                blank@,
                collapsed,
                body as nat,
            ));
        }
    }
}

/// Whether an agent folds.
pub open spec fn collapsed(app: SidebarApp, agent: int) -> bool {
    app.collapse_stale && app.stale_pane_ids@.contains(app.agents@[agent].pane_id@)
}

/// Whether a divider stands above a row. One parts an agent from the agent before, unless both
/// are collapsed, a fold from the agents before, and a group from what is before, unless that is
/// a rule.
pub open spec fn divided(app: SidebarApp, row: int) -> bool {
    if row <= 0 {
        false
    } else {
        let above = app.rows@[row - 1]@;
        match app.rows@[row]@ {
            RowModel::Agent(i) => above matches RowModel::Agent(j) && !(collapsed(app, i) && collapsed(app, j)),
            RowModel::StaleTail { .. } => above is Agent,
            RowModel::Header { .. } => !(above is Rule),
            RowModel::StaleGroup { .. } => !(above is Rule),
            RowModel::Rule { .. } => false,
        }
    }
}

/// One row of a list of tiles, without dividers.
pub open spec fn tile_content(
    app: SidebarApp,
    contexts: Seq<RowContext>,
    part: Seq<Seq<SpanModel>>,
    blank: Seq<bool>,
    row: int,
    width: nat,
) -> Seq<Seq<SpanModel>> {
    let p = app.palette;
    let selected = app.list_state.selected == Some(row as usize);
    match app.rows@[row]@ {
        RowModel::Agent(i) => agent_tile(p, contexts[i], part, blank, collapsed(app, i), body_columns(width)),
        RowModel::Header { .. } => chrome::tile_header(p, part[0], width, true),
        RowModel::Rule { label } => seq![chrome::rule(p, label, width)],
        RowModel::StaleTail { count, expanded, .. } => seq![chrome::stale_tail(p, count, expanded, selected, width)],
        RowModel::StaleGroup { expanded, .. } => seq![
            style::padded(
                chrome::stale_group(p, part[0], expanded, selected, chrome::before_margin(width)),
                width,
                Some(chrome::fold_bg(p, selected)),
            ),
        ],
    }
}

/// Whether a divider closes the list: below a last row that is an agent or a fold.
pub open spec fn closed_off(app: SidebarApp, row: int) -> bool {
    row == app.rows@.len() - 1 && (app.rows@[row]@ is Agent || app.rows@[row]@ is StaleTail)
}

/// One row of a list of tiles.
pub open spec fn tile_row(
    app: SidebarApp,
    contexts: Seq<RowContext>,
    part: Seq<Seq<SpanModel>>,
    blank: Seq<bool>,
    row: int,
    width: nat,
) -> Seq<Seq<SpanModel>> {
    (if divided(app, row) {
        seq![chrome::divider(app.palette, width)]
    } else {
        seq![]
    }) + tile_content(app, contexts, part, blank, row, width) + (if closed_off(app, row) {
        seq![chrome::divider(app.palette, width)]
    } else {
        seq![]
    })
}

fn is_divided(app: &SidebarApp, row: usize) -> (r: bool)
    requires
        row < app.rows@.len(),
        forall|i: int|
            0 <= i < app.rows@.len() ==> ((#[trigger] app.rows@[i]) matches SidebarRow::Agent(idx) ==> idx
                < app.agents@.len()),
    ensures
        r == divided(*app, row as int),
{
    if row == 0 {
        return false;
    }
    let above = &app.rows[row - 1];
    match &app.rows[row] {
        SidebarRow::Agent(i) => match above {
            SidebarRow::Agent(j) => !(app.renders_collapsed(&app.agents[*i]) && app.renders_collapsed(&app.agents[*j])),
            _ => false,
        },
        SidebarRow::StaleTail { .. } => matches!(above, SidebarRow::Agent(_)),
        SidebarRow::Header { .. } | SidebarRow::StaleGroup { .. } => !matches!(above, SidebarRow::Rule { .. }),
        SidebarRow::Rule { .. } => false,
    }
}

fn push_line(lines: &mut Vec<Vec<Span>>, line: Vec<Span>)
    ensures
        chrome::line_models(final(lines)@) == chrome::line_models(old(lines)@).push(style::models(line@)),
{
    let ghost before = chrome::line_models(lines@);
    lines.push(line);
    proof {
        assert(chrome::line_models(lines@) =~= before.push(style::models(line@)));
    }
}

fn push_tile_content(
    lines: &mut Vec<Vec<Span>>,
    app: &SidebarApp,
    contexts: &Vec<RowContext>,
    part: &Vec<Vec<Span>>,
    blank: &Vec<bool>,
    row: usize,
    width: usize,
)
    requires
        row < app.rows@.len(),
        contexts@.len() == app.agents@.len(),
        match app.rows@[row as int] {
            SidebarRow::Agent(idx) => idx < contexts@.len() && part@.len() == blank@.len(),
            SidebarRow::Header { .. } => part@.len() >= 1,
            SidebarRow::StaleGroup { .. } => part@.len() >= 1,
            _ => true,
        },
    ensures
        chrome::line_models(final(lines)@) == chrome::line_models(old(lines)@) + tile_content(
            *app,
            contexts@,
            chrome::line_models(part@),
            blank@,
            row as int,
            width as nat,
        ),
{
    let ghost before = chrome::line_models(lines@);
    let p = &app.palette;
    let selected = app.list_state.selected == Some(row);
    match &app.rows[row] {
        SidebarRow::Agent(i) => {
            let folds = app.renders_collapsed(&app.agents[*i]);
            push_agent_tile(lines, p, &contexts[*i], part, blank, folds, tile_body_width(width));
        },
        SidebarRow::Header { .. } => {
            let mut head = chrome::tile_header_lines(p, &part[0], width, true);
            proof {
                assert(chrome::line_models(head@).len() == head@.len());
            }
            let line = head.remove(0);
            push_line(lines, line);
            proof {
                let m = chrome::tile_header(*p, style::models(part@[0]@), width as nat, true);
                assert(m[0] == style::models(line@));
                assert(before.push(style::models(line@)) =~= before + m);
            }
        },
        SidebarRow::Rule { label } => {
            push_line(lines, chrome::labeled_rule(p, label.as_str(), width));
            proof {
                assert(chrome::line_models(lines@) =~= before + seq![chrome::rule(*p, label@, width as nat)]);
            }
        },
        SidebarRow::StaleTail { count, expanded, .. } => {
            push_line(lines, chrome::stale_tail_line(p, *count, *expanded, selected, width));
            proof {
                assert(chrome::line_models(lines@) =~= before + seq![
                    chrome::stale_tail(*p, *count as nat, *expanded, selected, width as nat),
                ]);
            }
        },
        SidebarRow::StaleGroup { expanded, .. } => {
            let mut spans = chrome::stale_group_line(p, &part[0], *expanded, selected, width.saturating_sub(1));
            let bg = if selected {
                p.highlight_row_bg
            } else {
                p.group_band_bg
            };
            style::pad_spans_to_width(&mut spans, width, Some(bg));
            push_line(lines, spans);
            proof {
                assert(chrome::line_models(lines@) =~= before + seq![style::models(spans@)]);
            }
        },
    }
}

/// Lays out one row of a list of tiles.
pub fn tile_item(
    app: &SidebarApp,
    contexts: &Vec<RowContext>,
    part: &Vec<Vec<Span>>,
    blank: &Vec<bool>,
    row: usize,
    width: usize,
) -> (r: Vec<Vec<Span>>)
    requires
        row < app.rows@.len(),
        contexts@.len() == app.agents@.len(),
        forall|i: int|
            0 <= i < app.rows@.len() ==> ((#[trigger] app.rows@[i]) matches SidebarRow::Agent(idx) ==> idx
                < app.agents@.len()),
        match app.rows@[row as int] {
            SidebarRow::Agent(idx) => part@.len() == blank@.len(),
            SidebarRow::Header { .. } => part@.len() >= 1,
            SidebarRow::StaleGroup { .. } => part@.len() >= 1,
            _ => true,
        },
    ensures
        chrome::line_models(r@) == tile_row(
            *app,
            contexts@,
            chrome::line_models(part@),
            blank@,
            row as int,
            width as nat,
        ),
{
    let mut lines: Vec<Vec<Span>> = Vec::new();
    proof {
        assert(chrome::line_models(lines@) =~= Seq::<Seq<SpanModel>>::empty());
    }
    if is_divided(app, row) {
        push_line(&mut lines, chrome::tile_divider(&app.palette, width));
    }
    push_tile_content(&mut lines, app, contexts, part, blank, row, width);
    if row == app.rows.len() - 1 && matches!(&app.rows[row], SidebarRow::Agent(_) | SidebarRow::StaleTail { .. }) {
        push_line(&mut lines, chrome::tile_divider(&app.palette, width));
    }
    proof {
        assert(chrome::line_models(lines@) =~= tile_row(
            *app,
            contexts@,
            chrome::line_models(part@),
            blank@,
            row as int,
            width as nat,
        ));
    }
    lines
}

/// Contents of items.
pub open spec fn item_models(items: Seq<Vec<Vec<Span>>>) -> Seq<Seq<Seq<SpanModel>>> {
    Seq::new(items.len(), |i: int| chrome::line_models(items[i]@))
}

/// The rows of a list of tiles.
pub open spec fn tiles(
    app: SidebarApp,
    contexts: Seq<RowContext>,
    parts: Seq<Seq<Seq<SpanModel>>>,
    blank: Seq<bool>,
    width: nat,
) -> Seq<Seq<Seq<SpanModel>>> {
    Seq::new(app.rows@.len(), |i: int| tile_row(app, contexts, parts[i], blank, i, width))
}

/// Lays out the rows of a list of tiles. `parts` holds, for each row, the tile templates of its
/// agent filled in for `tile_body_width(width)`, or the header template of its group; `blank`
/// tells which tile templates are blank.
pub fn tile_items(
    app: &SidebarApp,
    contexts: &Vec<RowContext>,
    parts: &Vec<Vec<Vec<Span>>>,
    blank: &Vec<bool>,
    width: usize,
) -> (r: Vec<Vec<Vec<Span>>>)
    requires
        parts_match(*app, contexts@, parts@, blank@.len() as int),
    ensures
        item_models(r@) == tiles(*app, contexts@, part_models(parts@), blank@, width as nat),
{
    let n: usize = app.rows.len();
    let mut r: Vec<Vec<Vec<Span>>> = Vec::new();
    let mut i: usize = 0;
    while i < n
        invariant
            n == app.rows@.len(),
            parts_match(*app, contexts@, parts@, blank@.len() as int),
            i <= n,
            r@.len() == i,
            forall|j: int|
                0 <= j < i ==> chrome::line_models((#[trigger] r@[j])@) == tile_row(
                    *app,
                    contexts@,
                    part_models(parts@)[j],
                    blank@,
                    j,
                    width as nat,
                ),
        decreases n - i,
    {
        let item = tile_item(app, contexts, &parts[i], blank, i, width);
        r.push(item);
        i += 1;
    }
    proof {
        assert(item_models(r@) =~= tiles(*app, contexts@, part_models(parts@), blank@, width as nat));
    }
    r
}

/// The heights of items.
pub open spec fn heights_of(items: Seq<Vec<Vec<Span>>>) -> Seq<int> {
    Seq::new(items.len(), |i: int| items[i]@.len() as int)
}

pub fn item_heights(items: &Vec<Vec<Vec<Span>>>) -> (r: Vec<usize>)
    ensures
        r@.len() == items@.len(),
        forall|i: int| 0 <= i < r@.len() ==> #[trigger] r@[i] == heights_of(items@)[i],
{
    let mut r: Vec<usize> = Vec::new();
    let mut i: usize = 0;
    while i < items.len()
        invariant
            i <= items.len(),
            r@.len() == i,
            forall|j: int| 0 <= j < i ==> #[trigger] r@[j] == heights_of(items@)[j],
        decreases items.len() - i,
    {
        r.push(items[i].len());
        i += 1;
    }
    r
}

/// Every row of a list of tiles takes at least one line.
pub proof fn law_tiles_take_a_line(
    app: SidebarApp,
    contexts: Seq<RowContext>,
    part: Seq<Seq<SpanModel>>,
    blank: Seq<bool>,
    row: int,
    width: nat,
)
    ensures
        tile_row(app, contexts, part, blank, row, width).len() >= 1,
{
}

// ── Placing tiles ───────────────────────────────────────────────

/// How a list of tiles is placed: the visible tiles, and the header pinned above them. Where the
/// list opens inside a group, the group's header is pinned and takes a line, unless the smaller
/// list opens on a header of its own or leaves the selected tile out.
pub open spec fn tile_placing(
    ms: Seq<RowModel>,
    heights: Seq<usize>,
    offset: usize,
    selected: Option<usize>,
    height: int,
) -> (Option<(int, int, bool)>, Option<usize>) {
    let row = viewport::selected_or(selected, offset) as int;
    let full = viewport::visible_tiles(heights, offset as int, row, height);
    let shrunk = viewport::visible_tiles(heights, offset as int, row, height - 1);
    match (full, shrunk) {
        (Some((start, _, _)), Some((from, to, _))) => if height > 1 && viewport::agent_there(ms, start)
            && viewport::last_head(ms, start) is Some && !viewport::head_there(ms, from) && from <= row < to {
            (shrunk, viewport::last_head(ms, from))
        } else {
            (full, None)
        },
        _ => (full, None),
    }
}

/// The agents that rows stand for: one each, and those behind a closed fold.
pub open spec fn agents_behind(m: RowModel) -> nat {
    match m {
        RowModel::Agent(_) => 1,
        RowModel::StaleTail { count, expanded, .. } => if expanded {
            0
        } else {
            count
        },
        RowModel::StaleGroup { count, expanded, .. } => if expanded {
            0
        } else {
            count
        },
        _ => 0,
    }
}

/// The agents that the rows `from..to` stand for.
pub open spec fn agents_in(ms: Seq<RowModel>, from: int, to: int) -> nat
    decreases to - from,
{
    if from >= to {
        0
    } else {
        agents_in(ms, from, to - 1) + agents_behind(ms[to - 1])
    }
}

fn count_agents(rows: &Vec<SidebarRow>, from: usize) -> (r: usize)
    requires
        from <= rows@.len(),
    ensures
        r == style::capped(agents_in(rows::models(rows@), from as int, rows@.len() as int)),
{
    let ghost ms = rows::models(rows@);
    let n: usize = rows.len();
    let mut total: u128 = 0;
    let mut i: usize = from;
    while i < n
        invariant
            n == rows@.len(),
            ms == rows::models(rows@),
            from <= i <= n,
            total == agents_in(ms, from as int, i as int),
            total <= (i - from) * 0xffff_ffff_ffff_ffff,
        decreases n - i,
    {
        let behind: usize = match &rows[i] {
            SidebarRow::Agent(_) => 1,
            SidebarRow::StaleTail { count, expanded, .. } => if *expanded {
                0
            } else {
                *count
            },
            SidebarRow::StaleGroup { count, expanded, .. } => if *expanded {
                0
            } else {
                *count
            },
            _ => 0,
        };
        proof {
            assert(ms[i as int] == rows@[i as int]@);
            assert((i - from) * 0xffff_ffff_ffff_ffff <= 0xffff_ffff_ffff_ffff * 0xffff_ffff_ffff_ffff);
        }
        total = total + behind as u128;
        i += 1;
    }
    style::cap(total)
}

/// A list of tiles, placed.
pub struct TilePlan {
    pub viewport: Option<TileViewport>,
    /// The row of the header that is pinned.
    pub sticky: Option<usize>,
    /// Where the tiles are drawn.
    pub list_area: Area,
    /// The part of it that tiles fill.
    pub filled: Area,
    /// How many agents the rows below the last visible one stand for, where that is said.
    pub hidden: Option<usize>,
}

/// One where a condition holds.
pub open spec fn bit(b: bool) -> int {
    if b {
        1
    } else {
        0
    }
}

/// Whether a plan places the rows `ms` with their heights in `area`.
pub open spec fn places(
    plan: TilePlan,
    ms: Seq<RowModel>,
    heights: Seq<usize>,
    offset: usize,
    selected: Option<usize>,
    area: Area,
) -> bool {
    let (view, sticky) = tile_placing(ms, heights, offset, selected, area.height as int);
    let pin = bit(sticky is Some);
    let below = Area { y: (area.y + pin) as u16, ..area };
    &&& viewport::view_model(plan.viewport) == view
    &&& plan.sticky == sticky
    &&& match view {
        Some((start, end, more)) => {
            &&& plan.list_area == (Area { height: (area.height - pin - bit(more)) as u16, ..below })
            &&& plan.filled == (Area { height: viewport::lines_of(heights, start, end) as u16, ..below })
            &&& plan.hidden == (if more {
                Some(style::capped(agents_in(ms, end, ms.len() as int)))
            } else {
                None
            })
        },
        None => {
            &&& plan.list_area == (Area { height: (area.height - pin) as u16, ..below })
            &&& plan.filled == (Area { height: 0, ..below })
            &&& plan.hidden is None
        },
    }
}

/// Places the rows of a list of tiles.
pub fn lay_tiles(rows: &Vec<SidebarRow>, heights: &Vec<usize>, offset: usize, selected: Option<usize>, area: Area) -> (r:
    TilePlan)
    requires
        chrome::on_screen(area),
        heights@.len() == rows@.len(),
    ensures
        places(r, rows::models(rows@), heights@, offset, selected, area),
{
    let (view, sticky) = place_tiles(rows, heights, offset, selected, area.height as usize);
    proof {
        lemma_placing_fits(rows::models(rows@), heights@, offset, selected, area.height as int);
    }
    let pin: u16 = if sticky.is_some() {
        1
    } else {
        0
    };
    match view {
        Some(v) => {
            let visible = total_lines(heights, v.start, v.end, area.height);
            let more: u16 = if v.more {
                1
            } else {
                0
            };
            let hidden = if v.more {
                Some(count_agents(rows, v.end))
            } else {
                None
            };
            TilePlan {
                viewport: Some(v),
                sticky,
                list_area: Area { y: area.y + pin, height: area.height - pin - more, ..area },
                filled: Area { y: area.y + pin, height: visible, ..area },
                hidden,
            }
        },
        None => TilePlan {
            viewport: None,
            sticky,
            list_area: Area { y: area.y + pin, height: area.height - pin, ..area },
            filled: Area { y: area.y + pin, height: 0, ..area },
            hidden: None,
        },
    }
}

impl SidebarApp {
    /// Places a list of tiles in `area`. The mouse reaches what tiles fill, and neither the pinned
    /// header nor the line that counts the hidden agents.
    pub fn plan_tiles(&mut self, heights: Vec<usize>, area: Area) -> (r: TilePlan)
        requires
            chrome::on_screen(area),
            heights@.len() == old(self).rows@.len(),
        ensures
            places(
                r,
                rows::models(old(self).rows@),
                heights@,
                old(self).list_state.offset,
                old(self).list_state.selected,
                area,
            ),
            *final(self) == (SidebarApp {
                tile_heights: heights,
                list_state: ListState {
                    offset: match r.viewport {
                        Some(view) => view.start,
                        None => old(self).list_state.offset,
                    },
                    ..old(self).list_state
                },
                list_area: r.filled,
                ..*old(self)
            }),
    {
        let plan = lay_tiles(&self.rows, &heights, self.list_state.offset, self.list_state.selected, area);
        match &plan.viewport {
            Some(v) => {
                self.list_state.offset = v.start;
            },
            None => {},
        }
        self.tile_heights = heights;
        self.list_area = plan.filled;
        plan
    }
}

fn total_lines(heights: &Vec<usize>, from: usize, to: usize, max: u16) -> (r: u16)
    requires
        from <= to <= heights@.len(),
        viewport::lines_of(heights@, from as int, to as int) <= max,
    ensures
        r == viewport::lines_of(heights@, from as int, to as int),
{
    let mut total: u16 = 0;
    let mut i: usize = from;
    while i < to
        invariant
            from <= i <= to <= heights@.len(),
            total == viewport::lines_of(heights@, from as int, i as int),
            viewport::lines_of(heights@, from as int, to as int) <= max,
        decreases to - i,
    {
        proof {
            lemma_lines_grow(heights@, from as int, i + 1, to as int);
        }
        total = total + heights[i] as u16;
        i += 1;
    }
    total
}

proof fn lemma_lines_grow(heights: Seq<usize>, from: int, to: int, further: int)
    requires
        from <= to <= further,
    ensures
        viewport::lines_of(heights, from, to) <= viewport::lines_of(heights, from, further),
    decreases further - to,
{
    if to < further {
        lemma_lines_grow(heights, from, to, further - 1);
    }
}

/// What is placed fits: the pinned header, the tiles and the line that counts the hidden agents.
proof fn lemma_placing_fits(ms: Seq<RowModel>, heights: Seq<usize>, offset: usize, selected: Option<usize>, height: int)
    requires
        0 <= height,
    ensures
        ({
            let (view, sticky) = tile_placing(ms, heights, offset, selected, height);
            match view {
                Some((start, end, more)) => {
                    &&& 0 <= start <= end <= heights.len()
                    &&& viewport::lines_of(heights, start, end) + bit(more) + bit(sticky is Some) <= height
                },
                None => sticky is None,
            }
        }),
{
    if heights.len() > 0 {
        let row = viewport::selected_or(selected, offset) as int;
        let sel = chrome::least(row, heights.len() - 1);
        viewport::law_viewports_show_the_selection(heights, offset as int, sel, height);
        assert(viewport::visible_tiles(heights, offset as int, sel, height) == viewport::visible_tiles(
            heights,
            offset as int,
            row,
            height,
        ));
        if height >= 1 {
            viewport::law_viewports_show_the_selection(heights, offset as int, sel, height - 1);
            assert(viewport::visible_tiles(heights, offset as int, sel, height - 1) == viewport::visible_tiles(
                heights,
                offset as int,
                row,
                height - 1,
            ));
        }
    }
}

/// A list of tiles never takes more lines than there are, and where the selected tile fits, it is
/// wholly visible, whatever is pinned above it.
pub proof fn law_placed_tiles_show_the_selection(
    ms: Seq<RowModel>,
    heights: Seq<usize>,
    offset: usize,
    selected: usize,
    height: int,
)
    requires
        0 <= height,
        selected < heights.len(),
    ensures
        ({
            let (view, sticky) = tile_placing(ms, heights, offset, Some(selected), height);
            match view {
                Some((start, end, more)) => {
                    &&& heights[selected as int] <= height
                    &&& start <= selected < end <= heights.len()
                    &&& viewport::lines_of(heights, start, end) + bit(more) + bit(sticky is Some) <= height
                },
                None => heights[selected as int] > height && sticky is None,
            }
        }),
{
    lemma_placing_fits(ms, heights, offset, Some(selected), height);
    viewport::law_viewports_show_the_selection(heights, offset as int, selected as int, height);
}

fn place_tiles(rows: &Vec<SidebarRow>, heights: &Vec<usize>, offset: usize, selected: Option<usize>, height: usize) -> (r: (
    Option<TileViewport>,
    Option<usize>,
))
    requires
        heights@.len() == rows@.len(),
    ensures
        (viewport::view_model(r.0), r.1) == tile_placing(
            rows::models(rows@),
            heights@,
            offset,
            selected,
            height as int,
        ),
{
    let ghost ms = rows::models(rows@);
    let row: usize = match selected {
        Some(row) => row,
        None => offset,
    };
    let full = viewport::tile_viewport(heights, offset, row, height);
    proof {
        lemma_view_bounds(heights@, offset as int, row as int, height as int);
        lemma_view_bounds(heights@, offset as int, row as int, height - 1);
    }
    match full {
        Some(view) => {
            if height > 1 && viewport::opens_on_agent(rows, view.start) && viewport::header_above(
                rows,
                view.start,
            ).is_some() {
                let shrunk = viewport::tile_viewport(heights, offset, row, height - 1);
                match shrunk {
                    Some(small) => {
                        if !viewport::opens_on_head(rows, small.start) && small.start <= row && row < small.end {
                            return (Some(small), viewport::header_above(rows, small.start));
                        }
                    },
                    None => {},
                }
            }
            (Some(view), None)
        },
        None => (None, None),
    }
}

proof fn lemma_view_bounds(heights: Seq<usize>, offset: int, row: int, height: int)
    requires
        0 <= offset,
        0 <= row,
    ensures
        viewport::visible_tiles(heights, offset, row, height) matches Some((start, end, _)) ==> 0 <= start <= end
            <= heights.len(),
{
    if heights.len() > 0 && height >= 0 {
        let sel = chrome::least(row, heights.len() - 1);
        viewport::law_viewports_show_the_selection(heights, offset, sel, height);
        assert(viewport::visible_tiles(heights, offset, sel, height) == viewport::visible_tiles(
            heights,
            offset,
            row,
            height,
        ));
    }
}

/// The line that counts the hidden agents.
pub open spec fn more_text(p: Palette, hidden: nat, width: nat) -> Seq<SpanModel> {
    chrome::one(style::truncated("↓ "@ + text::numeral(hidden) + " more"@, width), Style::colored(p.dimmed))
}

pub fn more_line(palette: &Palette, hidden: usize, width: usize) -> (r: Vec<Span>)
    ensures
        style::models(r@) == more_text(*palette, hidden as nat, width as nat),
{
    let mut t = "↓ ".to_owned();
    text::push_decimal(&mut t, hidden as u64);
    t.append(" more");
    let mut r: Vec<Span> = Vec::new();
    style::push_span(&mut r, style::truncate_to_width(t.as_str(), width), Style::fg(palette.dimmed));
    proof {
        assert(style::models(r@) =~= more_text(*palette, hidden as nat, width as nat));
    }
    r
}

// ── What the lines are for ──────────────────────────────────────

/// In a compact list, an agent's row is what its template says, on the colour of the selection exactly
/// where it is selected; every other row is the header, the rule or the toggle that it stands for.
pub proof fn law_compact_rows_show_what_they_stand_for(
    app: SidebarApp,
    contexts: Seq<RowContext>,
    part: Seq<Seq<SpanModel>>,
    row: int,
    width: nat,
)
    requires
        0 <= row < app.rows@.len() <= usize::MAX,
    ensures
        ({
            let line = compact_row(app, contexts, part, row, width);
            let here = app.list_state.selected is Some && app.list_state.selected->0 == row;
            match app.rows@[row]@ {
                RowModel::Agent(i) => {
                    &&& !contexts[i].is_selected ==> line == part[0]
                    &&& contexts[i].is_selected ==> line.len() == part[0].len() && forall|k: int|
                        0 <= k < line.len() ==> (#[trigger] line[k]).content == part[0][k].content && (
                        part[0][k].style.bg is None ==> line[k].style.bg == Some(app.palette.highlight_row_bg))
                },
                RowModel::Header { .. } => line == chrome::header_band(app.palette, part[0], width),
                RowModel::Rule { label } => line == chrome::rule(app.palette, label, width),
                RowModel::StaleTail { count, expanded, .. } => line == chrome::stale_tail(
                    app.palette,
                    count,
                    expanded,
                    here,
                    width,
                ),
                RowModel::StaleGroup { expanded, .. } => line == chrome::stale_group(
                    app.palette,
                    part[0],
                    expanded,
                    here,
                    width,
                ),
            }
        }),
{
}

/// The icon column of a compact list has room for every icon, and no more than the widest takes.
pub proof fn law_icons_have_room(contexts: Seq<RowContext>)
    ensures
        forall|i: int|
            0 <= i < contexts.len() ==> context::row_width(#[trigger] contexts[i], TokenId::StatusIcon) <= widest_icon(
                contexts,
            ),
        contexts.len() > 0 ==> exists|i: int|
            0 <= i < contexts.len() && context::row_width(#[trigger] contexts[i], TokenId::StatusIcon) == widest_icon(
                contexts,
            ),
        contexts.len() == 0 ==> widest_icon(contexts) == 0,
    decreases contexts.len(),
{
    if contexts.len() > 0 {
        let front = contexts.drop_last();
        law_icons_have_room(front);
        assert forall|i: int| 0 <= i < contexts.len() implies context::row_width(
            #[trigger] contexts[i],
            TokenId::StatusIcon,
        ) <= widest_icon(contexts) by {
            if i < front.len() {
                assert(front[i] == contexts[i]);
            }
        }
        let w = context::row_width(contexts.last(), TokenId::StatusIcon);
        if w > widest_icon(front) || front.len() == 0 {
            assert(context::row_width(contexts[contexts.len() - 1], TokenId::StatusIcon) == widest_icon(contexts));
        } else {
            let i = choose|i: int|
                0 <= i < front.len() && context::row_width(#[trigger] front[i], TokenId::StatusIcon) == widest_icon(
                    front,
                );
            assert(context::row_width(contexts[i], TokenId::StatusIcon) == widest_icon(contexts));
        }
    }
}

/// A tile is striped in the colour of its agent's status, dimmed where the agent is stale. Its first
/// line shows the icon, the others leave its place free; what the template says follows, between
/// blanks. A selected tile stands on the colour of the selection wherever its template sets none.
pub proof fn law_tiles_are_striped(p: Palette, ctx: RowContext, body: Seq<SpanModel>, first: bool)
    ensures
        ({
            let line = tile_line(p, ctx, body, first);
            let icon = style::models(ctx.status_icon_spans@);
            let k = if first {
                icon.len() + 1
            } else {
                1
            };
            &&& line.len() == k + body.len() + 3
            &&& line[0].content == "▌ "@
            &&& line[0].style.fg == Some(
                if ctx.is_stale {
                    p.dimmed
                } else {
                    ctx.status_color
                },
            )
            &&& first ==> forall|i: int| 0 <= i < icon.len() ==> line[i + 1].content == (#[trigger] icon[i]).content
            &&& !first ==> line[1].content == "  "@
            &&& forall|i: int| 0 <= i < body.len() ==> line[k + 2 + i].content == (#[trigger] body[i]).content
            &&& ctx.is_selected ==> forall|i: int| 0 <= i < line.len() ==> (#[trigger] line[i]).style.bg is Some
            &&& ctx.is_selected ==> line[0].style.bg == Some(p.highlight_row_bg) && line.last().style.bg == Some(
                p.highlight_row_bg,
            )
            &&& !ctx.is_selected ==> line[0].style.bg is None && line.last().style.bg is None
        }),
{
    let column = icon_column(ctx, first);
    let spans = seq![stripe(p, ctx)] + column + seq![style::span(" "@, Style::plain())] + body + seq![
        style::span(" "@, Style::plain()),
    ];
    let line = tile_line(p, ctx, body, first);
    let icon = style::models(ctx.status_icon_spans@);
    let k = column.len() as int;
    assert(spans.len() == k + body.len() + 3);
    assert(spans[0] == stripe(p, ctx));
    assert(spans.last() == style::span(" "@, Style::plain()));
    assert(spans[1] == column[0]);
    assert forall|i: int| 0 <= i < body.len() implies line[k + 2 + i].content == (#[trigger] body[i]).content by {
        assert(spans[k + 2 + i] == body[i]);
        assert(line[k + 2 + i].content == spans[k + 2 + i].content);
    }
    if first {
        assert forall|i: int| 0 <= i < icon.len() implies line[i + 1].content == (#[trigger] icon[i]).content by {
            assert(spans[i + 1] == column[i]);
            assert(line[i + 1].content == spans[i + 1].content);
        }
    }
}

/// How many of the first `k` templates are not blank.
pub open spec fn telling_templates(blank: Seq<bool>, k: int) -> nat
    decreases k,
{
    if k <= 0 {
        0
    } else {
        telling_templates(blank, k - 1) + (if blank[k - 1] {
            0nat
        } else {
            1
        })
    }
}

/// A tile has a line for each of its templates that is not blank; a collapsed one has no more than one.
/// Where none is left, it still has a line.
pub proof fn law_tiles_have_a_line_for_each_template(
    p: Palette,
    ctx: RowContext,
    bodies: Seq<Seq<SpanModel>>,
    blank: Seq<bool>,
    collapsed: bool,
    k: int,
    body: nat,
)
    requires
        0 <= k <= blank.len() == bodies.len(),
    ensures
        ({
            let lines = tile_lines(p, ctx, bodies, blank, collapsed, k);
            let n = telling_templates(blank, k);
            &&& !collapsed ==> lines.len() == n
            &&& collapsed ==> lines.len() == (if n == 0 {
                0nat
            } else {
                1
            })
        }),
        telling_templates(blank, blank.len() as int) == 0 ==> agent_tile(p, ctx, bodies, blank, collapsed, body).len()
            == 1,
        telling_templates(blank, blank.len() as int) > 0 && !collapsed ==> agent_tile(
            p,
            ctx,
            bodies,
            blank,
            collapsed,
            body,
        ).len() == telling_templates(blank, blank.len() as int),
{
    lemma_tile_lines(p, ctx, bodies, blank, collapsed, k);
    lemma_tile_lines(p, ctx, bodies, blank, collapsed, blank.len() as int);
}

proof fn lemma_tile_lines(
    p: Palette,
    ctx: RowContext,
    bodies: Seq<Seq<SpanModel>>,
    blank: Seq<bool>,
    collapsed: bool,
    k: int,
)
    requires
        0 <= k <= blank.len() == bodies.len(),
    ensures
        ({
            let lines = tile_lines(p, ctx, bodies, blank, collapsed, k);
            let n = telling_templates(blank, k);
            &&& !collapsed ==> lines.len() == n
            &&& collapsed ==> lines.len() == (if n == 0 {
                0nat
            } else {
                1
            })
        }),
    decreases k,
{
    if k > 0 {
        lemma_tile_lines(p, ctx, bodies, blank, collapsed, k - 1);
    }
}

/// A divider stands between two agents unless both are folded stale ones, between an agent and a fold
/// below it, and above every group but the first and one that a rule stands above. None stands above a
/// rule, or above the first row.
pub proof fn law_dividers_part_what_differs(app: SidebarApp, row: int)
    requires
        0 <= row < app.rows@.len(),
    ensures
        row == 0 ==> !divided(app, row),
        row > 0 ==> ({
            let here = app.rows@[row]@;
            let above = app.rows@[row - 1]@;
            &&& here is Rule ==> !divided(app, row)
            &&& here is StaleTail ==> (divided(app, row) <==> above is Agent)
            &&& here is Header || here is StaleGroup ==> (divided(app, row) <==> !(above is Rule))
            &&& here is Agent && !(above is Agent) ==> !divided(app, row)
            &&& here is Agent && above is Agent ==> ({
                let folds = |a: int|
                    app.collapse_stale && app.stale_pane_ids@.contains(app.agents@[a].pane_id@);
                divided(app, row) <==> !(folds(here->Agent_0) && folds(above->Agent_0))
            })
        }),
        closed_off(app, row) <==> row == app.rows@.len() - 1 && (app.rows@[row]@ is Agent || app.rows@[row]@ is StaleTail),
{
}

/// The line that counts what is hidden counts agents: one for each agent's row, and those behind every
/// fold that is closed.
pub proof fn law_hidden_agents_are_counted(ms: Seq<RowModel>, from: int, to: int)
    requires
        0 <= from < to <= ms.len(),
    ensures
        ({
            let more = agents_in(ms, from, to) - agents_in(ms, from, to - 1);
            match ms[to - 1] {
                RowModel::Agent(_) => more == 1,
                RowModel::StaleTail { count, expanded, .. } => more == (if expanded {
                    0
                } else {
                    count
                }),
                RowModel::StaleGroup { count, expanded, .. } => more == (if expanded {
                    0
                } else {
                    count
                }),
                _ => more == 0,
            }
        }),
        agents_in(ms, from, from) == 0,
{
}

/// It points down and says how many more there are.
pub proof fn law_hidden_agents_are_told(p: Palette, hidden: nat, width: nat)
    requires
        style::columns("↓ "@ + text::numeral(hidden) + " more"@) <= width,
    ensures
        more_text(p, hidden, width).len() == 1,
        more_text(p, hidden, width)[0].content == "↓ "@ + text::numeral(hidden) + " more"@,
        more_text(p, hidden, width)[0].style.fg == Some(p.dimmed),
{
    style::law_truncated_fits("↓ "@ + text::numeral(hidden) + " more"@, width);
}

/// Where tiles are drawn: below a pinned header, above the line that counts what is hidden. What they
/// fill begins where their area does and is as high as they are.
pub proof fn law_tiles_lie_below_the_pinned_header(
    plan: TilePlan,
    ms: Seq<RowModel>,
    heights: Seq<usize>,
    offset: usize,
    selected: Option<usize>,
    area: Area,
)
    requires
        places(plan, ms, heights, offset, selected, area),
        chrome::on_screen(area),
        area.height >= 1,
    ensures
        ({
            let pin = if plan.sticky is Some {
                1int
            } else {
                0int
            };
            let more = if plan.hidden is Some {
                1int
            } else {
                0int
            };
            &&& plan.list_area.y == area.y + pin
            &&& plan.list_area.x == area.x && plan.list_area.width == area.width
            &&& pin + plan.list_area.height + more == area.height
            &&& plan.filled.y == plan.list_area.y && plan.filled.x == area.x && plan.filled.width == area.width
            &&& plan.filled.height <= plan.list_area.height
            &&& plan.viewport is None ==> plan.filled.height == 0 && plan.hidden is None
            &&& plan.viewport matches Some(v) ==> plan.filled.height == viewport::lines_of(
                heights,
                v.start as int,
                v.end as int,
            ) && (plan.hidden is Some <==> v.more)
        }),
{
    lemma_placing_fits(ms, heights, offset, selected, area.height as int);
}

/// The templates of a tile have the width that stripe, icon, gap and margin leave; a header among tiles
/// leaves a column for the stripe, unless it is the pinned one of a group without live agents.
pub proof fn law_tile_parts_share_the_width(m: RowModel, pinned: bool, width: nat)
    ensures
        width >= 6 ==> body_columns(width) + 6 == width,
        width < 6 ==> body_columns(width) == 0,
        width > 0 && !(pinned && m is StaleGroup) ==> head_columns(m, pinned, width) + 1 == width,
        pinned && m is StaleGroup ==> head_columns(m, pinned, width) == width,
        head_columns(m, pinned, 0) == 0,
{
}

/// A pinned header is the header of its group, never drawn as selected; nothing else is ever pinned.
pub proof fn law_only_headers_are_pinned(p: Palette, m: RowModel, header: Seq<SpanModel>, width: nat)
    ensures
        m is Header || m is StaleGroup <==> compact_pin(p, m, header, width) is Some,
        m is Header || m is StaleGroup <==> tile_pin(p, m, header, width) is Some,
        m is Header ==> compact_pin(p, m, header, width) == Some(chrome::header_band(p, header, width)),
        m matches RowModel::StaleGroup { expanded, .. } ==> compact_pin(p, m, header, width) == Some(
            chrome::stale_group(p, header, expanded, false, width),
        ),
        m is Header ==> tile_pin(p, m, header, width)->0.len() == 1,
{
}

} // verus!
