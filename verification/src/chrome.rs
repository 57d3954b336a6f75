//! What surrounds the agents: headers, rules, the footer, and the overlays.

use vstd::prelude::*;

use crate::app::{Area, SidebarApp, SidebarFilterMode, SidebarLayoutMode};
use crate::collections::StrSet;
use crate::model::{AgentPane, AgentStatus, SidebarGroupBy};
use crate::row;
use crate::row::{GroupStatusCount, HeaderContext, StatusModel};
use crate::snapshot;
use crate::style;
use crate::style::{Color, Palette, Span, SpanModel, Style};
use crate::templates::{Token, TokenId};
use crate::text;
use crate::ui;
use crate::ui::Glyphs;

verus! {

/// A line of one span.
pub open spec fn one(content: Seq<char>, style: Style) -> Seq<SpanModel> {
    seq![style::span(content, style)]
}

fn one_span(content: String, style: Style) -> (r: Vec<Span>)
    ensures
        style::models(r@) == one(content@, style),
{
    let mut r: Vec<Span> = Vec::new();
    style::push_span(&mut r, content, style);
    proof {
        assert(style::models(r@) =~= one(content@, style));
    }
    r
}

// ── Areas ───────────────────────────────────────────────────────

/// Whether an area ends where coordinates do, or before.
pub open spec fn on_screen(area: Area) -> bool {
    area.x + area.width <= u16::MAX && area.y + area.height <= u16::MAX
}

/// The lesser of two numbers.
pub open spec fn least(a: int, b: int) -> int {
    if a <= b {
        a
    } else {
        b
    }
}

/// An area of the given size in the middle of another, as far as it fits.
pub open spec fn centered(within: Area, width: int, height: int) -> Area {
    let w = least(width, within.width as int);
    let h = least(height, within.height as int);
    Area {
        x: (within.x + (within.width - w) / 2) as u16,
        y: (within.y + (within.height - h) / 2) as u16,
        width: w as u16,
        height: h as u16,
    }
}

fn center(within: Area, width: u16, height: u16) -> (r: Area)
    requires
        on_screen(within),
    ensures
        r == centered(within, width as int, height as int),
{
    let w: u16 = if width <= within.width {
        width
    } else {
        within.width
    };
    let h: u16 = if height <= within.height {
        height
    } else {
        within.height
    };
    Area { x: within.x + (within.width - w) / 2, y: within.y + (within.height - h) / 2, width: w, height: h }
}

/// An area without its first `rows` rows.
pub open spec fn below(area: Area, rows: int) -> Area {
    Area { y: (area.y + rows) as u16, height: (area.height - rows) as u16, ..area }
}

/// An area without its first and last column.
pub open spec fn indented(area: Area) -> Area {
    Area {
        x: if area.x < u16::MAX {
            (area.x + 1) as u16
        } else {
            area.x
        },
        width: if area.width >= 2 {
            (area.width - 2) as u16
        } else {
            0
        },
        ..area
    }
}

/// Leaves a column free on both sides.
pub fn indent(area: Area) -> (r: Area)
    ensures
        r == indented(area),
{
    Area { x: area.x.saturating_add(1), width: area.width.saturating_sub(2), ..area }
}

// ── Help ────────────────────────────────────────────────────────

/// The keys that a sidebar answers to, with what they do. Keys that act on groups are listed
/// while there are groups.
pub open spec fn help_texts(grouped: bool) -> Seq<(Seq<char>, Seq<char>)> {
    seq![("j k"@, "move"@), ("g G"@, "first last"@), ("enter"@, "jump"@)] + (if grouped {
        seq![("h l"@, "fold unfold"@), ("s"@, "fold group"@), ("S"@, "fold all"@)]
    } else {
        seq![]
    }) + seq![
        ("t"@, "grouping"@),
        ("v"@, "layout"@),
        ("f"@, "session filter"@),
        ("z"@, "sleep"@),
        ("q"@, "quit"@),
    ]
}

/// The contents of help entries.
pub open spec fn entry_models(entries: Seq<(&'static str, &'static str)>) -> Seq<(Seq<char>, Seq<char>)> {
    Seq::new(entries.len(), |i: int| (entries[i].0@, entries[i].1@))
}

pub fn help_entries(grouped: bool) -> (r: Vec<(&'static str, &'static str)>)
    ensures
        entry_models(r@) == help_texts(grouped),
{
    let mut r: Vec<(&'static str, &'static str)> = Vec::new();
    r.push(("j k", "move"));
    r.push(("g G", "first last"));
    r.push(("enter", "jump"));
    if grouped {
        r.push(("h l", "fold unfold"));
        r.push(("s", "fold group"));
        r.push(("S", "fold all"));
    }
    r.push(("t", "grouping"));
    r.push(("v", "layout"));
    r.push(("f", "session filter"));
    r.push(("z", "sleep"));
    r.push(("q", "quit"));
    proof {
        assert(entry_models(r@) =~= help_texts(grouped));
    }
    r
}

/// The greatest number of characters of a key.
pub open spec fn key_columns(entries: Seq<(Seq<char>, Seq<char>)>) -> nat
    decreases entries.len(),
{
    if entries.len() == 0 {
        0
    } else {
        let before = key_columns(entries.drop_last());
        let n = entries.last().0.len();
        if n > before {
            n
        } else {
            before
        }
    }
}

/// The greatest number of characters of an action.
pub open spec fn action_columns(entries: Seq<(Seq<char>, Seq<char>)>) -> nat
    decreases entries.len(),
{
    if entries.len() == 0 {
        0
    } else {
        let before = action_columns(entries.drop_last());
        let n = entries.last().1.len();
        if n > before {
            n
        } else {
            before
        }
    }
}

/// A key, filled up to the widest one, and a blank.
pub open spec fn key_label(key: Seq<char>, width: nat) -> Seq<char> {
    key + style::repeated(
        ' ',
        if key.len() < width {
            (width - key.len()) as nat
        } else {
            0
        },
    ) + seq![' ']
}

/// One line of the help: the key, then as much of the action as fits beside it.
pub open spec fn help_line(entry: (Seq<char>, Seq<char>), keys: nat, room: nat, p: Palette) -> Seq<SpanModel> {
    let label = key_label(entry.0, keys);
    seq![
        style::span(style::truncated(label, room), Style { bold: true, ..Style::colored(p.text) }),
        style::span(
            style::truncated(
                entry.1,
                if room >= label.len() {
                    (room - label.len()) as nat
                } else {
                    0
                },
            ),
            Style::colored(p.help_muted),
        ),
    ]
}

/// Contents of lines.
pub open spec fn line_models(lines: Seq<Vec<Span>>) -> Seq<Seq<SpanModel>> {
    Seq::new(lines.len(), |i: int| style::models(lines[i]@))
}

/// Where the help is drawn: in the middle, with a frame and a blank column round its lines.
pub open spec fn help_area(grouped: bool, terminal: Area) -> Area {
    let es = help_texts(grouped);
    centered(terminal, key_columns(es) as int + 1 + action_columns(es) + 4, es.len() as int + 2)
}

/// The lines of the help, within its frame.
pub open spec fn help_lines(grouped: bool, terminal: Area, p: Palette) -> Seq<Seq<SpanModel>> {
    let es = help_texts(grouped);
    let inside = help_area(grouped, terminal).width;
    let room = if inside >= 4 {
        (inside - 4) as nat
    } else {
        0
    };
    Seq::new(es.len(), |i: int| help_line(es[i], key_columns(es), room, p))
}

proof fn lemma_help_columns(grouped: bool)
    ensures
        key_columns(help_texts(grouped)) == 5,
        action_columns(help_texts(grouped)) == 14,
        help_texts(grouped).len() == (if grouped {
            11nat
        } else {
            8
        }),
        forall|i: int|
            0 <= i < help_texts(grouped).len() ==> (#[trigger] help_texts(grouped)[i]).0.len() <= 5
                && help_texts(grouped)[i].1.len() <= 14,
{
    reveal_strlit("j k");
    reveal_strlit("move");
    reveal_strlit("g G");
    reveal_strlit("first last");
    reveal_strlit("enter");
    reveal_strlit("jump");
    reveal_strlit("h l");
    reveal_strlit("fold unfold");
    reveal_strlit("s");
    reveal_strlit("fold group");
    reveal_strlit("S");
    reveal_strlit("fold all");
    reveal_strlit("t");
    reveal_strlit("grouping");
    reveal_strlit("v");
    reveal_strlit("layout");
    reveal_strlit("f");
    reveal_strlit("session filter");
    reveal_strlit("z");
    reveal_strlit("sleep");
    reveal_strlit("q");
    reveal_strlit("quit");
    let es = help_texts(grouped);
    lemma_columns_are(es, 2, if grouped {
        8
    } else {
        5
    });
}

/// The widest key and the widest action of some entries.
proof fn lemma_columns_are(es: Seq<(Seq<char>, Seq<char>)>, k: int, a: int)
    requires
        0 <= k < es.len(),
        0 <= a < es.len(),
        forall|i: int| 0 <= i < es.len() ==> (#[trigger] es[i]).0.len() <= es[k].0.len(),
        forall|i: int| 0 <= i < es.len() ==> (#[trigger] es[i]).1.len() <= es[a].1.len(),
    ensures
        key_columns(es) == es[k].0.len(),
        action_columns(es) == es[a].1.len(),
{
    lemma_columns_bounds(es);
}

proof fn lemma_columns_bounds(es: Seq<(Seq<char>, Seq<char>)>)
    ensures
        forall|i: int| 0 <= i < es.len() ==> (#[trigger] es[i]).0.len() <= key_columns(es),
        forall|i: int| 0 <= i < es.len() ==> (#[trigger] es[i]).1.len() <= action_columns(es),
        es.len() > 0 ==> exists|i: int| 0 <= i < es.len() && (#[trigger] es[i]).0.len() == key_columns(es),
        es.len() > 0 ==> exists|i: int| 0 <= i < es.len() && (#[trigger] es[i]).1.len() == action_columns(es),
    decreases es.len(),
{
    if es.len() > 0 {
        let front = es.drop_last();
        lemma_columns_bounds(front);
        assert forall|i: int| 0 <= i < es.len() implies (#[trigger] es[i]).0.len() <= key_columns(es) by {
            if i < front.len() {
                assert(front[i] == es[i]);
            }
        }
        assert forall|i: int| 0 <= i < es.len() implies (#[trigger] es[i]).1.len() <= action_columns(es) by {
            if i < front.len() {
                assert(front[i] == es[i]);
            }
        }
        if es.last().0.len() > key_columns(front) || front.len() == 0 {
            assert(es[es.len() - 1].0.len() == key_columns(es));
        } else {
            let i = choose|i: int| 0 <= i < front.len() && (#[trigger] front[i]).0.len() == key_columns(front);
            assert(es[i].0.len() == key_columns(es));
        }
        if es.last().1.len() > action_columns(front) || front.len() == 0 {
            assert(es[es.len() - 1].1.len() == action_columns(es));
        } else {
            let i = choose|i: int| 0 <= i < front.len() && (#[trigger] front[i]).1.len() == action_columns(front);
            assert(es[i].1.len() == action_columns(es));
        }
    }
}

/// Lays out the key overlay: where it is drawn, and its lines.
pub fn help_overlay(grouped: bool, terminal: Area, palette: &Palette) -> (r: (Area, Vec<Vec<Span>>))
    requires
        on_screen(terminal),
    ensures
        r.0 == help_area(grouped, terminal),
        line_models(r.1@) == help_lines(grouped, terminal, *palette),
{
    let entries = help_entries(grouped);
    let ghost es = help_texts(grouped);
    proof {
        lemma_help_columns(grouped);
    }
    let n: usize = entries.len();
    let area = center(terminal, 24, (n + 2) as u16);
    let room: usize = area.width.saturating_sub(4) as usize;
    let mut lines: Vec<Vec<Span>> = Vec::new();
    let mut i: usize = 0;
    while i < n
        invariant
            n == entries@.len(),
            es == help_texts(grouped),
            entry_models(entries@) == es,
            key_columns(es) == 5,
            forall|j: int| 0 <= j < es.len() ==> (#[trigger] es[j]).0.len() <= 5 && es[j].1.len() <= 14,
            i <= n,
            lines@.len() == i,
            forall|j: int|
                0 <= j < i ==> style::models((#[trigger] lines@[j])@) == help_line(es[j], 5, room as nat, *palette),
        decreases n - i,
    {
        let (key, action) = entries[i];
        proof {
            assert(es[i as int] == (key@, action@));
        }
        let cols: usize = key.unicode_len();
        let mut label = key.to_owned();
        label.append(style::repeat(' ', 5 - cols).as_str());
        label.push(' ');
        proof {
            assert(label@ =~= key_label(key@, 5));
        }
        let width: usize = label.as_str().unicode_len();
        let mut line = one_span(
            style::truncate_to_width(label.as_str(), room),
            Style::fg(palette.text).bold(),
        );
        style::push_span(
            &mut line,
            style::truncate_to_width(action, room.saturating_sub(width)),
            Style::fg(palette.help_muted),
        );
        proof {
            assert(style::models(line@) =~= help_line(es[i as int], 5, room as nat, *palette));
        }
        lines.push(line);
        i += 1;
    }
    proof {
        assert(line_models(lines@) =~= help_lines(grouped, terminal, *palette));
    }
    (area, lines)
}

// ── Exit confirmation ───────────────────────────────────────────

/// The question that the exit confirmation asks.
pub open spec fn exit_question(p: Palette) -> Seq<SpanModel> {
    seq![
        style::span(" Quit sidebar? "@, Style::colored(p.text)),
        style::span("y"@, Style { bold: true, ..Style::colored(p.text) }),
        style::span("es / "@, Style::colored(p.dimmed)),
        style::span("n"@, Style { bold: true, ..Style::colored(p.text) }),
        style::span("o"@, Style::colored(p.dimmed)),
    ]
}

/// Lays out the exit confirmation: where it is drawn, frame included, and what it asks.
pub fn exit_confirmation(terminal: Area, palette: &Palette) -> (r: (Area, Vec<Span>))
    requires
        on_screen(terminal),
    ensures
        r.0 == centered(terminal, 30, 3),
        style::models(r.1@) == exit_question(*palette),
{
    let mut line = one_span(" Quit sidebar? ".to_owned(), Style::fg(palette.text));
    style::push_span(&mut line, "y".to_owned(), Style::fg(palette.text).bold());
    style::push_span(&mut line, "es / ".to_owned(), Style::fg(palette.dimmed));
    style::push_span(&mut line, "n".to_owned(), Style::fg(palette.text).bold());
    style::push_span(&mut line, "o".to_owned(), Style::fg(palette.dimmed));
    proof {
        assert(style::models(line@) =~= exit_question(*palette));
    }
    (center(terminal, 30, 3), line)
}

// ── Warnings ────────────────────────────────────────────────────

/// The words of a text, each with the blank behind it.
pub open spec fn blank_ended(s: Seq<char>) -> Seq<Seq<char>>
    decreases s.len(),
{
    if s.len() == 0 {
        seq![]
    } else {
        let k = text::first_at(s, ' ');
        if k >= s.len() {
            seq![s]
        } else {
            seq![s.take(k as int + 1)] + blank_ended(s.skip(k as int + 1))
        }
    }
}

/// Breaks a line that is too long: the lines so far, and the columns of the last one.
pub open spec fn broken(lines: nat, current: nat, width: nat) -> (nat, nat)
    decreases current,
{
    if 0 < width < current {
        broken(lines + 1, (current - width) as nat, width)
    } else {
        (lines, current)
    }
}

/// The lines that words take when they wrap: how many, and the columns of the last one.
pub open spec fn wrapped(words: Seq<Seq<char>>, width: nat) -> (nat, nat)
    decreases words.len(),
{
    if words.len() == 0 {
        (1, 0)
    } else {
        let (lines, current) = wrapped(words.drop_last(), width);
        let w = style::columns(words.last());
        if current > 0 && current + w > width {
            broken(lines + 1, w, width)
        } else {
            broken(lines, current + w, width)
        }
    }
}

/// How many lines a text takes within a width.
pub open spec fn wrapped_lines(s: Seq<char>, width: nat) -> nat {
    if width == 0 {
        1
    } else {
        wrapped(blank_ended(s), width).0
    }
}

/// Counts the lines that a text takes, as far as they can be counted.
pub fn wrapped_line_count(s: &str, width: usize) -> (r: usize)
    ensures
        r == style::capped(wrapped_lines(s@, width as nat)),
{
    if width == 0 {
        return 1;
    }
    let ghost all = blank_ended(s@);
    let ghost mut k: int = 0;
    let chars = text::to_chars(s);
    let n: usize = chars.len();
    let mut lines: u128 = 1;
    let mut current: u128 = 0;
    let mut i: usize = 0;
    proof {
        assert(all.take(0) =~= Seq::<Seq<char>>::empty());
        assert(s@.skip(0) =~= s@);
        assert(all.skip(0) =~= all);
    }
    while i < n
        invariant
            width > 0,
            chars@ == s@,
            n == chars@.len(),
            i <= n,
            all == blank_ended(s@),
            0 <= k <= all.len(),
            k <= i,
            all.skip(k) == blank_ended(s@.skip(i as int)),
            (lines as nat, current as nat) == wrapped(all.take(k), width as nat),
            current <= width,
            lines <= 1 + k * 0x1_0000_0000_0000_0000,
        decreases n - i,
    {
        let ghost rest = s@.skip(i as int);
        let mut j: usize = i;
        while j < n && chars[j] != ' '
            invariant
                n == chars@.len(),
                i <= j <= n,
                forall|m: int| i <= m < j ==> chars@[m] != ' ',
            decreases n - j,
        {
            j += 1;
        }
        let end: usize = if j < n {
            j + 1
        } else {
            j
        };
        proof {
            if j < n {
                assert forall|m: int| 0 <= m < j - i implies rest[m] != ' ' by {
                    assert(rest[m] == chars@[i + m]);
                }
                assert(rest[j - i] == chars@[j as int]);
            } else {
                assert forall|m: int| 0 <= m < rest.len() implies rest[m] != ' ' by {
                    assert(rest[m] == chars@[i + m]);
                }
            }
            lemma_blank_at(rest, j - i);
        }
        let word = text::from_range(&chars, i, end);
        proof {
            assert(word@ =~= rest.take(end - i));
            assert(blank_ended(rest).len() > 0);
            assert(blank_ended(rest)[0] == word@) by {
                if j >= n {
                    assert(rest.take(end - i) =~= rest);
                }
            }
            assert(rest.skip(end - i) =~= s@.skip(end as int));
            assert(blank_ended(rest).skip(1) =~= blank_ended(s@.skip(end as int)));
            assert(all.skip(k)[0] == all[k]);
            assert(all.skip(k).skip(1) =~= all.skip(k + 1));
            let next = all.take(k + 1);
            assert(next.drop_last() =~= all.take(k));
            assert(next.last() == word@);
        }
        let w: u128 = style::display_width(word.as_str()) as u128;
        let ghost from = lines;
        if current > 0 && current + w > width as u128 {
            lines = lines + 1;
            current = 0;
        }
        current = current + w;
        let ghost start = (lines as nat, current as nat);
        let ghost was: int = lines as int;
        let ghost had: int = current as int;
        proof {
            assert(k + 1 <= 0xffff_ffff_ffff_ffff);
            assert(was <= from + 1);
            assert(had <= 0xffff_ffff_ffff_ffff);
        }
        while current > width as u128
            invariant
                width > 0,
                broken(start.0, start.1, width as nat) == broken(lines as nat, current as nat, width as nat),
                lines + current <= was + had,
                was + had <= 1 + 0x1_0000_0000_0000_0000 * 0xffff_ffff_ffff_ffff,
            decreases current,
        {
            lines = lines + 1;
            current = current - width as u128;
        }
        proof {
            assert(lines <= 1 + (k + 1) * 0x1_0000_0000_0000_0000);
            k = k + 1;
        }
        i = end;
    }
    proof {
        assert(s@.skip(i as int) =~= Seq::<char>::empty());
        assert(all.skip(k).len() == 0);
        assert(all.take(k) =~= all);
    }
    style::cap(lines)
}

proof fn lemma_blank_at(s: Seq<char>, k: int)
    requires
        0 <= k <= s.len(),
        forall|m: int| 0 <= m < k ==> s[m] != ' ',
        k < s.len() ==> s[k] == ' ',
    ensures
        text::first_at(s, ' ') == k,
{
    if k < s.len() {
        text::lemma_first_at_is(s, ' ', k);
    } else {
        text::lemma_first_at(s, ' ');
        if text::first_at(s, ' ') < s.len() {
            assert(s[text::first_at(s, ' ') as int] == ' ');
        }
    }
}

/// How many rows of an area a warning takes.
pub open spec fn warning_rows(message: Seq<char>, area: Area) -> int {
    least(wrapped_lines(message, area.width as nat) as int, area.height as int)
}

/// Parts an area: rows for a warning, and what is left below.
pub fn warning_areas(area: Area, message: &str) -> (r: (Area, Area))
    requires
        on_screen(area),
    ensures
        r.0 == (Area { height: warning_rows(message@, area) as u16, ..area }),
        r.1 == below(area, warning_rows(message@, area)),
{
    let lines: usize = wrapped_line_count(message, area.width as usize);
    let height: u16 = if lines <= area.height as usize {
        lines as u16
    } else {
        area.height
    };
    (Area { height, ..area }, Area { y: area.y + height, height: area.height - height, ..area })
}

// ── Footer ──────────────────────────────────────────────────────

/// The style of the footer's text.
pub open spec fn footer_style(p: Palette) -> Style {
    Style { dim: true, ..Style::colored(p.dimmed) }
}

/// The footer while the list is filtered by session.
pub open spec fn filter_text(session: Option<Seq<char>>) -> Seq<char> {
    match session {
        Some(s) => "[session: "@ + s + "]"@,
        None => "[session]"@,
    }
}

/// The name of the host session.
pub open spec fn session_of(app: SidebarApp) -> Option<Seq<char>> {
    match app.host_identity {
        Some(id) => Some(id.session_name@),
        None => None,
    }
}

pub fn filter_footer_line(app: &SidebarApp) -> (r: Vec<Span>)
    ensures
        style::models(r@) == one(filter_text(session_of(*app)), footer_style(app.palette)),
{
    let label = match app.host_session() {
        Some(s) => {
            let mut t = "[session: ".to_owned();
            t.append(s);
            t.append("]");
            t
        },
        None => "[session]".to_owned(),
    };
    one_span(label, Style::fg(app.palette.dimmed).dim())
}

/// What the grouping hint may say, longest first: the way back while the list is grouped, else
/// the invitation.
pub open spec fn hint_options(group_by: Option<SidebarGroupBy>, configured: Option<SidebarGroupBy>) -> Seq<Seq<char>> {
    match group_by {
        Some(_) => seq!["t  flat list  ·  ?  keys"@, "t  flat  ·  ?"@],
        None => seq![
            "t  group by "@ + (if configured == Some(SidebarGroupBy::Session) {
                "session"@
            } else {
                "project"@
            }) + "  ·  ?  keys"@,
            "t  group  ·  ?  keys"@,
            "t  group  ·  ?"@,
        ],
    }
}

/// The first option that takes no more than `room` columns beside `used`, else the last.
pub open spec fn fitting_option(options: Seq<Seq<char>>, used: nat, room: nat) -> Seq<char>
    decreases options.len(),
{
    if options.len() == 0 {
        seq![]
    } else if options.len() == 1 || used + style::columns(options[0]) <= room {
        options[0]
    } else {
        fitting_option(options.skip(1), used, room)
    }
}

/// The grouping hint within a width. The badge marks the invitation while grouping is news, and
/// is the first thing to go where room is short.
pub open spec fn hint(app: SidebarApp, width: nat) -> Seq<SpanModel> {
    let badge = if app.group_by is Some {
        seq![]
    } else {
        "new"@
    };
    let badge_width = if app.group_by is Some {
        0
    } else {
        style::columns("new"@) + 2
    };
    let chosen = fitting_option(hint_options(app.group_by, app.configured_group_by), badge_width, width);
    let last = one(style::truncated(chosen, width), footer_style(app.palette));
    if app.group_by is None && badge_width + style::columns(chosen) <= width {
        seq![
            style::span(badge, Style::colored(app.palette.accent)),
            style::span("  "@, footer_style(app.palette)),
        ] + last
    } else {
        last
    }
}

fn hint_choices(group_by: Option<SidebarGroupBy>, configured: Option<SidebarGroupBy>) -> (r: Vec<String>)
    ensures
        text::texts(r@) == hint_options(group_by, configured),
{
    let mut r: Vec<String> = Vec::new();
    if group_by.is_some() {
        r.push("t  flat list  ·  ?  keys".to_owned());
        r.push("t  flat  ·  ?".to_owned());
    } else {
        let by = match configured {
            Some(SidebarGroupBy::Session) => "session",
            _ => "project",
        };
        let mut long = "t  group by ".to_owned();
        long.append(by);
        long.append("  ·  ?  keys");
        r.push(long);
        r.push("t  group  ·  ?  keys".to_owned());
        r.push("t  group  ·  ?".to_owned());
    }
    proof {
        assert(text::texts(r@) =~= hint_options(group_by, configured));
    }
    r
}

fn choose_fitting(options: &Vec<String>, used: u128, room: usize) -> (r: String)
    requires
        used <= 0x1_0000_0000_0000_0001,
    ensures
        r@ == fitting_option(text::texts(options@), used as nat, room as nat),
{
    let ghost ts = text::texts(options@);
    let n: usize = options.len();
    let mut i: usize = 0;
    proof {
        assert(ts.skip(0) =~= ts);
    }
    while i < n
        invariant
            n == options@.len(),
            used <= 0x1_0000_0000_0000_0001,
            ts == text::texts(options@),
            i <= n,
            fitting_option(ts, used as nat, room as nat) == fitting_option(ts.skip(i as int), used as nat, room as nat),
        decreases n - i,
    {
        let w: u128 = style::display_width(options[i].as_str()) as u128;
        if i + 1 == n || used + w <= room as u128 {
            return options[i].clone();
        }
        proof {
            assert(ts.skip(i as int).skip(1) =~= ts.skip(i + 1));
        }
        i += 1;
    }
    String::new()
}

/// Offers the two keys worth knowing about: the one that groups the list, and the one that lists
/// every other key.
pub fn hint_line(app: &SidebarApp, width: usize) -> (r: Vec<Span>)
    ensures
        style::models(r@) == hint(*app, width as nat),
{
    let options = hint_choices(app.group_by, app.configured_group_by);
    let dim = Style::fg(app.palette.dimmed).dim();
    if app.group_by.is_some() {
        let chosen = choose_fitting(&options, 0, width);
        return one_span(style::truncate_to_width(chosen.as_str(), width), dim);
    }
    let badge_width: u128 = style::display_width("new") as u128 + 2;
    let chosen = choose_fitting(&options, badge_width, width);
    let cut = style::truncate_to_width(chosen.as_str(), width);
    if badge_width + style::display_width(chosen.as_str()) as u128 <= width as u128 {
        let mut line = one_span("new".to_owned(), Style::fg(app.palette.accent));
        style::push_span(&mut line, "  ".to_owned(), dim);
        style::push_span(&mut line, cut, dim);
        proof {
            assert(style::models(line@) =~= hint(*app, width as nat));
        }
        line
    } else {
        one_span(cut, dim)
    }
}

// ── Group headers ───────────────────────────────────────────────

/// The columns that a group label is indented by, so that it lines up with the label of a folded
/// group. A sidebar too narrow to spare them keeps the label and the count instead.
pub open spec fn header_indent(width: nat) -> nat {
    if width < 6 {
        0
    } else {
        2
    }
}

/// The columns that the header template is filled in for.
pub fn header_width(width: usize) -> (r: usize)
    ensures
        r == width - header_indent(width as nat),
{
    if width < 6 {
        width
    } else {
        width - 2
    }
}

/// A group header on a full-width band. A template that sets a background keeps it.
pub open spec fn header_band(p: Palette, header: Seq<SpanModel>, width: nat) -> Seq<SpanModel> {
    let spans = one(style::repeated(' ', header_indent(width)), Style::plain()) + header;
    style::padded(style::backed(spans, p.group_band_bg), width, Some(p.group_band_bg))
}

/// Lays out a group header, given the header template filled in for `header_width(width)`.
pub fn header_line(palette: &Palette, header: &Vec<Span>, width: usize) -> (r: Vec<Span>)
    ensures
        style::models(r@) == header_band(*palette, style::models(header@), width as nat),
{
    let indent: usize = width - header_width(width);
    let mut spans = one_span(style::repeat(' ', indent), Style::new());
    style::push_all(&mut spans, header);
    style::apply_selection_bg(&mut spans, palette.group_band_bg);
    style::pad_spans_to_width(&mut spans, width, Some(palette.group_band_bg));
    spans
}

/// Shows whether the agents behind a toggle are visible.
pub open spec fn chevron_text(expanded: bool) -> Seq<char> {
    if expanded {
        "\u{25be}"@
    } else {
        "\u{25b8}"@
    }
}

pub fn chevron(expanded: bool) -> (r: &'static str)
    ensures
        r@ == chevron_text(expanded),
{
    if expanded {
        "\u{25be}"
    } else {
        "\u{25b8}"
    }
}

/// The row that stands for the stale agents of a group. Its count is inline, so that it is not
/// taken for a header.
pub open spec fn stale_tail(p: Palette, count: nat, expanded: bool, selected: bool, width: nat) -> Seq<SpanModel> {
    let content = style::truncated(
        "  "@ + chevron_text(expanded) + seq![' '] + text::numeral(count) + " stale"@,
        width,
    );
    if selected {
        style::padded(
            one(content, Style { bg: Some(p.highlight_row_bg), ..Style::colored(p.text) }),
            width,
            Some(p.highlight_row_bg),
        )
    } else {
        one(content, Style::colored(p.dimmed))
    }
}

pub fn stale_tail_line(palette: &Palette, count: usize, expanded: bool, selected: bool, width: usize) -> (r: Vec<Span>)
    ensures
        style::models(r@) == stale_tail(*palette, count as nat, expanded, selected, width as nat),
{
    let mut t = "  ".to_owned();
    t.append(chevron(expanded));
    t.push(' ');
    text::push_decimal(&mut t, count as u64);
    t.append(" stale");
    proof {
        assert(t@ =~= "  "@ + chevron_text(expanded) + seq![' '] + text::numeral(count as nat) + " stale"@);
    }
    let content = style::truncate_to_width(t.as_str(), width);
    if selected {
        let mut spans = one_span(content, Style::fg(palette.text).on(palette.highlight_row_bg));
        style::pad_spans_to_width(&mut spans, width, Some(palette.highlight_row_bg));
        spans
    } else {
        one_span(content, Style::fg(palette.dimmed))
    }
}

/// The mark in front of a folded group.
pub open spec fn fold_marker(expanded: bool) -> Seq<char> {
    chevron_text(expanded) + seq![' ']
}

fn fold_mark(expanded: bool) -> (r: String)
    ensures
        r@ == fold_marker(expanded),
{
    let mut r = chevron(expanded).to_owned();
    r.push(' ');
    proof {
        assert(r@ =~= fold_marker(expanded));
    }
    r
}

/// The columns that the header template of a folded group is filled in for.
pub fn stale_group_width(expanded: bool, width: usize) -> (r: usize)
    ensures
        r == (if width >= style::columns(fold_marker(expanded)) {
            width - style::columns(fold_marker(expanded))
        } else {
            0
        }),
{
    let mark = fold_mark(expanded);
    width.saturating_sub(style::display_width(mark.as_str()))
}

/// The background of a folded group's header.
pub open spec fn fold_bg(p: Palette, selected: bool) -> Color {
    if selected {
        p.highlight_row_bg
    } else {
        p.group_band_bg
    }
}

/// The header of a group without live agents, which is also its toggle.
pub open spec fn stale_group(
    p: Palette,
    header: Seq<SpanModel>,
    expanded: bool,
    selected: bool,
    width: nat,
) -> Seq<SpanModel> {
    let fg = if selected {
        p.text
    } else {
        p.dimmed
    };
    let spans = one(fold_marker(expanded), Style::colored(fg)) + header;
    style::padded(style::rebacked(spans, fold_bg(p, selected)), width, Some(fold_bg(p, selected)))
}

/// Lays out the header of a group without live agents, given the header template filled in for
/// `stale_group_width(expanded, width)`.
pub fn stale_group_line(palette: &Palette, header: &Vec<Span>, expanded: bool, selected: bool, width: usize) -> (r: Vec<
    Span,
>)
    ensures
        style::models(r@) == stale_group(*palette, style::models(header@), expanded, selected, width as nat),
{
    let (bg, fg) = if selected {
        (palette.highlight_row_bg, palette.text)
    } else {
        (palette.group_band_bg, palette.dimmed)
    };
    let mut spans = one_span(fold_mark(expanded), Style::fg(fg));
    style::push_all(&mut spans, header);
    style::set_bg(&mut spans, bg);
    style::pad_spans_to_width(&mut spans, width, Some(bg));
    spans
}

/// A divider across the sidebar.
pub open spec fn divider(p: Palette, width: nat) -> Seq<SpanModel> {
    one(style::repeated('─', width), Style::colored(p.border))
}

pub fn tile_divider(palette: &Palette, width: usize) -> (r: Vec<Span>)
    ensures
        style::models(r@) == divider(*palette, width as nat),
{
    one_span(style::repeat('─', width), Style::fg(palette.border))
}

/// A divider with a label in its middle.
pub open spec fn rule(p: Palette, label: Seq<char>, width: nat) -> Seq<SpanModel> {
    let content = seq![' '] + label + seq![' '];
    let cols = least(style::columns(content) as int, width as int) as nat;
    let left = ((width - cols) / 2) as nat;
    let right = (width - cols - left) as nat;
    seq![
        style::span(style::repeated('\u{2500}', left), Style::colored(p.border)),
        style::span(style::truncated(content, cols), Style::colored(p.dimmed)),
        style::span(style::repeated('\u{2500}', right), Style::colored(p.border)),
    ]
}

/// Marks a break in the list itself rather than the start of one group.
pub fn labeled_rule(palette: &Palette, label: &str, width: usize) -> (r: Vec<Span>)
    ensures
        style::models(r@) == rule(*palette, label@, width as nat),
{
    let mut t = String::new();
    t.push(' ');
    t.append(label);
    t.push(' ');
    proof {
        assert(t@ =~= seq![' '] + label@ + seq![' ']);
    }
    let full: usize = style::display_width(t.as_str());
    let cols: usize = if full <= width {
        full
    } else {
        width
    };
    let left: usize = (width - cols) / 2;
    let right: usize = width - cols - left;
    let mut spans = one_span(style::repeat('\u{2500}', left), Style::fg(palette.border));
    style::push_span(&mut spans, style::truncate_to_width(t.as_str(), cols), Style::fg(palette.dimmed));
    style::push_span(&mut spans, style::repeat('\u{2500}', right), Style::fg(palette.border));
    proof {
        assert(style::models(spans@) =~= rule(*palette, label@, width as nat));
    }
    spans
}

/// `width` without the right margin.
pub open spec fn before_margin(width: nat) -> nat {
    if width > 0 {
        (width - 1) as nat
    } else {
        0
    }
}

/// A group header among tiles: a divider that closes the group before, unless the header starts
/// the list, and the label line. The count lines up with the column beside the right margin.
pub open spec fn tile_header(p: Palette, header: Seq<SpanModel>, width: nat, is_first_row: bool) -> Seq<
    Seq<SpanModel>,
> {
    let label = style::padded(header_band(p, header, before_margin(width)), width, Some(p.group_band_bg));
    if is_first_row {
        seq![label]
    } else {
        seq![divider(p, width), label]
    }
}

/// Lays out a group header among tiles, given the header template filled in for
/// `header_width(width - 1)`.
pub fn tile_header_lines(palette: &Palette, header: &Vec<Span>, width: usize, is_first_row: bool) -> (r: Vec<Vec<Span>>)
    ensures
        line_models(r@) == tile_header(*palette, style::models(header@), width as nat, is_first_row),
{
    let mut lines: Vec<Vec<Span>> = Vec::new();
    if !is_first_row {
        lines.push(tile_divider(palette, width));
    }
    let mut spans = header_line(palette, header, width.saturating_sub(1));
    style::pad_spans_to_width(&mut spans, width, Some(palette.group_band_bg));
    lines.push(spans);
    proof {
        assert(line_models(lines@) =~= tile_header(*palette, style::models(header@), width as nat, is_first_row));
    }
    lines
}

// ── Group statuses ──────────────────────────────────────────────

/// Status icons with their style codes read.
pub struct CodedIcons {
    pub working: Vec<Span>,
    pub waiting: Vec<Span>,
    pub done: Vec<Span>,
}

/// Which tally an agent counts towards: waiting, done, working, stale. One without a status that
/// is not stale counts towards none.
pub open spec fn bucket(agent: AgentPane, stale_panes: Set<Seq<char>>) -> Option<int> {
    if stale_panes.contains(agent.pane_id@) {
        Some(3)
    } else {
        match agent.status {
            Some(AgentStatus::Waiting) => Some(0),
            Some(AgentStatus::Done) => Some(1),
            Some(AgentStatus::Working) => Some(2),
            None => None,
        }
    }
}

/// How many of the first `k` agents are of a group and count towards a tally.
pub open spec fn tally(
    agents: Seq<AgentPane>,
    mode: SidebarGroupBy,
    label: Seq<char>,
    stale_panes: Set<Seq<char>>,
    b: int,
    k: int,
) -> nat
    decreases k,
{
    if k <= 0 {
        0
    } else {
        let before = tally(agents, mode, label, stale_panes, b, k - 1);
        let a = agents[k - 1];
        if snapshot::label(a, mode) == label && bucket(a, stale_panes) == Some(b) {
            before + 1
        } else {
            before
        }
    }
}

fn count_bucket(agents: &Vec<AgentPane>, mode: SidebarGroupBy, label: &str, stale_panes: &StrSet, b: u8) -> (r: usize)
    ensures
        r == tally(agents@, mode, label@, stale_panes@, b as int, agents@.len() as int),
{
    let mut n: usize = 0;
    let mut i: usize = 0;
    while i < agents.len()
        invariant
            i <= agents.len(),
            n <= i,
            n == tally(agents@, mode, label@, stale_panes@, b as int, i as int),
        decreases agents.len() - i,
    {
        let a = &agents[i];
        let of_group = snapshot::group_label(a, mode);
        let at: Option<u8> = if stale_panes.contains(a.pane_id.as_str()) {
            Some(3)
        } else {
            match a.status {
                Some(AgentStatus::Waiting) => Some(0),
                Some(AgentStatus::Done) => Some(1),
                Some(AgentStatus::Working) => Some(2),
                None => None,
            }
        };
        if text::same(of_group.as_str(), label) && at == Some(b) {
            n += 1;
        }
        i += 1;
    }
    n
}

/// The entry of a tally, none where it is empty.
pub open spec fn tallied(n: nat, icon: Seq<SpanModel>, pad: nat) -> Seq<StatusModel> {
    if n > 0 {
        seq![StatusModel { icon, count: n, pad }]
    } else {
        seq![]
    }
}

/// The icon of a status, laid out.
pub open spec fn drawn_icon(
    app: SidebarApp,
    nerd_font: bool,
    status: Option<AgentStatus>,
    is_stale: bool,
    coded: Seq<SpanModel>,
) -> Seq<SpanModel> {
    ui::icon_spans(
        ui::status_look(app.status_icons, app.palette, nerd_font, app.spinner_frame, status, is_stale),
        coded,
    )
}

/// What the agents of a group are doing, most urgent first. Stale agents are one entry however
/// they became stale, matching the fold that hides them.
pub open spec fn group_tallies(app: SidebarApp, label: Seq<char>, nerd_font: bool, coded: CodedIcons) -> Seq<
    StatusModel,
> {
    match app.group_by {
        Some(mode) => {
            let n = app.agents@.len() as int;
            let stale = app.stale_pane_ids@;
            let (waiting, done, working) = (
                Some(AgentStatus::Waiting),
                Some(AgentStatus::Done),
                Some(AgentStatus::Working),
            );
            tallied(
                tally(app.agents@, mode, label, stale, 0, n),
                drawn_icon(app, nerd_font, waiting, false, style::models(coded.waiting@)),
                ui::overhang(waiting, false),
            ) + tallied(
                tally(app.agents@, mode, label, stale, 1, n),
                drawn_icon(app, nerd_font, done, false, style::models(coded.done@)),
                ui::overhang(done, false),
            ) + tallied(
                tally(app.agents@, mode, label, stale, 2, n),
                drawn_icon(app, nerd_font, working, false, style::models(coded.working@)),
                ui::overhang(working, false),
            ) + tallied(
                tally(app.agents@, mode, label, stale, 3, n),
                drawn_icon(app, nerd_font, None, true, seq![]),
                ui::overhang(None, true),
            )
        },
        None => seq![],
    }
}

fn push_tally(
    out: &mut Vec<GroupStatusCount>,
    app: &SidebarApp,
    mode: SidebarGroupBy,
    label: &str,
    glyphs: &Glyphs,
    b: u8,
    status: Option<AgentStatus>,
    is_stale: bool,
    coded: &Vec<Span>,
)
    ensures
        row::status_models(final(out)@) == row::status_models(old(out)@) + tallied(
            tally(app.agents@, mode, label@, app.stale_pane_ids@, b as int, app.agents@.len() as int),
            drawn_icon(*app, glyphs.nerd_font, status, is_stale, style::models(coded@)),
            ui::overhang(status, is_stale),
        ),
{
    let count = count_bucket(&app.agents, mode, label, &app.stale_pane_ids, b);
    let ghost added = tallied(
        tally(app.agents@, mode, label@, app.stale_pane_ids@, b as int, app.agents@.len() as int),
        drawn_icon(*app, glyphs.nerd_font, status, is_stale, style::models(coded@)),
        ui::overhang(status, is_stale),
    );
    if count > 0 {
        let (icon, base) = ui::status_icon_and_style(
            &app.status_icons,
            &app.palette,
            glyphs,
            app.spinner_frame,
            status,
            is_stale,
        );
        let icon = ui::status_icon_spans(icon, base, coded);
        out.push(GroupStatusCount { icon, count, pad: ui::status_icon_overhang(status, is_stale) });
    }
    proof {
        assert(row::status_models(out@) =~= row::status_models(old(out)@) + added);
    }
}

/// Tallies the statuses of a group's agents, so that a header can say what a section holds and
/// not only how much.
pub fn group_status_counts(app: &SidebarApp, label: &str, glyphs: &Glyphs, coded: &CodedIcons) -> (r: Vec<
    GroupStatusCount,
>)
    ensures
        row::status_models(r@) == group_tallies(*app, label@, glyphs.nerd_font, *coded),
{
    let mut r: Vec<GroupStatusCount> = Vec::new();
    let none: Vec<Span> = Vec::new();
    proof {
        assert(row::status_models(r@) =~= Seq::<StatusModel>::empty());
        assert(style::models(none@) =~= Seq::<SpanModel>::empty());
    }
    match app.group_by {
        Some(mode) => {
            push_tally(&mut r, app, mode, label, glyphs, 0, Some(AgentStatus::Waiting), false, &coded.waiting);
            push_tally(&mut r, app, mode, label, glyphs, 1, Some(AgentStatus::Done), false, &coded.done);
            push_tally(&mut r, app, mode, label, glyphs, 2, Some(AgentStatus::Working), false, &coded.working);
            push_tally(&mut r, app, mode, label, glyphs, 3, None, true, &none);
            proof {
                assert(row::status_models(r@) =~= group_tallies(*app, label@, glyphs.nerd_font, *coded));
            }
        },
        None => {},
    }
    r
}

/// Whether a template has a field for the statuses of a group.
pub open spec fn asks_for_statuses(template: Seq<Token>) -> bool {
    exists|i: int| 0 <= i < template.len() && #[trigger] template[i] == Token::Field(TokenId::GroupStatus)
}

fn wants_statuses(template: &Vec<Token>) -> (r: bool)
    ensures
        r == asks_for_statuses(template@),
{
    let mut i: usize = 0;
    while i < template.len()
        invariant
            i <= template.len(),
            forall|j: int| 0 <= j < i ==> #[trigger] template@[j] != Token::Field(TokenId::GroupStatus),
        decreases template.len() - i,
    {
        if matches!(&template[i], Token::Field(TokenId::GroupStatus)) {
            proof {
                assert(template@[i as int] == Token::Field(TokenId::GroupStatus));
            }
            return true;
        }
        i += 1;
    }
    false
}

/// What the header template of a group is filled in from. The statuses are counted only where the
/// template asks for them.
pub fn header_context<'a>(
    app: &'a SidebarApp,
    label: &str,
    count: usize,
    glyphs: &Glyphs,
    coded: &CodedIcons,
) -> (r: HeaderContext<'a>)
    ensures
        r.label@ == label@,
        r.count == count,
        *r.palette == app.palette,
        row::status_models(r.statuses@) == (if asks_for_statuses(app.templates.group_header@) {
            group_tallies(*app, label@, glyphs.nerd_font, *coded)
        } else {
            seq![]
        }),
{
    let statuses = if wants_statuses(&app.templates.group_header) {
        group_status_counts(app, label, glyphs, coded)
    } else {
        let none: Vec<GroupStatusCount> = Vec::new();
        proof {
            assert(row::status_models(none@) =~= Seq::<StatusModel>::empty());
        }
        none
    };
    HeaderContext { label: label.to_owned(), count, statuses, palette: &app.palette }
}

// ── An empty sidebar ────────────────────────────────────────────

/// A frame of the spinner that is shown while loading.
pub open spec fn loading_frame(frame: u8) -> Seq<char> {
    match frame % 10 {
        0 => "⠋"@,
        1 => "⠙"@,
        2 => "⠹"@,
        3 => "⠸"@,
        4 => "⠼"@,
        5 => "⠴"@,
        6 => "⠦"@,
        7 => "⠧"@,
        8 => "⠇"@,
        _ => "⠏"@,
    }
}

fn loading_spinner(frame: u8) -> (r: &'static str)
    ensures
        r@ == loading_frame(frame),
{
    match frame % 10 {
        0 => "⠋",
        1 => "⠙",
        2 => "⠹",
        3 => "⠸",
        4 => "⠼",
        5 => "⠴",
        6 => "⠦",
        7 => "⠧",
        8 => "⠇",
        _ => "⠏",
    }
}

/// What a sidebar without agents says.
pub open spec fn empty_notice(app: SidebarApp) -> Seq<SpanModel> {
    let look = Style::colored(app.palette.dimmed);
    if app.has_loaded_snapshot {
        one("No agents running"@, look)
    } else {
        one(loading_frame(app.spinner_frame), look).push(style::span(" Loading"@, look))
    }
}

pub fn no_agents_line(app: &SidebarApp) -> (r: Vec<Span>)
    ensures
        style::models(r@) == empty_notice(*app),
{
    let look = Style::fg(app.palette.dimmed);
    if app.has_loaded_snapshot {
        one_span("No agents running".to_owned(), look)
    } else {
        let mut r = one_span(loading_spinner(app.spinner_frame).to_owned(), look);
        style::push_span(&mut r, " Loading".to_owned(), look);
        r
    }
}

/// The row that a sidebar without agents says so in: the middle one; the first of a low top bar.
pub fn no_agents_row(area: Area, in_top_bar: bool) -> (r: u16)
    requires
        on_screen(area),
    ensures
        r == (if in_top_bar && area.height < 3 {
            area.y as int
        } else {
            area.y + area.height / 2
        }),
{
    if in_top_bar && area.height < 3 {
        area.y
    } else {
        area.y + area.height / 2
    }
}

// ── The frame ───────────────────────────────────────────────────

/// The footer of a vertical sidebar: the session filter while it is on, else the grouping hint
/// while it is offered.
pub open spec fn footer(app: SidebarApp, width: nat) -> Option<Seq<SpanModel>> {
    if app.filter_mode == SidebarFilterMode::Session {
        Some(one(filter_text(session_of(app)), footer_style(app.palette)))
    } else if crate::pointer::hint_shown(app) {
        Some(hint(app, width))
    } else {
        None
    }
}

/// The part of a vertical sidebar that content is drawn in. A compact list has a column free on
/// both sides; tiles have edges of their own.
pub open spec fn content_area(mode: SidebarLayoutMode, area: Area) -> Area {
    match mode {
        SidebarLayoutMode::Compact => indented(area),
        SidebarLayoutMode::Tiles => area,
    }
}

pub fn inner_area(mode: SidebarLayoutMode, area: Area) -> (r: Area)
    ensures
        r == content_area(mode, area),
{
    match mode {
        SidebarLayoutMode::Compact => indent(area),
        SidebarLayoutMode::Tiles => area,
    }
}

/// What a frame sets aside below the list.
pub struct FooterPlan {
    pub line: Vec<Span>,
    pub area: Area,
}

/// Whether a footer is drawn: where there is one, and room for the list above it.
pub open spec fn footer_drawn(app: SidebarApp, inner: Area) -> bool {
    footer(app, inner.width as nat) is Some && inner.height > 1
}

impl SidebarApp {
    /// Parts the content of a vertical sidebar into the list and the footer below it.
    pub fn plan_footer(&mut self, inner: Area) -> (r: Option<FooterPlan>)
        requires
            on_screen(inner),
        ensures
            *final(self) == (SidebarApp {
                list_area: if footer_drawn(*old(self), inner) {
                    Area { height: (inner.height - 1) as u16, ..inner }
                } else {
                    inner
                },
                ..*old(self)
            }),
            match r {
                Some(plan) => {
                    &&& footer_drawn(*old(self), inner)
                    &&& Some(style::models(plan.line@)) == footer(*old(self), inner.width as nat)
                    &&& plan.area == below(inner, inner.height - 1)
                },
                None => !footer_drawn(*old(self), inner),
            },
    {
        let line = if matches!(self.filter_mode, SidebarFilterMode::Session) {
            Some(filter_footer_line(self))
        } else if self.show_hint() {
            Some(hint_line(self, inner.width as usize))
        } else {
            None
        };
        match line {
            Some(line) if inner.height > 1 => {
                self.list_area = Area { height: inner.height - 1, ..inner };
                let area = Area { y: inner.y + (inner.height - 1), height: 1, ..inner };
                Some(FooterPlan { line, area })
            },
            _ => {
                self.list_area = inner;
                None
            },
        }
    }
}

// ── What the frame is for ───────────────────────────────────────

/// An overlay lies within the screen and in its middle: what is left over on one side differs by no
/// more than one cell from what is left over on the other. It is as large as asked for, or as the
/// screen.
pub proof fn law_overlays_lie_in_the_middle(within: Area, width: int, height: int)
    requires
        on_screen(within),
        0 <= width <= u16::MAX,
        0 <= height <= u16::MAX,
    ensures
        ({
            let r = centered(within, width, height);
            let left = r.x - within.x;
            let right = within.x + within.width - r.x - r.width;
            let top = r.y - within.y;
            let bottom = within.y + within.height - r.y - r.height;
            &&& width <= within.width ==> r.width == width
            &&& width > within.width ==> r.width == within.width
            &&& height <= within.height ==> r.height == height
            &&& height > within.height ==> r.height == within.height
            &&& 0 <= left <= right <= left + 1
            &&& 0 <= top <= bottom <= top + 1
        }),
{
}

/// What lies below some rows of an area ends where the area does; an indented area has a column less on
/// both sides.
pub proof fn law_areas_are_parted(area: Area, rows: int)
    requires
        on_screen(area),
        0 <= rows <= area.height,
    ensures
        below(area, rows).y == area.y + rows,
        below(area, rows).y + below(area, rows).height == area.y + area.height,
        below(area, rows).x == area.x && below(area, rows).width == area.width,
        area.width >= 2 ==> indented(area).x == area.x + 1 && indented(area).x + indented(area).width + 1 == area.x
            + area.width,
        indented(area).y == area.y && indented(area).height == area.height,
        content_area(SidebarLayoutMode::Tiles, area) == area,
        area.width >= 2 ==> content_area(SidebarLayoutMode::Compact, area).width == area.width - 2,
{
}

/// The help lists every key that moves or switches something, and those that fold groups only while
/// there are groups.
pub proof fn law_help_lists_the_keys(grouped: bool)
    ensures
        ({
            let es = help_texts(grouped);
            let listed = |k: Seq<char>, a: Seq<char>| es.contains((k, a));
            &&& listed("j k"@, "move"@) && listed("g G"@, "first last"@) && listed("enter"@, "jump"@)
            &&& listed("t"@, "grouping"@) && listed("v"@, "layout"@) && listed("f"@, "session filter"@)
            &&& listed("z"@, "sleep"@) && listed("q"@, "quit"@)
            &&& grouped ==> listed("h l"@, "fold unfold"@) && listed("s"@, "fold group"@) && listed("S"@, "fold all"@)
            &&& es.len() == 8 + (if grouped {
                3int
            } else {
                0int
            })
        }),
{
    let es = help_texts(grouped);
    let n = if grouped {
        3int
    } else {
        0int
    };
    assert(es[0] == ("j k"@, "move"@) && es[1] == ("g G"@, "first last"@) && es[2] == ("enter"@, "jump"@));
    if grouped {
        assert(es[3] == ("h l"@, "fold unfold"@) && es[4] == ("s"@, "fold group"@) && es[5] == ("S"@, "fold all"@));
    }
    assert(es[3 + n] == ("t"@, "grouping"@) && es[4 + n] == ("v"@, "layout"@) && es[5 + n] == (
        "f"@,
        "session filter"@,
    ));
    assert(es[6 + n] == ("z"@, "sleep"@) && es[7 + n] == ("q"@, "quit"@));
}

proof fn lemma_broken(lines: nat, current: nat, width: nat)
    requires
        width > 0,
    ensures
        ({
            let (l, c) = broken(lines, current, width);
            &&& l >= lines
            &&& c <= width
            &&& l * width + c == lines * width + current
        }),
    decreases current,
{
    if width < current {
        lemma_broken(lines + 1, (current - width) as nat, width);
        assert((lines + 1) * width == lines * width + width) by (nonlinear_arith);
    }
}

/// The columns of words, one behind the other.
pub open spec fn words_columns(words: Seq<Seq<char>>) -> nat
    decreases words.len(),
{
    if words.len() == 0 {
        0
    } else {
        words_columns(words.drop_last()) + style::columns(words.last())
    }
}

/// Wrapped words fit: the lines they take have room for all of their columns. Words that fit into one
/// line take one.
pub proof fn law_wrapped_words_have_room(words: Seq<Seq<char>>, width: nat)
    requires
        width > 0,
    ensures
        ({
            let (lines, last) = wrapped(words, width);
            &&& lines >= 1
            &&& last <= width
            &&& words_columns(words) <= (lines - 1) * width + last
            &&& words_columns(words) <= width ==> lines == 1 && last == words_columns(words)
        }),
    decreases words.len(),
{
    if words.len() > 0 {
        law_wrapped_words_have_room(words.drop_last(), width);
        let (lines, current) = wrapped(words.drop_last(), width);
        let w = style::columns(words.last());
        let before = words_columns(words.drop_last());
        if current > 0 && current + w > width {
            lemma_broken(lines + 1, w, width);
            let (l, c) = broken(lines + 1, w, width);
            assert((l - 1) * width == l * width - width) by (nonlinear_arith);
            assert((lines + 1) * width == lines * width + width) by (nonlinear_arith);
            assert((lines - 1) * width == lines * width - width) by (nonlinear_arith);
        } else {
            lemma_broken(lines, current + w, width);
            let (l, c) = broken(lines, current + w, width);
            assert((l - 1) * width == l * width - width) by (nonlinear_arith);
            assert((lines - 1) * width == lines * width - width) by (nonlinear_arith);
        }
    }
}

/// A warning never takes more rows than there are, and one row at least where there is any.
pub proof fn law_warnings_leave_the_screen(message: Seq<char>, area: Area)
    ensures
        0 <= warning_rows(message, area) <= area.height,
        area.height > 0 && area.width > 0 ==> warning_rows(message, area) >= 1,
        area.width > 0 && words_columns(blank_ended(message)) <= area.width && area.height > 0 ==> warning_rows(
            message,
            area,
        ) == 1,
{
    if area.width > 0 {
        law_wrapped_words_have_room(blank_ended(message), area.width as nat);
    }
}

/// The footer tells of the session filter, with the session's name where it is known, before anything
/// else; of the grouping hint where that is offered; and of nothing otherwise.
pub proof fn law_footers_tell_of_the_filter(app: SidebarApp, width: nat)
    ensures
        app.filter_mode is Session ==> footer(app, width) is Some && footer(app, width)->0.len() == 1,
        app.filter_mode is Session && app.host_identity is Some ==> footer(app, width)->0[0].content == "[session: "@
            + app.host_identity->0.session_name@ + "]"@,
        app.filter_mode is Session && app.host_identity is None ==> footer(app, width)->0[0].content == "[session]"@,
        app.filter_mode is All ==> (footer(app, width) is Some <==> crate::pointer::hint_shown(app)),
{
}

/// A hint shows the way back while the list is grouped, and the way to the configured grouping while it
/// is not. The badge marks only the invitation.
pub proof fn law_hints_show_the_other_way(configured: Option<SidebarGroupBy>, mode: SidebarGroupBy)
    ensures
        hint_options(Some(mode), configured)[0] == "t  flat list  ·  ?  keys"@,
        configured == Some(SidebarGroupBy::Session) ==> hint_options(None, configured)[0] == "t  group by "@ + "session"@
            + "  ·  ?  keys"@,
        configured != Some(SidebarGroupBy::Session) ==> hint_options(None, configured)[0] == "t  group by "@ + "project"@
            + "  ·  ?  keys"@,
        hint_options(Some(mode), configured).len() == 2,
        hint_options(None, configured).len() == 3,
{
}

/// Of the options, the first that fits is taken; where none does, the last.
pub proof fn law_the_first_fitting_option_is_taken(options: Seq<Seq<char>>, used: nat, room: nat)
    requires
        options.len() > 0,
    ensures
        ({
            let r = fitting_option(options, used, room);
            exists|k: int|
                {
                    &&& 0 <= k < options.len()
                    &&& r == #[trigger] options[k]
                    &&& forall|j: int| 0 <= j < k ==> used + style::columns(#[trigger] options[j]) > room
                    &&& k < options.len() - 1 ==> used + style::columns(options[k]) <= room
                }
        }),
    decreases options.len(),
{
    if options.len() == 1 || used + style::columns(options[0]) <= room {
        assert(fitting_option(options, used, room) == options[0]);
    } else {
        let rest = options.skip(1);
        law_the_first_fitting_option_is_taken(rest, used, room);
        let r = fitting_option(rest, used, room);
        let k = choose|k: int|
            {
                &&& 0 <= k < rest.len()
                &&& r == #[trigger] rest[k]
                &&& forall|j: int| 0 <= j < k ==> used + style::columns(#[trigger] rest[j]) > room
                &&& k < rest.len() - 1 ==> used + style::columns(rest[k]) <= room
            };
        assert(options[k + 1] == rest[k]);
        assert forall|j: int| 0 <= j < k + 1 implies used + style::columns(#[trigger] options[j]) > room by {
            if j > 0 {
                assert(rest[j - 1] == options[j]);
            }
        }
    }
}

/// Headers, folded groups and selected toggles are bands across the whole width, in the colour of the
/// band or of the selection; a label that is already too long stays as it is.
pub proof fn law_bands_fill_the_width(p: Palette, header: Seq<SpanModel>, expanded: bool, selected: bool, width: nat)
    requires
        style::columns_of(' ') == 1,
    ensures
        ({
            let band = header_band(p, header, width);
            let fold = stale_group(p, header, expanded, selected, width);
            &&& style::span_columns(header) + (if width < 6 {
                0nat
            } else {
                2
            }) <= width ==> style::span_columns(band) == width
            &&& forall|i: int| 0 <= i < band.len() ==> (#[trigger] band[i]).style.bg is Some
            &&& forall|i: int|
                0 <= i < fold.len() ==> (#[trigger] fold[i]).style.bg == Some(
                    if selected {
                        p.highlight_row_bg
                    } else {
                        p.group_band_bg
                    },
                )
            &&& fold.len() > 0 && fold[0].content == chevron_text(expanded) + seq![' ']
            &&& fold[0].style.fg == Some(
                if selected {
                    p.text
                } else {
                    p.dimmed
                },
            )
            &&& forall|i: int| 0 <= i < header.len() ==> fold[i + 1].content == (#[trigger] header[i]).content
        }),
{
    let indent = one(style::repeated(' ', header_indent(width)), Style::plain());
    let spans = indent + header;
    let under = style::backed(spans, p.group_band_bg);
    style::lemma_blanks(header_indent(width));
    style::lemma_span_columns_one(indent[0]);
    style::lemma_span_columns_add(indent, header);
    lemma_same_columns(spans, under);
    style::law_padded_lines_fill_the_width(under, width, Some(p.group_band_bg));
    let mark = one(fold_marker(expanded), Style::colored(if selected {
        p.text
    } else {
        p.dimmed
    }));
    let all = style::rebacked(mark + header, fold_bg(p, selected));
    style::law_padded_lines_fill_the_width(all, width, Some(fold_bg(p, selected)));
    let fold = stale_group(p, header, expanded, selected, width);
    assert(fold[0] == all[0]);
    assert forall|i: int| 0 <= i < header.len() implies fold[i + 1].content == (#[trigger] header[i]).content by {
        assert(all[i + 1].content == (mark + header)[i + 1].content);
        assert(fold[i + 1] == all[i + 1]);
    }
}

proof fn lemma_same_columns(a: Seq<SpanModel>, b: Seq<SpanModel>)
    requires
        a.len() == b.len(),
        forall|i: int| 0 <= i < a.len() ==> (#[trigger] a[i]).content == b[i].content,
    ensures
        style::span_columns(a) == style::span_columns(b),
    decreases a.len(),
{
    if a.len() > 0 {
        lemma_same_columns(a.drop_last(), b.drop_last());
        assert(a[a.len() - 1].content == b[b.len() - 1].content);
    }
}

/// An unfolded toggle points down, a folded one to the right. It counts what it folds.
pub proof fn law_toggles_point_the_way(p: Palette, count: nat, expanded: bool, width: nat)
    ensures
        chevron_text(true) == "▾"@,
        chevron_text(false) == "▸"@,
        ({
            let whole = "  "@ + (if expanded {
                "▾"@
            } else {
                "▸"@
            }) + seq![' '] + text::numeral(count) + " stale"@;
            let tail = stale_tail(p, count, expanded, false, width);
            let chosen = stale_tail(p, count, expanded, true, width);
            &&& tail.len() == 1 && chosen.len() >= 1
            &&& style::columns(whole) <= width ==> tail[0].content == whole && chosen[0].content == whole
            &&& tail[0].style.fg == Some(p.dimmed) && tail[0].style.bg is None
            &&& chosen[0].style.fg == Some(p.text) && chosen[0].style.bg == Some(p.highlight_row_bg)
        }),
{
    let whole = "  "@ + chevron_text(expanded) + seq![' '] + text::numeral(count) + " stale"@;
    style::law_truncated_fits(whole, width);
}

/// A rule has its label in the middle, between lines that differ by no more than one cell, and is as
/// wide as it is asked for where it holds the label.
pub proof fn law_rules_are_centred(p: Palette, label: Seq<char>, width: nat)
    requires
        style::columns(seq![' '] + label + seq![' ']) <= width,
    ensures
        ({
            let r = rule(p, label, width);
            let cols = style::columns(seq![' '] + label + seq![' ']);
            &&& r.len() == 3
            &&& r[1].content == seq![' '] + label + seq![' ']
            &&& r[0].content.len() + cols + r[2].content.len() == width
            &&& r[0].content.len() <= r[2].content.len() <= r[0].content.len() + 1
            &&& forall|i: int| 0 <= i < r[0].content.len() ==> #[trigger] r[0].content[i] == '─'
            &&& forall|i: int| 0 <= i < r[2].content.len() ==> #[trigger] r[2].content[i] == '─'
            &&& r[0].style.fg == Some(p.border) && r[2].style.fg == Some(p.border) && r[1].style.fg == Some(p.dimmed)
        }),
        divider(p, width)[0].content.len() == width,
{
    style::law_truncated_fits(seq![' '] + label + seq![' '], style::columns(seq![' '] + label + seq![' ']));
}

/// A header among tiles is parted from the group before by a divider, unless it starts the list.
pub proof fn law_tile_headers_are_parted(p: Palette, header: Seq<SpanModel>, width: nat)
    ensures
        tile_header(p, header, width, true).len() == 1,
        tile_header(p, header, width, false).len() == 2,
        tile_header(p, header, width, false)[0] == divider(p, width),
        tile_header(p, header, width, false)[1] == tile_header(p, header, width, true)[0],
{
}

/// Every agent of a group that is stale counts as stale alone; one that is not counts by its status,
/// and one without a status not at all. Agents of other groups never count.
pub proof fn law_agents_are_counted_once(
    agents: Seq<AgentPane>,
    mode: SidebarGroupBy,
    label: Seq<char>,
    stale: Set<Seq<char>>,
    k: int,
)
    requires
        0 <= k < agents.len(),
    ensures
        ({
            let a = agents[k];
            let more = |b: int|
                tally(agents, mode, label, stale, b, k + 1) - tally(agents, mode, label, stale, b, k);
            let one = |c: bool|
                if c {
                    1int
                } else {
                    0int
                };
            let here = snapshot::label(a, mode) == label;
            let asleep = stale.contains(a.pane_id@);
            &&& more(0) == one(here && !asleep && a.status == Some(AgentStatus::Waiting))
            &&& more(1) == one(here && !asleep && a.status == Some(AgentStatus::Done))
            &&& more(2) == one(here && !asleep && a.status == Some(AgentStatus::Working))
            &&& more(3) == one(here && asleep)
        }),
        tally(agents, mode, label, stale, 0, 0) == 0 && tally(agents, mode, label, stale, 3, 0) == 0,
{
}

/// The statuses of a group are listed with those that wait first, then those that are done, that work,
/// and that are stale; one that nobody has is left out.
pub proof fn law_urgent_statuses_are_listed_first(app: SidebarApp, label: Seq<char>, nerd: bool, coded: CodedIcons, mode: SidebarGroupBy)
    requires
        app.group_by == Some(mode),
    ensures
        ({
            let r = group_tallies(app, label, nerd, coded);
            let n = app.agents@.len() as int;
            let count = |b: int| tally(app.agents@, mode, label, app.stale_pane_ids@, b, n);
            let part = |b: int|
                if count(b) > 0 {
                    1int
                } else {
                    0int
                };
            &&& r.len() == part(0) + part(1) + part(2) + part(3)
            &&& count(0) > 0 ==> r[0].count == count(0) && r[0].pad == 1
            &&& count(1) > 0 ==> r[part(0)].count == count(1) && r[part(0)].pad == 1
            &&& count(2) > 0 ==> r[part(0) + part(1)].count == count(2) && r[part(0) + part(1)].pad == 0
            &&& count(3) > 0 ==> r[part(0) + part(1) + part(2)].count == count(3) && r[part(0) + part(1) + part(2)].pad
                == 1
        }),
{
}

/// A sidebar without agents says so once it knows, and turns a spinner until then.
pub proof fn law_empty_sidebars_say_so(app: SidebarApp)
    ensures
        app.has_loaded_snapshot ==> empty_notice(app).len() == 1 && empty_notice(app)[0].content == "No agents running"@,
        !app.has_loaded_snapshot ==> empty_notice(app).len() == 2 && empty_notice(app)[0].content == loading_frame(
            app.spinner_frame,
        ) && empty_notice(app)[1].content == " Loading"@,
        forall|i: int| 0 <= i < empty_notice(app).len() ==> (#[trigger] empty_notice(app)[i]).style.fg == Some(app.palette.dimmed),
{
}

/// The spinner of loading turns in step with that of working agents: it is its first cell.
pub proof fn law_spinners_turn_in_step(frame: u8)
    ensures
        loading_frame(frame).len() == 1,
        loading_frame(frame)[0] == ui::working_frame(frame)[0],
{
    reveal_strlit("⠋⠙");
    reveal_strlit("⠙⠹");
    reveal_strlit("⠹⠸");
    reveal_strlit("⠸⠼");
    reveal_strlit("⠼⠴");
    reveal_strlit("⠴⠦");
    reveal_strlit("⠦⠧");
    reveal_strlit("⠧⠇");
    reveal_strlit("⠇⠏");
    reveal_strlit("⠏⠋");
    reveal_strlit("⠋");
    reveal_strlit("⠙");
    reveal_strlit("⠹");
    reveal_strlit("⠸");
    reveal_strlit("⠼");
    reveal_strlit("⠴");
    reveal_strlit("⠦");
    reveal_strlit("⠧");
    reveal_strlit("⠇");
    reveal_strlit("⠏");
}

/// A line of the help is the key, filled up to the widest, and what it does beside it.
pub proof fn law_help_lines_up(entry: (Seq<char>, Seq<char>), keys: nat, room: nat, p: Palette)
    requires
        entry.0.len() <= keys,
    ensures
        key_label(entry.0, keys).len() == keys + 1,
        key_label(entry.0, keys).take(entry.0.len() as int) == entry.0,
        ({
            let line = help_line(entry, keys, room, p);
            &&& line.len() == 2
            &&& style::columns(key_label(entry.0, keys)) <= room ==> line[0].content == key_label(entry.0, keys)
            &&& keys + 1 + style::columns(entry.1) <= room ==> line[1].content == entry.1
            &&& line[0].style.bold && line[0].style.fg == Some(p.text)
            &&& !line[1].style.bold && line[1].style.fg == Some(p.help_muted)
        }),
{
    let label = key_label(entry.0, keys);
    assert(label.take(entry.0.len() as int) =~= entry.0);
    style::law_truncated_fits(label, room);
    if room >= label.len() {
        style::law_truncated_fits(entry.1, (room - label.len()) as nat);
    }
}

/// The question before the sidebar is closed reads as one line and has the keys of both answers in bold.
pub proof fn law_the_exit_question_names_its_keys(p: Palette)
    ensures
        ({
            let q = exit_question(p);
            &&& q.len() == 5
            &&& q[0].content + q[1].content + q[2].content + q[3].content + q[4].content
                == " Quit sidebar? yes / no"@
            &&& q[1].content == seq!['y'] && q[1].style.bold
            &&& q[3].content == seq!['n'] && q[3].style.bold
            &&& !q[0].style.bold && !q[2].style.bold && !q[4].style.bold
        }),
{
    reveal_strlit(" Quit sidebar? ");
    reveal_strlit("y");
    reveal_strlit("es / ");
    reveal_strlit("n");
    reveal_strlit("o");
    reveal_strlit(" Quit sidebar? yes / no");
    let q = exit_question(p);
    assert("y"@ =~= seq!['y']);
    assert("n"@ =~= seq!['n']);
    assert(q[0].content + q[1].content + q[2].content + q[3].content + q[4].content =~= " Quit sidebar? yes / no"@);
}

/// The help has a line for every key and room for all of it, a blank between key and action, and a
/// frame with a blank column on both sides, where the terminal has that room.
pub proof fn law_help_has_room(grouped: bool, terminal: Area, p: Palette, i: int)
    requires
        0 <= i < help_texts(grouped).len(),
        terminal.width >= 40,
        terminal.height >= 20,
    ensures
        ({
            let area = help_area(grouped, terminal);
            let es = help_texts(grouped);
            &&& area.height == es.len() + 2
            &&& es[i].0.len() + 1 + es[i].1.len() + 4 <= area.width <= terminal.width
            &&& help_lines(grouped, terminal, p).len() == es.len()
            &&& es[i].0.len() <= key_columns(es) && es[i].1.len() <= action_columns(es)
            &&& area.width == key_columns(es) + 1 + action_columns(es) + 4
            &&& help_lines(grouped, terminal, p)[i] == help_line(
                es[i],
                key_columns(es),
                (key_columns(es) + 1 + action_columns(es)) as nat,
                p,
            )
            &&& exists|k: int| 0 <= k < es.len() && (#[trigger] es[k]).0.len() == key_columns(es)
            &&& exists|k: int| 0 <= k < es.len() && (#[trigger] es[k]).1.len() == action_columns(es)
        }),
{
    lemma_columns_bounds(help_texts(grouped));
    lemma_help_columns(grouped);
}

/// The invitation to group is marked as new where there is room for the mark beside it; without room it
/// stands alone, and so does the way back.
pub proof fn law_invitations_are_marked_as_new(app: SidebarApp, width: nat)
    ensures
        ({
            let room = style::columns("new"@) + 2;
            let invitation = fitting_option(hint_options(None, app.configured_group_by), room, width);
            let back = fitting_option(hint_options(app.group_by, app.configured_group_by), 0, width);
            let dim = Style { dim: true, ..Style::colored(app.palette.dimmed) };
            let line = hint(app, width);
            &&& app.group_by is Some ==> line == one(style::truncated(back, width), dim)
            &&& app.group_by is None && room + style::columns(invitation) > width ==> line == one(
                style::truncated(invitation, width),
                dim,
            )
            &&& app.group_by is None && room + style::columns(invitation) <= width ==> line.len() >= 2
                && line[0].content == seq!['n', 'e', 'w'] && line[0].style.fg == Some(app.palette.accent)
                && line[1].content == seq![' ', ' '] && line.skip(2) == one(style::truncated(invitation, width), dim)
        }),
{
    reveal_strlit("new");
    reveal_strlit("  ");
    assert("new"@ =~= seq!['n', 'e', 'w']);
    assert("  "@ =~= seq![' ', ' ']);
    let room = style::columns("new"@) + 2;
    let invitation = fitting_option(hint_options(None, app.configured_group_by), room, width);
    let last = one(style::truncated(invitation, width), footer_style(app.palette));
    if app.group_by is None && room + style::columns(invitation) <= width {
        assert(hint(app, width).skip(2) =~= last);
    }
}

} // verus!
