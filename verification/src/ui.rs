//! The styled text of a sidebar, fitted into the columns it has.

use vstd::prelude::*;

use crate::model::{AgentPane, AgentStatus, CheckState, CheckSummary, GitStatus, StatusIcons};
use crate::style;
use crate::style::{Color, Palette, Span, SpanModel, Style};
use crate::text;

verus! {

// ── Pane suffixes ───────────────────────────────────────────────

/// Whether two agents share a window.
pub open spec fn share_window(a: AgentPane, b: AgentPane) -> bool {
    a.session@ == b.session@ && a.window_name@ == b.window_name@
}

/// How many of the first `k` agents share the window of agent `i`.
pub open spec fn sharing(agents: Seq<AgentPane>, i: int, k: int) -> nat
    decreases k,
{
    if k <= 0 {
        0
    } else {
        sharing(agents, i, k - 1) + (if share_window(agents[i], agents[k - 1]) {
            1nat
        } else {
            0
        })
    }
}

/// What tells agent `i` from the others of its window: its place among them, nothing where it is
/// alone.
pub open spec fn suffix(agents: Seq<AgentPane>, i: int) -> Seq<char> {
    if sharing(agents, i, agents.len() as int) > 1 {
        seq!['('] + text::numeral(sharing(agents, i, i + 1)) + seq![')']
    } else {
        seq![]
    }
}

fn count_sharing(agents: &Vec<AgentPane>, i: usize, k: usize) -> (r: usize)
    requires
        i < agents.len(),
        k <= agents.len(),
    ensures
        r == sharing(agents@, i as int, k as int),
{
    let mut n: usize = 0;
    let mut j: usize = 0;
    while j < k
        invariant
            i < agents.len(),
            j <= k <= agents.len(),
            n <= j,
            n == sharing(agents@, i as int, j as int),
        decreases k - j,
    {
        if text::same(agents[i].session.as_str(), agents[j].session.as_str()) && text::same(
            agents[i].window_name.as_str(),
            agents[j].window_name.as_str(),
        ) {
            n += 1;
        }
        j += 1;
    }
    n
}

/// Computes suffixes like `(1)`, `(2)` for agents that share a window.
pub fn compute_pane_suffixes(agents: &Vec<AgentPane>) -> (r: Vec<String>)
    ensures
        r@.len() == agents@.len(),
        forall|i: int| 0 <= i < agents@.len() ==> (#[trigger] r@[i])@ == suffix(agents@, i),
{
    let n: usize = agents.len();
    let mut r: Vec<String> = Vec::new();
    let mut i: usize = 0;
    while i < n
        invariant
            n == agents@.len(),
            i <= n,
            r@.len() == i,
            forall|j: int| 0 <= j < i ==> (#[trigger] r@[j])@ == suffix(agents@, j),
        decreases n - i,
    {
        let mut s = String::new();
        if count_sharing(agents, i, n) > 1 {
            s.push('(');
            text::push_decimal(&mut s, count_sharing(agents, i, i + 1) as u64);
            s.push(')');
        }
        proof {
            assert(s@ =~= suffix(agents@, i as int));
        }
        r.push(s);
        i += 1;
    }
    r
}

// ── Fragments ───────────────────────────────────────────────────

/// `color`, dimmed where stale.
pub open spec fn stale_or(palette: Palette, is_stale: bool, color: Color) -> Color {
    if is_stale {
        palette.dimmed
    } else {
        color
    }
}

pub fn stale_color(palette: &Palette, is_stale: bool, color: Color) -> (r: Color)
    ensures
        r == stale_or(*palette, is_stale, color),
{
    if is_stale {
        palette.dimmed
    } else {
        color
    }
}

/// The glyphs of a font.
#[derive(Debug)]
pub struct Glyphs {
    /// Whether the font has the symbols of a Nerd Font.
    pub nerd_font: bool,
    pub diff: String,
    pub rebase: String,
    pub conflict: String,
    pub check_success: String,
    pub check_failure: String,
    /// Frames of the spinner of pending checks.
    pub spinner: Vec<String>,
}

/// Spans with a space between neighbours.
pub open spec fn interleaved(spans: Seq<SpanModel>) -> Seq<SpanModel>
    decreases spans.len(),
{
    if spans.len() <= 1 {
        spans
    } else {
        interleaved(spans.drop_last()).push(style::span(seq![' '], Style::plain())).push(spans.last())
    }
}

/// The columns of spans with a space between neighbours.
pub open spec fn interleaved_columns(spans: Seq<SpanModel>) -> nat {
    if spans.len() == 0 {
        0
    } else {
        (style::span_columns(spans) + spans.len() - 1) as nat
    }
}

/// The first of `variants` that fits into `max` columns, with its width; nothing where none does.
pub open spec fn first_fit(variants: Seq<Seq<SpanModel>>, max: nat) -> (Seq<SpanModel>, nat)
    decreases variants.len(),
{
    if variants.len() == 0 {
        (seq![], 0)
    } else {
        let w = interleaved_columns(variants[0]);
        if 0 < w <= max {
            (interleaved(variants[0]), w)
        } else {
            first_fit(variants.skip(1), max)
        }
    }
}

/// What was picked never takes more columns than there are, and, as a blank takes one column, it
/// takes exactly the columns that are told.
pub proof fn law_picked_variants_fit(variants: Seq<Seq<SpanModel>>, max: nat)
    ensures
        first_fit(variants, max).1 <= max,
        style::columns_of(' ') == 1 ==> style::span_columns(first_fit(variants, max).0) == first_fit(
            variants,
            max,
        ).1,
    decreases variants.len(),
{
    if variants.len() > 0 {
        let w = interleaved_columns(variants[0]);
        if 0 < w <= max {
            if style::columns_of(' ') == 1 {
                lemma_interleaved_columns(variants[0]);
            }
        } else {
            law_picked_variants_fit(variants.skip(1), max);
        }
    }
}

proof fn lemma_blank_column()
    ensures
        style::columns(seq![' ']) == style::columns_of(' '),
{
    let s = seq![' '];
    assert(s.drop_last() =~= Seq::<char>::empty());
    assert(style::columns(s.drop_last()) == 0);
}

proof fn lemma_interleaved_columns(spans: Seq<SpanModel>)
    requires
        style::columns_of(' ') == 1,
    ensures
        style::span_columns(interleaved(spans)) == interleaved_columns(spans),
    decreases spans.len(),
{
    if spans.len() == 1 {
    } else if spans.len() > 1 {
        let front = interleaved(spans.drop_last());
        let space = style::span(seq![' '], Style::plain());
        lemma_interleaved_columns(spans.drop_last());
        lemma_blank_column();
        let all = interleaved(spans);
        assert(all.drop_last() =~= front.push(space));
        assert(all.drop_last().drop_last() =~= front);
        assert(style::span_columns(all.drop_last()) == style::span_columns(front) + 1);
    }
}

/// Puts a single space between neighbouring spans.
pub fn interleave_spans(spans: Vec<Span>) -> (r: Vec<Span>)
    ensures
        style::models(r@) == interleaved(style::models(spans@)),
{
    let ghost ms = style::models(spans@);
    let mut r: Vec<Span> = Vec::new();
    let mut i: usize = 0;
    proof {
        assert(style::models(r@) =~= interleaved(ms.take(0)));
    }
    while i < spans.len()
        invariant
            ms == style::models(spans@),
            i <= spans.len(),
            style::models(r@) == interleaved(ms.take(i as int)),
        decreases spans.len() - i,
    {
        let ghost before = style::models(r@);
        if i > 0 {
            style::push_span(&mut r, " ".to_owned(), Style::new());
        }
        let s = spans[i].clone();
        let ghost mid = style::models(r@);
        r.push(s);
        proof {
            reveal_strlit(" ");
            assert(" "@ =~= seq![' ']);
            assert(style::models(r@) =~= mid.push(spans@[i as int]@));
            let next = ms.take(i + 1);
            assert(next.drop_last() =~= ms.take(i as int));
            assert(next.last() == spans@[i as int]@);
            if i == 0 {
                assert(style::models(r@) =~= next);
            }
        }
        i += 1;
    }
    proof {
        assert(ms.take(i as int) =~= ms);
    }
    r
}

/// Picks the first variant that fits, in order of preference. The fragments of a variant are
/// joined by single spaces.
pub fn pick_fitting_variant(variants: Vec<Vec<Span>>, max_width: usize) -> (r: (Vec<Span>, usize))
    ensures
        (style::models(r.0@), r.1 as nat) == first_fit(variant_models(variants@), max_width as nat),
        style::span_columns(style::models(r.0@)) == r.1,
{
    let blank: usize = style::blank_width();
    proof {
        law_picked_variants_fit(variant_models(variants@), max_width as nat);
    }
    let ghost vs = variants@;
    let ghost all = variant_models(vs);
    let mut rest = variants;
    let ghost mut k: int = 0;
    proof {
        assert(vs.skip(0) =~= vs);
        assert(all.skip(0) =~= all);
    }
    while rest.len() > 0
        invariant
            blank == 1,
            vs == variants@,
            all == variant_models(vs),
            0 <= k <= vs.len(),
            rest@ =~= vs.skip(k),
            first_fit(all, max_width as nat) == first_fit(all.skip(k), max_width as nat),
            style::span_columns(first_fit(all, max_width as nat).0) == first_fit(all, max_width as nat).1,
        decreases rest.len(),
    {
        let raw = rest.remove(0);
        proof {
            assert(raw == vs[k]);
            assert(all.skip(k)[0] == style::models(raw@));
            assert(all.skip(k).skip(1) =~= all.skip(k + 1));
        }
        if raw.len() > 0 {
            let width: u128 = style::spans_width(&raw);
            let gaps: u128 = (raw.len() - 1) as u128 * blank as u128;
            let max: u128 = max_width as u128;
            if width <= max && gaps <= max - width && width + gaps > 0 {
                return (interleave_spans(raw), (width + gaps) as usize);
            }
        }
        proof {
            k = k + 1;
        }
    }
    (no_spans(), 0)
}

/// The contents of variants.
pub open spec fn variant_models(variants: Seq<Vec<Span>>) -> Seq<Seq<SpanModel>> {
    Seq::new(variants.len(), |i: int| style::models(variants[i]@))
}

/// A count behind a sign, nothing where it is zero.
pub open spec fn signed(sign: char, n: nat, style: Style) -> Seq<SpanModel> {
    if n > 0 {
        seq![style::span(seq![sign] + text::numeral(n), style)]
    } else {
        seq![]
    }
}

/// The fragment of a count.
pub fn count_fragment(sign: char, n: usize, style: Style) -> (r: Vec<Span>)
    ensures
        style::models(r@) == signed(sign, n as nat, style),
{
    let mut r: Vec<Span> = Vec::new();
    proof {
        assert(style::models(r@) =~= Seq::<SpanModel>::empty());
    }
    if n > 0 {
        let mut s = String::new();
        s.push(sign);
        text::push_decimal(&mut s, n as u64);
        proof {
            assert(s@ =~= seq![sign] + text::numeral(n as nat));
        }
        style::push_span(&mut r, s, style);
        proof {
            assert(style::models(r@) =~= signed(sign, n as nat, style));
        }
    }
    r
}

/// What is tried for a diff, widest first: both counts, the added, the removed, each behind the
/// prefix; the prefix alone where that is allowed.
pub open spec fn diff_ladder(
    prefix: Seq<SpanModel>,
    added: Seq<SpanModel>,
    removed: Seq<SpanModel>,
    prefix_alone: bool,
) -> Seq<Seq<SpanModel>> {
    let counts = if added.len() > 0 && removed.len() > 0 {
        seq![prefix + added + removed, prefix + added, prefix + removed]
    } else if added.len() > 0 {
        seq![prefix + added]
    } else if removed.len() > 0 {
        seq![prefix + removed]
    } else {
        seq![]
    };
    if prefix_alone && prefix.len() > 0 {
        counts.push(prefix)
    } else {
        counts
    }
}

fn three(a: &Vec<Span>, b: &Vec<Span>, c: &Vec<Span>) -> (r: Vec<Span>)
    ensures
        style::models(r@) == style::models(a@) + style::models(b@) + style::models(c@),
{
    let mut r = style::copy_spans(a);
    style::push_all(&mut r, b);
    style::push_all(&mut r, c);
    r
}

fn two(a: &Vec<Span>, b: &Vec<Span>) -> (r: Vec<Span>)
    ensures
        style::models(r@) == style::models(a@) + style::models(b@),
{
    let mut r = style::copy_spans(a);
    style::push_all(&mut r, b);
    r
}

pub fn diff_variant_ladder(prefix: &Vec<Span>, added: &Vec<Span>, removed: &Vec<Span>, icon_only_fallback: bool) -> (r:
    Vec<Vec<Span>>)
    ensures
        variant_models(r@) == diff_ladder(
            style::models(prefix@),
            style::models(added@),
            style::models(removed@),
            icon_only_fallback,
        ),
{
    let mut r: Vec<Vec<Span>> = Vec::new();
    if added.len() > 0 && removed.len() > 0 {
        r.push(three(prefix, added, removed));
        r.push(two(prefix, added));
        r.push(two(prefix, removed));
    } else if added.len() > 0 {
        r.push(two(prefix, added));
    } else if removed.len() > 0 {
        r.push(two(prefix, removed));
    }
    if icon_only_fallback && prefix.len() > 0 {
        r.push(style::copy_spans(prefix));
    }
    proof {
        assert(variant_models(r@) =~= diff_ladder(
            style::models(prefix@),
            style::models(added@),
            style::models(removed@),
            icon_only_fallback,
        ));
    }
    r
}

// ── Git ─────────────────────────────────────────────────────────

/// Whether a worktree has changes that are not committed.
pub open spec fn uncommitted(s: GitStatus) -> bool {
    s.uncommitted_added > 0 || s.uncommitted_removed > 0 || s.is_dirty
}

/// Whether the committed changes of a branch are shown: where there are any, and they are not the
/// uncommitted ones over again.
pub open spec fn committed_shown(s: GitStatus) -> bool {
    &&& s.lines_added > 0 || s.lines_removed > 0
    &&& !(uncommitted(s) && s.uncommitted_added == s.lines_added && s.uncommitted_removed == s.lines_removed)
}

pub fn has_uncommitted(s: &GitStatus) -> (r: bool)
    ensures
        r == uncommitted(*s),
{
    s.uncommitted_added > 0 || s.uncommitted_removed > 0 || s.is_dirty
}

pub fn shows_committed(s: &GitStatus) -> (r: bool)
    ensures
        r == committed_shown(*s),
{
    (s.lines_added > 0 || s.lines_removed > 0) && !(has_uncommitted(s) && s.uncommitted_added == s.lines_added
        && s.uncommitted_removed == s.lines_removed)
}

/// Dimmed counts of the committed changes.
pub open spec fn committed_parts(s: GitStatus, p: Palette, stale: bool) -> (Seq<SpanModel>, Seq<SpanModel>) {
    (
        signed('+', s.lines_added as nat, Style { dim: true, ..Style::colored(stale_or(p, stale, p.success)) }),
        signed('-', s.lines_removed as nat, Style { dim: true, ..Style::colored(stale_or(p, stale, p.danger)) }),
    )
}

/// Bright counts of the uncommitted changes.
pub open spec fn uncommitted_parts(s: GitStatus, p: Palette, stale: bool) -> (Seq<SpanModel>, Seq<SpanModel>) {
    (
        signed('+', s.uncommitted_added as nat, Style::colored(stale_or(p, stale, p.success))),
        signed('-', s.uncommitted_removed as nat, Style::colored(stale_or(p, stale, p.danger))),
    )
}

/// A glyph in a colour, as a single span.
pub open spec fn glyph(g: Seq<char>, p: Palette, stale: bool, color: Color) -> Seq<SpanModel> {
    seq![style::span(g, Style::colored(stale_or(p, stale, color)))]
}

fn glyph_span(g: &String, palette: &Palette, is_stale: bool, color: Color) -> (r: Vec<Span>)
    ensures
        style::models(r@) == glyph(g@, *palette, is_stale, color),
{
    let mut r: Vec<Span> = Vec::new();
    let c = stale_color(palette, is_stale, color);
    style::push_span(&mut r, g.clone(), Style::fg(c));
    proof {
        assert(style::models(r@) =~= glyph(g@, *palette, is_stale, color));
    }
    r
}

/// What is tried for the git stats, widest first: everything; without the committed changes; the
/// rebase mark alone.
pub open spec fn stats_variants(s: GitStatus, p: Palette, stale: bool, diff: Seq<char>, rebase: Seq<char>) -> Seq<
    Seq<SpanModel>,
> {
    let mark = if s.is_rebasing {
        glyph(rebase, p, stale, p.warning)
    } else {
        seq![]
    };
    let committed = if committed_shown(s) {
        committed_parts(s, p, stale).0 + committed_parts(s, p, stale).1
    } else {
        seq![]
    };
    let fresh = if uncommitted(s) {
        glyph(diff, p, stale, p.accent) + uncommitted_parts(s, p, stale).0 + uncommitted_parts(s, p, stale).1
    } else {
        seq![]
    };
    seq![mark + committed + fresh, mark + fresh, mark]
}

fn committed_spans(s: &GitStatus, palette: &Palette, is_stale: bool) -> (r: (Vec<Span>, Vec<Span>))
    ensures
        (style::models(r.0@), style::models(r.1@)) == committed_parts(*s, *palette, is_stale),
{
    let added = Style::fg(stale_color(palette, is_stale, palette.success)).dim();
    let removed = Style::fg(stale_color(palette, is_stale, palette.danger)).dim();
    (count_fragment('+', s.lines_added, added), count_fragment('-', s.lines_removed, removed))
}

fn uncommitted_spans(s: &GitStatus, palette: &Palette, is_stale: bool) -> (r: (Vec<Span>, Vec<Span>))
    ensures
        (style::models(r.0@), style::models(r.1@)) == uncommitted_parts(*s, *palette, is_stale),
{
    let added = Style::fg(stale_color(palette, is_stale, palette.success));
    let removed = Style::fg(stale_color(palette, is_stale, palette.danger));
    (count_fragment('+', s.uncommitted_added, added), count_fragment('-', s.uncommitted_removed, removed))
}

fn no_spans() -> (r: Vec<Span>)
    ensures
        style::models(r@) == Seq::<SpanModel>::empty(),
{
    let r: Vec<Span> = Vec::new();
    proof {
        assert(style::models(r@) =~= Seq::<SpanModel>::empty());
    }
    r
}

/// The git stats of a worktree within a width: the rebase mark first, then the committed changes
/// dimmed, then the uncommitted ones. Where room is short, the committed changes go first.
pub open spec fn git_stats(s: Option<GitStatus>, p: Palette, stale: bool, glyphs: Glyphs, max: nat) -> (
    Seq<SpanModel>,
    nat,
) {
    match s {
        Some(s) => first_fit(stats_variants(s, p, stale, glyphs.diff@, glyphs.rebase@), max),
        None => (seq![], 0),
    }
}

/// The value behind an optional reference.
pub open spec fn deref<T>(o: Option<&T>) -> Option<T> {
    match o {
        Some(t) => Some(*t),
        None => None,
    }
}

/// Formats the git stats of a worktree, fitted into `available_width`.
pub fn format_sidebar_git_stats(
    status: Option<&GitStatus>,
    palette: &Palette,
    is_stale: bool,
    glyphs: &Glyphs,
    available_width: usize,
) -> (r: (Vec<Span>, usize))
    ensures
        (style::models(r.0@), r.1 as nat) == git_stats(
            deref(status),
            *palette,
            is_stale,
            *glyphs,
            available_width as nat,
        ),
        style::span_columns(style::models(r.0@)) == r.1,
{
    let s = match status {
        Some(s) => s,
        None => return (no_spans(), 0),
    };
    let mark = if s.is_rebasing {
        glyph_span(&glyphs.rebase, palette, is_stale, palette.warning)
    } else {
        no_spans()
    };
    let committed = if shows_committed(s) {
        let (a, b) = committed_spans(s, palette, is_stale);
        two(&a, &b)
    } else {
        no_spans()
    };
    let fresh = if has_uncommitted(s) {
        let icon = glyph_span(&glyphs.diff, palette, is_stale, palette.accent);
        let (a, b) = uncommitted_spans(s, palette, is_stale);
        three(&icon, &a, &b)
    } else {
        no_spans()
    };
    let mut variants: Vec<Vec<Span>> = Vec::new();
    variants.push(three(&mark, &committed, &fresh));
    variants.push(two(&mark, &fresh));
    variants.push(mark);
    proof {
        assert(variant_models(variants@) =~= stats_variants(*s, *palette, is_stale, glyphs.diff@, glyphs.rebase@));
    }
    pick_fitting_variant(variants, available_width)
}

/// The committed changes of a branch within a width.
pub open spec fn committed_segment(s: Option<GitStatus>, p: Palette, stale: bool, max: nat) -> (Seq<SpanModel>, nat) {
    match s {
        Some(s) => if committed_shown(s) {
            let (a, r) = committed_parts(s, p, stale);
            first_fit(diff_ladder(seq![], a, r, false), max)
        } else {
            (seq![], 0)
        },
        None => (seq![], 0),
    }
}

/// Formats the committed changes: `+N -M`, else `+N`, else `-M`.
pub fn format_committed_spans(status: Option<&GitStatus>, palette: &Palette, is_stale: bool, max_width: usize) -> (r: (
    Vec<Span>,
    usize,
))
    ensures
        (style::models(r.0@), r.1 as nat) == committed_segment(deref(status), *palette, is_stale, max_width as nat),
        style::span_columns(style::models(r.0@)) == r.1,
{
    let s = match status {
        Some(s) => s,
        None => return (no_spans(), 0),
    };
    if !shows_committed(s) {
        return (no_spans(), 0);
    }
    let (added, removed) = committed_spans(s, palette, is_stale);
    pick_fitting_variant(diff_variant_ladder(&no_spans(), &added, &removed, false), max_width)
}

/// The uncommitted changes of a worktree within a width.
pub open spec fn uncommitted_segment(s: Option<GitStatus>, p: Palette, stale: bool, diff: Seq<char>, max: nat) -> (
    Seq<SpanModel>,
    nat,
) {
    match s {
        Some(s) => if uncommitted(s) {
            let (a, r) = uncommitted_parts(s, p, stale);
            first_fit(diff_ladder(glyph(diff, p, stale, p.accent), a, r, true), max)
        } else {
            (seq![], 0)
        },
        None => (seq![], 0),
    }
}

/// Formats the uncommitted changes: the icon with `+N -M`, else with `+N`, else with `-M`, else
/// alone.
pub fn format_uncommitted_spans(
    status: Option<&GitStatus>,
    palette: &Palette,
    is_stale: bool,
    glyphs: &Glyphs,
    max_width: usize,
) -> (r: (Vec<Span>, usize))
    ensures
        (style::models(r.0@), r.1 as nat) == uncommitted_segment(
            deref(status),
            *palette,
            is_stale,
            glyphs.diff@,
            max_width as nat,
        ),
        style::span_columns(style::models(r.0@)) == r.1,
{
    let s = match status {
        Some(s) => s,
        None => return (no_spans(), 0),
    };
    if !has_uncommitted(s) {
        return (no_spans(), 0);
    }
    let icon = glyph_span(&glyphs.diff, palette, is_stale, palette.accent);
    let (added, removed) = uncommitted_spans(s, palette, is_stale);
    pick_fitting_variant(diff_variant_ladder(&icon, &added, &removed, true), max_width)
}

/// The rebase mark within a width.
pub open spec fn rebase_segment(s: Option<GitStatus>, p: Palette, stale: bool, rebase: Seq<char>, max: nat) -> (
    Seq<SpanModel>,
    nat,
) {
    match s {
        Some(s) => if s.is_rebasing {
            first_fit(seq![glyph(rebase, p, stale, p.warning)], max)
        } else {
            (seq![], 0)
        },
        None => (seq![], 0),
    }
}

/// Formats the rebase mark.
pub fn format_rebase_spans(
    status: Option<&GitStatus>,
    palette: &Palette,
    is_stale: bool,
    glyphs: &Glyphs,
    max_width: usize,
) -> (r: (Vec<Span>, usize))
    ensures
        (style::models(r.0@), r.1 as nat) == rebase_segment(
            deref(status),
            *palette,
            is_stale,
            glyphs.rebase@,
            max_width as nat,
        ),
        style::span_columns(style::models(r.0@)) == r.1,
{
    let s = match status {
        Some(s) => s,
        None => return (no_spans(), 0),
    };
    if !s.is_rebasing {
        return (no_spans(), 0);
    }
    let mut variants: Vec<Vec<Span>> = Vec::new();
    variants.push(glyph_span(&glyphs.rebase, palette, is_stale, palette.warning));
    proof {
        assert(variant_models(variants@) =~= seq![glyph(glyphs.rebase@, *palette, is_stale, palette.warning)]);
    }
    pick_fitting_variant(variants, max_width)
}

// ── Checks ──────────────────────────────────────────────────────

/// The icon and colour of checks.
pub open spec fn check_look(state: CheckState, p: Palette, glyphs: Glyphs, frame: int) -> (Seq<char>, Color) {
    match state {
        CheckState::Success => (glyphs.check_success@, p.success),
        CheckState::Failure { .. } => (glyphs.check_failure@, p.danger),
        CheckState::Pending { .. } => (
            if glyphs.spinner@.len() == 0 {
                seq![]
            } else {
                glyphs.spinner@[frame % glyphs.spinner@.len() as int]@
            },
            p.accent,
        ),
    }
}

/// How many checks passed, of how many.
pub open spec fn check_counts(state: CheckState) -> Option<(u32, u32)> {
    match state {
        CheckState::Success => None,
        CheckState::Failure { passed, total } => Some((passed, total)),
        CheckState::Pending { passed, total } => Some((passed, total)),
    }
}

/// ` passed/total`.
pub open spec fn check_count_text(c: (u32, u32)) -> Seq<char> {
    seq![' '] + text::numeral(c.0 as nat) + seq!['/'] + text::numeral(c.1 as nat)
}

/// The checks of a branch within a width: the icon with the counts, else the icon alone.
pub open spec fn check_segment(
    summary: Option<CheckSummary>,
    p: Palette,
    stale: bool,
    glyphs: Glyphs,
    frame: int,
    max: nat,
) -> (Seq<SpanModel>, nat) {
    match summary {
        Some(s) => {
            let (icon, color) = check_look(s.state, p, glyphs, frame);
            let look = Style { dim: stale, ..Style::colored(stale_or(p, stale, color)) };
            let short = seq![style::span(icon, look)];
            let full = match check_counts(s.state) {
                Some(c) => short.push(style::span(check_count_text(c), look)),
                None => short,
            };
            let (wide, narrow) = (style::span_columns(full), style::span_columns(short));
            if 0 < wide <= max {
                (full, wide)
            } else if 0 < narrow <= max {
                (short, narrow)
            } else {
                (seq![], 0)
            }
        },
        None => (seq![], 0),
    }
}

/// Formats the checks of a branch, fitted into `available_width`.
pub fn format_sidebar_check_status(
    summary: Option<&CheckSummary>,
    palette: &Palette,
    is_stale: bool,
    glyphs: &Glyphs,
    spinner_frame: u8,
    available_width: usize,
) -> (r: (Vec<Span>, usize))
    ensures
        (style::models(r.0@), r.1 as nat) == check_segment(
            deref(summary),
            *palette,
            is_stale,
            *glyphs,
            spinner_frame as int,
            available_width as nat,
        ),
        style::span_columns(style::models(r.0@)) == r.1,
{
    let s = match summary {
        Some(s) => s,
        None => return (no_spans(), 0),
    };
    let (icon, color) = match s.state {
        CheckState::Success => (glyphs.check_success.clone(), palette.success),
        CheckState::Failure { .. } => (glyphs.check_failure.clone(), palette.danger),
        CheckState::Pending { .. } => {
            let n: usize = glyphs.spinner.len();
            let frame = if n == 0 {
                String::new()
            } else {
                glyphs.spinner[spinner_frame as usize % n].clone()
            };
            (frame, palette.accent)
        },
    };
    let look = Style { dim: is_stale, ..Style::fg(stale_color(palette, is_stale, color)) };
    let counts = match s.state {
        CheckState::Success => None,
        CheckState::Failure { passed, total } => Some((passed, total)),
        CheckState::Pending { passed, total } => Some((passed, total)),
    };
    let mut short: Vec<Span> = Vec::new();
    style::push_span(&mut short, icon, look);
    let mut full = style::copy_spans(&short);
    match counts {
        Some((passed, total)) => {
            let mut t = String::new();
            t.push(' ');
            text::push_decimal(&mut t, passed as u64);
            t.push('/');
            text::push_decimal(&mut t, total as u64);
            proof {
                assert(t@ =~= check_count_text((passed, total)));
            }
            style::push_span(&mut full, t, look);
        },
        None => {},
    }
    let wide: u128 = style::spans_width(&full);
    let narrow: u128 = style::spans_width(&short);
    proof {
        let sh = seq![style::span(icon@, look)];
        assert(style::models(short@) =~= sh);
    }
    if wide > 0 && wide <= available_width as u128 {
        (full, wide as usize)
    } else if narrow > 0 && narrow <= available_width as u128 {
        (short, narrow as usize)
    } else {
        (no_spans(), 0)
    }
}

/// Columns that a status icon draws past its measured width. The waiting, done and sleeping glyphs
/// are drawn double width while measuring one.
pub open spec fn overhang(status: Option<AgentStatus>, is_stale: bool) -> nat {
    if is_stale || status == Some(AgentStatus::Waiting) || status == Some(AgentStatus::Done) {
        1
    } else {
        0
    }
}

pub fn status_icon_overhang(status: Option<AgentStatus>, is_stale: bool) -> (r: usize)
    ensures
        r == overhang(status, is_stale),
{
    if is_stale || matches!(status, Some(AgentStatus::Waiting) | Some(AgentStatus::Done)) {
        1
    } else {
        0
    }
}

// ── Status icons ────────────────────────────────────────────────

/// A status icon: a text of its own, or one with style codes still to be read.
pub enum StatusIcon {
    Plain(String),
    Coded(String),
}

/// A status icon, by its contents.
pub enum IconModel {
    Plain(Seq<char>),
    Coded(Seq<char>),
}

impl View for StatusIcon {
    type V = IconModel;

    open spec fn view(&self) -> IconModel {
        match *self {
            StatusIcon::Plain(s) => IconModel::Plain(s@),
            StatusIcon::Coded(s) => IconModel::Coded(s@),
        }
    }
}

/// A frame of the spinner of working agents.
pub open spec fn working_frame(frame: u8) -> Seq<char> {
    match frame % 10 {
        0 => "⠋⠙"@,
        1 => "⠙⠹"@,
        2 => "⠹⠸"@,
        3 => "⠸⠼"@,
        4 => "⠼⠴"@,
        5 => "⠴⠦"@,
        6 => "⠦⠧"@,
        7 => "⠧⠇"@,
        8 => "⠇⠏"@,
        _ => "⠏⠋"@,
    }
}

fn working_spinner(frame: u8) -> (r: &'static str)
    ensures
        r@ == working_frame(frame),
{
    match frame % 10 {
        0 => "⠋⠙",
        1 => "⠙⠹",
        2 => "⠹⠸",
        3 => "⠸⠼",
        4 => "⠼⠴",
        5 => "⠴⠦",
        6 => "⠦⠧",
        7 => "⠧⠇",
        8 => "⠇⠏",
        _ => "⠏⠋",
    }
}

/// The icon of an agent and the style that it starts from. A stale agent sleeps, whatever its
/// status; a Nerd Font symbol gives way to a configured icon.
pub open spec fn status_look(
    icons: StatusIcons,
    p: Palette,
    nerd_font: bool,
    frame: u8,
    status: Option<AgentStatus>,
    is_stale: bool,
) -> (IconModel, Style) {
    if is_stale {
        (
            IconModel::Plain(
                if nerd_font {
                    "\u{f04b2}"@
                } else {
                    "💤"@
                },
            ),
            Style::colored(p.dimmed),
        )
    } else {
        match status {
            Some(AgentStatus::Working) => (
                match icons.working {
                    Some(custom) => IconModel::Coded(custom@),
                    None => IconModel::Plain(working_frame(frame)),
                },
                Style::colored(p.info),
            ),
            Some(AgentStatus::Waiting) => (
                if nerd_font && !icons.custom_waiting {
                    IconModel::Plain("\u{f075}"@)
                } else {
                    IconModel::Coded(icons.waiting@)
                },
                Style::colored(p.accent),
            ),
            Some(AgentStatus::Done) => (
                if nerd_font && !icons.custom_done {
                    IconModel::Plain("\u{f0134}"@)
                } else {
                    IconModel::Coded(icons.done@)
                },
                Style::colored(p.success),
            ),
            None => (IconModel::Plain("  "@), Style::colored(p.dimmed)),
        }
    }
}

/// Finds the status icon of an agent and its base style.
pub fn status_icon_and_style(
    icons: &StatusIcons,
    palette: &Palette,
    glyphs: &Glyphs,
    spinner_frame: u8,
    status: Option<AgentStatus>,
    is_stale: bool,
) -> (r: (StatusIcon, Style))
    ensures
        (r.0@, r.1) == status_look(*icons, *palette, glyphs.nerd_font, spinner_frame, status, is_stale),
{
    let use_nf = glyphs.nerd_font;
    if is_stale {
        let icon = if use_nf {
            "\u{f04b2}"
        } else {
            "💤"
        };
        return (StatusIcon::Plain(icon.to_owned()), Style::fg(palette.dimmed));
    }
    match status {
        Some(AgentStatus::Working) => {
            let icon = match &icons.working {
                Some(custom) => StatusIcon::Coded(custom.clone()),
                None => StatusIcon::Plain(working_spinner(spinner_frame).to_owned()),
            };
            (icon, Style::fg(palette.info))
        },
        Some(AgentStatus::Waiting) => {
            let icon = if use_nf && !icons.custom_waiting {
                StatusIcon::Plain("\u{f075}".to_owned())
            } else {
                StatusIcon::Coded(icons.waiting.clone())
            };
            (icon, Style::fg(palette.accent))
        },
        Some(AgentStatus::Done) => {
            let icon = if use_nf && !icons.custom_done {
                StatusIcon::Plain("\u{f0134}".to_owned())
            } else {
                StatusIcon::Coded(icons.done.clone())
            };
            (icon, Style::fg(palette.success))
        },
        None => (StatusIcon::Plain("  ".to_owned()), Style::fg(palette.dimmed)),
    }
}

/// The spans of a status icon, given what reading its style codes yields.
pub open spec fn icon_spans(look: (IconModel, Style), coded: Seq<SpanModel>) -> Seq<SpanModel> {
    match look.0 {
        IconModel::Plain(s) => seq![style::span(s, look.1)],
        IconModel::Coded(_) => coded,
    }
}

/// Lays out a status icon. `coded` is the icon with its style codes read, which only one with
/// style codes needs.
pub fn status_icon_spans(icon: StatusIcon, base: Style, coded: &Vec<Span>) -> (r: Vec<Span>)
    ensures
        style::models(r@) == icon_spans((icon@, base), style::models(coded@)),
{
    match icon {
        StatusIcon::Plain(s) => {
            let mut r: Vec<Span> = Vec::new();
            style::push_span(&mut r, s, base);
            proof {
                assert(style::models(r@) =~= seq![style::span(s@, base)]);
            }
            r
        },
        StatusIcon::Coded(_) => style::copy_spans(coded),
    }
}

// ── What the fragments tell ─────────────────────────────────────

/// A colour on a plain ground.
pub open spec fn drawn(content: Seq<char>, color: Color, dim: bool) -> SpanModel {
    SpanModel {
        content,
        style: Style {
            fg: Some(color),
            bg: None,
            bold: false,
            dim,
            italic: false,
            underlined: false,
            reversed: false,
        },
    }
}

/// A blank between two fragments.
pub open spec fn blank() -> SpanModel {
    SpanModel {
        content: seq![' '],
        style: Style {
            fg: None,
            bg: None,
            bold: false,
            dim: false,
            italic: false,
            underlined: false,
            reversed: false,
        },
    }
}

/// Checks that passed show the icon of success alone, in the colour of success; checks that failed
/// show that of failure in the colour of danger, and those that run a frame of the spinner in the
/// accent, both with how many passed of how many where there is room for it. What is stale is dim.
/// Nothing is shown only where the icon takes no column or more than there are.
pub proof fn law_checks_show_their_outcome(
    s: CheckSummary,
    p: Palette,
    stale: bool,
    glyphs: Glyphs,
    frame: u8,
    max: nat,
)
    ensures
        ({
            let (spans, width) = check_segment(Some(s), p, stale, glyphs, frame as int, max);
            let counts = |passed: u32, total: u32|
                seq![' '] + text::numeral(passed as nat) + seq!['/'] + text::numeral(total as nat);
            &&& width <= max
            &&& s.state is Success ==> {
                let icon = drawn(
                    glyphs.check_success@,
                    if stale {
                        p.dimmed
                    } else {
                        p.success
                    },
                    stale,
                );
                &&& spans == seq![icon] || spans == Seq::<SpanModel>::empty()
                &&& spans.len() == 1 <==> 0 < style::columns(glyphs.check_success@) <= max
            }
            &&& s.state matches CheckState::Failure { passed, total } ==> {
                let color = if stale {
                    p.dimmed
                } else {
                    p.danger
                };
                let icon = drawn(glyphs.check_failure@, color, stale);
                let tail = drawn(counts(passed, total), color, stale);
                let wide = style::columns(glyphs.check_failure@) + style::columns(counts(passed, total));
                &&& 0 < wide <= max ==> spans == seq![icon, tail]
                &&& wide > max ==> (spans.len() == 1 <==> 0 < style::columns(glyphs.check_failure@) <= max)
                &&& spans.len() == 1 ==> spans[0] == icon
            }
            &&& s.state matches CheckState::Pending { passed, total } ==> glyphs.spinner@.len() > 0 ==> {
                let color = if stale {
                    p.dimmed
                } else {
                    p.accent
                };
                let turn = glyphs.spinner@[frame as int % glyphs.spinner@.len() as int]@;
                let icon = drawn(turn, color, stale);
                let tail = drawn(counts(passed, total), color, stale);
                let wide = style::columns(turn) + style::columns(counts(passed, total));
                &&& 0 < wide <= max ==> spans == seq![icon, tail]
                &&& wide > max ==> (spans.len() == 1 <==> 0 < style::columns(turn) <= max)
                &&& spans.len() == 1 ==> spans[0] == icon
            }
        }),
        check_segment(None, p, stale, glyphs, frame as int, max) == (Seq::<SpanModel>::empty(), 0nat),
{
    let (icon, color) = check_look(s.state, p, glyphs, frame as int);
    let look = Style { dim: stale, ..Style::colored(stale_or(p, stale, color)) };
    style::lemma_span_columns_one(style::span(icon, look));
    match check_counts(s.state) {
        Some(c) => {
            let short = seq![style::span(icon, look)];
            let tail = style::span(check_count_text(c), look);
            assert(short.push(tail).drop_last() =~= short);
            assert(short.push(tail) =~= seq![style::span(icon, look), tail]);
        },
        None => {},
    }
}

proof fn lemma_interleaved(spans: Seq<SpanModel>)
    ensures
        spans.len() > 0 ==> interleaved(spans).len() == 2 * spans.len() - 1,
        spans.len() == 0 ==> interleaved(spans).len() == 0,
        forall|i: int| 0 <= i < spans.len() ==> interleaved(spans)[2 * i] == #[trigger] spans[i],
        forall|i: int| 0 <= i < spans.len() - 1 ==> #[trigger] interleaved(spans)[2 * i + 1] == blank(),
    decreases spans.len(),
{
    if spans.len() > 1 {
        let front = spans.drop_last();
        lemma_interleaved(front);
        let all = interleaved(spans);
        assert(all.len() == 2 * spans.len() - 1);
        assert forall|i: int| 0 <= i < spans.len() implies all[2 * i] == #[trigger] spans[i] by {
            if i < spans.len() - 1 {
                assert(front[i] == spans[i]);
                assert(interleaved(front)[2 * i] == front[i]);
            }
        }
        assert forall|i: int| 0 <= i < spans.len() - 1 implies #[trigger] all[2 * i + 1] == blank() by {
            if i < front.len() - 1 {
                assert(interleaved(front)[2 * i + 1] == blank());
            }
        }
    }
}

/// With room for all of it, the stats of a worktree show, one behind the other with a blank between:
/// the rebase mark in the colour of warning while a rebase is under way; the committed lines added and
/// removed, dim, where they are not the uncommitted ones over again; and, where anything is
/// uncommitted, the diff icon in the accent and the uncommitted lines added and removed. Counts of
/// zero are left out, and what is stale is dimmed.
pub proof fn law_git_stats_are_told(s: GitStatus, p: Palette, stale: bool, glyphs: Glyphs, max: nat)
    requires
        0 < interleaved_columns(stats_variants(s, p, stale, glyphs.diff@, glyphs.rebase@)[0]) <= max,
    ensures
        ({
            let spans = git_stats(Some(s), p, stale, glyphs, max).0;
            let shade = |c: Color|
                if stale {
                    p.dimmed
                } else {
                    c
                };
            let part = |b: bool|
                if b {
                    1int
                } else {
                    0int
                };
            let open = s.is_dirty || s.uncommitted_added > 0 || s.uncommitted_removed > 0;
            let repeats = open && s.lines_added == s.uncommitted_added && s.lines_removed == s.uncommitted_removed;
            let a = part(s.is_rebasing);
            let b = a + part(!repeats && s.lines_added > 0);
            let c = b + part(!repeats && s.lines_removed > 0);
            let d = c + part(open);
            let e = d + part(open && s.uncommitted_added > 0);
            let f = e + part(open && s.uncommitted_removed > 0);
            &&& f > 0
            &&& spans.len() == 2 * f - 1
            &&& a > 0 ==> spans[0] == drawn(glyphs.rebase@, shade(p.warning), false)
            &&& b > a ==> spans[2 * a] == drawn(seq!['+'] + text::numeral(s.lines_added as nat), shade(p.success), true)
            &&& c > b ==> spans[2 * b] == drawn(seq!['-'] + text::numeral(s.lines_removed as nat), shade(p.danger), true)
            &&& d > c ==> spans[2 * c] == drawn(glyphs.diff@, shade(p.accent), false)
            &&& e > d ==> spans[2 * d] == drawn(
                seq!['+'] + text::numeral(s.uncommitted_added as nat),
                shade(p.success),
                false,
            )
            &&& f > e ==> spans[2 * e] == drawn(
                seq!['-'] + text::numeral(s.uncommitted_removed as nat),
                shade(p.danger),
                false,
            )
            &&& forall|i: int| 0 <= i < f - 1 ==> #[trigger] spans[2 * i + 1] == blank()
        }),
{
    let v = stats_variants(s, p, stale, glyphs.diff@, glyphs.rebase@)[0];
    lemma_interleaved(v);
    let part = |b: bool|
        if b {
            1int
        } else {
            0int
        };
    let open = s.is_dirty || s.uncommitted_added > 0 || s.uncommitted_removed > 0;
    let repeats = open && s.lines_added == s.uncommitted_added && s.lines_removed == s.uncommitted_removed;
    let a = part(s.is_rebasing);
    let b = a + part(!repeats && s.lines_added > 0);
    let c = b + part(!repeats && s.lines_removed > 0);
    let d = c + part(open);
    let e = d + part(open && s.uncommitted_added > 0);
    let f = e + part(open && s.uncommitted_removed > 0);
    let (x, y) = committed_parts(s, p, stale);
    let (z, w) = uncommitted_parts(s, p, stale);
    let icon = glyph(glyphs.diff@, p, stale, p.accent);
    assert(v.len() == f);
    if a > 0 {
        assert(v[0] == glyph(glyphs.rebase@, p, stale, p.warning)[0]);
    }
    if b > a {
        assert(v[a] == x[0]);
    }
    if c > b {
        assert(v[b] == y[0]);
    }
    if d > c {
        assert(v[c] == icon[0]);
    }
    if e > d {
        assert(v[d] == z[0]);
    }
    if f > e {
        assert(v[e] == w[0]);
    }
}

/// Where there is no room for all of it, the committed changes give way first: the stats are those of
/// a worktree without any. Where the rest does not fit either, they are those of one with nothing to
/// tell but the rebase.
pub proof fn law_committed_changes_give_way(s: GitStatus, p: Palette, stale: bool, glyphs: Glyphs, max: nat)
    requires
        interleaved_columns(stats_variants(s, p, stale, glyphs.diff@, glyphs.rebase@)[0]) > max,
    ensures
        ({
            let rest = GitStatus { lines_added: 0, lines_removed: 0, ..s };
            let none = GitStatus { uncommitted_added: 0, uncommitted_removed: 0, is_dirty: false, ..rest };
            &&& git_stats(Some(s), p, stale, glyphs, max) == git_stats(Some(rest), p, stale, glyphs, max)
            &&& interleaved_columns(stats_variants(s, p, stale, glyphs.diff@, glyphs.rebase@)[1]) > max ==> git_stats(
                Some(s),
                p,
                stale,
                glyphs,
                max,
            ) == git_stats(Some(none), p, stale, glyphs, max)
        }),
        git_stats(None, p, stale, glyphs, max) == (Seq::<SpanModel>::empty(), 0nat),
{
    let rest = GitStatus { lines_added: 0, lines_removed: 0, ..s };
    let none = GitStatus { uncommitted_added: 0, uncommitted_removed: 0, is_dirty: false, ..rest };
    let x = stats_variants(s, p, stale, glyphs.diff@, glyphs.rebase@);
    let y = stats_variants(rest, p, stale, glyphs.diff@, glyphs.rebase@);
    let z = stats_variants(none, p, stale, glyphs.diff@, glyphs.rebase@);
    assert(y[0] =~= x[1] && y[1] =~= x[1] && y[2] =~= x[2]);
    assert(z[0] =~= x[2] && z[1] =~= x[2] && z[2] =~= x[2]);
    assert(x.skip(1)[0] == x[1] && y.skip(1)[0] == y[1] && z.skip(1)[0] == z[1]);
    assert(x.skip(1).skip(1)[0] == x[2] && y.skip(1).skip(1)[0] == y[2] && z.skip(1).skip(1)[0] == z[2]);
    assert(x.skip(1).skip(1).skip(1) =~= y.skip(1).skip(1).skip(1));
    assert(x.skip(1).skip(1).skip(1) =~= z.skip(1).skip(1).skip(1));
    reveal_with_fuel(first_fit, 4);
}

proof fn lemma_pair_columns(a: SpanModel, b: SpanModel)
    ensures
        interleaved_columns(seq![a, b]) == style::columns(a.content) + style::columns(b.content) + 1,
        interleaved_columns(seq![a]) == style::columns(a.content),
        interleaved(seq![a, b]) == seq![a, blank(), b],
        interleaved(seq![a]) == seq![a],
{
    style::lemma_span_columns_one(a);
    style::lemma_span_columns_one(b);
    style::lemma_span_columns_add(seq![a], seq![b]);
    assert(seq![a] + seq![b] =~= seq![a, b]);
    lemma_interleaved(seq![a, b]);
    assert(seq![a, b][0] == a && seq![a, b][1] == b);
    assert(interleaved(seq![a, b])[2 * 0int + 1] == blank());
    assert(interleaved(seq![a, b]) =~= seq![a, blank(), b]);
}

/// The committed changes of a branch: the lines added, dim, in the colour of success, and the lines
/// removed in that of danger, with a blank between; the lines added alone where both do not fit; the
/// lines removed alone where those do not fit either.
pub proof fn law_committed_counts_are_told(s: GitStatus, p: Palette, stale: bool, max: nat)
    requires
        s.lines_added > 0,
        s.lines_removed > 0,
        s.lines_added != s.uncommitted_added || s.lines_removed != s.uncommitted_removed,
    ensures
        ({
            let spans = committed_segment(Some(s), p, stale, max).0;
            let plus = drawn(
                seq!['+'] + text::numeral(s.lines_added as nat),
                if stale {
                    p.dimmed
                } else {
                    p.success
                },
                true,
            );
            let minus = drawn(
                seq!['-'] + text::numeral(s.lines_removed as nat),
                if stale {
                    p.dimmed
                } else {
                    p.danger
                },
                true,
            );
            let (x, y) = (style::columns(plus.content), style::columns(minus.content));
            &&& x + 1 + y <= max ==> spans == seq![plus, blank(), minus]
            &&& x + 1 + y > max && 0 < x <= max ==> spans == seq![plus]
            &&& x > max && 0 < y <= max ==> spans == seq![minus]
            &&& x > max && y > max ==> spans == Seq::<SpanModel>::empty()
        }),
{
    let (a, b) = committed_parts(s, p, stale);
    let v = diff_ladder(seq![], a, b, false);
    let e = Seq::<SpanModel>::empty();
    assert(e + a + b =~= seq![a[0], b[0]]);
    assert(e + a =~= seq![a[0]]);
    assert(e + b =~= seq![b[0]]);
    lemma_pair_columns(a[0], b[0]);
    lemma_pair_columns(b[0], a[0]);
    assert(v.skip(1)[0] == v[1] && v.skip(1).skip(1)[0] == v[2]);
    assert(v.skip(1).skip(1).skip(1) =~= Seq::empty());
    reveal_with_fuel(first_fit, 4);
}

/// Committed changes are shown exactly where lines were added or removed and a worktree that is not
/// clean does not count the very same lines as uncommitted. Only what takes no column, or more than
/// there are, is not drawn.
pub proof fn law_segments_show_what_there_is(s: GitStatus, p: Palette, stale: bool, max: nat)
    ensures
        ({
            let open = s.is_dirty || s.uncommitted_added > 0 || s.uncommitted_removed > 0;
            let repeats = open && s.lines_added == s.uncommitted_added && s.lines_removed == s.uncommitted_removed;
            let committed = committed_segment(Some(s), p, stale, max).0;
            let shade = |c: Color|
                if stale {
                    p.dimmed
                } else {
                    c
                };
            &&& repeats || (s.lines_added == 0 && s.lines_removed == 0) ==> committed.len() == 0
            &&& !repeats && s.lines_added > 0 && s.lines_removed == 0 && 0 < style::columns(
                seq!['+'] + text::numeral(s.lines_added as nat),
            ) <= max ==> committed == seq![
                drawn(seq!['+'] + text::numeral(s.lines_added as nat), shade(p.success), true),
            ]
            &&& !repeats && s.lines_added == 0 && s.lines_removed > 0 && 0 < style::columns(
                seq!['-'] + text::numeral(s.lines_removed as nat),
            ) <= max ==> committed == seq![
                drawn(seq!['-'] + text::numeral(s.lines_removed as nat), shade(p.danger), true),
            ]
        }),
{
    let (a, b) = committed_parts(s, p, stale);
    let e = Seq::<SpanModel>::empty();
    reveal_with_fuel(first_fit, 3);
    if a.len() > 0 {
        assert(e + a =~= seq![a[0]]);
        lemma_pair_columns(a[0], a[0]);
    }
    if b.len() > 0 {
        assert(e + b =~= seq![b[0]]);
        lemma_pair_columns(b[0], b[0]);
    }
}

/// A rebase is marked exactly while it is under way. Only a mark that takes no column, or more than
/// there are, is not drawn.
pub proof fn law_rebases_are_marked(s: GitStatus, p: Palette, stale: bool, glyphs: Glyphs, max: nat)
    ensures
        ({
            let mark = rebase_segment(Some(s), p, stale, glyphs.rebase@, max).0;
            &&& s.is_rebasing && 0 < style::columns(glyphs.rebase@) <= max ==> mark == seq![
                drawn(
                    glyphs.rebase@,
                    if stale {
                        p.dimmed
                    } else {
                        p.warning
                    },
                    false,
                ),
            ]
            &&& !s.is_rebasing ==> mark.len() == 0
        }),
{
    let m = glyph(glyphs.rebase@, p, stale, p.warning);
    reveal_with_fuel(first_fit, 2);
    lemma_pair_columns(m[0], m[0]);
    assert(m =~= seq![m[0]]);
    assert(seq![m][0] == m);
}

/// Uncommitted changes are shown behind their icon exactly where there are any, a count or an untold
/// one. Only an icon that takes no column, or more than there are, is not drawn.
pub proof fn law_open_changes_are_marked(s: GitStatus, p: Palette, stale: bool, glyphs: Glyphs, max: nat)
    ensures
        ({
            let open = s.is_dirty || s.uncommitted_added > 0 || s.uncommitted_removed > 0;
            let fresh = uncommitted_segment(Some(s), p, stale, glyphs.diff@, max).0;
            &&& !open ==> fresh.len() == 0
            &&& open && 0 < style::columns(glyphs.diff@) <= max ==> fresh.len() > 0 && fresh[0] == drawn(
                glyphs.diff@,
                if stale {
                    p.dimmed
                } else {
                    p.accent
                },
                false,
            )
        }),
{
    let (u, w) = uncommitted_parts(s, p, stale);
    let icon = glyph(glyphs.diff@, p, stale, p.accent);
    let v = diff_ladder(icon, u, w, true);
    lemma_pair_columns(icon[0], icon[0]);
    lemma_interleaved(icon + u + w);
    lemma_interleaved(icon + u);
    lemma_interleaved(icon + w);
    assert((icon + u + w)[0] == icon[0] && (icon + u)[0] == icon[0] && (icon + w)[0] == icon[0]);
    assert(icon =~= seq![icon[0]]);
    assert(v.last() == icon);
    if 0 < style::columns(glyphs.diff@) <= max {
        lemma_head_of_fit(v, max, icon[0]);
    }
}

proof fn lemma_head_of_fit(v: Seq<Seq<SpanModel>>, max: nat, head: SpanModel)
    requires
        v.len() > 0,
        forall|k: int| 0 <= k < v.len() ==> (#[trigger] v[k]).len() > 0 && v[k][0] == head,
        0 < interleaved_columns(v.last()) <= max,
    ensures
        first_fit(v, max).0.len() > 0,
        first_fit(v, max).0[0] == head,
    decreases v.len(),
{
    lemma_interleaved(v[0]);
    let w = interleaved_columns(v[0]);
    if 0 < w <= max {
        assert(v[0][0] == head);
    } else {
        assert(v.skip(1).last() == v.last());
        assert forall|k: int| 0 <= k < v.skip(1).len() implies (#[trigger] v.skip(1)[k]).len() > 0 && v.skip(1)[k][0]
            == head by {
            assert(v.skip(1)[k] == v[k + 1]);
        }
        lemma_head_of_fit(v.skip(1), max, head);
    }
}

/// The uncommitted changes of a worktree, with room for them: the diff icon in the accent, the lines
/// added in the colour of success and the lines removed in that of danger, none of them dim.
pub proof fn law_uncommitted_counts_are_told(s: GitStatus, p: Palette, stale: bool, glyphs: Glyphs, max: nat)
    requires
        s.uncommitted_added > 0,
        s.uncommitted_removed > 0,
    ensures
        ({
            let spans = uncommitted_segment(Some(s), p, stale, glyphs.diff@, max).0;
            let shade = |c: Color|
                if stale {
                    p.dimmed
                } else {
                    c
                };
            let icon = drawn(glyphs.diff@, shade(p.accent), false);
            let plus = drawn(seq!['+'] + text::numeral(s.uncommitted_added as nat), shade(p.success), false);
            let minus = drawn(seq!['-'] + text::numeral(s.uncommitted_removed as nat), shade(p.danger), false);
            let (i, x, y) = (
                style::columns(glyphs.diff@),
                style::columns(plus.content),
                style::columns(minus.content),
            );
            &&& i + x + y + 2 <= max ==> spans == seq![icon, blank(), plus, blank(), minus]
            &&& i + x + y + 2 > max && i + x + 1 <= max ==> spans == seq![icon, blank(), plus]
            &&& i + x + 1 > max && i + y + 1 <= max ==> spans == seq![icon, blank(), minus]
            &&& i + x + 1 > max && i + y + 1 > max && 0 < i <= max ==> spans == seq![icon]
        }),
{
    let (a, b) = uncommitted_parts(s, p, stale);
    let g = glyph(glyphs.diff@, p, stale, p.accent);
    let v = diff_ladder(g, a, b, true);
    assert(g + a + b =~= seq![g[0], a[0], b[0]]);
    assert(g + a =~= seq![g[0], a[0]]);
    assert(g + b =~= seq![g[0], b[0]]);
    lemma_pair_columns(g[0], a[0]);
    lemma_pair_columns(g[0], b[0]);
    style::lemma_span_columns_one(b[0]);
    style::lemma_span_columns_add(seq![g[0], a[0]], seq![b[0]]);
    assert(seq![g[0], a[0]] + seq![b[0]] =~= seq![g[0], a[0], b[0]]);
    let all = seq![g[0], a[0], b[0]];
    lemma_interleaved(all);
    assert(all[0] == g[0] && all[1] == a[0] && all[2] == b[0]);
    assert(interleaved(all)[2 * 0int + 1] == blank() && interleaved(all)[2 * 1int + 1] == blank());
    assert(interleaved(all) =~= seq![g[0], blank(), a[0], blank(), b[0]]);
    assert(v.skip(1)[0] == v[1] && v.skip(1).skip(1)[0] == v[2] && v.skip(1).skip(1).skip(1)[0] == v[3]);
    assert(g =~= seq![g[0]]);
    reveal_with_fuel(first_fit, 5);
}

proof fn lemma_sharing(agents: Seq<AgentPane>, i: int, j: int, k: int)
    requires
        agents[i].session@ == agents[j].session@,
        agents[i].window_name@ == agents[j].window_name@,
    ensures
        sharing(agents, i, k) == sharing(agents, j, k),
    decreases k,
{
    if k > 0 {
        lemma_sharing(agents, i, j, k - 1);
    }
}

proof fn lemma_sharing_grows(agents: Seq<AgentPane>, i: int, from: int, to: int)
    requires
        0 <= from <= to,
        forall|k: int|
            from <= k < to ==> (#[trigger] agents[k]).session@ != agents[i].session@ || agents[k].window_name@
                != agents[i].window_name@,
    ensures
        sharing(agents, i, to) == sharing(agents, i, from),
    decreases to,
{
    if from < to {
        lemma_sharing_grows(agents, i, from, to - 1);
        assert(agents[to - 1].session@ != agents[i].session@ || agents[to - 1].window_name@ != agents[i].window_name@);
    }
}

proof fn lemma_sharing_monotone(agents: Seq<AgentPane>, i: int, from: int, to: int)
    requires
        0 <= from <= to,
    ensures
        sharing(agents, i, from) <= sharing(agents, i, to),
    decreases to,
{
    if from < to {
        lemma_sharing_monotone(agents, i, from, to - 1);
    }
}

/// An agent that has its window to itself has no suffix. The first of those that share a window is
/// `(1)`, and each of them is numbered one higher than the one before.
pub proof fn law_suffixes_number_a_window(agents: Seq<AgentPane>, i: int, j: int)
    requires
        0 <= i < j < agents.len(),
        agents[i].session@ == agents[j].session@,
        agents[i].window_name@ == agents[j].window_name@,
        forall|k: int|
            i < k < j ==> (#[trigger] agents[k]).session@ != agents[i].session@ || agents[k].window_name@
                != agents[i].window_name@,
    ensures
        exists|n: nat|
            n > 0 && suffix(agents, i) == seq!['('] + #[trigger] text::numeral(n) + seq![')'] && suffix(agents, j)
                == seq!['('] + text::numeral(n + 1) + seq![')'],
        (forall|k: int|
            0 <= k < i ==> (#[trigger] agents[k]).session@ != agents[i].session@ || agents[k].window_name@
                != agents[i].window_name@) ==> suffix(agents, i) == seq!['('] + text::numeral(1) + seq![')'],
{
    let n = sharing(agents, i, i + 1);
    lemma_sharing(agents, i, j, j + 1);
    lemma_sharing(agents, i, j, agents.len() as int);
    lemma_sharing_grows(agents, i, i + 1, j);
    assert(sharing(agents, i, j + 1) == n + 1);
    lemma_sharing_monotone(agents, i, j + 1, agents.len() as int);
    assert(n > 0);
    assert(suffix(agents, i) == seq!['('] + text::numeral(n) + seq![')']);
    if forall|k: int|
        0 <= k < i ==> (#[trigger] agents[k]).session@ != agents[i].session@ || agents[k].window_name@
            != agents[i].window_name@ {
        lemma_sharing_grows(agents, i, 0, i);
        assert(n == 1);
    }
}

/// An agent that has its window to itself has no suffix.
pub proof fn law_lone_agents_have_no_suffix(agents: Seq<AgentPane>, i: int)
    requires
        0 <= i < agents.len(),
        forall|k: int|
            0 <= k < agents.len() && k != i ==> (#[trigger] agents[k]).session@ != agents[i].session@
                || agents[k].window_name@ != agents[i].window_name@,
    ensures
        suffix(agents, i).len() == 0,
{
    lemma_sharing_grows(agents, i, 0, i);
    lemma_sharing_grows(agents, i, i + 1, agents.len() as int);
}

/// A stale agent sleeps: its icon is the same whatever its status, and dim. Every other status has an
/// icon of its own colour: what was configured for it, unless the font has a symbol for it and nothing
/// was configured; working agents without a configured icon turn.
pub proof fn law_statuses_have_their_looks(icons: StatusIcons, p: Palette, nerd: bool, frame: u8, status: Option<
    AgentStatus,
>)
    ensures
        ({
            let asleep = status_look(icons, p, nerd, frame, status, true);
            &&& asleep.0 == IconModel::Plain(
                if nerd {
                    "\u{f04b2}"@
                } else {
                    "💤"@
                },
            )
            &&& asleep.1 == drawn(seq![], p.dimmed, false).style
        }),
        ({
            let (icon, look) = status_look(icons, p, nerd, frame, status, false);
            &&& look.fg == Some(
                match status {
                    Some(AgentStatus::Waiting) => p.accent,
                    Some(AgentStatus::Done) => p.success,
                    Some(AgentStatus::Working) => p.info,
                    None => p.dimmed,
                },
            )
            &&& look == drawn(seq![], look.fg->0, false).style
            &&& status is None ==> icon == IconModel::Plain("  "@)
            &&& status == Some(AgentStatus::Waiting) && (icons.custom_waiting || !nerd) ==> icon == IconModel::Coded(
                icons.waiting@,
            )
            &&& status == Some(AgentStatus::Waiting) && !icons.custom_waiting && nerd ==> icon == IconModel::Plain(
                "\u{f075}"@,
            )
            &&& status == Some(AgentStatus::Done) && (icons.custom_done || !nerd) ==> icon == IconModel::Coded(
                icons.done@,
            )
            &&& status == Some(AgentStatus::Done) && !icons.custom_done && nerd ==> icon == IconModel::Plain(
                "\u{f0134}"@,
            )
            &&& status == Some(AgentStatus::Working) && icons.working is Some ==> icon == IconModel::Coded(
                icons.working->0@,
            )
            &&& status == Some(AgentStatus::Working) && icons.working is None ==> icon == IconModel::Plain(
                working_frame(frame),
            )
        }),
        overhang(status, true) == 1,
        overhang(Some(AgentStatus::Waiting), false) == 1,
        overhang(Some(AgentStatus::Done), false) == 1,
        overhang(Some(AgentStatus::Working), false) == 0,
        overhang(None, false) == 0,
{
}

/// The spinner turns: every frame is two cells wide, its second cell is the first of the next frame,
/// and after ten frames it begins anew, with no cell twice on the way.
pub proof fn law_the_spinner_turns(frame: u8)
    requires
        frame < 245,
    ensures
        working_frame(frame).len() == 2,
        working_frame(frame)[1] == working_frame((frame + 1) as u8)[0],
        working_frame((frame + 10) as u8) == working_frame(frame),
        forall|k: u8| frame < k < frame + 10 ==> (#[trigger] working_frame(k))[0] != working_frame(frame)[0],
        frame == 0 ==> working_frame(frame)[0] == '⠋' && working_frame(frame)[1] == '⠙',
{
    reveal_strlit("⠋⠙");
    reveal_strlit("⠙⠹");
    reveal_strlit("⠹⠸");
    reveal_strlit("⠸⠼");
    reveal_strlit("⠼⠴");
    reveal_strlit("⠴⠦");
    reveal_strlit("⠦⠧");
    reveal_strlit("⠧⠇");
    reveal_strlit("⠇⠏");
    reveal_strlit("⠏⠋");
    assert((frame + 10) % 10 == frame % 10);
}

/// An icon that has style codes is drawn as they say; any other is drawn as it is, in its look.
pub proof fn law_icons_are_drawn(content: Seq<char>, look: Style, coded: Seq<SpanModel>)
    ensures
        icon_spans((IconModel::Coded(content), look), coded) == coded,
        icon_spans((IconModel::Plain(content), look), coded) == seq![SpanModel { content, style: look }],
{
}

} // verus!
