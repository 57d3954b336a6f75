//! Colours, styled text, and how many columns it takes.

use ratatui::style::Color as Term;
use unicode_width::UnicodeWidthChar;
use vstd::prelude::*;

use crate::text;

verus! {

/// A terminal colour.
#[derive(Debug, Clone, Copy, PartialEq, Eq, Structural)]
pub enum Color {
    Reset,
    Black,
    Red,
    Green,
    Yellow,
    Blue,
    Magenta,
    Cyan,
    Gray,
    DarkGray,
    LightRed,
    LightGreen,
    LightYellow,
    LightBlue,
    LightMagenta,
    LightCyan,
    White,
    Rgb(u8, u8, u8),
    Indexed(u8),
}

/// The colour that a string names.
pub uninterp spec fn named_color(s: Seq<char>) -> Option<Color>;

/// `<ratatui::style::Color as FromStr>::from_str`: reads a colour from its name, its index or its
/// `#rrggbb` form. Which strings name which colour is not stated; the result is a function of the
/// string alone.
#[verifier::external_body]
pub(crate) fn parse_color(s: &str) -> (r: Option<Color>)
    ensures
        r == named_color(s@),
{
    Some(match s.parse().ok()? {
        Term::Reset => Color::Reset, Term::Black => Color::Black, Term::Red => Color::Red,
        Term::Green => Color::Green, Term::Yellow => Color::Yellow, Term::Blue => Color::Blue,
        Term::Magenta => Color::Magenta, Term::Cyan => Color::Cyan, Term::Gray => Color::Gray,
        Term::DarkGray => Color::DarkGray, Term::LightRed => Color::LightRed,
        Term::LightGreen => Color::LightGreen, Term::LightYellow => Color::LightYellow,
        Term::LightBlue => Color::LightBlue, Term::LightMagenta => Color::LightMagenta,
        Term::LightCyan => Color::LightCyan, Term::White => Color::White,
        Term::Rgb(r, g, b) => Color::Rgb(r, g, b), Term::Indexed(n) => Color::Indexed(n),
    })
}

/// How text is drawn.
#[derive(Debug, Clone, Copy, PartialEq, Eq, Structural)]
pub struct Style {
    pub fg: Option<Color>,
    pub bg: Option<Color>,
    pub bold: bool,
    pub dim: bool,
    pub italic: bool,
    pub underlined: bool,
    pub reversed: bool,
}

impl Style {
    /// No style of its own.
    pub open spec fn plain() -> Style {
        Style { fg: None, bg: None, bold: false, dim: false, italic: false, underlined: false, reversed: false }
    }

    pub fn new() -> (r: Self)
        ensures
            r == Style::plain(),
    {
        Style { fg: None, bg: None, bold: false, dim: false, italic: false, underlined: false, reversed: false }
    }

    /// `color` on whatever is behind.
    pub open spec fn colored(color: Color) -> Style {
        Style { fg: Some(color), ..Style::plain() }
    }

    pub fn fg(color: Color) -> (r: Self)
        ensures
            r == Style::colored(color),
    {
        Style { fg: Some(color), bg: None, bold: false, dim: false, italic: false, underlined: false, reversed: false }
    }

    pub fn on(self, color: Color) -> (r: Self)
        ensures
            r == (Style { bg: Some(color), ..self }),
    {
        Style { bg: Some(color), ..self }
    }

    pub fn bold(self) -> (r: Self)
        ensures
            r == (Style { bold: true, ..self }),
    {
        Style { bold: true, ..self }
    }

    pub fn dim(self) -> (r: Self)
        ensures
            r == (Style { dim: true, ..self }),
    {
        Style { dim: true, ..self }
    }
}

/// The colours of a theme.
#[derive(Debug, Clone, Copy, PartialEq, Eq, Structural)]
pub struct Palette {
    pub text: Color,
    pub dimmed: Color,
    pub border: Color,
    pub header: Color,
    pub success: Color,
    pub danger: Color,
    pub warning: Color,
    pub accent: Color,
    pub info: Color,
    pub current_worktree_fg: Color,
    pub current_row_bg: Color,
    pub highlight_row_bg: Color,
    pub help_border: Color,
    pub help_muted: Color,
    /// Background of the group header band, stepped away from that of the selection.
    pub group_band_bg: Color,
}

/// A run of text in one style.
#[derive(Debug, PartialEq, Eq)]
pub struct Span {
    pub content: String,
    pub style: Style,
}

/// A span, by its contents.
pub struct SpanModel {
    pub content: Seq<char>,
    pub style: Style,
}

impl View for Span {
    type V = SpanModel;

    open spec fn view(&self) -> SpanModel {
        SpanModel { content: self.content@, style: self.style }
    }
}

impl Clone for Span {
    fn clone(&self) -> (r: Self)
        ensures
            r == *self,
    {
        Span { content: self.content.clone(), style: self.style }
    }
}

impl Span {
    pub fn new(content: String, style: Style) -> (r: Self)
        ensures
            r@ == (SpanModel { content: content@, style }),
    {
        Span { content, style }
    }
}

/// The contents of a run of spans.
pub open spec fn models(spans: Seq<Span>) -> Seq<SpanModel> {
    Seq::new(spans.len(), |i: int| spans[i]@)
}

/// A span of the given text.
pub open spec fn span(content: Seq<char>, style: Style) -> SpanModel {
    SpanModel { content, style }
}

pub fn push_span(spans: &mut Vec<Span>, content: String, style: Style)
    ensures
        models(final(spans)@) == models(old(spans)@).push(span(content@, style)),
{
    spans.push(Span { content, style });
    proof {
        assert(models(spans@) =~= models(old(spans)@).push(span(content@, style)));
    }
}

/// Appends copies of `more`.
pub fn push_all(spans: &mut Vec<Span>, more: &Vec<Span>)
    ensures
        models(final(spans)@) == models(old(spans)@) + models(more@),
{
    let mut i: usize = 0;
    proof {
        assert(models(spans@) =~= models(old(spans)@) + models(more@).take(0));
    }
    while i < more.len()
        invariant
            i <= more.len(),
            models(spans@) == models(old(spans)@) + models(more@).take(i as int),
        decreases more.len() - i,
    {
        let s = more[i].clone();
        let ghost before = models(spans@);
        spans.push(s);
        proof {
            assert(models(spans@) =~= before.push(more@[i as int]@));
            assert(models(more@).take(i + 1) =~= models(more@).take(i as int).push(more@[i as int]@));
            assert(models(spans@) =~= models(old(spans)@) + models(more@).take(i + 1));
        }
        i += 1;
    }
    proof {
        assert(models(more@).take(i as int) =~= models(more@));
    }
}

/// A copy of a run of spans.
pub fn copy_spans(spans: &Vec<Span>) -> (r: Vec<Span>)
    ensures
        models(r@) == models(spans@),
{
    let mut r: Vec<Span> = Vec::new();
    push_all(&mut r, spans);
    proof {
        assert(models(r@) =~= models(spans@));
    }
    r
}

// ── Columns ─────────────────────────────────────────────────────

/// The columns of a character on a terminal, none for a control character.
pub uninterp spec fn char_columns(c: char) -> Option<usize>;

/// `<char as unicode_width::UnicodeWidthChar>::width`: the displayed width of a character, `None`
/// for a control character. Printable ASCII takes one column, and no character takes more columns
/// than it has UTF-8 bytes. The widths of other characters, Unicode's tables, are not stated; the
/// result is a function of the character alone.
#[verifier::external_body]
fn char_width(c: char) -> (r: Option<usize>)
    ensures
        r == char_columns(c),
        ' ' <= c < '\u{7f}' ==> r == Some(1usize),
        c < ' ' || '\u{7f}' <= c < '\u{a0}' ==> r is None,
        c < '\u{800}' ==> (r matches Some(w) ==> w <= 2),
        r matches Some(w) ==> w <= 3,
{
    c.width()
}

/// The columns that a character is counted for: one where it has no width of its own.
pub open spec fn columns_of(c: char) -> nat {
    match char_columns(c) {
        Some(w) => w as nat,
        None => 1,
    }
}

/// The columns of a text.
pub open spec fn columns(s: Seq<char>) -> nat
    decreases s.len(),
{
    if s.len() == 0 {
        0
    } else {
        columns(s.drop_last()) + columns_of(s.last())
    }
}

fn counted_width(c: char) -> (r: usize)
    ensures
        r == columns_of(c),
        ' ' <= c < '\u{7f}' ==> r == 1,
        c < '\u{80}' ==> r <= 1,
        c < '\u{800}' ==> r <= 2,
        r <= 3,
{
    match char_width(c) {
        Some(w) => w,
        None => 1,
    }
}

/// The columns of a blank.
pub fn blank_width() -> (r: usize)
    ensures
        r == 1,
        r == columns_of(' '),
{
    counted_width(' ')
}

proof fn lemma_encoded_prefix(s: Seq<char>, i: int)
    requires
        0 <= i < s.len(),
    ensures
        vstd::utf8::encode_utf8(s.take(i + 1)).len() == vstd::utf8::encode_utf8(s.take(i)).len()
            + vstd::utf8::encode_scalar(s[i] as u32).len(),
    decreases i,
{
    let a = s.take(i + 1);
    if i == 0 {
        assert(a.drop_first() =~= Seq::<char>::empty());
        assert(s.take(0) =~= Seq::<char>::empty());
        assert(vstd::utf8::encode_utf8(a.drop_first()).len() == 0);
        assert(a[0] == s[0]);
    } else {
        let t = s.drop_first();
        lemma_encoded_prefix(t, i - 1);
        assert(a.drop_first() =~= t.take(i));
        assert(s.take(i).drop_first() =~= t.take(i - 1));
        assert(t[i - 1] == s[i]);
        assert(a[0] == s[0] && s.take(i)[0] == s[0]);
    }
}

proof fn lemma_encoded_grows(s: Seq<char>, i: int)
    requires
        0 <= i <= s.len(),
    ensures
        vstd::utf8::encode_utf8(s.take(i)).len() <= vstd::utf8::encode_utf8(s).len(),
    decreases s.len() - i,
{
    if i < s.len() {
        lemma_encoded_prefix(s, i);
        lemma_encoded_grows(s, i + 1);
    } else {
        assert(s.take(i) =~= s);
    }
}

proof fn lemma_scalar_bytes(c: char)
    ensures
        vstd::utf8::encode_scalar(c as u32).len() >= 1,
        c >= '\u{80}' ==> vstd::utf8::encode_scalar(c as u32).len() >= 2,
        c >= '\u{800}' ==> vstd::utf8::encode_scalar(c as u32).len() >= 3,
{
}

/// The columns of a text on a terminal.
pub fn display_width(s: &str) -> (r: usize)
    ensures
        r == columns(s@),
{
    let v = text::to_chars(s);
    let bytes: usize = s.as_bytes().len();
    let mut total: usize = 0;
    let mut i: usize = 0;
    proof {
        assert(s@.take(0) =~= Seq::<char>::empty());
        assert(vstd::utf8::encode_utf8(s@.take(0)).len() == 0);
    }
    while i < v.len()
        invariant
            v@ == s@,
            bytes == vstd::utf8::encode_utf8(s@).len(),
            i <= v.len(),
            total == columns(s@.take(i as int)),
            total <= vstd::utf8::encode_utf8(s@.take(i as int)).len(),
        decreases v.len() - i,
    {
        let w: usize = counted_width(v[i]);
        proof {
            lemma_encoded_prefix(s@, i as int);
            lemma_encoded_grows(s@, i + 1);
            lemma_scalar_bytes(s@[i as int]);
            assert(s@.take(i + 1).drop_last() =~= s@.take(i as int));
        }
        total = total + w;
        i += 1;
    }
    proof {
        assert(s@.take(i as int) =~= s@);
    }
    total
}

proof fn lemma_columns_prefix(s: Seq<char>, i: int, j: int)
    requires
        0 <= i <= j <= s.len(),
    ensures
        columns(s.take(i)) <= columns(s.take(j)),
    decreases j - i,
{
    if i < j {
        lemma_columns_prefix(s, i, j - 1);
        assert(s.take(j).drop_last() =~= s.take(j - 1));
    }
}

/// How many characters at the front of `s` fit into `max` columns.
pub open spec fn fitting(s: Seq<char>, max: nat, used: nat) -> nat
    decreases s.len(),
{
    if s.len() == 0 || used + columns_of(s[0]) > max {
        0
    } else {
        1 + fitting(s.skip(1), max, used + columns_of(s[0]))
    }
}

/// The front of `s` that fits into `max` columns.
pub open spec fn truncated(s: Seq<char>, max: nat) -> Seq<char> {
    s.take(fitting(s, max, 0) as int)
}

/// What is truncated fits, and is a prefix; a text that fits is kept whole.
pub proof fn law_truncated_fits(s: Seq<char>, max: nat)
    ensures
        fitting(s, max, 0) <= s.len(),
        columns(truncated(s, max)) <= max,
        columns(s) <= max ==> truncated(s, max) == s,
{
    lemma_fitting(s, max, 0, Seq::empty());
    assert(Seq::<char>::empty() + s =~= s);
    assert(Seq::<char>::empty() + s.take(fitting(s, max, 0) as int) =~= truncated(s, max));
    if columns(s) <= max {
        lemma_fits_whole(s, max, 0, Seq::empty());
        assert(s.take(s.len() as int) =~= s);
    }
}

proof fn lemma_fitting(s: Seq<char>, max: nat, used: nat, before: Seq<char>)
    requires
        used == columns(before),
        used <= max,
    ensures
        fitting(s, max, used) <= s.len(),
        columns(before + s.take(fitting(s, max, used) as int)) <= max,
    decreases s.len(),
{
    if s.len() == 0 || used + columns_of(s[0]) > max {
        assert(before + s.take(0) =~= before);
    } else {
        let next = before.push(s[0]);
        assert(next.drop_last() =~= before);
        lemma_fitting(s.skip(1), max, used + columns_of(s[0]), next);
        let k = fitting(s.skip(1), max, used + columns_of(s[0])) as int;
        assert(next + s.skip(1).take(k) =~= before + s.take(k + 1));
    }
}

proof fn lemma_fits_whole(s: Seq<char>, max: nat, used: nat, before: Seq<char>)
    requires
        used == columns(before),
        columns(before + s) <= max,
    ensures
        fitting(s, max, used) == s.len(),
    decreases s.len(),
{
    if s.len() > 0 {
        let all = before + s;
        let next = before.push(s[0]);
        assert(next.drop_last() =~= before);
        assert(all.take(next.len() as int) =~= next);
        assert(all.take(all.len() as int) =~= all);
        lemma_columns_prefix(all, next.len() as int, all.len() as int);
        assert(next + s.skip(1) =~= all);
        lemma_fits_whole(s.skip(1), max, used + columns_of(s[0]), next);
    }
}

/// Cuts a text down to `max_width` columns.
pub fn truncate_to_width(s: &str, max_width: usize) -> (r: String)
    ensures
        r@ == truncated(s@, max_width as nat),
{
    let v = text::to_chars(s);
    let mut out = String::new();
    let mut used: usize = 0;
    let mut i: usize = 0;
    proof {
        assert(s@.skip(0) =~= s@);
    }
    while i < v.len()
        invariant_except_break
            v@ == s@,
            i <= v.len(),
            used <= max_width,
            out@ == s@.take(i as int),
            fitting(s@, max_width as nat, 0) == i + fitting(s@.skip(i as int), max_width as nat, used as nat),
        ensures
            i <= v.len(),
            out@ == s@.take(i as int),
            fitting(s@, max_width as nat, 0) == i,
        decreases v.len() - i,
    {
        let w: usize = counted_width(v[i]);
        proof {
            assert(s@.skip(i as int)[0] == s@[i as int]);
            assert(s@.skip(i as int).skip(1) =~= s@.skip(i + 1));
        }
        if w > max_width - used {
            break;
        }
        out.push(v[i]);
        used = used + w;
        proof {
            assert(s@.take(i + 1) =~= s@.take(i as int).push(s@[i as int]));
        }
        i += 1;
    }
    out
}

/// The columns of a run of spans.
pub open spec fn span_columns(spans: Seq<SpanModel>) -> nat
    decreases spans.len(),
{
    if spans.len() == 0 {
        0
    } else {
        span_columns(spans.drop_last()) + columns(spans.last().content)
    }
}

/// Adds up the columns of a run of spans.
pub fn spans_width(spans: &Vec<Span>) -> (r: u128)
    ensures
        r == span_columns(models(spans@)),
        r <= usize::MAX * spans@.len(),
{
    let ghost ms = models(spans@);
    let mut total: u128 = 0;
    let mut i: usize = 0;
    proof {
        assert(ms.take(0) =~= Seq::<SpanModel>::empty());
    }
    while i < spans.len()
        invariant
            ms == models(spans@),
            i <= spans.len(),
            total == span_columns(ms.take(i as int)),
            total <= usize::MAX * i,
        decreases spans.len() - i,
    {
        let w: usize = display_width(spans[i].content.as_str());
        proof {
            assert(ms.take(i + 1).drop_last() =~= ms.take(i as int));
            assert(ms.take(i + 1).last() == spans@[i as int]@);
            let n = i as int;
            let m = usize::MAX as int;
            assert(m * n + m == m * (n + 1)) by (nonlinear_arith);
            assert(m * n + m < 0x1_0000_0000_0000_0000_0000_0000_0000_0000) by (nonlinear_arith)
                requires
                    0 <= n < m,
                    m <= 0xffff_ffff_ffff_ffff,
            ;
        }
        total = total + w as u128;
        i += 1;
    }
    proof {
        assert(ms.take(i as int) =~= ms);
    }
    total
}

/// `n`, or the greatest number of columns that can be told.
pub open spec fn capped(n: nat) -> usize {
    if n <= usize::MAX {
        n as usize
    } else {
        usize::MAX
    }
}

pub fn cap(n: u128) -> (r: usize)
    ensures
        r == capped(n as nat),
{
    if n <= usize::MAX as u128 {
        n as usize
    } else {
        usize::MAX
    }
}

/// A text of `n` times the character `c`.
pub open spec fn repeated(c: char, n: nat) -> Seq<char> {
    Seq::new(n, |i: int| c)
}

pub proof fn lemma_blanks(n: nat)
    requires
        columns_of(' ') == 1,
    ensures
        columns(repeated(' ', n)) == n,
    decreases n,
{
    if n > 0 {
        lemma_blanks((n - 1) as nat);
        assert(repeated(' ', n).drop_last() =~= repeated(' ', (n - 1) as nat));
    }
}

pub proof fn lemma_span_columns_add(a: Seq<SpanModel>, b: Seq<SpanModel>)
    ensures
        span_columns(a + b) == span_columns(a) + span_columns(b),
    decreases b.len(),
{
    if b.len() > 0 {
        lemma_span_columns_add(a, b.drop_last());
        assert((a + b).drop_last() =~= a + b.drop_last());
    } else {
        assert(a + b =~= a);
    }
}

pub proof fn lemma_span_columns_one(s: SpanModel)
    ensures
        span_columns(seq![s]) == columns(s.content),
{
    assert(seq![s].drop_last() =~= Seq::<SpanModel>::empty());
    assert(span_columns(Seq::<SpanModel>::empty()) == 0);
}

pub fn repeat(c: char, n: usize) -> (r: String)
    ensures
        r@ == repeated(c, n as nat),
{
    let mut r = String::new();
    let mut i: usize = 0;
    while i < n
        invariant
            i <= n,
            r@ =~= repeated(c, i as nat),
        decreases n - i,
    {
        r.push(c);
        i += 1;
    }
    r
}

/// `spans` filled up with blanks to `width` columns.
pub open spec fn padded(spans: Seq<SpanModel>, width: nat, bg: Option<Color>) -> Seq<SpanModel> {
    let used = span_columns(spans);
    if used < width {
        spans.push(span(repeated(' ', (width - used) as nat), Style { bg, ..Style::plain() }))
    } else {
        spans
    }
}

/// Fills up a line with blanks.
pub fn pad_spans_to_width(spans: &mut Vec<Span>, width: usize, bg: Option<Color>)
    ensures
        models(final(spans)@) == padded(models(old(spans)@), width as nat, bg),
{
    let used: u128 = spans_width(spans);
    if used < width as u128 {
        let blank = repeat(' ', width - used as usize);
        let style = Style { bg, ..Style::new() };
        push_span(spans, blank, style);
    }
}

/// `spans` on `bg`, where they have no background of their own.
pub open spec fn backed(spans: Seq<SpanModel>, bg: Color) -> Seq<SpanModel> {
    Seq::new(
        spans.len(),
        |i: int|
            if spans[i].style.bg is None {
                span(spans[i].content, Style { bg: Some(bg), ..spans[i].style })
            } else {
                spans[i]
            },
    )
}

/// Puts a background behind the spans that have none.
pub fn apply_selection_bg(spans: &mut Vec<Span>, bg: Color)
    ensures
        models(final(spans)@) == backed(models(old(spans)@), bg),
{
    let n: usize = spans.len();
    let ghost before = spans@;
    let mut i: usize = 0;
    while i < n
        invariant
            n == spans@.len() == before.len(),
            before == old(spans)@,
            i <= n,
            forall|j: int| 0 <= j < i ==> (#[trigger] spans@[j])@ == backed(models(before), bg)[j],
            forall|j: int| i <= j < n ==> #[trigger] spans@[j] == before[j],
        decreases n - i,
    {
        if spans[i].style.bg.is_none() {
            let style = spans[i].style.on(bg);
            spans[i].style = style;
        }
        i += 1;
    }
    proof {
        assert(models(spans@) =~= backed(models(before), bg));
    }
}

/// `spans`, all of them on `bg`.
pub open spec fn rebacked(spans: Seq<SpanModel>, bg: Color) -> Seq<SpanModel> {
    Seq::new(spans.len(), |i: int| span(spans[i].content, Style { bg: Some(bg), ..spans[i].style }))
}

/// Puts a background behind all spans.
pub fn set_bg(spans: &mut Vec<Span>, bg: Color)
    ensures
        models(final(spans)@) == rebacked(models(old(spans)@), bg),
{
    let n: usize = spans.len();
    let ghost before = spans@;
    let mut i: usize = 0;
    while i < n
        invariant
            n == spans@.len() == before.len(),
            before == old(spans)@,
            i <= n,
            forall|j: int| 0 <= j < i ==> (#[trigger] spans@[j])@ == rebacked(models(before), bg)[j],
            forall|j: int| i <= j < n ==> #[trigger] spans@[j] == before[j],
        decreases n - i,
    {
        let style = spans[i].style.on(bg);
        spans[i].style = style;
        i += 1;
    }
    proof {
        assert(models(spans@) =~= rebacked(models(before), bg));
    }
}

// ── What fits ───────────────────────────────────────────────────

/// A line that is filled up keeps what it shows, and takes exactly the width where it was shorter; a
/// longer one stays as it is. The blanks have the background that was asked for.
pub proof fn law_padded_lines_fill_the_width(spans: Seq<SpanModel>, width: nat, bg: Option<Color>)
    requires
        columns_of(' ') == 1,
    ensures
        ({
            let r = padded(spans, width, bg);
            let used = span_columns(spans);
            &&& used >= width ==> r == spans
            &&& used < width ==> {
                &&& r.len() == spans.len() + 1
                &&& r.take(spans.len() as int) == spans
                &&& r.last().style.bg == bg
                &&& r.last().style.fg is None
                &&& span_columns(r) == width
                &&& forall|i: int| 0 <= i < r.last().content.len() ==> #[trigger] r.last().content[i] == ' '
            }
        }),
{
    let used = span_columns(spans);
    if used < width {
        let tail = span(repeated(' ', (width - used) as nat), Style { bg, ..Style::plain() });
        lemma_blanks((width - used) as nat);
        assert(spans.push(tail).drop_last() =~= spans);
        assert(spans.push(tail).take(spans.len() as int) =~= spans);
    }
}

/// A background is put behind spans that have none and never replaces one; set, it replaces all. The
/// text and the rest of its style stay.
pub proof fn law_backgrounds_change_nothing_else(spans: Seq<SpanModel>, bg: Color, i: int)
    requires
        0 <= i < spans.len(),
    ensures
        backed(spans, bg).len() == spans.len() == rebacked(spans, bg).len(),
        backed(spans, bg)[i].content == spans[i].content && rebacked(spans, bg)[i].content == spans[i].content,
        rebacked(spans, bg)[i].style == (Style { bg: Some(bg), ..spans[i].style }),
        spans[i].style.bg is Some ==> backed(spans, bg)[i] == spans[i],
        spans[i].style.bg is None ==> backed(spans, bg)[i].style == (Style { bg: Some(bg), ..spans[i].style }),
{
}

/// Nothing more of a text fits than what is kept of it: one character more would take more columns
/// than there are.
pub proof fn law_truncation_keeps_what_fits(s: Seq<char>, max: nat)
    ensures
        ({
            let r = truncated(s, max);
            &&& r.len() <= s.len()
            &&& r == s.take(r.len() as int)
            &&& r.len() < s.len() ==> columns(s.take(r.len() as int + 1)) > max
        }),
{
    law_truncated_fits(s, max);
    lemma_fitting_is_most(s, max, 0, Seq::empty());
    let k = fitting(s, max, 0) as int;
    assert(Seq::<char>::empty() + s.take(k + 1) =~= s.take(k + 1));
    assert(s.take(k).len() == k);
}

proof fn lemma_fitting_is_most(s: Seq<char>, max: nat, used: nat, before: Seq<char>)
    requires
        used == columns(before),
    ensures
        fitting(s, max, used) <= s.len(),
        fitting(s, max, used) < s.len() ==> columns(before + s.take(fitting(s, max, used) as int + 1)) > max,
    decreases s.len(),
{
    if s.len() > 0 {
        let next = before.push(s[0]);
        assert(next.drop_last() =~= before);
        if used + columns_of(s[0]) > max {
            assert(before + s.take(1) =~= next);
        } else {
            lemma_fitting_is_most(s.skip(1), max, used + columns_of(s[0]), next);
            let k = fitting(s.skip(1), max, used + columns_of(s[0])) as int;
            if k < s.skip(1).len() {
                assert(next + s.skip(1).take(k + 1) =~= before + s.take(k + 2));
            }
        }
    }
}

} // verus!
