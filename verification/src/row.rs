//! What a row of a template shows: shared by agent rows and group headers.

use vstd::prelude::*;

use crate::style;
use crate::style::{Palette, Span, SpanModel, Style};
use crate::templates::TokenId;
use crate::text;

verus! {

/// A row that templates are filled in for.
pub trait TemplateRow {
    /// What a field shows.
    spec fn text_of(&self, token: TokenId) -> Seq<char>;

    /// The style of a field, unless the template sets one.
    spec fn style_of(&self, token: TokenId) -> Style;

    /// The columns of a field before anything is cut.
    spec fn width_of(&self, token: TokenId) -> usize;

    /// The spans of the status icon.
    spec fn icon(&self) -> Seq<SpanModel>;

    /// Whether the row is drawn dimmed.
    spec fn dimmed(&self) -> bool;

    /// A git field within a width, and the columns it takes.
    spec fn git_segment(&self, token: TokenId, width: nat) -> (Seq<SpanModel>, nat);

    /// The checks within a width, and the columns they take.
    spec fn checks(&self, width: nat) -> (Seq<SpanModel>, nat);

    /// The statuses of a group within a width, and the columns they take.
    spec fn statuses(&self, width: nat) -> (Seq<SpanModel>, nat);

    fn resolve(&self, token: TokenId) -> (r: String)
        ensures
            r@ == self.text_of(token),
    ;

    fn intrinsic_style(&self, token: TokenId) -> (r: Style)
        ensures
            r == self.style_of(token),
    ;

    fn natural_width(&self, token: TokenId) -> (r: usize)
        ensures
            r == self.width_of(token),
    ;

    fn status_icon_spans(&self) -> (r: Vec<Span>)
        ensures
            style::models(r@) == self.icon(),
    ;

    fn is_stale(&self) -> (r: bool)
        ensures
            r == self.dimmed(),
    ;

    fn git_segment_spans(&self, token: TokenId, width: usize) -> (r: (Vec<Span>, usize))
        ensures
            (style::models(r.0@), r.1 as nat) == self.git_segment(token, width as nat),
            style::span_columns(style::models(r.0@)) == r.1,
    ;

    fn pr_check_spans(&self, width: usize) -> (r: (Vec<Span>, usize))
        ensures
            (style::models(r.0@), r.1 as nat) == self.checks(width as nat),
            style::span_columns(style::models(r.0@)) == r.1,
    ;

    fn group_status_spans(&self, width: usize) -> (r: (Vec<Span>, usize))
        ensures
            (style::models(r.0@), r.1 as nat) == self.statuses(width as nat),
            style::span_columns(style::models(r.0@)) == r.1,
    ;
}

/// One status that agents of a group are in, and how many are.
pub struct GroupStatusCount {
    pub icon: Vec<Span>,
    pub count: usize,
    /// Columns that the icon draws past its measured width.
    pub pad: usize,
}

/// A status count, by its contents.
pub struct StatusModel {
    pub icon: Seq<SpanModel>,
    pub count: nat,
    pub pad: nat,
}

impl View for GroupStatusCount {
    type V = StatusModel;

    open spec fn view(&self) -> StatusModel {
        StatusModel { icon: style::models(self.icon@), count: self.count as nat, pad: self.pad as nat }
    }
}

/// The contents of status counts.
pub open spec fn status_models(statuses: Seq<GroupStatusCount>) -> Seq<StatusModel> {
    Seq::new(statuses.len(), |i: int| statuses[i]@)
}

/// The columns of a status: the icon, its allowance, and the count beside it.
pub open spec fn status_columns(s: StatusModel) -> nat {
    style::span_columns(s.icon) + s.pad + style::columns(text::numeral(s.count))
}

/// The text of spans.
pub open spec fn plain_text(spans: Seq<SpanModel>) -> Seq<char>
    decreases spans.len(),
{
    if spans.len() == 0 {
        seq![]
    } else {
        plain_text(spans.drop_last()) + spans.last().content
    }
}

/// Appends the text of spans.
pub fn push_text(out: &mut String, spans: &Vec<Span>)
    ensures
        final(out)@ == old(out)@ + plain_text(style::models(spans@)),
{
    let ghost ms = style::models(spans@);
    let mut i: usize = 0;
    proof {
        assert(plain_text(ms.take(0)) =~= Seq::<char>::empty());
        assert(old(out)@ + Seq::<char>::empty() =~= old(out)@);
    }
    while i < spans.len()
        invariant
            ms == style::models(spans@),
            i <= spans.len(),
            out@ == old(out)@ + plain_text(ms.take(i as int)),
        decreases spans.len() - i,
    {
        out.append(spans[i].content.as_str());
        proof {
            assert(ms.take(i + 1).drop_last() =~= ms.take(i as int));
            assert(ms.take(i + 1).last() == spans@[i as int]@);
            assert(out@ =~= old(out)@ + plain_text(ms.take(i + 1)));
        }
        i += 1;
    }
    proof {
        assert(ms.take(i as int) =~= ms);
    }
}

/// A status as text: the icon, its allowance, and the count.
pub open spec fn status_text(s: StatusModel) -> Seq<char> {
    plain_text(s.icon) + style::repeated(' ', s.pad) + text::numeral(s.count)
}

/// The statuses as text.
pub open spec fn status_texts(statuses: Seq<StatusModel>) -> Seq<Seq<char>> {
    Seq::new(statuses.len(), |i: int| status_text(statuses[i]))
}

/// The spans of a status.
pub open spec fn status_spans(s: StatusModel, dimmed: Style) -> Seq<SpanModel> {
    s.icon + (if s.pad > 0 {
        seq![style::span(style::repeated(' ', s.pad), Style::plain())]
    } else {
        seq![]
    }) + seq![style::span(text::numeral(s.count), dimmed)]
}

/// The first `k` statuses as spans with a space between them, and the columns they take.
pub open spec fn joined_statuses(statuses: Seq<StatusModel>, k: int, dimmed: Style) -> (Seq<SpanModel>, nat)
    decreases k,
{
    if k <= 0 {
        (seq![], 0)
    } else {
        let (spans, used) = joined_statuses(statuses, k - 1, dimmed);
        let gap = if k > 1 {
            seq![style::span(seq![' '], Style::plain())]
        } else {
            seq![]
        };
        (
            spans + gap + status_spans(statuses[k - 1], dimmed),
            used + gap.len() + status_columns(statuses[k - 1]),
        )
    }
}

/// How many statuses, from the `k`-th on, still fit into `width`.
pub open spec fn statuses_fitting(statuses: Seq<StatusModel>, k: int, width: nat, dimmed: Style) -> int
    decreases statuses.len() - k,
{
    if 0 <= k < statuses.len() && joined_statuses(statuses, k + 1, dimmed).1 <= width {
        statuses_fitting(statuses, k + 1, width, dimmed)
    } else {
        k
    }
}

/// A group header.
pub struct HeaderContext<'a> {
    pub label: String,
    pub count: usize,
    /// Statuses present in the group, most urgent first. Empty unless the template asks for them.
    pub statuses: Vec<GroupStatusCount>,
    pub palette: &'a Palette,
}

impl<'a> TemplateRow for HeaderContext<'a> {
    open spec fn text_of(&self, token: TokenId) -> Seq<char> {
        match token {
            TokenId::Group => self.label@,
            TokenId::GroupCount => text::numeral(self.count as nat),
            TokenId::GroupStatus => text::joined(status_texts(status_models(self.statuses@)), " "@),
            _ => seq![],
        }
    }

    open spec fn style_of(&self, token: TokenId) -> Style {
        match token {
            TokenId::Group => Style { bold: true, ..Style::colored(self.palette.header) },
            _ => Style::colored(self.palette.dimmed),
        }
    }

    open spec fn width_of(&self, token: TokenId) -> usize {
        style::columns(self.text_of(token)) as usize
    }

    open spec fn icon(&self) -> Seq<SpanModel> {
        seq![]
    }

    open spec fn dimmed(&self) -> bool {
        false
    }

    open spec fn git_segment(&self, token: TokenId, width: nat) -> (Seq<SpanModel>, nat) {
        (seq![], 0)
    }

    open spec fn checks(&self, width: nat) -> (Seq<SpanModel>, nat) {
        (seq![], 0)
    }

    /// As many statuses as fit, the least urgent dropped first.
    open spec fn statuses(&self, width: nat) -> (Seq<SpanModel>, nat) {
        let ms = status_models(self.statuses@);
        let dimmed = Style::colored(self.palette.dimmed);
        joined_statuses(ms, statuses_fitting(ms, 0, width, dimmed), dimmed)
    }

    fn resolve(&self, token: TokenId) -> (r: String) {
        match token {
            TokenId::Group => self.label.clone(),
            TokenId::GroupCount => text::decimal(self.count as u64),
            TokenId::GroupStatus => {
                let mut parts: Vec<String> = Vec::new();
                let mut i: usize = 0;
                let ghost ts = status_texts(status_models(self.statuses@));
                while i < self.statuses.len()
                    invariant
                        ts == status_texts(status_models(self.statuses@)),
                        i <= self.statuses.len(),
                        parts@.len() == i,
                        forall|j: int| 0 <= j < i ==> (#[trigger] parts@[j])@ == ts[j],
                    decreases self.statuses.len() - i,
                {
                    let s = &self.statuses[i];
                    let mut t = String::new();
                    push_text(&mut t, &s.icon);
                    t.append(style::repeat(' ', s.pad).as_str());
                    text::push_decimal(&mut t, s.count as u64);
                    proof {
                        assert(t@ =~= status_text(s@));
                    }
                    parts.push(t);
                    i += 1;
                }
                proof {
                    assert(text::texts(parts@) =~= ts);
                }
                text::join(&parts, " ")
            },
            _ => String::new(),
        }
    }

    fn intrinsic_style(&self, token: TokenId) -> (r: Style) {
        match token {
            TokenId::Group => Style::fg(self.palette.header).bold(),
            _ => Style::fg(self.palette.dimmed),
        }
    }

    fn natural_width(&self, token: TokenId) -> (r: usize) {
        let s = self.resolve(token);
        style::display_width(s.as_str())
    }

    fn status_icon_spans(&self) -> (r: Vec<Span>) {
        let r: Vec<Span> = Vec::new();
        proof {
            assert(style::models(r@) =~= Seq::<SpanModel>::empty());
        }
        r
    }

    fn is_stale(&self) -> (r: bool) {
        false
    }

    fn git_segment_spans(&self, token: TokenId, width: usize) -> (r: (Vec<Span>, usize)) {
        let r: Vec<Span> = Vec::new();
        proof {
            assert(style::models(r@) =~= Seq::<SpanModel>::empty());
        }
        (r, 0)
    }

    fn pr_check_spans(&self, width: usize) -> (r: (Vec<Span>, usize)) {
        let r: Vec<Span> = Vec::new();
        proof {
            assert(style::models(r@) =~= Seq::<SpanModel>::empty());
        }
        (r, 0)
    }

    fn group_status_spans(&self, width: usize) -> (r: (Vec<Span>, usize)) {
        let dimmed = Style::fg(self.palette.dimmed);
        let blank: usize = style::blank_width();
        let ghost ms = status_models(self.statuses@);
        let mut spans: Vec<Span> = Vec::new();
        let mut used: usize = 0;
        let mut i: usize = 0;
        proof {
            assert(style::models(spans@) =~= Seq::<SpanModel>::empty());
        }
        while i < self.statuses.len()
            invariant_except_break
                blank == 1,
                ms == status_models(self.statuses@),
                dimmed == Style::colored(self.palette.dimmed),
                i <= self.statuses.len(),
                (style::models(spans@), used as nat) == joined_statuses(ms, i as int, dimmed),
                statuses_fitting(ms, 0, width as nat, dimmed) == statuses_fitting(
                    ms,
                    i as int,
                    width as nat,
                    dimmed,
                ),
            ensures
                (style::models(spans@), used as nat) == joined_statuses(
                    ms,
                    statuses_fitting(ms, 0, width as nat, dimmed),
                    dimmed,
                ),
            decreases self.statuses.len() - i,
        {
            let s = &self.statuses[i];
            let count = text::decimal(s.count as u64);
            let gap: u128 = if i > 0 {
                blank as u128
            } else {
                0
            };
            let icon: u128 = style::spans_width(&s.icon);
            let digits: usize = style::display_width(count.as_str());
            let rest: u128 = used as u128 + gap + s.pad as u128 + digits as u128;
            proof {
                assert(ms[i as int] == s@);
                assert(rest + icon == joined_statuses(ms, i + 1, dimmed).1);
            }
            if icon > width as u128 || icon + rest > width as u128 {
                break;
            }
            let ghost before = style::models(spans@);
            if i > 0 {
                style::push_span(&mut spans, " ".to_owned(), Style::new());
            }
            let ghost mid = style::models(spans@);
            style::push_all(&mut spans, &s.icon);
            if s.pad > 0 {
                style::push_span(&mut spans, style::repeat(' ', s.pad), Style::new());
            }
            style::push_span(&mut spans, count, dimmed);
            used = (icon + rest) as usize;
            proof {
                reveal_strlit(" ");
                assert(" "@ =~= seq![' ']);
                let gap_spans = if i > 0 {
                    seq![style::span(seq![' '], Style::plain())]
                } else {
                    seq![]
                };
                assert(mid =~= before + gap_spans);
                assert(style::models(spans@) =~= before + gap_spans + status_spans(s@, dimmed));
            }
            i += 1;
        }
        proof {
            let k = statuses_fitting(ms, 0, width as nat, dimmed);
            lemma_joined_statuses(ms, k, dimmed);
        }
        (spans, used)
    }
}

proof fn lemma_joined_statuses(statuses: Seq<StatusModel>, k: int, dimmed: Style)
    requires
        style::columns_of(' ') == 1,
    ensures
        style::span_columns(joined_statuses(statuses, k, dimmed).0) == joined_statuses(statuses, k, dimmed).1,
    decreases k,
{
    if k > 0 {
        lemma_joined_statuses(statuses, k - 1, dimmed);
        let s = statuses[k - 1];
        let spans = joined_statuses(statuses, k - 1, dimmed).0;
        let blank = style::span(seq![' '], Style::plain());
        let gap = if k > 1 {
            seq![blank]
        } else {
            seq![]
        };
        let pad = style::span(style::repeated(' ', s.pad), Style::plain());
        let allowance = if s.pad > 0 {
            seq![pad]
        } else {
            seq![]
        };
        let count = style::span(text::numeral(s.count), dimmed);
        style::lemma_blanks(1);
        style::lemma_blanks(s.pad);
        assert(style::repeated(' ', 1) =~= seq![' ']);
        style::lemma_span_columns_one(blank);
        style::lemma_span_columns_one(pad);
        style::lemma_span_columns_one(count);
        style::lemma_span_columns_add(s.icon, allowance);
        style::lemma_span_columns_add(s.icon + allowance, seq![count]);
        style::lemma_span_columns_add(spans, gap);
        style::lemma_span_columns_add(spans + gap, status_spans(s, dimmed));
    }
}

/// The statuses shown never take more columns than there are.
pub proof fn law_statuses_fit(statuses: Seq<StatusModel>, width: nat, dimmed: Style)
    ensures
        joined_statuses(statuses, statuses_fitting(statuses, 0, width, dimmed), dimmed).1 <= width,
{
    lemma_statuses_fit(statuses, 0, width, dimmed);
}

proof fn lemma_statuses_fit(statuses: Seq<StatusModel>, k: int, width: nat, dimmed: Style)
    requires
        0 <= k,
        joined_statuses(statuses, k, dimmed).1 <= width,
    ensures
        joined_statuses(statuses, statuses_fitting(statuses, k, width, dimmed), dimmed).1 <= width,
    decreases statuses.len() - k,
{
    if k < statuses.len() && joined_statuses(statuses, k + 1, dimmed).1 <= width {
        lemma_statuses_fit(statuses, k + 1, width, dimmed);
    }
}

proof fn lemma_statuses_stop(statuses: Seq<StatusModel>, k: int, width: nat, dimmed: Style)
    requires
        0 <= k <= statuses.len(),
    ensures
        ({
            let n = statuses_fitting(statuses, k, width, dimmed);
            &&& k <= n <= statuses.len()
            &&& n < statuses.len() ==> joined_statuses(statuses, n + 1, dimmed).1 > width
        }),
    decreases statuses.len() - k,
{
    if k < statuses.len() && joined_statuses(statuses, k + 1, dimmed).1 <= width {
        lemma_statuses_stop(statuses, k + 1, width, dimmed);
    }
}

/// A group's statuses are dropped from the end, and only where the next one does not fit: what is left
/// out would take more columns than there are.
pub proof fn law_statuses_are_dropped_from_the_end(statuses: Seq<StatusModel>, width: nat, dimmed: Style)
    ensures
        ({
            let n = statuses_fitting(statuses, 0, width, dimmed);
            &&& 0 <= n <= statuses.len()
            &&& n < statuses.len() ==> joined_statuses(statuses, n + 1, dimmed).1 > width
        }),
{
    lemma_statuses_stop(statuses, 0, width, dimmed);
}

/// A status is drawn as its icon, the blanks that its icon draws over, and how many agents have it;
/// the next one follows behind a blank.
pub proof fn law_statuses_are_drawn_in_turn(statuses: Seq<StatusModel>, k: int, dimmed: Style)
    requires
        0 <= k < statuses.len(),
    ensures
        ({
            let (front, before) = joined_statuses(statuses, k, dimmed);
            let (all, after) = joined_statuses(statuses, k + 1, dimmed);
            let s = statuses[k];
            let gap = if k > 0 {
                1int
            } else {
                0int
            };
            let pad = if s.pad > 0 {
                1int
            } else {
                0int
            };
            let plain = Style {
                fg: None,
                bg: None,
                bold: false,
                dim: false,
                italic: false,
                underlined: false,
                reversed: false,
            };
            &&& all.len() == front.len() + gap + s.icon.len() + pad + 1
            &&& all.take(front.len() as int) == front
            &&& k > 0 ==> all[front.len() as int] == (SpanModel { content: seq![' '], style: plain })
            &&& all.subrange(front.len() + gap, front.len() + gap + s.icon.len()) == s.icon
            &&& s.pad > 0 ==> all[all.len() - 2] == (SpanModel { content: style::repeated(' ', s.pad), style: plain })
            &&& all.last() == (SpanModel { content: text::numeral(s.count), style: dimmed })
            &&& after == before + gap + style::span_columns(s.icon) + s.pad + style::columns(text::numeral(s.count))
        }),
{
    let (front, before) = joined_statuses(statuses, k, dimmed);
    let (all, after) = joined_statuses(statuses, k + 1, dimmed);
    let s = statuses[k];
    assert(all.take(front.len() as int) =~= front);
    let gap = if k > 0 {
        1int
    } else {
        0int
    };
    assert(all.subrange(front.len() + gap, front.len() + gap + s.icon.len()) =~= s.icon);
}

/// A header tells its group and how many agents are in it, the group bold in the header's colour, the
/// rest dimmed; no field of an agent has anything to tell there.
pub proof fn law_headers_tell_their_group(h: HeaderContext)
    ensures
        h.text_of(TokenId::Group) == h.label@,
        h.text_of(TokenId::GroupCount) == text::numeral(h.count as nat),
        h.text_of(TokenId::Primary).len() == 0 && h.text_of(TokenId::StatusIcon).len() == 0,
        h.style_of(TokenId::Group).fg == Some(h.palette.header) && h.style_of(TokenId::Group).bold,
        h.style_of(TokenId::GroupCount).fg == Some(h.palette.dimmed) && !h.style_of(TokenId::GroupCount).bold,
        h.style_of(TokenId::GroupStatus).fg == Some(h.palette.dimmed),
        !h.dimmed(),
{
}

/// The text of spans is what they say, one after the other.
pub proof fn law_spans_read_in_order(a: Seq<SpanModel>, s: SpanModel)
    ensures
        plain_text(Seq::<SpanModel>::empty()).len() == 0,
        plain_text(a.push(s)) == plain_text(a) + s.content,
{
    assert(a.push(s).drop_last() =~= a);
}

} // verus!
