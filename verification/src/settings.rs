//! What a sidebar is set to: the tmux option first, then what was stored, then the configuration.

use vstd::prelude::*;

use crate::app::{SidebarFilterMode, SidebarLayoutMode};
use crate::app;
use crate::collections::StrSet;
use crate::model::{SidebarGroupBy, SidebarPosition};
use crate::text;

verus! {

/// The layout mode of a name.
pub open spec fn layout_named(name: Option<Seq<char>>) -> Option<SidebarLayoutMode> {
    match name {
        Some(s) => if s == "tiles"@ {
            Some(SidebarLayoutMode::Tiles)
        } else if s == "compact"@ {
            Some(SidebarLayoutMode::Compact)
        } else {
            None
        },
        None => None,
    }
}

fn layout_of(name: Option<&str>) -> (r: Option<SidebarLayoutMode>)
    ensures
        r == layout_named(text::view_of(name)),
{
    match name {
        Some(s) => if text::same(s, "tiles") {
            Some(SidebarLayoutMode::Tiles)
        } else if text::same(s, "compact") {
            Some(SidebarLayoutMode::Compact)
        } else {
            None
        },
        None => None,
    }
}

/// An optional string without the white space around it.
pub open spec fn trimmed_of(s: Option<Seq<char>>) -> Option<Seq<char>> {
    match s {
        Some(s) => Some(text::trimmed(s)),
        None => None,
    }
}

/// The first layout mode that is named, none where no source names one.
pub open spec fn layout_setting(tmux: Option<Seq<char>>, stored: Option<Seq<char>>, configured: Option<Seq<char>>) -> Option<
    SidebarLayoutMode,
> {
    if layout_named(trimmed_of(tmux)) is Some {
        layout_named(trimmed_of(tmux))
    } else if layout_named(stored) is Some {
        layout_named(stored)
    } else {
        layout_named(configured)
    }
}

/// Reads the layout mode: the tmux option, then the stored setting, then the configuration. A value
/// that names no mode is passed over.
pub fn read_sidebar_layout_mode(tmux_value: Option<&str>, stored: Option<&str>, configured: Option<&str>) -> (r: Option<
    SidebarLayoutMode,
>)
    ensures
        r == layout_setting(text::view_of(tmux_value), text::view_of(stored), text::view_of(configured)),
{
    let trimmed = match tmux_value {
        Some(s) => Some(text::trim(s)),
        None => None,
    };
    match layout_of(trimmed) {
        Some(mode) => Some(mode),
        None => match layout_of(stored) {
            Some(mode) => Some(mode),
            None => layout_of(configured),
        },
    }
}

/// The filter mode that the first source which is set names.
pub open spec fn filter_setting(tmux: Option<Seq<char>>, stored: Option<Seq<char>>) -> SidebarFilterMode {
    match (tmux, stored) {
        (Some(value), _) => app::filter_mode_of(text::lowercase(text::trimmed(value))),
        (None, Some(value)) => app::filter_mode_of(text::lowercase(text::trimmed(value))),
        (None, None) => SidebarFilterMode::All,
    }
}

/// Reads the filter mode: the tmux option, then the stored setting; without either, everything is
/// shown.
pub fn read_sidebar_filter_mode(tmux_value: Option<&str>, stored: Option<&str>) -> (r: SidebarFilterMode)
    ensures
        r == filter_setting(text::view_of(tmux_value), text::view_of(stored)),
{
    match tmux_value {
        Some(value) => SidebarFilterMode::from_str(value),
        None => match stored {
            Some(value) => SidebarFilterMode::from_str(value),
            None => SidebarFilterMode::default(),
        },
    }
}

/// What a stored grouping reads as: nothing where it does not name one.
pub type GroupingValue = Option<Option<SidebarGroupBy>>;

/// The grouping that the first source which is set names, else the configured one.
pub open spec fn grouping_setting(
    tmux: Option<GroupingValue>,
    stored: Option<GroupingValue>,
    configured: Option<SidebarGroupBy>,
) -> Option<SidebarGroupBy> {
    match (tmux, stored) {
        (Some(Some(grouping)), _) => grouping,
        (None, Some(Some(grouping))) => grouping,
        _ => configured,
    }
}

/// Reads the grouping: the tmux option, then the stored setting, then the configuration. The first
/// that is set decides; where it does not name a grouping, the configured one applies.
pub fn read_sidebar_group_by(
    tmux_value: Option<GroupingValue>,
    stored: Option<GroupingValue>,
    configured: Option<SidebarGroupBy>,
) -> (r: Option<SidebarGroupBy>)
    ensures
        r == grouping_setting(tmux_value, stored, configured),
{
    match tmux_value {
        Some(Some(grouping)) => grouping,
        Some(None) => configured,
        None => match stored {
            Some(Some(grouping)) => grouping,
            _ => configured,
        },
    }
}

/// The labels among the first `k` pieces: those that are more than white space, without the white
/// space around them.
pub open spec fn labels_of(pieces: Seq<Seq<char>>, k: int) -> Seq<Seq<char>>
    decreases k,
{
    if k <= 0 {
        seq![]
    } else {
        let t = text::trimmed(pieces[k - 1]);
        if t.len() == 0 {
            labels_of(pieces, k - 1)
        } else {
            labels_of(pieces, k - 1).push(t)
        }
    }
}

/// The group labels that the user expanded, as the tmux option lists them.
pub open spec fn expanded_labels(value: Option<Seq<char>>) -> Seq<Seq<char>> {
    match value {
        Some(s) => labels_of(text::pieces(s, '\t'), text::pieces(s, '\t').len() as int),
        None => seq![],
    }
}

/// Reads the expanded groups. Labels are parted by tabs, as a project or session name can contain
/// blanks.
pub fn read_expanded_groups(tmux_value: Option<&str>) -> (r: Vec<String>)
    ensures
        text::texts(r@) == expanded_labels(text::view_of(tmux_value)),
{
    let mut r: Vec<String> = Vec::new();
    proof {
        assert(text::texts(r@) =~= Seq::<Seq<char>>::empty());
    }
    match tmux_value {
        Some(value) => {
            let pieces = text::split(value, '\t');
            let ghost ps = text::texts(pieces@);
            let mut i: usize = 0;
            while i < pieces.len()
                invariant
                    ps == text::texts(pieces@),
                    i <= pieces@.len(),
                    text::texts(r@) == labels_of(ps, i as int),
                decreases pieces.len() - i,
            {
                let label = text::trim(pieces[i].as_str());
                let ghost before = text::texts(r@);
                if !label.is_empty() {
                    r.push(label.to_owned());
                    proof {
                        assert(text::texts(r@) =~= before.push(label@));
                    }
                }
                i += 1;
            }
            proof {
                assert(ps.len() == pieces@.len());
            }
        },
        None => {},
    }
    r
}

/// The panes that the user put to sleep, as the tmux option lists them.
pub open spec fn sleeping_panes(value: Option<Seq<char>>) -> Set<Seq<char>> {
    match value {
        Some(s) => text::words(s).to_set(),
        None => Set::empty(),
    }
}

/// Reads the panes that the user put to sleep.
pub fn read_sleeping_panes(tmux_value: Option<&str>) -> (r: StrSet)
    ensures
        r@ == sleeping_panes(text::view_of(tmux_value)),
{
    match tmux_value {
        Some(value) => {
            let words = text::split_whitespace(value);
            let r = StrSet::of(&words);
            proof {
                let ts = text::texts(words@);
                assert forall|k: Seq<char>| r@.contains(k) <==> ts.to_set().contains(k) by {
                    if ts.contains(k) {
                        let j = choose|j: int| 0 <= j < ts.len() && ts[j] == k;
                        assert(words@[j]@ == k);
                    }
                    if r@.contains(k) {
                        let j = choose|j: int| 0 <= j < words@.len() && words@[j]@ == k;
                        assert(ts[j] == k);
                    }
                }
                assert(r@ =~= ts.to_set());
            }
            r
        },
        None => StrSet::new(),
    }
}

/// The position that the tmux option names, else the configured one.
pub open spec fn position_setting(tmux: Option<Seq<char>>, configured: SidebarPosition) -> SidebarPosition {
    match trimmed_of(tmux) {
        Some(s) => if s == "top"@ {
            SidebarPosition::Top
        } else if s == "left"@ {
            SidebarPosition::Left
        } else {
            configured
        },
        None => configured,
    }
}

/// Reads where the sidebar sits.
pub fn read_sidebar_position(tmux_value: Option<&str>, configured: SidebarPosition) -> (r: SidebarPosition)
    ensures
        r == position_setting(text::view_of(tmux_value), configured),
{
    match tmux_value {
        Some(value) => {
            let name = text::trim(value);
            if text::same(name, "top") {
                SidebarPosition::Top
            } else if text::same(name, "left") {
                SidebarPosition::Left
            } else {
                configured
            }
        },
        None => configured,
    }
}

// ── Reading back ────────────────────────────────────────────────

/// Whether a label survives being stored among others: it is not empty, has no white space around
/// it, and no tab in it.
pub open spec fn storable(label: Seq<char>) -> bool {
    &&& label.len() > 0
    &&& text::trimmed(label) == label
    &&& forall|j: int| 0 <= j < label.len() ==> #[trigger] label[j] != '\t'
}

proof fn lemma_labels_of(ls: Seq<Seq<char>>, k: int)
    requires
        0 <= k <= ls.len(),
        forall|i: int| 0 <= i < ls.len() ==> storable(#[trigger] ls[i]),
    ensures
        labels_of(ls, k) == ls.take(k),
    decreases k,
{
    if k > 0 {
        lemma_labels_of(ls, k - 1);
        assert(storable(ls[k - 1]));
        assert(ls.take(k) =~= ls.take(k - 1).push(ls[k - 1]));
    }
}

/// The expanded groups that a sidebar stores are the ones that are read back.
pub proof fn law_stored_groups_are_read_back(value: Option<Seq<char>>, set: Set<Seq<char>>)
    requires
        crate::updates::stored_labels(value, set),
        forall|label: Seq<char>| #[trigger] set.contains(label) ==> storable(label),
    ensures
        forall|label: Seq<char>| expanded_labels(value).contains(label) <==> #[trigger] set.contains(label),
{
    reveal_strlit("\t");
    assert("\t"@ =~= seq!['\t']);
    let ls = choose|ls: Seq<Seq<char>>| #[trigger]
        crate::updates::lists(ls, set) && value == (if text::joined(ls, "\t"@).len() == 0 {
            None::<Seq<char>>
        } else {
            Some(text::joined(ls, "\t"@))
        });
    assert forall|i: int| 0 <= i < ls.len() implies storable(#[trigger] ls[i]) by {
        assert(ls.contains(ls[i]));
        assert(set.contains(ls[i]));
    }
    if ls.len() == 0 {
        assert(expanded_labels(value) =~= ls);
    } else {
        assert forall|i: int, j: int| 0 <= i < ls.len() && 0 <= j < ls[i].len() implies #[trigger] ls[i][j] != '\t' by {
            assert(storable(ls[i]));
        }
        text::lemma_pieces_joined(ls, '\t');
        lemma_labels_of(ls, ls.len() as int);
        assert(ls.take(ls.len() as int) =~= ls);
        if ls.len() > 1 {
            text::lemma_joined_front(ls, "\t"@);
        }
        assert(storable(ls[0]));
        assert(text::joined(ls, "\t"@).len() > 0);
    }
    assert forall|label: Seq<char>| expanded_labels(value).contains(label) <==> #[trigger] set.contains(label) by {
        assert(expanded_labels(value) == ls);
    }
}

/// Whether a pane id survives being stored among others: it is not empty and has no white space.
pub open spec fn solid(id: Seq<char>) -> bool {
    id.len() > 0 && forall|j: int| 0 <= j < id.len() ==> !text::is_space(#[trigger] id[j])
}

proof fn lemma_words_joined(ls: Seq<Seq<char>>)
    requires
        forall|i: int| 0 <= i < ls.len() ==> solid(#[trigger] ls[i]),
    ensures
        text::words(text::joined(ls, seq![' '])) == ls,
    decreases ls.len(),
{
    let s = text::joined(ls, seq![' ']);
    if ls.len() == 0 {
        assert(text::words(s) =~= ls);
    } else {
        let k = ls[0].len() as int;
        assert(solid(ls[0]));
        if ls.len() == 1 {
            text::lemma_word_len(s, k);
            assert(s.take(k) =~= ls[0]);
            assert(s.skip(k) =~= Seq::<char>::empty());
            assert(text::words(s.skip(k)) =~= Seq::<Seq<char>>::empty());
            assert(!text::is_space(s[0]));
            assert(text::words(s) == seq![s.take(k)] + text::words(s.skip(k)));
            assert(seq![ls[0]] + Seq::<Seq<char>>::empty() =~= ls);
        } else {
            text::lemma_joined_front(ls, seq![' ']);
            let rest = ls.skip(1);
            assert forall|j: int| 0 <= j < k implies !text::is_space(#[trigger] s[j]) by {
                assert(s[j] == ls[0][j]);
            }
            assert(s[k] == ' ');
            assert(text::is_space(' '));
            text::lemma_word_len(s, k);
            assert(s.take(k) =~= ls[0]);
            let tail = s.skip(k);
            assert(tail[0] == ' ');
            assert(tail.skip(1) =~= text::joined(rest, seq![' ']));
            assert forall|i: int| 0 <= i < rest.len() implies solid(#[trigger] rest[i]) by {
                assert(rest[i] == ls[i + 1]);
            }
            lemma_words_joined(rest);
            assert(text::words(tail) == text::words(tail.skip(1)));
            assert(!text::is_space(s[0]));
            assert(text::words(s) == seq![s.take(k)] + text::words(s.skip(k)));
            assert(seq![ls[0]] + rest =~= ls);
        }
    }
}

/// The sleeping panes that a sidebar stores, parted by blanks, are the ones that are read back.
pub proof fn law_sleeping_panes_are_read_back(ids: Seq<Seq<char>>)
    requires
        forall|i: int| 0 <= i < ids.len() ==> solid(#[trigger] ids[i]),
    ensures
        sleeping_panes(
            if text::joined(ids, " "@).len() == 0 {
                None
            } else {
                Some(text::joined(ids, " "@))
            },
        ) == ids.to_set(),
{
    reveal_strlit(" ");
    assert(" "@ =~= seq![' ']);
    lemma_words_joined(ids);
    if text::joined(ids, " "@).len() == 0 {
        if ids.len() > 0 {
            assert(solid(ids[0]));
            if ids.len() > 1 {
                text::lemma_joined_front(ids, " "@);
            }
        }
        assert(ids.to_set() =~= Set::<Seq<char>>::empty());
    }
}

// ── What decides ────────────────────────────────────────────────

/// The tmux option decides on the layout where it names one, the stored setting where it does not, and
/// the configuration where neither does. A source that names none is the same as one that is missing.
pub proof fn law_the_option_decides_on_the_layout(tmux: Option<Seq<char>>, stored: Option<Seq<char>>, configured: Option<
    Seq<char>,
>)
    ensures
        ({
            let r = layout_setting(tmux, stored, configured);
            let told = |s: Option<Seq<char>>| s is Some && (s->0 == "tiles"@ || s->0 == "compact"@);
            let option = match tmux {
                Some(s) => Some(text::trimmed(s)),
                None => None,
            };
            let source = if told(option) {
                option
            } else if told(stored) {
                stored
            } else {
                configured
            };
            &&& r is Some <==> told(source)
            &&& r == Some(SidebarLayoutMode::Tiles) <==> source == Some("tiles"@)
            &&& r is Some && source->0 != "tiles"@ ==> r == Some(SidebarLayoutMode::Compact)
        }),
        "tiles"@ != "compact"@,
{
    reveal_strlit("tiles");
    reveal_strlit("compact");
    assert("tiles"@.len() != "compact"@.len());
}

/// Where the tmux option is set, the stored filter does not matter; where it is not, the stored one is
/// read just as the option would be; without either, everything is shown. `session`, or `project`, in
/// any case and with white space around it, is what filters.
pub proof fn law_the_option_decides_on_the_filter(tmux: Seq<char>, stored: Option<Seq<char>>)
    ensures
        filter_setting(Some(tmux), stored) == filter_setting(Some(tmux), None),
        filter_setting(None, Some(tmux)) == filter_setting(Some(tmux), stored),
        filter_setting(None, None) is All,
        filter_setting(Some(tmux), stored) is Session <==> text::lowercase(text::trimmed(tmux)) == "session"@
            || text::lowercase(text::trimmed(tmux)) == "project"@,
{
}

/// The tmux option decides on the grouping where it is set, the stored setting where it is not. One
/// that names no grouping leaves it to the configuration, and so do both where neither is set.
pub proof fn law_the_option_decides_on_the_grouping(
    tmux: GroupingValue,
    stored: Option<GroupingValue>,
    configured: Option<SidebarGroupBy>,
)
    ensures
        tmux is Some ==> grouping_setting(Some(tmux), stored, configured) == tmux->0,
        tmux is None ==> grouping_setting(Some(tmux), stored, configured) == configured,
        grouping_setting(None, Some(tmux), configured) == grouping_setting(Some(tmux), stored, configured),
        grouping_setting(None, None, configured) == configured,
{
}

/// The sidebar sits where the tmux option says, on top or on the left; where it says neither, where the
/// configuration says.
pub proof fn law_the_option_decides_on_the_position(tmux: Option<Seq<char>>, configured: SidebarPosition)
    ensures
        ({
            let top = tmux is Some && text::trimmed(tmux->0) == "top"@;
            let left = tmux is Some && text::trimmed(tmux->0) == "left"@;
            &&& top ==> position_setting(tmux, configured) is Top
            &&& left ==> position_setting(tmux, configured) is Left
            &&& !top && !left ==> position_setting(tmux, configured) == configured
        }),
{
    reveal_strlit("top");
    reveal_strlit("left");
    assert("top"@.len() != "left"@.len());
}

} // verus!
