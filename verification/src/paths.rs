//! File paths as strings. They are compared component by component; where a collection is keyed by
//! paths, these are in normal form, in which equal paths are equal strings.

use vstd::prelude::*;

use crate::collections;
use crate::collections::StrSet;
use crate::text;

verus! {

/// One component of a path.
pub enum Component {
    Root,
    Current,
    Parent,
    Normal(Seq<char>),
}

/// The component that the piece `i` of a path stands for. Empty pieces stand for none, and a dot
/// only at the front.
pub open spec fn component_of(ps: Seq<Seq<char>>, i: int) -> Option<Component> {
    if ps[i].len() == 0 {
        None
    } else if ps[i] == "."@ {
        if i == 0 {
            Some(Component::Current)
        } else {
            None
        }
    } else if ps[i] == ".."@ {
        Some(Component::Parent)
    } else {
        Some(Component::Normal(ps[i]))
    }
}

/// The components of the first `k` pieces.
pub open spec fn components_of(ps: Seq<Seq<char>>, k: int) -> Seq<Component>
    decreases k,
{
    if k <= 0 {
        seq![]
    } else {
        match component_of(ps, k - 1) {
            Some(c) => components_of(ps, k - 1).push(c),
            None => components_of(ps, k - 1),
        }
    }
}

/// The components of a path.
pub open spec fn components(path: Seq<char>) -> Seq<Component> {
    let ps = text::pieces(path, '/');
    let named = components_of(ps, ps.len() as int);
    if path.len() > 0 && path[0] == '/' {
        seq![Component::Root] + named
    } else {
        named
    }
}

/// The last component of a path, where it is a name.
pub open spec fn last_name(path: Seq<char>) -> Option<Seq<char>> {
    let cs = components(path);
    if cs.len() >= 1 {
        match cs.last() {
            Component::Normal(name) => Some(name),
            _ => None,
        }
    } else {
        None
    }
}

/// The indices of those of the first `k` pieces that stand for components.
pub open spec fn places(ps: Seq<Seq<char>>, k: int) -> Seq<int>
    decreases k,
{
    if k <= 0 {
        seq![]
    } else {
        match component_of(ps, k - 1) {
            Some(_) => places(ps, k - 1).push(k - 1),
            None => places(ps, k - 1),
        }
    }
}

proof fn lemma_places(ps: Seq<Seq<char>>, k: int)
    ensures
        places(ps, k).len() == components_of(ps, k).len(),
        forall|i: int|
            0 <= i < places(ps, k).len() ==> 0 <= #[trigger] places(ps, k)[i] < k && component_of(ps, places(ps, k)[i])
                == Some(components_of(ps, k)[i]),
    decreases k,
{
    if k > 0 {
        lemma_places(ps, k - 1);
    }
}

/// Whether a path starts at the root.
pub open spec fn rooted(path: Seq<char>) -> bool {
    path.len() > 0 && path[0] == '/'
}

/// A component, by the piece that it was read from.
enum Part {
    Root,
    Current(usize),
    Parent(usize),
    Name(usize),
}

spec fn part_of(p: Part, ps: Seq<Seq<char>>, c: Component) -> bool {
    match p {
        Part::Root => c is Root,
        Part::Current(i) => c is Current && component_of(ps, i as int) == Some(c),
        Part::Parent(i) => c is Parent && component_of(ps, i as int) == Some(c),
        Part::Name(i) => i < ps.len() && c == Component::Normal(ps[i as int]) && component_of(ps, i as int) == Some(c),
    }
}

spec fn place_of(p: Part) -> int {
    match p {
        Part::Root => -1,
        Part::Current(i) => i as int,
        Part::Parent(i) => i as int,
        Part::Name(i) => i as int,
    }
}

/// Where the components of a path are: the root nowhere, the others in their pieces.
spec fn all_places(path: Seq<char>) -> Seq<int> {
    let ps = text::pieces(path, '/');
    if rooted(path) {
        seq![-1int] + places(ps, ps.len() as int)
    } else {
        places(ps, ps.len() as int)
    }
}

spec fn parts_are(r: Seq<Part>, ps: Seq<Seq<char>>, cs: Seq<Component>, at: Seq<int>) -> bool {
    &&& r.len() == cs.len() == at.len()
    &&& forall|i: int| 0 <= i < r.len() ==> part_of(#[trigger] r[i], ps, cs[i]) && place_of(r[i]) == at[i]
}

fn parts_of(path: &str, ps: &Vec<String>) -> (r: Vec<Part>)
    requires
        text::texts(ps@) == text::pieces(path@, '/'),
    ensures
        parts_are(r@, text::texts(ps@), components(path@), all_places(path@)),
{
    let ghost ts = text::texts(ps@);
    let mut r: Vec<Part> = Vec::new();
    let from_root = path.unicode_len() > 0 && path.get_char(0) == '/';
    if from_root {
        r.push(Part::Root);
    }
    let ghost front: Seq<Component> = if from_root {
        seq![Component::Root]
    } else {
        seq![]
    };
    let ghost nowhere: Seq<int> = if from_root {
        seq![-1int]
    } else {
        seq![]
    };
    let mut i: usize = 0;
    proof {
        assert(front + components_of(ts, 0) =~= front);
        assert(nowhere + places(ts, 0) =~= nowhere);
    }
    while i < ps.len()
        invariant
            i <= ps.len(),
            ts == text::texts(ps@),
            parts_are(r@, ts, front + components_of(ts, i as int), nowhere + places(ts, i as int)),
        decreases ps.len() - i,
    {
        let piece = ps[i].as_str();
        let ghost before = components_of(ts, i as int);
        let ghost at = places(ts, i as int);
        proof {
            assert(ts[i as int] == piece@);
            if component_of(ts, i as int) is Some {
                assert(front + components_of(ts, i + 1) =~= (front + before).push(component_of(ts, i as int)->0));
                assert(nowhere + places(ts, i + 1) =~= (nowhere + at).push(i as int));
            }
        }
        if piece.is_empty() {
        } else if text::same(piece, ".") {
            if i == 0 {
                r.push(Part::Current(i));
            }
        } else if text::same(piece, "..") {
            r.push(Part::Parent(i));
        } else {
            r.push(Part::Name(i));
        }
        i += 1;
    }
    proof {
        assert(ps@.len() == ts.len());
        if !from_root {
            assert(front + components_of(ts, ts.len() as int) =~= components_of(ts, ts.len() as int));
            assert(nowhere + places(ts, ts.len() as int) =~= places(ts, ts.len() as int));
        }
    }
    r
}

/// The last component of a path.
pub fn file_name(path: &str) -> (r: Option<String>)
    ensures
        text::optional(r) == last_name(path@),
{
    let ps = text::split(path, '/');
    let parts = parts_of(path, &ps);
    if parts.len() < 1 {
        return None;
    }
    match parts[parts.len() - 1] {
        Part::Name(i) => Some(ps[i].clone()),
        _ => None,
    }
}

// ── Normal form ─────────────────────────────────────────────────

/// The pieces of a path that stand for components.
pub open spec fn names(path: Seq<char>) -> Seq<Seq<char>> {
    let ps = text::pieces(path, '/');
    places(ps, ps.len() as int).map_values(|i: int| ps[i])
}

/// A path in normal form: its components, parted by single slashes. Paths that are the same
/// component by component are written the same.
pub open spec fn normal(path: Seq<char>) -> Seq<char> {
    let whole = text::joined(names(path), seq!['/']);
    if rooted(path) {
        seq!['/'] + whole
    } else {
        whole
    }
}

/// Writes a path in normal form.
pub fn normal_form(path: &str) -> (r: String)
    ensures
        r@ == normal(path@),
{
    let ps = text::split(path, '/');
    let ghost ts = text::texts(ps@);
    let parts = parts_of(path, &ps);
    let ghost at = places(ts, ts.len() as int);
    let mut kept: Vec<String> = Vec::new();
    let from_root = path.unicode_len() > 0 && path.get_char(0) == '/';
    let first: usize = if from_root {
        1
    } else {
        0
    };
    let mut i: usize = first;
    proof {
        lemma_places(ts, ts.len() as int);
        assert(text::texts(kept@) =~= names(path@).take(0));
    }
    while i < parts.len()
        invariant
            ts == text::texts(ps@),
            ts == text::pieces(path@, '/'),
            at == places(ts, ts.len() as int),
            forall|j: int| 0 <= j < at.len() ==> 0 <= #[trigger] at[j] < ts.len(),
            parts_are(parts@, ts, components(path@), all_places(path@)),
            first == (if rooted(path@) {
                1int
            } else {
                0int
            }),
            first <= i <= parts@.len(),
            parts@.len() == first + at.len(),
            text::texts(kept@) == names(path@).take(i - first),
        decreases parts.len() - i,
    {
        proof {
            assert(place_of(parts@[i as int]) == all_places(path@)[i as int]);
            assert(all_places(path@)[i as int] == at[i - first]);
        }
        let k: usize = match parts[i] {
            Part::Root => 0,
            Part::Current(k) => k,
            Part::Parent(k) => k,
            Part::Name(k) => k,
        };
        let ghost before = text::texts(kept@);
        kept.push(ps[k].clone());
        proof {
            assert(ts[k as int] == ps@[k as int]@);
            assert(names(path@)[i - first] == ts[at[i - first]]);
            assert(text::texts(kept@) =~= before.push(ts[k as int]));
            assert(names(path@).take(i + 1 - first) =~= names(path@).take(i - first).push(names(path@)[i - first]));
        }
        i += 1;
    }
    proof {
        assert(names(path@).take(parts@.len() - first) =~= names(path@));
        reveal_strlit("/");
        assert("/"@ =~= seq!['/']);
    }
    let whole = text::join(&kept, "/");
    if from_root {
        let mut r = "/".to_owned();
        r.append(whole.as_str());
        r
    } else {
        whole
    }
}

/// Where a run of names stands in pieces of its own, the components are those of the names.
proof fn lemma_components_are(ps: Seq<Seq<char>>, qs: Seq<Seq<char>>, at: Seq<int>, shift: int, k: int)
    requires
        0 <= shift <= 1,
        0 <= k <= at.len(),
        at.len() + shift == qs.len(),
        shift == 1 ==> qs[0].len() == 0 && ps[0].len() == 0,
        forall|i: int| 0 <= i < at.len() ==> component_of(ps, #[trigger] at[i]) is Some && at[i] >= 0,
        forall|i: int, j: int| 0 <= i < j < at.len() ==> at[i] < at[j],
        forall|i: int| 0 <= i < at.len() ==> #[trigger] qs[i + shift] == ps[at[i]],
        shift == 0 && at.len() > 0 ==> at[0] == 0,
    ensures
        components_of(qs, k + shift) == Seq::new(k as nat, |i: int| component_of(ps, at[i])->0),
    decreases k,
{
    let whole = Seq::new(k as nat, |i: int| component_of(ps, at[i])->0);
    if k > 0 {
        lemma_components_are(ps, qs, at, shift, k - 1);
        let i = k - 1;
        assert(qs[i + shift] == ps[at[i]]);
        if i > 0 {
            assert(at[0] < at[i]);
        } else if shift == 1 {
            assert(at[0] != 0);
        }
        assert(component_of(qs, i + shift) == component_of(ps, at[i]));
        assert(whole =~= Seq::new((k - 1) as nat, |i: int| component_of(ps, at[i])->0).push(component_of(ps, at[i])->0));
    } else {
        if shift == 1 {
            assert(component_of(qs, 0) is None);
            assert(components_of(qs, 0) =~= seq![]);
        }
        assert(components_of(qs, k + shift) =~= whole);
    }
}

proof fn lemma_places_rise(ps: Seq<Seq<char>>, k: int)
    ensures
        forall|i: int, j: int| 0 <= i < j < places(ps, k).len() ==> places(ps, k)[i] < places(ps, k)[j],
    decreases k,
{
    if k > 0 {
        lemma_places_rise(ps, k - 1);
        lemma_places(ps, k - 1);
    }
}

proof fn lemma_first_place(ps: Seq<Seq<char>>, k: int)
    requires
        component_of(ps, 0) is Some,
        k > 0,
    ensures
        places(ps, k).len() > 0,
        places(ps, k)[0] == 0,
    decreases k,
{
    if k > 1 {
        lemma_first_place(ps, k - 1);
    } else {
        assert(places(ps, 0) =~= seq![]);
    }
}

proof fn lemma_rooted_pieces(path: Seq<char>)
    ensures
        rooted(path) ==> text::pieces(path, '/').len() > 1 && text::pieces(path, '/')[0].len() == 0
            && text::pieces(path, '/').skip(1) == text::pieces(path.skip(1), '/'),
        !rooted(path) && path.len() > 0 ==> component_of(text::pieces(path, '/'), 0) is Some,
        path.len() == 0 ==> text::pieces(path, '/') == seq![Seq::<char>::empty()],
{
    text::lemma_first_at(path, '/');
    let ps = text::pieces(path, '/');
    if rooted(path) {
        text::lemma_pieces(path.skip(1), '/');
        assert(ps.skip(1) =~= text::pieces(path.skip(1), '/'));
    } else if path.len() > 0 {
        assert(ps[0].len() > 0);
    } else {
        assert(path =~= Seq::<char>::empty());
        assert(ps =~= seq![path]);
    }
}

/// The normal form keeps the components of a path, and two paths have the same normal form exactly
/// where they are the same component by component.
pub proof fn law_normal_forms_stand_for_components(path: Seq<char>, other: Seq<char>)
    ensures
        components(normal(path)) == components(path),
        normal(normal(path)) == normal(path),
        normal(path) == normal(other) <==> components(path) == components(other),
{
    lemma_normal_components(path);
    lemma_normal_components(other);
    lemma_normal_components(normal(path));
    if components(path) == components(other) {
        lemma_same_normal(path, other);
    }
    lemma_same_normal(normal(path), path);
}

/// The text of a component, none for the root.
spec fn component_text(c: Component) -> Seq<char> {
    match c {
        Component::Root => seq![],
        Component::Current => "."@,
        Component::Parent => ".."@,
        Component::Normal(name) => name,
    }
}

proof fn lemma_same_normal(path: Seq<char>, other: Seq<char>)
    requires
        components(path) == components(other),
    ensures
        normal(path) == normal(other),
{
    lemma_names(path);
    lemma_names(other);
    assert(rooted(path) == rooted(other)) by {
        if rooted(path) && !rooted(other) {
            assert(names(other)[0] == component_text(components(other)[0]));
        }
        if rooted(other) && !rooted(path) {
            assert(names(path)[0] == component_text(components(path)[0]));
        }
    }
    assert(names(path) =~= names(other));
}

proof fn lemma_names(path: Seq<char>)
    ensures
        components(path).len() == names(path).len() + (if rooted(path) {
            1int
        } else {
            0int
        }),
        forall|i: int|
            0 <= i < names(path).len() ==> #[trigger] names(path)[i] == component_text(
                components(path)[i + (if rooted(path) {
                    1int
                } else {
                    0int
                })],
            ) && !(components(path)[i + (if rooted(path) {
                1int
            } else {
                0int
            })] is Root),
        rooted(path) ==> components(path)[0] is Root,
{
    let ps = text::pieces(path, '/');
    lemma_places(ps, ps.len() as int);
}

proof fn lemma_normal_components(path: Seq<char>)
    ensures
        components(normal(path)) == components(path),
        rooted(normal(path)) == rooted(path),
{
    let ps = text::pieces(path, '/');
    let at = places(ps, ps.len() as int);
    let ns = names(path);
    let whole = text::joined(ns, seq!['/']);
    let form = normal(path);
    text::lemma_pieces(path, '/');
    lemma_places(ps, ps.len() as int);
    lemma_places_rise(ps, ps.len() as int);
    lemma_rooted_pieces(path);
    assert forall|i: int, j: int| 0 <= i < ns.len() && 0 <= j < ns[i].len() implies #[trigger] ns[i][j] != '/' by {
        assert(ns[i] == ps[at[i]]);
        assert(ps[at[i]][j] != '/');
    }
    if ns.len() > 0 {
        text::lemma_pieces_joined(ns, '/');
        assert(ns[0] == ps[at[0]]);
        assert(ns[0].len() > 0);
        if ns.len() > 1 {
            text::lemma_joined_front(ns, seq!['/']);
        }
        assert(whole.len() > 0 && whole[0] == ns[0][0]);
        assert(ns[0][0] != '/');
    }
    lemma_rooted_pieces(form);
    let qs = text::pieces(form, '/');
    if rooted(path) {
        assert(form.skip(1) =~= whole);
        if ns.len() > 0 {
            assert(qs.skip(1) == ns);
            assert(qs =~= seq![qs[0]] + ns);
            lemma_components_are(ps, qs, at, 1, at.len() as int);
            assert(components_of(qs, qs.len() as int) =~= components_of(ps, ps.len() as int));
        } else {
            lemma_rooted_pieces(whole);
            assert(qs.skip(1) == seq![Seq::<char>::empty()]);
            assert(qs[1] == qs.skip(1)[0]);
            assert(component_of(qs, 0) is None && component_of(qs, 1) is None);
            assert(qs.len() == 2);
            assert(components_of(qs, 0) =~= seq![]);
            assert(components_of(qs, 1) =~= seq![]);
            assert(components_of(qs, 2) =~= components_of(ps, ps.len() as int));
        }
    } else if ns.len() > 0 {
        lemma_first_place(ps, ps.len() as int);
        assert(qs == ns);
        lemma_components_are(ps, qs, at, 0, at.len() as int);
        assert(components_of(qs, qs.len() as int) =~= components_of(ps, ps.len() as int));
    } else {
        if path.len() > 0 {
            lemma_first_place(ps, ps.len() as int);
        }
        assert(form =~= path);
    }
}

// ── Joining and parting ─────────────────────────────────────────

/// A path below a directory. A path that starts at the root stands alone.
pub open spec fn joined(dir: Seq<char>, path: Seq<char>) -> Seq<char> {
    if dir.len() == 0 || (path.len() > 0 && path[0] == '/') {
        path
    } else if dir.last() == '/' {
        dir + path
    } else {
        dir + seq!['/'] + path
    }
}

/// Puts a path below a directory.
pub fn join(dir: &str, path: &str) -> (r: String)
    ensures
        r@ == joined(dir@, path@),
{
    let n: usize = dir.unicode_len();
    if n == 0 || (path.unicode_len() > 0 && path.get_char(0) == '/') {
        return path.to_owned();
    }
    let mut r = dir.to_owned();
    if dir.get_char(n - 1) != '/' {
        r.push('/');
    }
    r.append(path);
    r
}

/// What a path holds from component `n` on, as it is written there.
pub open spec fn rest(path: Seq<char>, n: int) -> Seq<char> {
    let ps = text::pieces(path, '/');
    let at = places(ps, ps.len() as int);
    let root = if rooted(path) {
        1int
    } else {
        0int
    };
    if n < root {
        if at.len() == 0 {
            seq!['/']
        } else {
            text::joined(ps.take(at.last() + 1), seq!['/'])
        }
    } else if n - root >= at.len() {
        seq![]
    } else {
        text::joined(ps.subrange(at[n - root], at.last() + 1), seq!['/'])
    }
}

/// What is left of a path below a directory, none where it lies elsewhere. The two are compared
/// component by component.
pub open spec fn relative(path: Seq<char>, dir: Seq<char>) -> Option<Seq<char>> {
    let (cs, ds) = (components(path), components(dir));
    if ds.len() <= cs.len() && cs.take(ds.len() as int) == ds {
        Some(rest(path, ds.len() as int))
    } else {
        None
    }
}

fn same_part(p: &Part, ps: &Vec<String>, q: &Part, qs: &Vec<String>, Ghost(c): Ghost<Component>, Ghost(d): Ghost<Component>) -> (r: bool)
    requires
        part_of(*p, text::texts(ps@), c),
        part_of(*q, text::texts(qs@), d),
    ensures
        r == (c == d),
{
    match (p, q) {
        (Part::Root, Part::Root) => true,
        (Part::Current(_), Part::Current(_)) => true,
        (Part::Parent(_), Part::Parent(_)) => true,
        (Part::Name(i), Part::Name(j)) => {
            proof {
                assert(text::texts(ps@)[*i as int] == ps@[*i as int]@);
                assert(text::texts(qs@)[*j as int] == qs@[*j as int]@);
            }
            text::same(ps[*i].as_str(), qs[*j].as_str())
        },
        _ => false,
    }
}

/// The pieces `from..to`, joined again.
fn rejoin(ps: &Vec<String>, from: usize, to: usize) -> (r: String)
    requires
        from <= to <= ps@.len(),
    ensures
        r@ == text::joined(text::texts(ps@).subrange(from as int, to as int), seq!['/']),
{
    let ghost ts = text::texts(ps@);
    let mut kept: Vec<String> = Vec::new();
    let mut i: usize = from;
    proof {
        assert(text::texts(kept@) =~= ts.subrange(from as int, from as int));
    }
    while i < to
        invariant
            ts == text::texts(ps@),
            from <= i <= to <= ps@.len(),
            text::texts(kept@) == ts.subrange(from as int, i as int),
        decreases to - i,
    {
        let ghost before = text::texts(kept@);
        kept.push(ps[i].clone());
        proof {
            assert(ts[i as int] == ps@[i as int]@);
            assert(text::texts(kept@) =~= before.push(ts[i as int]));
            assert(ts.subrange(from as int, i + 1) =~= ts.subrange(from as int, i as int).push(ts[i as int]));
        }
        i += 1;
    }
    proof {
        reveal_strlit("/");
        assert("/"@ =~= seq!['/']);
    }
    text::join(&kept, "/")
}

fn piece_of(p: &Part) -> (r: usize)
    ensures
        place_of(*p) >= 0 ==> r == place_of(*p),
{
    match p {
        Part::Root => 0,
        Part::Current(i) => *i,
        Part::Parent(i) => *i,
        Part::Name(i) => *i,
    }
}

/// Parts a path from the directory that it lies in.
pub fn strip_dir(path: &str, dir: &str) -> (r: Option<String>)
    ensures
        text::optional(r) == relative(path@, dir@),
{
    let ps = text::split(path, '/');
    let qs = text::split(dir, '/');
    let parts = parts_of(path, &ps);
    let above = parts_of(dir, &qs);
    let ghost (cs, ds) = (components(path@), components(dir@));
    let ghost ts = text::texts(ps@);
    if above.len() > parts.len() {
        return None;
    }
    let mut i: usize = 0;
    while i < above.len()
        invariant
            ts == text::texts(ps@),
            ds.len() == above@.len() <= parts@.len() == cs.len(),
            parts_are(parts@, ts, cs, all_places(path@)),
            parts_are(above@, text::texts(qs@), ds, all_places(dir@)),
            cs == components(path@),
            ds == components(dir@),
            i <= above@.len(),
            forall|j: int| 0 <= j < i ==> #[trigger] cs[j] == ds[j],
        decreases above.len() - i,
    {
        if !same_part(&parts[i], &ps, &above[i], &qs, Ghost(cs[i as int]), Ghost(ds[i as int])) {
            proof {
                assert(cs.take(ds.len() as int)[i as int] == cs[i as int]);
            }
            return None;
        }
        i += 1;
    }
    let n: usize = above.len();
    proof {
        assert(cs.take(ds.len() as int) =~= ds);
        lemma_places(ts, ts.len() as int);
        assert(ts.len() == ps@.len());
    }
    let ghost at = places(ts, ts.len() as int);
    if n == parts.len() {
        return Some(String::new());
    }
    let last: usize = piece_of(&parts[parts.len() - 1]);
    proof {
        assert(place_of(parts@[parts@.len() - 1]) == all_places(path@)[parts@.len() - 1]);
        assert(place_of(parts@[n as int]) == all_places(path@)[n as int]);
        lemma_places_rise(ts, ts.len() as int);
    }
    match parts[n] {
        Part::Root => {
            proof {
                assert(n == 0);
            }
            if parts.len() == 1 {
                let mut r = String::new();
                r.push('/');
                proof {
                    assert(r@ =~= seq!['/']);
                }
                Some(r)
            } else {
                proof {
                    assert(at.last() == last);
                    assert(ts.take(last + 1) =~= ts.subrange(0, last + 1));
                }
                Some(rejoin(&ps, 0, last + 1))
            }
        },
        _ => {
            let from: usize = piece_of(&parts[n]);
            proof {
                assert(at.last() == last);
            }
            Some(rejoin(&ps, from, last + 1))
        },
    }
}

// ── Cutting text ────────────────────────────────────────────────

/// What is left of the text of a path behind that of a directory and a slash, none where it does
/// not begin with them.
pub open spec fn cut(path: Seq<char>, dir: Seq<char>) -> Option<Seq<char>> {
    if path == dir {
        Some(seq![])
    } else if dir.len() == 0 {
        Some(path)
    } else if !text::has_prefix(path, dir) {
        None
    } else if dir.last() == '/' {
        Some(path.skip(dir.len() as int))
    } else if path[dir.len() as int] == '/' {
        Some(path.skip(dir.len() as int + 1))
    } else {
        None
    }
}

/// Cuts the text of a directory off that of a path.
pub fn cut_dir<'a>(path: &'a str, dir: &str) -> (r: Option<&'a str>)
    ensures
        match r {
            Some(rest) => cut(path@, dir@) == Some(rest@),
            None => cut(path@, dir@) is None,
        },
{
    let n: usize = path.unicode_len();
    let m: usize = dir.unicode_len();
    if text::same(path, dir) {
        proof {
            assert(path@.subrange(n as int, n as int) =~= Seq::<char>::empty());
        }
        return Some(path.substring_char(n, n));
    }
    if m == 0 {
        return Some(path);
    }
    if !text::starts_with(path, dir) {
        return None;
    }
    proof {
        if path@.len() == dir@.len() {
            assert(path@ =~= dir@);
        }
    }
    if dir.get_char(m - 1) == '/' {
        proof {
            assert(path@.subrange(m as int, n as int) =~= path@.skip(m as int));
        }
        return Some(path.substring_char(m, n));
    }
    if path.get_char(m) == '/' {
        proof {
            assert(path@.subrange(m + 1, n as int) =~= path@.skip(m as int + 1));
        }
        return Some(path.substring_char(m + 1, n));
    }
    None
}

proof fn lemma_joined_pieces(dir: Seq<char>, path: Seq<char>)
    requires
        dir.len() > 0,
        !rooted(path),
    ensures
        text::pieces(joined(dir, path), '/') == (if dir.last() == '/' {
            text::pieces(dir, '/').drop_last()
        } else {
            text::pieces(dir, '/')
        }) + text::pieces(path, '/'),
        dir.last() == '/' ==> text::pieces(dir, '/').len() > 1 && text::pieces(dir, '/').last().len() == 0,
{
    if dir.last() == '/' {
        let stem = dir.drop_last();
        text::lemma_pieces_add(stem, '/', Seq::empty());
        text::lemma_pieces_add(stem, '/', path);
        text::lemma_pieces(stem, '/');
        lemma_rooted_pieces(Seq::empty());
        assert(stem + seq!['/'] + Seq::<char>::empty() =~= dir);
        assert(stem + seq!['/'] + path =~= joined(dir, path));
        assert(text::pieces(dir, '/').drop_last() =~= text::pieces(stem, '/'));
    } else {
        text::lemma_pieces_add(dir, '/', path);
    }
}

proof fn lemma_places_same(a: Seq<Seq<char>>, b: Seq<Seq<char>>, k: int)
    requires
        k <= a.len(),
        k <= b.len(),
        forall|i: int| 0 <= i < k ==> a[i] == b[i],
    ensures
        places(a, k) == places(b, k),
        components_of(a, k) == components_of(b, k),
    decreases k,
{
    if k > 0 {
        lemma_places_same(a, b, k - 1);
        assert(a[k - 1] == b[k - 1]);
    }
}

proof fn lemma_places_add(a: Seq<Seq<char>>, b: Seq<Seq<char>>, k: int)
    requires
        a.len() > 0,
        0 <= k <= b.len(),
        b[0] != "."@,
    ensures
        places(a + b, a.len() + k) == places(a, a.len() as int) + places(b, k).map_values(|i: int| a.len() + i),
        components_of(a + b, a.len() + k) == components_of(a, a.len() as int) + components_of(b, k),
    decreases k,
{
    let n = a.len() as int;
    let shift = |i: int| n + i;
    if k > 0 {
        lemma_places_add(a, b, k - 1);
        assert((a + b)[n + k - 1] == b[k - 1]);
        assert(component_of(a + b, n + k - 1) == component_of(b, k - 1));
        if component_of(b, k - 1) is Some {
            assert(places(b, k).map_values(|i: int| a.len() + i) =~= places(b, k - 1).map_values(
                |i: int| a.len() + i,
            ).push(n + k - 1));
            assert(places(a + b, n + k) =~= places(a, n) + places(b, k).map_values(|i: int| a.len() + i));
            assert(components_of(a + b, n + k) =~= components_of(a, n) + components_of(b, k));
        }
    } else {
        lemma_places_same(a + b, a, n);
        assert(places(a, n) + places(b, 0).map_values(|i: int| a.len() + i) =~= places(a, n));
        assert(components_of(a, n) + components_of(b, 0) =~= components_of(a, n));
    }
}

proof fn lemma_rising(at: Seq<int>, i: int)
    requires
        0 <= i < at.len(),
        at[0] >= 0,
        forall|i: int, j: int| 0 <= i < j < at.len() ==> at[i] < at[j],
    ensures
        at[i] >= i,
    decreases i,
{
    if i > 0 {
        lemma_rising(at, i - 1);
    }
}

proof fn lemma_normal_last(path: Seq<char>)
    requires
        path.len() > 0,
        !rooted(path),
        normal(path) == path,
    ensures
        ({
            let ps = text::pieces(path, '/');
            places(ps, ps.len() as int).len() > 0 && places(ps, ps.len() as int).last() == ps.len() - 1
        }),
{
    let ps = text::pieces(path, '/');
    let at = places(ps, ps.len() as int);
    let ns = names(path);
    text::lemma_pieces(path, '/');
    lemma_rooted_pieces(path);
    lemma_first_place(ps, ps.len() as int);
    lemma_places(ps, ps.len() as int);
    lemma_places_rise(ps, ps.len() as int);
    assert forall|i: int, j: int| 0 <= i < ns.len() && 0 <= j < ns[i].len() implies #[trigger] ns[i][j] != '/' by {
        assert(ns[i] == ps[at[i]]);
        assert(ps[at[i]][j] != '/');
    }
    text::lemma_pieces_joined(ns, '/');
    lemma_rising(at, at.len() - 1);
}

/// What is joined below a directory is parted from it again, where it is written in normal form.
pub proof fn law_joined_paths_are_parted(dir: Seq<char>, path: Seq<char>)
    requires
        dir.len() > 0,
        path.len() > 0,
        !rooted(path),
        normal(path) == path,
        !(components(path)[0] is Current),
    ensures
        relative(joined(dir, path), dir) == Some(path),
{
    let whole = joined(dir, path);
    let (ps, qs) = (text::pieces(dir, '/'), text::pieces(path, '/'));
    let front = if dir.last() == '/' {
        ps.drop_last()
    } else {
        ps
    };
    let all = text::pieces(whole, '/');
    let n = front.len() as int;
    text::lemma_pieces(dir, '/');
    text::lemma_pieces(path, '/');
    lemma_joined_pieces(dir, path);
    lemma_rooted_pieces(path);
    lemma_first_place(qs, qs.len() as int);
    lemma_places(qs, qs.len() as int);
    assert(component_of(qs, places(qs, qs.len() as int)[0]) == Some(components(path)[0]));
    lemma_places_add(front, qs, qs.len() as int);
    if dir.last() == '/' {
        assert(component_of(ps, ps.len() - 1) is None);
        lemma_places_same(ps, front, n);
    }
    assert(places(front, n) == places(ps, ps.len() as int));
    assert(components_of(front, n) == components_of(ps, ps.len() as int));
    assert(rooted(whole) == rooted(dir)) by {
        assert(whole[0] == dir[0]);
    }
    lemma_places(ps, ps.len() as int);
    let (cs, ds) = (components(whole), components(dir));
    assert(cs =~= ds + components(path));
    assert(cs.take(ds.len() as int) =~= ds);
    lemma_normal_last(path);
    let at = places(all, all.len() as int);
    let b = places(qs, qs.len() as int);
    assert(at.last() == n + b.last());
    assert(at[places(front, n).len() as int] == n);
    assert(all.subrange(n, n + qs.len()) =~= qs);
}

// ── Order ───────────────────────────────────────────────────────

/// The rank of a component among those of other kinds.
pub open spec fn rank(c: Component) -> int {
    match c {
        Component::Root => 0,
        Component::Current => 1,
        Component::Parent => 2,
        Component::Normal(_) => 3,
    }
}

/// The order of two components: by kind, names as text.
pub open spec fn component_order(c: Component, d: Component) -> int {
    match (c, d) {
        (Component::Normal(a), Component::Normal(b)) => text::order(a, b),
        _ => if rank(c) < rank(d) {
            -1
        } else if rank(c) > rank(d) {
            1
        } else {
            0
        },
    }
}

/// The order of runs of components, one after the other.
pub open spec fn components_order(cs: Seq<Component>, ds: Seq<Component>) -> int
    decreases cs.len(),
{
    if cs.len() == 0 {
        if ds.len() == 0 {
            0
        } else {
            -1
        }
    } else if ds.len() == 0 {
        1
    } else if component_order(cs[0], ds[0]) != 0 {
        component_order(cs[0], ds[0])
    } else {
        components_order(cs.skip(1), ds.skip(1))
    }
}

/// The order of two paths, component by component: -1, 0 or 1. Two ways to write one path are
/// ordered as text.
pub open spec fn order(a: Seq<char>, b: Seq<char>) -> int {
    let o = components_order(components(a), components(b));
    if o != 0 {
        o
    } else {
        text::order(a, b)
    }
}

proof fn lemma_component_order_total(c: Component, d: Component)
    ensures
        -1 <= component_order(c, d) <= 1,
        component_order(c, d) == -component_order(d, c),
        component_order(c, d) == 0 <==> c == d,
{
    if let Component::Normal(a) = c {
        if let Component::Normal(b) = d {
            text::lemma_order_total(a, b);
        }
    }
}

proof fn lemma_component_order_transitive(c: Component, d: Component, e: Component)
    ensures
        component_order(c, d) <= 0 && component_order(d, e) <= 0 ==> component_order(c, e) <= 0,
        component_order(c, d) < 0 && component_order(d, e) <= 0 ==> component_order(c, e) < 0,
        component_order(c, d) <= 0 && component_order(d, e) < 0 ==> component_order(c, e) < 0,
{
    if c is Normal && d is Normal && e is Normal {
        text::lemma_order_transitive(c->Normal_0, d->Normal_0, e->Normal_0);
    }
}

proof fn lemma_components_order_total(cs: Seq<Component>, ds: Seq<Component>)
    ensures
        -1 <= components_order(cs, ds) <= 1,
        components_order(cs, ds) == -components_order(ds, cs),
        components_order(cs, ds) == 0 <==> cs == ds,
    decreases cs.len(),
{
    if cs.len() > 0 && ds.len() > 0 {
        lemma_component_order_total(cs[0], ds[0]);
        lemma_components_order_total(cs.skip(1), ds.skip(1));
        if cs[0] == ds[0] && cs.skip(1) == ds.skip(1) {
            assert(cs =~= seq![cs[0]] + cs.skip(1));
            assert(ds =~= seq![ds[0]] + ds.skip(1));
        }
    } else if cs.len() == 0 && ds.len() == 0 {
        assert(cs =~= ds);
    }
}

proof fn lemma_components_order_transitive(cs: Seq<Component>, ds: Seq<Component>, es: Seq<Component>)
    ensures
        components_order(cs, ds) <= 0 && components_order(ds, es) <= 0 ==> components_order(cs, es) <= 0,
        components_order(cs, ds) < 0 && components_order(ds, es) <= 0 ==> components_order(cs, es) < 0,
        components_order(cs, ds) <= 0 && components_order(ds, es) < 0 ==> components_order(cs, es) < 0,
    decreases cs.len(),
{
    if cs.len() > 0 && ds.len() > 0 && es.len() > 0 {
        lemma_component_order_total(cs[0], ds[0]);
        lemma_component_order_total(ds[0], es[0]);
        lemma_component_order_total(cs[0], es[0]);
        lemma_component_order_transitive(cs[0], ds[0], es[0]);
        lemma_components_order_transitive(cs.skip(1), ds.skip(1), es.skip(1));
    }
}

/// The order of paths is total: it is zero between equal paths only, and turns round with its
/// arguments.
pub proof fn lemma_order_total(a: Seq<char>, b: Seq<char>)
    ensures
        -1 <= order(a, b) <= 1,
        order(a, b) == -order(b, a),
        order(a, b) == 0 <==> a == b,
{
    lemma_components_order_total(components(a), components(b));
    text::lemma_order_total(a, b);
}

/// The order of paths is transitive.
pub proof fn lemma_order_transitive(a: Seq<char>, b: Seq<char>, c: Seq<char>)
    ensures
        order(a, b) <= 0 && order(b, c) <= 0 ==> order(a, c) <= 0,
        order(a, b) < 0 && order(b, c) <= 0 ==> order(a, c) < 0,
        order(a, b) <= 0 && order(b, c) < 0 ==> order(a, c) < 0,
{
    lemma_components_order_total(components(a), components(b));
    lemma_components_order_total(components(b), components(c));
    lemma_components_order_total(components(a), components(c));
    lemma_components_order_transitive(components(a), components(b), components(c));
    text::lemma_order_transitive(a, b, c);
}

fn rank_of(p: &Part) -> (r: i8)
    ensures
        r == (match *p {
            Part::Root => 0int,
            Part::Current(_) => 1,
            Part::Parent(_) => 2,
            Part::Name(_) => 3,
        }),
{
    match p {
        Part::Root => 0,
        Part::Current(_) => 1,
        Part::Parent(_) => 2,
        Part::Name(_) => 3,
    }
}

fn order_parts(p: &Part, ps: &Vec<String>, q: &Part, qs: &Vec<String>, Ghost(c): Ghost<Component>, Ghost(d): Ghost<Component>) -> (r: i8)
    requires
        part_of(*p, text::texts(ps@), c),
        part_of(*q, text::texts(qs@), d),
    ensures
        r == component_order(c, d),
{
    if let (Part::Name(i), Part::Name(j)) = (p, q) {
        proof {
            assert(text::texts(ps@)[*i as int] == ps@[*i as int]@);
            assert(text::texts(qs@)[*j as int] == qs@[*j as int]@);
        }
        return text::ordered(ps[*i].as_str(), qs[*j].as_str());
    }
    let (a, b): (i8, i8) = (rank_of(p), rank_of(q));
    if a < b {
        -1
    } else if a > b {
        1
    } else {
        0
    }
}

/// Orders two paths: -1, 0 or 1.
pub fn ordered(a: &str, b: &str) -> (r: i8)
    ensures
        r == order(a@, b@),
{
    let ps = text::split(a, '/');
    let qs = text::split(b, '/');
    let xs = parts_of(a, &ps);
    let ys = parts_of(b, &qs);
    let ghost (cs, ds) = (components(a@), components(b@));
    let mut i: usize = 0;
    proof {
        assert(cs.skip(0) =~= cs);
        assert(ds.skip(0) =~= ds);
    }
    while i < xs.len() && i < ys.len()
        invariant
            parts_are(xs@, text::texts(ps@), cs, all_places(a@)),
            parts_are(ys@, text::texts(qs@), ds, all_places(b@)),
            i <= xs@.len(),
            i <= ys@.len(),
            cs == components(a@),
            ds == components(b@),
            components_order(cs, ds) == components_order(cs.skip(i as int), ds.skip(i as int)),
        decreases xs.len() - i,
    {
        let o: i8 = order_parts(&xs[i], &ps, &ys[i], &qs, Ghost(cs[i as int]), Ghost(ds[i as int]));
        proof {
            assert(cs.skip(i as int).skip(1) =~= cs.skip(i + 1));
            assert(ds.skip(i as int).skip(1) =~= ds.skip(i + 1));
        }
        if o != 0 {
            return o;
        }
        i += 1;
    }
    if i < xs.len() {
        1
    } else if i < ys.len() {
        -1
    } else {
        text::ordered(a, b)
    }
}

/// Whether paths are in strict order.
pub open spec fn in_order(ps: Seq<Seq<char>>) -> bool {
    forall|i: int, j: int| 0 <= i < j < ps.len() ==> order(#[trigger] ps[i], #[trigger] ps[j]) < 0
}

/// Puts a path in its place among paths in strict order, unless it is there.
pub fn insert_sorted(list: &mut Vec<String>, path: String)
    requires
        in_order(text::texts(old(list)@)),
    ensures
        in_order(text::texts(final(list)@)),
        forall|k: Seq<char>| #[trigger]
            text::texts(final(list)@).contains(k) <==> text::texts(old(list)@).contains(k) || k == path@,
{
    let ghost ts = text::texts(list@);
    let mut at: usize = 0;
    while at < list.len() && ordered(list[at].as_str(), path.as_str()) < 0
        invariant
            *list == *old(list),
            ts == text::texts(list@),
            at <= list@.len(),
            forall|j: int| 0 <= j < at ==> order(#[trigger] ts[j], path@) < 0,
        decreases list@.len() - at,
    {
        at += 1;
    }
    if at < list.len() && text::same(list[at].as_str(), path.as_str()) {
        proof {
            assert(ts[at as int] == path@);
        }
        return;
    }
    let ghost new = path@;
    list.insert(at, path);
    proof {
        let ns = text::texts(list@);
        assert(ns =~= ts.insert(at as int, new));
        if at < ts.len() {
            lemma_order_total(ts[at as int], new);
        }
        assert forall|a: int, b: int| 0 <= a < b < ns.len() implies order(#[trigger] ns[a], #[trigger] ns[b]) < 0 by {
            if b == at {
                assert(ns[a] == ts[a]);
            } else if a == at {
                assert(ns[b] == ts[b - 1]);
                if b - 1 > at {
                    lemma_order_transitive(new, ts[at as int], ts[b - 1]);
                    assert(order(ts[at as int], ts[b - 1]) < 0);
                }
            } else {
                let a0 = if a < at {
                    a
                } else {
                    a - 1
                };
                let b0 = if b < at {
                    b
                } else {
                    b - 1
                };
                assert(ns[a] == ts[a0] && ns[b] == ts[b0]);
            }
        }
        assert forall|k: Seq<char>| #[trigger] ns.contains(k) <==> ts.contains(k) || k == new by {
            if ts.contains(k) {
                let j = choose|j: int| 0 <= j < ts.len() && ts[j] == k;
                if j < at {
                    assert(ns[j] == k);
                } else {
                    assert(ns[j + 1] == k);
                }
            }
            if k == new {
                assert(ns[at as int] == k);
            }
            if ns.contains(k) {
                let j = choose|j: int| 0 <= j < ns.len() && ns[j] == k;
                if j < at {
                    assert(ts[j] == k);
                } else if j > at {
                    assert(ts[j - 1] == k);
                }
            }
        }
    }
}

/// Whether a list holds the members of a set, in strict order.
pub open spec fn lists(ps: Seq<Seq<char>>, set: Set<Seq<char>>) -> bool {
    &&& in_order(ps)
    &&& forall|k: Seq<char>| #[trigger] ps.contains(k) <==> set.contains(k)
}

/// The members of a set in order.
pub fn sorted(set: &StrSet) -> (r: Vec<String>)
    ensures
        lists(text::texts(r@), set@),
{
    let mut r: Vec<String> = Vec::new();
    let n: usize = set.len();
    let mut i: usize = 0;
    proof {
        assert(text::texts(r@) =~= Seq::<Seq<char>>::empty());
        collections::lemma_met(set.items(), 0);
    }
    while i < n
        invariant
            n == set.items().len(),
            i <= n,
            in_order(text::texts(r@)),
            forall|k: Seq<char>| #[trigger]
                text::texts(r@).contains(k) <==> collections::met(set.items(), i as int, k),
        decreases n - i,
    {
        insert_sorted(&mut r, set.get(i).clone());
        proof {
            collections::lemma_met(set.items(), i as int);
        }
        i += 1;
    }
    proof {
        set.lemma_items();
        collections::lemma_met(set.items(), n as int);
    }
    r
}

// ── What paths mean ─────────────────────────────────────────────

/// A path below a directory follows it behind one slash; one that starts at the root stands alone, and
/// so does one below no directory.
pub proof fn law_paths_are_put_below(dir: Seq<char>, path: Seq<char>)
    ensures
        rooted(path) ==> joined(dir, path) == path,
        dir.len() == 0 ==> joined(dir, path) == path,
        dir.len() > 0 && !rooted(path) && dir.last() != '/' ==> joined(dir, path) == dir + seq!['/'] + path,
        dir.len() > 0 && !rooted(path) && dir.last() == '/' ==> joined(dir, path) == dir + path,
{
}

/// What was put below a directory is cut off it again, whatever it holds.
pub proof fn law_put_paths_are_cut(dir: Seq<char>, path: Seq<char>, other: Seq<char>)
    requires
        dir.len() > 0,
        path.len() > 0,
        !rooted(path),
    ensures
        cut(joined(dir, path), dir) == Some(path),
        cut(dir, dir) == Some(Seq::<char>::empty()),
        !text::has_prefix(other, dir) ==> cut(other, dir) is None,
        dir.last() != '/' && other.len() > dir.len() && other[dir.len() as int] != '/' ==> cut(other, dir) is None,
{
    let whole = joined(dir, path);
    let n = dir.len() as int;
    assert(whole.take(n) =~= dir);
    if dir.last() == '/' {
        assert(whole.skip(n) =~= path);
    } else {
        assert(whole.skip(n + 1) =~= path);
    }
    if other == dir {
        assert(other.take(n) =~= dir);
    }
}

/// A path lies in itself and in no directory that it does not begin with, component by component.
pub proof fn law_paths_lie_in_what_they_begin_with(path: Seq<char>, dir: Seq<char>)
    ensures
        relative(path, dir) is Some <==> components(dir).len() <= components(path).len() && forall|i: int|
            0 <= i < components(dir).len() ==> components(path)[i] == #[trigger] components(dir)[i],
        relative(path, path) == Some(Seq::<char>::empty()),
{
    let (cs, ds) = (components(path), components(dir));
    if ds.len() <= cs.len() && forall|i: int| 0 <= i < ds.len() ==> cs[i] == #[trigger] ds[i] {
        assert(cs.take(ds.len() as int) =~= ds);
    }
    if relative(path, dir) is Some {
        assert forall|i: int| 0 <= i < ds.len() implies cs[i] == #[trigger] ds[i] by {
            assert(cs.take(ds.len() as int)[i] == ds[i]);
        }
    }
    assert(cs.take(cs.len() as int) =~= cs);
    let ps = text::pieces(path, '/');
    lemma_places(ps, ps.len() as int);
}

/// A name is a component of its own. Slashes part components, however many there are; a dot says nothing
/// behind a slash, and two dots stand for the directory above.
pub proof fn law_slashes_part_components(a: Seq<char>, name: Seq<char>)
    requires
        a.len() > 0,
        name.len() > 0,
        name != "."@,
        name != ".."@,
        forall|i: int| 0 <= i < name.len() ==> #[trigger] name[i] != '/',
    ensures
        components(name) == seq![Component::Normal(name)],
        components(a + seq!['/'] + name) == components(a).push(Component::Normal(name)),
        components(a + seq!['/']) == components(a),
        components(a + seq!['/'] + "."@) == components(a),
        components(a + seq!['/'] + ".."@) == components(a).push(Component::Parent),
        last_name(a + seq!['/'] + name) == Some(name),
        components(Seq::<char>::empty()).len() == 0,
        components(seq!['/']) == seq![Component::Root],
{
    reveal_strlit(".");
    reveal_strlit("..");
    lemma_piece(name);
    lemma_piece("."@);
    lemma_piece(".."@);
    let none = Seq::<char>::empty();
    lemma_piece(none);
    lemma_one_more(a, name);
    lemma_one_more(a, "."@);
    lemma_one_more(a, ".."@);
    lemma_one_more(a, none);
    assert(a + seq!['/'] + none =~= a + seq!['/']);
    reveal_with_fuel(components_of, 2);
    let ps = text::pieces(name, '/');
    assert(ps == seq![name]);
    assert(component_of(ps, 0) == Some(Component::Normal(name)));
    assert(components_of(ps, 1) =~= seq![Component::Normal(name)]);
    assert(components(name) =~= seq![Component::Normal(name)]);
    let whole = components(a + seq!['/'] + name);
    assert(whole.last() == Component::Normal(name));
    let es = text::pieces(none, '/');
    assert(component_of(es, 0) is None);
    assert(components_of(es, 1) =~= Seq::<Component>::empty());
    text::lemma_pieces_add(none, '/', none);
    assert(none + seq!['/'] + none =~= seq!['/']);
    let rs = text::pieces(seq!['/'], '/');
    assert(rs =~= seq![none, none]);
    reveal_with_fuel(components_of, 3);
    assert(components_of(rs, 2) =~= Seq::<Component>::empty());
    assert(components(seq!['/']) =~= seq![Component::Root]);
}

proof fn lemma_piece(name: Seq<char>)
    requires
        forall|i: int| 0 <= i < name.len() ==> #[trigger] name[i] != '/',
    ensures
        text::pieces(name, '/') == seq![name],
{
    text::lemma_first_at_is(name, '/', name.len() as int);
}

proof fn lemma_one_more(a: Seq<char>, name: Seq<char>)
    requires
        a.len() > 0,
        text::pieces(name, '/') == seq![name],
    ensures
        ({
            let whole = components(a + seq!['/'] + name);
            &&& name.len() == 0 || name == "."@ ==> whole == components(a)
            &&& name == ".."@ ==> whole == components(a).push(Component::Parent)
            &&& name.len() > 0 && name != "."@ && name != ".."@ ==> whole == components(a).push(Component::Normal(name))
        }),
{
    reveal_strlit(".");
    reveal_strlit("..");
    let s = a + seq!['/'] + name;
    text::lemma_pieces_add(a, '/', name);
    let ps = text::pieces(a, '/');
    let qs = text::pieces(s, '/');
    text::lemma_pieces(a, '/');
    assert(qs =~= ps.push(name));
    let n = ps.len() as int;
    lemma_places_same(ps, qs, n);
    assert(qs[n] == name);
    assert(s[0] == a[0]);
    let front = components_of(ps, n);
    assert(components_of(qs, n) == front);
    let all = components_of(qs, n + 1);
    assert(all == (match component_of(qs, n) {
        Some(c) => front.push(c),
        None => front,
    }));
    assert("."@.len() == 1 && ".."@.len() == 2);
    if rooted(a) {
        assert(seq![Component::Root] + front.push(Component::Parent) =~= (seq![Component::Root] + front).push(
            Component::Parent,
        ));
        assert(seq![Component::Root] + front.push(Component::Normal(name)) =~= (seq![Component::Root] + front).push(
            Component::Normal(name),
        ));
    }
}

/// Paths are ordered by the first component that differs, names as text, and a directory comes before
/// what lies in it.
pub proof fn law_directories_come_before_their_content(a: Seq<char>, x: Seq<char>, y: Seq<char>)
    requires
        a.len() > 0,
        x.len() > 0 && x != "."@ && x != ".."@,
        y.len() > 0 && y != "."@ && y != ".."@,
        forall|i: int| 0 <= i < x.len() ==> #[trigger] x[i] != '/',
        forall|i: int| 0 <= i < y.len() ==> #[trigger] y[i] != '/',
    ensures
        order(a, a + seq!['/'] + x) < 0,
        text::order(x, y) < 0 ==> order(a + seq!['/'] + x, a + seq!['/'] + y) < 0,
{
    law_slashes_part_components(a, x);
    law_slashes_part_components(a, y);
    let cs = components(a);
    lemma_order_after(cs, Seq::empty(), seq![Component::Normal(x)]);
    assert(cs + Seq::<Component>::empty() =~= cs);
    assert(cs + seq![Component::Normal(x)] =~= cs.push(Component::Normal(x)));
    assert(cs + seq![Component::Normal(y)] =~= cs.push(Component::Normal(y)));
    lemma_order_after(cs, seq![Component::Normal(x)], seq![Component::Normal(y)]);
}

proof fn lemma_order_after(front: Seq<Component>, a: Seq<Component>, b: Seq<Component>)
    ensures
        components_order(front + a, front + b) == components_order(a, b),
    decreases front.len(),
{
    if front.len() == 0 {
        assert(front + a =~= a);
        assert(front + b =~= b);
    } else {
        lemma_component_order_total(front[0], front[0]);
        lemma_order_after(front.skip(1), a, b);
        assert((front + a).skip(1) =~= front.skip(1) + a);
        assert((front + b).skip(1) =~= front.skip(1) + b);
    }
}

} // verus!
