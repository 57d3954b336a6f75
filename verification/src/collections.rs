//! Sets and maps keyed by text.

use vstd::prelude::*;

use crate::text;

verus! {

/// A set of strings.
pub struct StrSet {
    entries: Vec<String>,
}

impl View for StrSet {
    type V = Set<Seq<char>>;

    closed spec fn view(&self) -> Set<Seq<char>> {
        Set::new(|k: Seq<char>| self.items().contains(k))
    }
}

impl StrSet {
    /// The members in the order in which they are walked.
    pub closed spec fn items(&self) -> Seq<Seq<char>> {
        Seq::new(self.entries@.len(), |i: int| self.entries@[i]@)
    }

    #[verifier::type_invariant]
    spec fn inv(self) -> bool {
        self.items().no_duplicates()
    }

    /// The walk meets every member once.
    pub proof fn lemma_items(&self)
        ensures
            forall|k: Seq<char>| #[trigger] self@.contains(k) <==> self.items().contains(k),
    {
    }

    pub fn new() -> (r: Self)
        ensures
            r@ == Set::<Seq<char>>::empty(),
            r.items() == Seq::<Seq<char>>::empty(),
    {
        let r = StrSet { entries: Vec::new() };
        proof {
            assert(r.items() =~= Seq::<Seq<char>>::empty());
            assert(r@ =~= Set::<Seq<char>>::empty());
        }
        r
    }

    pub fn len(&self) -> (n: usize)
        ensures
            n == self.items().len(),
            self@.finite(),
            n == self@.len(),
    {
        proof {
            use_type_invariant(self);
            self.items().unique_seq_to_set();
            assert(self@ =~= self.items().to_set());
        }
        self.entries.len()
    }

    pub fn is_empty(&self) -> (r: bool)
        ensures
            r == (self@ == Set::<Seq<char>>::empty()),
    {
        proof {
            if self.entries@.len() == 0 {
                assert(self@ =~= Set::<Seq<char>>::empty());
            } else {
                assert(self.items()[0] == self.entries@[0]@);
                assert(self@.contains(self.entries@[0]@));
            }
        }
        self.entries.len() == 0
    }

    /// The member at index `i` of the walk.
    pub fn get(&self, i: usize) -> (r: &String)
        requires
            i < self.items().len(),
        ensures
            r@ == self.items()[i as int],
            self@.contains(r@),
    {
        proof {
            assert(self.items()[i as int] == self.entries@[i as int]@);
        }
        &self.entries[i]
    }

    fn find(&self, key: &str) -> (r: usize)
        ensures
            r <= self.entries@.len(),
            r < self.entries@.len() ==> self.entries@[r as int]@ == key@,
            r == self.entries@.len() ==> !self@.contains(key@),
    {
        let mut i: usize = 0;
        while i < self.entries.len()
            invariant
                0 <= i <= self.entries@.len(),
                forall|j: int| 0 <= j < i ==> self.items()[j] != key@,
            decreases self.entries@.len() - i,
        {
            if text::same(self.entries[i].as_str(), key) {
                return i;
            }
            i += 1;
        }
        i
    }

    pub fn contains(&self, key: &str) -> (r: bool)
        ensures
            r == self@.contains(key@),
    {
        let i = self.find(key);
        proof {
            if i < self.entries@.len() {
                assert(self.items()[i as int] == key@);
            }
        }
        i < self.entries.len()
    }

    /// Adds a member. Returns whether it was new.
    pub fn insert(&mut self, key: String) -> (r: bool)
        ensures
            r == !old(self)@.contains(key@),
            final(self)@ == old(self)@.insert(key@),
            final(self).items() == (if r {
                old(self).items().push(key@)
            } else {
                old(self).items()
            }),
    {
        proof {
            use_type_invariant(&*self);
        }
        if self.contains(key.as_str()) {
            proof {
                assert(self@ =~= self@.insert(key@));
            }
            return false;
        }
        let ghost before = self.items();
        let ghost set = self@;
        let mut entries: Vec<String> = Vec::new();
        std::mem::swap(&mut entries, &mut self.entries);
        entries.push(key);
        proof {
            let g = StrSet { entries };
            assert(g.items() =~= before.push(key@));
            assert forall|a: int, b: int| 0 <= a < b < g.items().len() implies g.items()[a] != g.items()[b] by {
                if b == before.len() {
                    assert(before.contains(before[a]));
                }
            }
        }
        let r = StrSet { entries };
        proof {
            assert(r.items() =~= before.push(key@));
            assert forall|k: Seq<char>| r@.contains(k) == set.insert(key@).contains(k) by {
                if before.contains(k) {
                    let j = choose|j: int| 0 <= j < before.len() && before[j] == k;
                    assert(r.items()[j] == k);
                }
                if k == key@ {
                    assert(r.items()[before.len() as int] == k);
                }
            }
            assert(r@ =~= set.insert(key@));
        }
        *self = r;
        true
    }

    /// Takes a member out. Returns whether it was there.
    pub fn remove(&mut self, key: &str) -> (r: bool)
        ensures
            r == old(self)@.contains(key@),
            final(self)@ == old(self)@.remove(key@),
    {
        proof {
            use_type_invariant(&*self);
        }
        let i = self.find(key);
        if i == self.entries.len() {
            proof {
                assert(self@ =~= self@.remove(key@));
            }
            return false;
        }
        let ghost before = self.items();
        let ghost set = self@;
        proof {
            assert(before[i as int] == key@);
        }
        let mut entries: Vec<String> = Vec::new();
        std::mem::swap(&mut entries, &mut self.entries);
        let gone = entries.remove(i);
        proof {
            let g = StrSet { entries };
            assert(g.items() =~= before.remove(i as int));
        }
        let r = StrSet { entries };
        proof {
            assert(r.items() =~= before.remove(i as int));
            assert forall|k: Seq<char>| r@.contains(k) == set.remove(key@).contains(k) by {
                if before.contains(k) && k != key@ {
                    let j = choose|j: int| 0 <= j < before.len() && before[j] == k;
                    if j < i {
                        assert(r.items()[j] == k);
                    } else {
                        assert(r.items()[j - 1] == k);
                    }
                }
                if r.items().contains(k) {
                    let j = choose|j: int| 0 <= j < r.items().len() && r.items()[j] == k;
                    if j < i {
                        assert(before[j] == k);
                    } else {
                        assert(before[j + 1] == k);
                    }
                }
            }
            assert(r@ =~= set.remove(key@));
        }
        *self = r;
        true
    }

    /// A copy with the same members.
    pub fn copy(&self) -> (r: Self)
        ensures
            r@ == self@,
            r.items() == self.items(),
    {
        let mut r = StrSet::new();
        let mut i: usize = 0;
        proof {
            use_type_invariant(self);
            assert(self.items().take(0) =~= Seq::<Seq<char>>::empty());
        }
        while i < self.entries.len()
            invariant
                self.inv(),
                0 <= i <= self.entries@.len(),
                r.items() == self.items().take(i as int),
            decreases self.entries@.len() - i,
        {
            let key = self.entries[i].clone();
            proof {
                r.lemma_items();
                assert(self.items()[i as int] == key@);
                if r.items().contains(key@) {
                    let j = choose|j: int| 0 <= j < r.items().len() && r.items()[j] == key@;
                    assert(self.items()[j] == self.items()[i as int]);
                }
                assert(self.items().take(i + 1) =~= self.items().take(i as int).push(key@));
            }
            r.insert(key);
            i += 1;
        }
        proof {
            assert(self.items().take(i as int) =~= self.items());
            r.lemma_items();
            assert(r@ =~= self@);
        }
        r
    }

    /// Whether every member of `self` is one of `other`.
    pub fn within(&self, other: &StrSet) -> (r: bool)
        ensures
            r == self@.subset_of(other@),
    {
        let mut i: usize = 0;
        while i < self.entries.len()
            invariant
                0 <= i <= self.entries@.len(),
                forall|j: int| 0 <= j < i ==> other@.contains(#[trigger] self.items()[j]),
            decreases self.entries@.len() - i,
        {
            proof {
                assert(self.items()[i as int] == self.entries@[i as int]@);
            }
            if !other.contains(self.entries[i].as_str()) {
                proof {
                    assert(self@.contains(self.items()[i as int]));
                }
                return false;
            }
            i += 1;
        }
        proof {
            assert forall|k: Seq<char>| self@.contains(k) implies other@.contains(k) by {
                let j = choose|j: int| 0 <= j < self.items().len() && self.items()[j] == k;
                assert(other@.contains(self.items()[j]));
            }
        }
        true
    }

    /// Whether two sets have the same members.
    pub fn same(&self, other: &StrSet) -> (r: bool)
        ensures
            r == (self@ == other@),
    {
        let r = self.within(other) && other.within(self);
        proof {
            if r {
                assert(self@ =~= other@);
            }
        }
        r
    }

    /// The set of the given strings.
    pub fn of(keys: &Vec<String>) -> (r: Self)
        ensures
            forall|k: Seq<char>| #[trigger] r@.contains(k) <==> exists|i: int| 0 <= i < keys@.len() && keys@[i]@ == k,
    {
        let mut r = StrSet::new();
        let mut i: usize = 0;
        while i < keys.len()
            invariant
                0 <= i <= keys@.len(),
                forall|k: Seq<char>| #[trigger] r@.contains(k) <==> exists|j: int| 0 <= j < i && keys@[j]@ == k,
            decreases keys@.len() - i,
        {
            let ghost set = r@;
            r.insert(keys[i].clone());
            proof {
                assert forall|k: Seq<char>| #[trigger] r@.contains(k) <==> exists|j: int| 0 <= j < i + 1 && keys@[j]@ == k by {
                    if set.contains(k) {
                        let j = choose|j: int| 0 <= j < i && keys@[j]@ == k;
                        assert(keys@[j]@ == k);
                    }
                    if keys@[i as int]@ == k {
                        assert(r@.contains(k));
                    }
                }
            }
            i += 1;
        }
        r
    }
}

impl StrSet {
    /// Adds all members of another set.
    pub fn add_all(&mut self, other: &StrSet)
        ensures
            final(self)@ == old(self)@.union(other@),
    {
        let n: usize = other.len();
        let ghost before = self@;
        let mut i: usize = 0;
        proof {
            lemma_met(other.items(), 0);
        }
        while i < n
            invariant
                n == other.items().len(),
                i <= n,
                forall|k: Seq<char>| #[trigger]
                    self@.contains(k) <==> before.contains(k) || met(other.items(), i as int, k),
            decreases n - i,
        {
            self.insert(other.get(i).clone());
            proof {
                lemma_met(other.items(), i as int);
            }
            i += 1;
        }
        proof {
            other.lemma_items();
            lemma_met(other.items(), n as int);
            assert(self@ =~= before.union(other@));
        }
    }
}

/// The value of a key.
pub open spec fn lookup<V>(m: Map<Seq<char>, V>, key: Seq<char>) -> Option<V> {
    if m.dom().contains(key) {
        Some(m[key])
    } else {
        None
    }
}

/// Whether `p` is one of the first `i` keys.
pub open spec fn met(keys: Seq<Seq<char>>, i: int, p: Seq<char>) -> bool {
    exists|j: int| 0 <= j < i && #[trigger] keys[j] == p
}

/// What is met one key further, and at the end.
pub proof fn lemma_met(keys: Seq<Seq<char>>, i: int)
    ensures
        forall|p: Seq<char>| !(#[trigger] met(keys, 0, p)),
        0 <= i < keys.len() ==> forall|p: Seq<char>| #[trigger] met(keys, i + 1, p) <==> met(keys, i, p) || p == keys[i],
        forall|p: Seq<char>|
            #![trigger met(keys, keys.len() as int, p)]
            #![trigger keys.contains(p)]
            met(keys, keys.len() as int, p) <==> keys.contains(p),
{
    if 0 <= i < keys.len() {
        assert forall|p: Seq<char>| #[trigger] met(keys, i + 1, p) <==> met(keys, i, p) || p == keys[i] by {
            if met(keys, i, p) {
                let j = choose|j: int| 0 <= j < i && #[trigger] keys[j] == p;
                assert(keys[j] == p);
            }
            if p == keys[i] {
                assert(keys[i] == p);
            }
        }
    }
    assert forall|p: Seq<char>| #[trigger] met(keys, keys.len() as int, p) <==> keys.contains(p) by {
        if keys.contains(p) {
            let j = choose|j: int| 0 <= j < keys.len() && keys[j] == p;
            assert(keys[j] == p);
        }
    }
}

/// A map from strings to values.
pub struct StrMap<V> {
    entries: Vec<(String, V)>,
}

impl<V> View for StrMap<V> {
    type V = Map<Seq<char>, V>;

    closed spec fn view(&self) -> Map<Seq<char>, V> {
        Map::new(
            |k: Seq<char>| self.keys().contains(k),
            |k: Seq<char>| self.entries@[self.keys().index_of(k)].1,
        )
    }
}

impl<V> StrMap<V> {
    /// The keys in the order in which they are walked.
    pub closed spec fn keys(&self) -> Seq<Seq<char>> {
        Seq::new(self.entries@.len(), |i: int| self.entries@[i].0@)
    }

    #[verifier::type_invariant]
    spec fn inv(self) -> bool {
        self.keys().no_duplicates()
    }

    proof fn lemma_at(self, i: int)
        requires
            self.inv(),
            0 <= i < self.entries@.len(),
        ensures
            self@.dom().contains(self.keys()[i]),
            self@[self.keys()[i]] == self.entries@[i].1,
    {
        let k = self.keys()[i];
        assert(self.keys().contains(k));
        let j = self.keys().index_of(k);
        assert(self.keys()[j] == k);
        assert(j == i);
    }

    /// The walk meets every key once.
    pub proof fn lemma_keys(&self)
        ensures
            forall|k: Seq<char>| #[trigger] self@.dom().contains(k) <==> self.keys().contains(k),
    {
    }

    /// No key is met twice.
    pub fn check_distinct(&self)
        ensures
            self.keys().no_duplicates(),
    {
        proof {
            use_type_invariant(self);
        }
    }

    pub fn new() -> (r: Self)
        ensures
            r@ == Map::<Seq<char>, V>::empty(),
            r.keys() == Seq::<Seq<char>>::empty(),
    {
        let r = StrMap { entries: Vec::new() };
        proof {
            assert(r.keys() =~= Seq::<Seq<char>>::empty());
            assert(r@ =~= Map::<Seq<char>, V>::empty());
        }
        r
    }

    pub fn len(&self) -> (n: usize)
        ensures
            n == self.keys().len(),
    {
        self.entries.len()
    }

    pub fn is_empty(&self) -> (r: bool)
        ensures
            r == (self@ == Map::<Seq<char>, V>::empty()),
    {
        proof {
            if self.entries@.len() == 0 {
                assert(self@ =~= Map::<Seq<char>, V>::empty());
            } else {
                assert(self.keys().contains(self.keys()[0]));
                assert(self@.dom().contains(self.keys()[0]));
            }
        }
        self.entries.len() == 0
    }

    /// The key at index `i` of the walk.
    pub fn key_at(&self, i: usize) -> (r: &String)
        requires
            i < self.keys().len(),
        ensures
            r@ == self.keys()[i as int],
            self@.dom().contains(r@),
    {
        proof {
            use_type_invariant(self);
            self.lemma_at(i as int);
        }
        &self.entries[i].0
    }

    /// The value at index `i` of the walk.
    pub fn value_at(&self, i: usize) -> (r: &V)
        requires
            i < self.keys().len(),
        ensures
            *r == self@[self.keys()[i as int]],
    {
        proof {
            use_type_invariant(self);
            self.lemma_at(i as int);
        }
        &self.entries[i].1
    }

    fn find(&self, key: &str) -> (r: usize)
        ensures
            r <= self.entries@.len(),
            r < self.entries@.len() ==> self.entries@[r as int].0@ == key@,
            r == self.entries@.len() ==> !self@.dom().contains(key@),
    {
        let mut i: usize = 0;
        while i < self.entries.len()
            invariant
                0 <= i <= self.entries@.len(),
                forall|j: int| 0 <= j < i ==> self.keys()[j] != key@,
            decreases self.entries@.len() - i,
        {
            if text::same(self.entries[i].0.as_str(), key) {
                return i;
            }
            i += 1;
        }
        i
    }

    pub fn contains_key(&self, key: &str) -> (r: bool)
        ensures
            r == self@.dom().contains(key@),
    {
        let i = self.find(key);
        proof {
            use_type_invariant(self);
            if i < self.entries@.len() {
                self.lemma_at(i as int);
            }
        }
        i < self.entries.len()
    }

    pub fn get(&self, key: &str) -> (r: Option<&V>)
        ensures
            match r {
                Some(v) => self@.dom().contains(key@) && *v == self@[key@],
                None => !self@.dom().contains(key@),
            },
    {
        let i = self.find(key);
        proof {
            use_type_invariant(self);
        }
        if i < self.entries.len() {
            proof {
                self.lemma_at(i as int);
            }
            Some(&self.entries[i].1)
        } else {
            None
        }
    }

    /// Sets the value of a key. Returns the value it had.
    pub fn insert(&mut self, key: String, value: V) -> (r: Option<V>)
        ensures
            final(self)@ == old(self)@.insert(key@, value),
            r == (if old(self)@.dom().contains(key@) {
                Some(old(self)@[key@])
            } else {
                None::<V>
            }),
            final(self).keys() == (if old(self)@.dom().contains(key@) {
                old(self).keys()
            } else {
                old(self).keys().push(key@)
            }),
    {
        proof {
            use_type_invariant(&*self);
        }
        let i = self.find(key.as_str());
        let ghost before = *self;
        let ghost map = self@;
        let mut entries: Vec<(String, V)> = Vec::new();
        std::mem::swap(&mut entries, &mut self.entries);
        if i < entries.len() {
            let mut value = value;
            let ghost new = value;
            proof {
                before.lemma_at(i as int);
            }
            std::mem::swap(&mut entries[i].1, &mut value);
            proof {
                let g = StrMap { entries };
                assert(g.keys() =~= before.keys());
            }
            let r = StrMap { entries };
            proof {
                assert(r.keys() =~= before.keys());
                assert forall|k: Seq<char>| r@.dom().contains(k) == map.insert(key@, new).dom().contains(k) by {}
                assert forall|k: Seq<char>| r@.dom().contains(k) implies r@[k] == map.insert(key@, new)[k] by {
                    let j = r.keys().index_of(k);
                    assert(r.keys()[j] == k);
                    r.lemma_at(j);
                    before.lemma_at(j);
                }
                assert(r@ =~= map.insert(key@, new));
            }
            *self = r;
            Some(value)
        } else {
            entries.push((key, value));
            proof {
                let g = StrMap { entries };
                assert(g.keys() =~= before.keys().push(key@));
                assert forall|a: int, b: int| 0 <= a < b < g.keys().len() implies g.keys()[a] != g.keys()[b] by {
                    if b == before.keys().len() {
                        assert(before.keys().contains(before.keys()[a]));
                    }
                }
            }
            let r = StrMap { entries };
            proof {
                assert(r.keys() =~= before.keys().push(key@));
                assert forall|k: Seq<char>| r@.dom().contains(k) == map.insert(key@, value).dom().contains(k) by {
                    if before.keys().contains(k) {
                        let j = before.keys().index_of(k);
                        assert(r.keys()[j] == k);
                    }
                    if k == key@ {
                        assert(r.keys()[before.keys().len() as int] == k);
                    }
                }
                assert forall|k: Seq<char>| r@.dom().contains(k) implies r@[k] == map.insert(key@, value)[k] by {
                    let j = r.keys().index_of(k);
                    assert(r.keys()[j] == k);
                    r.lemma_at(j);
                    if j < before.keys().len() {
                        before.lemma_at(j);
                    }
                }
                assert(r@ =~= map.insert(key@, value));
            }
            *self = r;
            None
        }
    }

    /// Takes a key out. Returns the value it had.
    pub fn remove(&mut self, key: &str) -> (r: Option<V>)
        ensures
            final(self)@ == old(self)@.remove(key@),
            r == (if old(self)@.dom().contains(key@) {
                Some(old(self)@[key@])
            } else {
                None::<V>
            }),
    {
        proof {
            use_type_invariant(&*self);
        }
        let i = self.find(key);
        let ghost before = *self;
        let ghost map = self@;
        if i == self.entries.len() {
            proof {
                assert(self@ =~= self@.remove(key@));
            }
            return None;
        }
        proof {
            before.lemma_at(i as int);
        }
        let mut entries: Vec<(String, V)> = Vec::new();
        std::mem::swap(&mut entries, &mut self.entries);
        let gone = entries.remove(i);
        proof {
            let g = StrMap { entries };
            assert(g.keys() =~= before.keys().remove(i as int));
        }
        let r = StrMap { entries };
        proof {
            assert(r.keys() =~= before.keys().remove(i as int));
            assert forall|k: Seq<char>| r@.dom().contains(k) == map.remove(key@).dom().contains(k) by {
                if before.keys().contains(k) && k != key@ {
                    let j = before.keys().index_of(k);
                    assert(before.keys()[j] == k);
                    if j < i {
                        assert(r.keys()[j] == k);
                    } else {
                        assert(r.keys()[j - 1] == k);
                    }
                }
                if r.keys().contains(k) {
                    let j = r.keys().index_of(k);
                    assert(r.keys()[j] == k);
                    if j < i {
                        assert(before.keys()[j] == k);
                    } else {
                        assert(before.keys()[j + 1] == k);
                    }
                }
            }
            assert forall|k: Seq<char>| r@.dom().contains(k) implies r@[k] == map.remove(key@)[k] by {
                let j = r.keys().index_of(k);
                assert(r.keys()[j] == k);
                r.lemma_at(j);
                if j < i {
                    before.lemma_at(j);
                } else {
                    before.lemma_at(j + 1);
                }
            }
            assert(r@ =~= map.remove(key@));
        }
        *self = r;
        Some(gone.1)
    }
}

impl<V> StrMap<V> {
    /// Keeps the keys that are in `keep`.
    pub fn retain_in(&mut self, keep: &StrSet)
        ensures
            final(self)@ == old(self)@.restrict(keep@),
    {
        let n: usize = self.len();
        let ghost before = self.keys();
        let ghost map = self@;
        let mut gone: Vec<String> = Vec::new();
        let mut i: usize = 0;
        while i < n
            invariant
                n == before.len(),
                before == self.keys(),
                self@ == map,
                i <= n,
                forall|j: int| 0 <= j < gone@.len() ==> !keep@.contains((#[trigger] gone@[j])@),
                forall|j: int|
                    0 <= j < i && !keep@.contains(#[trigger] before[j]) ==> text::texts(gone@).contains(before[j]),
            decreases n - i,
        {
            let ghost held = text::texts(gone@);
            if !keep.contains(self.key_at(i).as_str()) {
                gone.push(self.key_at(i).clone());
                proof {
                    assert(text::texts(gone@) =~= held.push(before[i as int]));
                    assert(text::texts(gone@)[held.len() as int] == before[i as int]);
                    assert forall|j: int| 0 <= j < i && !keep@.contains(#[trigger] before[j]) implies text::texts(
                        gone@,
                    ).contains(before[j]) by {
                        let m = choose|m: int| 0 <= m < held.len() && held[m] == before[j];
                        assert(text::texts(gone@)[m] == before[j]);
                    }
                }
            }
            i += 1;
        }
        let ghost all = text::texts(gone@);
        proof {
            self.lemma_keys();
        }
        let mut k: usize = 0;
        while k < gone.len()
            invariant
                all == text::texts(gone@),
                k <= gone@.len(),
                forall|c: Seq<char>| #[trigger]
                    self@.dom().contains(c) <==> map.dom().contains(c) && !all.take(k as int).contains(c),
                forall|c: Seq<char>| #[trigger] self@.dom().contains(c) ==> self@[c] == map[c],
            decreases gone.len() - k,
        {
            self.remove(gone[k].as_str());
            proof {
                assert(all.take(k + 1) =~= all.take(k as int).push(all[k as int]));
                assert forall|c: Seq<char>| all.take(k + 1).contains(c) <==> all.take(k as int).contains(c) || c
                    == all[k as int] by {
                    let a = all.take(k as int);
                    let b = all.take(k + 1);
                    if a.contains(c) {
                        let m = choose|m: int| 0 <= m < a.len() && a[m] == c;
                        assert(b[m] == c);
                    }
                    if c == all[k as int] {
                        assert(b[k as int] == c);
                    }
                }
            }
            k += 1;
        }
        proof {
            assert(all.take(k as int) =~= all);
            assert forall|c: Seq<char>| self@.dom().contains(c) <==> map.restrict(keep@).dom().contains(c) by {
                if map.dom().contains(c) {
                    assert(before.contains(c));
                    let j = choose|j: int| 0 <= j < before.len() && before[j] == c;
                    if !keep@.contains(c) {
                        assert(all.contains(before[j]));
                    } else if all.contains(c) {
                        let m = choose|m: int| 0 <= m < all.len() && all[m] == c;
                        assert(gone@[m]@ == c);
                    }
                }
            }
            assert(self@ =~= map.restrict(keep@));
        }
    }

    /// Sets the value of a key, or takes the key out.
    pub fn put(&mut self, key: &str, value: Option<V>)
        ensures
            final(self)@ == (match value {
                Some(v) => old(self)@.insert(key@, v),
                None => old(self)@.remove(key@),
            }),
    {
        match value {
            Some(v) => {
                self.insert(key.to_owned(), v);
            },
            None => {
                self.remove(key);
            },
        }
    }

    /// The keys.
    pub fn key_set(&self) -> (r: StrSet)
        ensures
            r@ == self@.dom(),
    {
        let mut r = StrSet::new();
        let n: usize = self.len();
        let mut i: usize = 0;
        while i < n
            invariant
                n == self.keys().len(),
                i <= n,
                forall|c: Seq<char>| #[trigger]
                    r@.contains(c) <==> exists|j: int| 0 <= j < i && #[trigger] self.keys()[j] == c,
            decreases n - i,
        {
            let ghost before = r@;
            r.insert(self.key_at(i).clone());
            proof {
                assert forall|c: Seq<char>| #[trigger]
                    r@.contains(c) <==> exists|j: int| 0 <= j < i + 1 && #[trigger] self.keys()[j] == c by {
                    if before.contains(c) {
                        let j = choose|j: int| 0 <= j < i && #[trigger] self.keys()[j] == c;
                        assert(self.keys()[j] == c);
                    }
                    if c == self.keys()[i as int] {
                        assert(r@.contains(c));
                    }
                }
            }
            i += 1;
        }
        proof {
            self.lemma_keys();
            assert forall|c: Seq<char>| r@.contains(c) <==> self@.dom().contains(c) by {
                if self.keys().contains(c) {
                    let j = choose|j: int| 0 <= j < self.keys().len() && self.keys()[j] == c;
                    assert(self.keys()[j] == c);
                }
            }
            assert(r@ =~= self@.dom());
        }
        r
    }
}

/// A set of pairs of strings.
pub struct PairSet {
    entries: Vec<(String, String)>,
}

impl View for PairSet {
    type V = Set<(Seq<char>, Seq<char>)>;

    closed spec fn view(&self) -> Set<(Seq<char>, Seq<char>)> {
        Set::new(|k: (Seq<char>, Seq<char>)| self.items().contains(k))
    }
}

impl PairSet {
    /// The members in the order in which they are walked.
    pub closed spec fn items(&self) -> Seq<(Seq<char>, Seq<char>)> {
        Seq::new(self.entries@.len(), |i: int| (self.entries@[i].0@, self.entries@[i].1@))
    }

    pub fn new() -> (r: Self)
        ensures
            r@ == Set::<(Seq<char>, Seq<char>)>::empty(),
    {
        let r = PairSet { entries: Vec::new() };
        proof {
            assert(r@ =~= Set::<(Seq<char>, Seq<char>)>::empty());
        }
        r
    }

    /// How many members a walk meets. It meets every one of them, and nothing else.
    pub fn len(&self) -> (n: usize)
        ensures
            n == self.items().len(),
            forall|k: (Seq<char>, Seq<char>)| #[trigger] self@.contains(k) <==> self.items().contains(k),
    {
        self.entries.len()
    }

    pub fn get(&self, i: usize) -> (r: (&str, &str))
        requires
            i < self.items().len(),
        ensures
            (r.0@, r.1@) == self.items()[i as int],
            self@.contains((r.0@, r.1@)),
    {
        proof {
            assert(self.items().contains(self.items()[i as int]));
        }
        let (a, b) = &self.entries[i];
        (a.as_str(), b.as_str())
    }

    pub fn contains(&self, a: &str, b: &str) -> (r: bool)
        ensures
            r == self@.contains((a@, b@)),
    {
        let mut i: usize = 0;
        while i < self.entries.len()
            invariant
                0 <= i <= self.entries@.len(),
                forall|j: int| 0 <= j < i ==> self.items()[j] != (a@, b@),
            decreases self.entries@.len() - i,
        {
            if text::same(self.entries[i].0.as_str(), a) && text::same(self.entries[i].1.as_str(), b) {
                proof {
                    assert(self.items()[i as int] == (a@, b@));
                }
                return true;
            }
            i += 1;
        }
        false
    }

    /// Adds a member. Returns whether it was new.
    pub fn insert(&mut self, a: String, b: String) -> (r: bool)
        ensures
            r == !old(self)@.contains((a@, b@)),
            final(self)@ == old(self)@.insert((a@, b@)),
    {
        let ghost key = (a@, b@);
        if self.contains(a.as_str(), b.as_str()) {
            proof {
                assert(self@ =~= self@.insert(key));
            }
            return false;
        }
        let ghost before = self.items();
        self.entries.push((a, b));
        proof {
            assert(self.items() =~= before.push(key));
            assert forall|k: (Seq<char>, Seq<char>)| self@.contains(k) == old(self)@.insert(key).contains(k) by {
                if before.contains(k) {
                    let j = choose|j: int| 0 <= j < before.len() && before[j] == k;
                    assert(self.items()[j] == k);
                }
                if k == key {
                    assert(self.items()[before.len() as int] == k);
                }
            }
            assert(self@ =~= old(self)@.insert(key));
        }
        true
    }

    /// Whether every member of `self` is one of `other`.
    pub fn within(&self, other: &PairSet) -> (r: bool)
        ensures
            r == self@.subset_of(other@),
    {
        let mut i: usize = 0;
        while i < self.entries.len()
            invariant
                0 <= i <= self.entries@.len(),
                forall|j: int| 0 <= j < i ==> other@.contains(#[trigger] self.items()[j]),
            decreases self.entries@.len() - i,
        {
            proof {
                assert(self.items()[i as int] == (self.entries@[i as int].0@, self.entries@[i as int].1@));
            }
            if !other.contains(self.entries[i].0.as_str(), self.entries[i].1.as_str()) {
                proof {
                    assert(self@.contains(self.items()[i as int]));
                }
                return false;
            }
            i += 1;
        }
        proof {
            assert forall|k: (Seq<char>, Seq<char>)| self@.contains(k) implies other@.contains(k) by {
                let j = choose|j: int| 0 <= j < self.items().len() && self.items()[j] == k;
                assert(other@.contains(self.items()[j]));
            }
        }
        true
    }

    /// Whether two sets have the same members.
    pub fn same(&self, other: &PairSet) -> (r: bool)
        ensures
            r == (self@ == other@),
    {
        let r = self.within(other) && other.within(self);
        proof {
            if r {
                assert(self@ =~= other@);
            }
        }
        r
    }
}

/// A lookup finds what is there, and nothing where nothing is.
pub proof fn law_lookups_find_what_is_there<V>(m: Map<Seq<char>, V>, key: Seq<char>)
    ensures
        m.dom().contains(key) ==> lookup(m, key) == Some(m[key]),
        !m.dom().contains(key) ==> lookup(m, key) is None,
{
}

} // verus!
