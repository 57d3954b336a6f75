//! The worker that asks GitHub about branches.

use vstd::prelude::*;

use crate::collections;
use crate::collections::{StrMap, StrSet};
use crate::gitloop;
use crate::model::{CheckSummary, PrSummary};
use crate::paths;
use crate::publish;
use crate::publish::Alike;
use crate::snapshot;
use crate::snapshot::{CheckPathEntry, PrPathEntry};
use crate::text;

verus! {

/// How often GitHub is asked again, in nanoseconds.
pub const GITHUB_FETCH_INTERVAL: u64 = 30_000_000_000;

/// Whether GitHub is asked: at once where the branches changed, else every so often.
pub fn github_fetch_due(branch_set_changed: bool, elapsed: u64) -> (r: bool)
    ensures
        r == (branch_set_changed || elapsed >= GITHUB_FETCH_INTERVAL),
{
    branch_set_changed || elapsed >= GITHUB_FETCH_INTERVAL
}

// ── Entries ─────────────────────────────────────────────────────

/// A directory that an agent works in, and the branch that is checked out there.
#[derive(Debug)]
pub struct GithubWorkerPath {
    pub path: String,
    pub branch: String,
}

impl Clone for GithubWorkerPath {
    fn clone(&self) -> (r: Self)
        ensures
            r == *self,
    {
        GithubWorkerPath { path: self.path.clone(), branch: self.branch.clone() }
    }
}

/// An entry, by its contents.
pub open spec fn entry(e: GithubWorkerPath) -> (Seq<char>, Seq<char>) {
    (e.path@, e.branch@)
}

pub open spec fn entries(es: Seq<GithubWorkerPath>) -> Seq<(Seq<char>, Seq<char>)> {
    Seq::new(es.len(), |i: int| entry(es[i]))
}

/// The order of entries: by path, then by branch.
pub open spec fn entry_order(a: (Seq<char>, Seq<char>), b: (Seq<char>, Seq<char>)) -> int {
    snapshot::and_next(paths::order(a.0, b.0), text::order(a.1, b.1))
}

proof fn lemma_entry_order_total(a: (Seq<char>, Seq<char>), b: (Seq<char>, Seq<char>))
    ensures
        entry_order(a, b) == -entry_order(b, a),
        entry_order(a, b) == 0 <==> a == b,
{
    paths::lemma_order_total(a.0, b.0);
    text::lemma_order_total(a.1, b.1);
}

proof fn lemma_entry_order_transitive(
    a: (Seq<char>, Seq<char>),
    b: (Seq<char>, Seq<char>),
    c: (Seq<char>, Seq<char>),
)
    ensures
        entry_order(a, b) < 0 && entry_order(b, c) < 0 ==> entry_order(a, c) < 0,
{
    paths::lemma_order_total(a.0, b.0);
    paths::lemma_order_total(b.0, c.0);
    paths::lemma_order_transitive(a.0, b.0, c.0);
    text::lemma_order_transitive(a.1, b.1, c.1);
}

fn compare(a: &GithubWorkerPath, b: &GithubWorkerPath) -> (r: i8)
    ensures
        r == entry_order(entry(*a), entry(*b)),
{
    let by_path: i8 = paths::ordered(a.path.as_str(), b.path.as_str());
    if by_path != 0 {
        by_path
    } else {
        text::ordered(a.branch.as_str(), b.branch.as_str())
    }
}

/// Whether entries are in strict order.
pub open spec fn in_order(es: Seq<(Seq<char>, Seq<char>)>) -> bool {
    forall|i: int, j: int| 0 <= i < j < es.len() ==> entry_order(#[trigger] es[i], #[trigger] es[j]) < 0
}

fn insert_entry(list: &mut Vec<GithubWorkerPath>, e: &GithubWorkerPath)
    requires
        in_order(entries(old(list)@)),
    ensures
        in_order(entries(final(list)@)),
        forall|k: (Seq<char>, Seq<char>)| #[trigger]
            entries(final(list)@).contains(k) <==> entries(old(list)@).contains(k) || k == entry(*e),
{
    let ghost ts = entries(list@);
    let ghost new = entry(*e);
    let mut at: usize = 0;
    while at < list.len() && compare(&list[at], e) < 0
        invariant
            *list == *old(list),
            ts == entries(list@),
            new == entry(*e),
            at <= list@.len(),
            forall|j: int| 0 <= j < at ==> entry_order(#[trigger] ts[j], new) < 0,
        decreases list@.len() - at,
    {
        at += 1;
    }
    if at < list.len() && compare(&list[at], e) == 0 {
        proof {
            lemma_entry_order_total(ts[at as int], new);
            assert(ts[at as int] == new);
        }
        return;
    }
    list.insert(at, e.clone());
    proof {
        let ns = entries(list@);
        assert(ns =~= ts.insert(at as int, new));
        if at < ts.len() {
            lemma_entry_order_total(ts[at as int], new);
        }
        assert forall|a: int, b: int| 0 <= a < b < ns.len() implies entry_order(#[trigger] ns[a], #[trigger] ns[b])
            < 0 by {
            if b == at {
                assert(ns[a] == ts[a]);
            } else if a == at {
                assert(ns[b] == ts[b - 1]);
                if b - 1 > at {
                    lemma_entry_order_transitive(new, ts[at as int], ts[b - 1]);
                    assert(entry_order(ts[at as int], ts[b - 1]) < 0);
                }
            } else {
                let a0 = if a < at {
                    a
                } else {
                    a - 1
                };
                let b0 = if b < at {
                    b
                } else {
                    b - 1
                };
                assert(ns[a] == ts[a0] && ns[b] == ts[b0]);
            }
        }
        assert forall|k: (Seq<char>, Seq<char>)| #[trigger] ns.contains(k) <==> ts.contains(k) || k == new by {
            if ts.contains(k) {
                let j = choose|j: int| 0 <= j < ts.len() && ts[j] == k;
                if j < at {
                    assert(ns[j] == k);
                } else {
                    assert(ns[j + 1] == k);
                }
            }
            if k == new {
                assert(ns[at as int] == k);
            }
            if ns.contains(k) {
                let j = choose|j: int| 0 <= j < ns.len() && ns[j] == k;
                if j < at {
                    assert(ts[j] == k);
                } else if j > at {
                    assert(ts[j - 1] == k);
                }
            }
        }
    }
}

/// Whether `sorted` holds what `all` holds, each entry once, in order.
pub open spec fn arranged(all: Seq<(Seq<char>, Seq<char>)>, sorted: Seq<(Seq<char>, Seq<char>)>) -> bool {
    &&& in_order(sorted)
    &&& forall|k: (Seq<char>, Seq<char>)| #[trigger] sorted.contains(k) <==> all.contains(k)
}

/// Orders entries and drops doubles.
pub fn sort_entries(list: &Vec<GithubWorkerPath>) -> (r: Vec<GithubWorkerPath>)
    ensures
        arranged(entries(list@), entries(r@)),
{
    let ghost all = entries(list@);
    let mut r: Vec<GithubWorkerPath> = Vec::new();
    let mut i: usize = 0;
    while i < list.len()
        invariant
            all == entries(list@),
            i <= list@.len(),
            in_order(entries(r@)),
            forall|k: (Seq<char>, Seq<char>)| #[trigger]
                entries(r@).contains(k) <==> all.take(i as int).contains(k),
        decreases list.len() - i,
    {
        let ghost before = entries(r@);
        insert_entry(&mut r, &list[i]);
        proof {
            let a = all.take(i as int);
            let b = all.take(i + 1);
            assert(b =~= a.push(all[i as int]));
            assert forall|k: (Seq<char>, Seq<char>)| #[trigger] entries(r@).contains(k) <==> b.contains(k) by {
                assert(entries(r@).contains(k) <==> before.contains(k) || k == all[i as int]);
                assert(before.contains(k) <==> a.contains(k));
                if a.contains(k) {
                    let j = choose|j: int| 0 <= j < a.len() && a[j] == k;
                    assert(b[j] == k);
                }
                if k == all[i as int] {
                    assert(b[i as int] == k);
                }
                if b.contains(k) {
                    let j = choose|j: int| 0 <= j < b.len() && b[j] == k;
                    if j < i {
                        assert(a[j] == k);
                    }
                }
            }
        }
        i += 1;
    }
    proof {
        assert(all.take(i as int) =~= all);
    }
    r
}

fn same_entries(a: &Vec<GithubWorkerPath>, b: &Vec<GithubWorkerPath>) -> (r: bool)
    ensures
        r == (entries(a@) == entries(b@)),
{
    if a.len() != b.len() {
        proof {
            assert(entries(a@).len() != entries(b@).len());
        }
        return false;
    }
    let mut i: usize = 0;
    while i < a.len()
        invariant
            a@.len() == b@.len(),
            i <= a@.len(),
            forall|j: int| 0 <= j < i ==> entry(#[trigger] a@[j]) == entry(b@[j]),
        decreases a.len() - i,
    {
        if !(text::same(a[i].path.as_str(), b[i].path.as_str()) && text::same(
            a[i].branch.as_str(),
            b[i].branch.as_str(),
        )) {
            proof {
                assert(entries(a@)[i as int] != entries(b@)[i as int]);
            }
            return false;
        }
        i += 1;
    }
    proof {
        assert(entries(a@) =~= entries(b@));
    }
    true
}

// ── What is asked ───────────────────────────────────────────────

/// The repository that a directory belongs to.
pub open spec fn repo_of(keys: Map<Seq<char>, String>, path: Seq<char>) -> Option<Seq<char>> {
    if keys.dom().contains(path) {
        Some(keys[path]@)
    } else {
        None
    }
}

/// What GitHub is asked of one repository.
#[derive(Debug)]
pub struct RepoBranches {
    /// A directory in the repository.
    pub root: String,
    pub branches: Vec<String>,
}

/// The directory of the first of `n` entries that belongs to a repository.
pub open spec fn first_in(
    es: Seq<(Seq<char>, Seq<char>)>,
    keys: Map<Seq<char>, String>,
    repo: Seq<char>,
    n: int,
) -> Option<Seq<char>>
    decreases n,
{
    if n <= 0 {
        None
    } else if first_in(es, keys, repo, n - 1) is Some {
        first_in(es, keys, repo, n - 1)
    } else if repo_of(keys, es[n - 1].0) == Some(repo) {
        Some(es[n - 1].0)
    } else {
        None
    }
}

/// Whether entry `i` asks about a branch of a repository.
pub open spec fn asks(
    es: Seq<(Seq<char>, Seq<char>)>,
    keys: Map<Seq<char>, String>,
    repo: Seq<char>,
    branch: Seq<char>,
    i: int,
) -> bool {
    repo_of(keys, es[i].0) == Some(repo) && es[i].1 == branch
}

/// Whether one of the first `n` entries asks about a branch of a repository.
pub open spec fn asked(
    es: Seq<(Seq<char>, Seq<char>)>,
    keys: Map<Seq<char>, String>,
    repo: Seq<char>,
    branch: Seq<char>,
    n: int,
) -> bool {
    exists|i: int| 0 <= i < n && #[trigger] asks(es, keys, repo, branch, i)
}

proof fn lemma_asked(
    es: Seq<(Seq<char>, Seq<char>)>,
    keys: Map<Seq<char>, String>,
    repo: Seq<char>,
    branch: Seq<char>,
    n: int,
)
    requires
        n >= 0,
    ensures
        asked(es, keys, repo, branch, n + 1) <==> asked(es, keys, repo, branch, n) || asks(es, keys, repo, branch, n),
{
    if asked(es, keys, repo, branch, n) {
        let i = choose|i: int| 0 <= i < n && #[trigger] asks(es, keys, repo, branch, i);
        assert(asks(es, keys, repo, branch, i));
    }
    if asks(es, keys, repo, branch, n) {
        assert(0 <= n < n + 1);
    }
}

/// Whether texts are in strict order.
pub open spec fn texts_in_order(ps: Seq<Seq<char>>) -> bool {
    forall|i: int, j: int| 0 <= i < j < ps.len() ==> text::order(#[trigger] ps[i], #[trigger] ps[j]) < 0
}

/// Whether a repository is asked about what the first `n` entries want to know of it: each branch
/// once, in order, through the directory of the first of them.
pub open spec fn asks_for(
    asked_of: Option<RepoBranches>,
    es: Seq<(Seq<char>, Seq<char>)>,
    keys: Map<Seq<char>, String>,
    repo: Seq<char>,
    n: int,
) -> bool {
    match asked_of {
        Some(q) => {
            &&& first_in(es, keys, repo, n) == Some(q.root@)
            &&& texts_in_order(text::texts(q.branches@))
            &&& forall|b: Seq<char>| #[trigger]
                text::texts(q.branches@).contains(b) <==> asked(es, keys, repo, b, n)
        },
        None => first_in(es, keys, repo, n) is None,
    }
}

fn insert_branch(list: &mut Vec<String>, branch: &str)
    requires
        texts_in_order(text::texts(old(list)@)),
    ensures
        texts_in_order(text::texts(final(list)@)),
        forall|k: Seq<char>| #[trigger]
            text::texts(final(list)@).contains(k) <==> text::texts(old(list)@).contains(k) || k == branch@,
{
    let ghost ts = text::texts(list@);
    let ghost new = branch@;
    let mut at: usize = 0;
    while at < list.len() && text::ordered(list[at].as_str(), branch) < 0
        invariant
            *list == *old(list),
            ts == text::texts(list@),
            new == branch@,
            at <= list@.len(),
            forall|j: int| 0 <= j < at ==> text::order(#[trigger] ts[j], new) < 0,
        decreases list@.len() - at,
    {
        at += 1;
    }
    if at < list.len() && text::same(list[at].as_str(), branch) {
        proof {
            assert(ts[at as int] == new);
        }
        return;
    }
    list.insert(at, branch.to_owned());
    proof {
        let ns = text::texts(list@);
        assert(ns =~= ts.insert(at as int, new));
        if at < ts.len() {
            text::lemma_order_total(ts[at as int], new);
        }
        assert forall|a: int, b: int| 0 <= a < b < ns.len() implies text::order(#[trigger] ns[a], #[trigger] ns[b])
            < 0 by {
            if b == at {
                assert(ns[a] == ts[a]);
            } else if a == at {
                assert(ns[b] == ts[b - 1]);
                if b - 1 > at {
                    text::lemma_order_transitive(new, ts[at as int], ts[b - 1]);
                    assert(text::order(ts[at as int], ts[b - 1]) < 0);
                }
            } else {
                let a0 = if a < at {
                    a
                } else {
                    a - 1
                };
                let b0 = if b < at {
                    b
                } else {
                    b - 1
                };
                assert(ns[a] == ts[a0] && ns[b] == ts[b0]);
            }
        }
        assert forall|k: Seq<char>| #[trigger] ns.contains(k) <==> ts.contains(k) || k == new by {
            if ts.contains(k) {
                let j = choose|j: int| 0 <= j < ts.len() && ts[j] == k;
                if j < at {
                    assert(ns[j] == k);
                } else {
                    assert(ns[j + 1] == k);
                }
            }
            if k == new {
                assert(ns[at as int] == k);
            }
            if ns.contains(k) {
                let j = choose|j: int| 0 <= j < ns.len() && ns[j] == k;
                if j < at {
                    assert(ts[j] == k);
                } else if j > at {
                    assert(ts[j - 1] == k);
                }
            }
        }
    }
}

/// Gathers, per repository, the branches that entries want to know of.
pub fn group_github_branches(list: &Vec<GithubWorkerPath>, repo_keys: &StrMap<String>) -> (r: StrMap<RepoBranches>)
    ensures
        forall|repo: Seq<char>|
            asks_for(
                #[trigger] collections::lookup(r@, repo),
                entries(list@),
                repo_keys@,
                repo,
                list@.len() as int,
            ),
{
    let ghost es = entries(list@);
    let mut r: StrMap<RepoBranches> = StrMap::new();
    let mut i: usize = 0;
    while i < list.len()
        invariant
            es == entries(list@),
            i <= list@.len(),
            forall|repo: Seq<char>|
                asks_for(#[trigger] collections::lookup(r@, repo), es, repo_keys@, repo, i as int),
        decreases list.len() - i,
    {
        let e = &list[i];
        let ghost before = r@;
        proof {
            assert(es[i as int] == entry(*e));
        }
        match repo_keys.get(e.path.as_str()) {
            Some(repo) => {
                proof {
                    assert(asks_for(collections::lookup(before, repo@), es, repo_keys@, repo@, i as int));
                }
                let (root, mut branches) = match r.remove(repo.as_str()) {
                    Some(q) => (q.root, q.branches),
                    None => (e.path.clone(), Vec::new()),
                };
                let ghost held = text::texts(branches@);
                proof {
                    assert forall|b: Seq<char>| #[trigger] held.contains(b) <==> asked(es, repo_keys@, repo@, b, i as int) by {
                        if collections::lookup(before, repo@) is None && asked(es, repo_keys@, repo@, b, i as int) {
                            lemma_first_exists(es, repo_keys@, repo@, b, i as int);
                        }
                    }
                }
                insert_branch(&mut branches, e.branch.as_str());
                let ghost now = text::texts(branches@);
                r.insert(repo.clone(), RepoBranches { root, branches });
                proof {
                    assert forall|other: Seq<char>|
                        asks_for(#[trigger] collections::lookup(r@, other), es, repo_keys@, other, i + 1) by {
                        if other == repo@ {
                            assert forall|b: Seq<char>| #[trigger]
                                now.contains(b) <==> asked(es, repo_keys@, other, b, i + 1) by {
                                lemma_asked(es, repo_keys@, other, b, i as int);
                                assert(held.contains(b) <==> asked(es, repo_keys@, repo@, b, i as int));
                            }
                        } else {
                            assert(asks_for(collections::lookup(before, other), es, repo_keys@, other, i as int));
                            assert(collections::lookup(r@, other) == collections::lookup(before, other));
                            assert forall|b: Seq<char>|
                                asked(es, repo_keys@, other, b, i as int) <==> #[trigger] asked(
                                    es,
                                    repo_keys@,
                                    other,
                                    b,
                                    i + 1,
                                ) by {
                                lemma_asked(es, repo_keys@, other, b, i as int);
                            }
                        }
                    }
                }
            },
            None => {
                proof {
                    assert forall|other: Seq<char>|
                        asks_for(#[trigger] collections::lookup(r@, other), es, repo_keys@, other, i + 1) by {
                        assert(asks_for(collections::lookup(before, other), es, repo_keys@, other, i as int));
                        assert forall|b: Seq<char>|
                            asked(es, repo_keys@, other, b, i as int) <==> #[trigger] asked(
                                es,
                                repo_keys@,
                                other,
                                b,
                                i + 1,
                            ) by {
                            lemma_asked(es, repo_keys@, other, b, i as int);
                        }
                    }
                }
            },
        }
        i += 1;
    }
    r
}

proof fn lemma_first_exists(
    es: Seq<(Seq<char>, Seq<char>)>,
    keys: Map<Seq<char>, String>,
    repo: Seq<char>,
    branch: Seq<char>,
    n: int,
)
    requires
        asked(es, keys, repo, branch, n),
    ensures
        first_in(es, keys, repo, n) is Some,
    decreases n,
{
    let i = choose|i: int| 0 <= i < n && #[trigger] asks(es, keys, repo, branch, i);
    if i < n - 1 {
        assert(asked(es, keys, repo, branch, n - 1));
        lemma_first_exists(es, keys, repo, branch, n - 1);
    }
}

/// Every branch that is checked out in a known repository is asked about.
pub proof fn law_active_branches_are_asked(
    es: Seq<(Seq<char>, Seq<char>)>,
    keys: Map<Seq<char>, String>,
    grouped: Map<Seq<char>, RepoBranches>,
    i: int,
)
    requires
        0 <= i < es.len(),
        keys.dom().contains(es[i].0),
        forall|repo: Seq<char>|
            asks_for(#[trigger] collections::lookup(grouped, repo), es, keys, repo, es.len() as int),
    ensures
        grouped.dom().contains(keys[es[i].0]@),
        text::texts(grouped[keys[es[i].0]@].branches@).contains(es[i].1),
{
    let repo = keys[es[i].0]@;
    assert(asks_for(collections::lookup(grouped, repo), es, keys, repo, es.len() as int));
    assert(asks(es, keys, repo, es[i].1, i));
    assert(asked(es, keys, repo, es[i].1, es.len() as int));
    lemma_first_exists(es, keys, repo, es[i].1, es.len() as int);
}

// ── What is known of directories ────────────────────────────────

/// A summary of a branch that can be copied.
pub trait Summary: Alike + Sized {
    fn copied(&self) -> (r: Self)
        ensures
            r == *self,
    ;
}

impl Summary for PrSummary {
    fn copied(&self) -> (r: Self) {
        self.clone()
    }
}

impl Summary for CheckSummary {
    fn copied(&self) -> (r: Self) {
        self.clone()
    }
}

/// What is known of the branch that is checked out in a directory.
pub trait PathEntry: Alike + Sized {
    type Known: Summary;

    spec fn parts(&self) -> (Seq<char>, Self::Known);

    fn make(branch: &str, known: &Self::Known) -> (r: Self)
        ensures
            r.parts() == (branch@, *known),
    ;

    proof fn lemma_alike(&self, other: &Self)
        ensures
            self.alike(other) <==> self.parts().0 == other.parts().0 && self.parts().1.alike(&other.parts().1),
    ;
}

impl Alike for PrPathEntry {
    open spec fn alike(&self, other: &Self) -> bool {
        self.branch@ == other.branch@ && self.summary.alike(&other.summary)
    }

    fn is_like(&self, other: &Self) -> (r: bool) {
        text::same(self.branch.as_str(), other.branch.as_str()) && self.summary.is_like(&other.summary)
    }
}

impl PathEntry for PrPathEntry {
    type Known = PrSummary;

    open spec fn parts(&self) -> (Seq<char>, PrSummary) {
        (self.branch@, self.summary)
    }

    fn make(branch: &str, known: &PrSummary) -> (r: Self) {
        PrPathEntry { branch: branch.to_owned(), summary: known.clone() }
    }

    proof fn lemma_alike(&self, other: &Self) {
    }
}

impl Alike for CheckPathEntry {
    open spec fn alike(&self, other: &Self) -> bool {
        self.branch@ == other.branch@ && self.summary.alike(&other.summary)
    }

    fn is_like(&self, other: &Self) -> (r: bool) {
        text::same(self.branch.as_str(), other.branch.as_str()) && self.summary.is_like(&other.summary)
    }
}

impl PathEntry for CheckPathEntry {
    type Known = CheckSummary;

    open spec fn parts(&self) -> (Seq<char>, CheckSummary) {
        (self.branch@, self.summary)
    }

    fn make(branch: &str, known: &CheckSummary) -> (r: Self) {
        CheckPathEntry { branch: branch.to_owned(), summary: known.clone() }
    }

    proof fn lemma_alike(&self, other: &Self) {
    }
}

/// What is known of a branch of a directory's repository.
pub open spec fn known<V>(
    keys: Map<Seq<char>, String>,
    cache: Map<Seq<char>, StrMap<V>>,
    path: Seq<char>,
    branch: Seq<char>,
) -> Option<V> {
    match repo_of(keys, path) {
        Some(repo) => if cache.dom().contains(repo) {
            collections::lookup(cache[repo]@, branch)
        } else {
            None
        },
        None => None,
    }
}

/// What the first `n` entries tell of a directory: the branch and what is known of it, from the
/// last entry of which anything is known.
pub open spec fn found<V>(
    es: Seq<(Seq<char>, Seq<char>)>,
    keys: Map<Seq<char>, String>,
    cache: Map<Seq<char>, StrMap<V>>,
    path: Seq<char>,
    n: int,
) -> Option<(Seq<char>, V)>
    decreases n,
{
    if n <= 0 {
        None
    } else if es[n - 1].0 == path && known(keys, cache, path, es[n - 1].1) is Some {
        Some((es[n - 1].1, known(keys, cache, path, es[n - 1].1)->0))
    } else {
        found(es, keys, cache, path, n - 1)
    }
}

/// An entry, taken apart.
pub open spec fn taken_apart<E: PathEntry>(e: Option<E>) -> Option<(Seq<char>, E::Known)> {
    match e {
        Some(e) => Some(e.parts()),
        None => None,
    }
}

/// Whether a directory shows what was found.
pub open spec fn agrees<E: PathEntry>(e: Option<E>, found: Option<(Seq<char>, E::Known)>) -> bool {
    match (taken_apart(e), found) {
        (Some(a), Some(b)) => a.0 == b.0 && a.1.alike(&b.1),
        (None, None) => true,
        _ => false,
    }
}

fn look_up_all<E: PathEntry>(
    list: &Vec<GithubWorkerPath>,
    repo_keys: &StrMap<String>,
    repo_cache: &StrMap<StrMap<E::Known>>,
) -> (r: StrMap<E>)
    ensures
        forall|p: Seq<char>|
            taken_apart(#[trigger] collections::lookup(r@, p)) == found(
                entries(list@),
                repo_keys@,
                repo_cache@,
                p,
                list@.len() as int,
            ),
{
    let ghost es = entries(list@);
    let mut r: StrMap<E> = StrMap::new();
    let mut i: usize = 0;
    while i < list.len()
        invariant
            es == entries(list@),
            i <= list@.len(),
            forall|p: Seq<char>|
                taken_apart(#[trigger] collections::lookup(r@, p)) == found(
                    es,
                    repo_keys@,
                    repo_cache@,
                    p,
                    i as int,
                ),
        decreases list.len() - i,
    {
        let e = &list[i];
        let ghost before = r@;
        proof {
            assert(es[i as int] == entry(*e));
        }
        match repo_keys.get(e.path.as_str()) {
            Some(repo) => match repo_cache.get(repo.as_str()) {
                Some(of_repo) => match of_repo.get(e.branch.as_str()) {
                    Some(v) => {
                        r.insert(e.path.clone(), E::make(e.branch.as_str(), v));
                    },
                    None => {},
                },
                None => {},
            },
            None => {},
        }
        proof {
            assert forall|p: Seq<char>|
                taken_apart(#[trigger] collections::lookup(r@, p)) == found(
                    es,
                    repo_keys@,
                    repo_cache@,
                    p,
                    i + 1,
                ) by {
                assert(taken_apart(collections::lookup(before, p)) == found(es, repo_keys@, repo_cache@, p, i as int));
            }
        }
        i += 1;
    }
    r
}

fn publish_path_cache<E: PathEntry>(
    list: &Vec<GithubWorkerPath>,
    repo_keys: &StrMap<String>,
    repo_cache: &StrMap<StrMap<E::Known>>,
    path_cache: &mut StrMap<E>,
) -> (r: bool)
    ensures
        shown_anew(entries(list@), repo_keys@, repo_cache@, old(path_cache)@, final(path_cache)@, r),
{
    let next: StrMap<E> = look_up_all(list, repo_keys, repo_cache);
    let ghost n = list@.len() as int;
    let ghost es = entries(list@);
    proof {
        let old_map = path_cache@;
        assert forall|p: Seq<char>| publish::maps_alike(old_map, next@) implies agrees(
            #[trigger] collections::lookup(old_map, p),
            found(es, repo_keys@, repo_cache@, p, n),
        ) by {
            assert(taken_apart(collections::lookup(next@, p)) == found(es, repo_keys@, repo_cache@, p, n));
            if old_map.dom().contains(p) {
                assert(next@.dom().contains(p));
                old_map[p].lemma_alike(&next@[p]);
            } else {
                assert(!next@.dom().contains(p));
            }
        }
        if forall|p: Seq<char>|
            agrees(#[trigger] collections::lookup(old_map, p), found(es, repo_keys@, repo_cache@, p, n)) {
            assert forall|p: Seq<char>|
                old_map.dom().contains(p) == next@.dom().contains(p) && (old_map.dom().contains(p)
                    ==> old_map[p].alike(&next@[p])) by {
                assert(agrees(collections::lookup(old_map, p), found(es, repo_keys@, repo_cache@, p, n)));
                assert(taken_apart(collections::lookup(next@, p)) == found(es, repo_keys@, repo_cache@, p, n));
                if old_map.dom().contains(p) {
                    old_map[p].lemma_alike(&next@[p]);
                }
            }
            assert(old_map.dom() =~= next@.dom());
            assert(publish::maps_alike(old_map, next@));
        }
    }
    if publish::same_maps(&*path_cache, &next) {
        false
    } else {
        *path_cache = next;
        true
    }
}

/// How the summaries of directories are shown anew: unless every directory shows what was found
/// already, all are replaced by what was found.
pub open spec fn shown_anew<E: PathEntry>(
    es: Seq<(Seq<char>, Seq<char>)>,
    keys: Map<Seq<char>, String>,
    cache: Map<Seq<char>, StrMap<E::Known>>,
    before: Map<Seq<char>, E>,
    after: Map<Seq<char>, E>,
    changed: bool,
) -> bool {
    let current = forall|p: Seq<char>|
        agrees(#[trigger] collections::lookup(before, p), found(es, keys, cache, p, es.len() as int));
    &&& changed == !current
    &&& !changed ==> after == before
    &&& changed ==> forall|p: Seq<char>|
        taken_apart(#[trigger] collections::lookup(after, p)) == found(es, keys, cache, p, es.len() as int)
}

/// Shows the pull requests of directories. Returns whether that changed anything.
pub fn publish_pr_path_cache(
    list: &Vec<GithubWorkerPath>,
    repo_keys: &StrMap<String>,
    repo_cache: &StrMap<StrMap<PrSummary>>,
    path_cache: &mut StrMap<PrPathEntry>,
) -> (r: bool)
    ensures
        shown_anew(entries(list@), repo_keys@, repo_cache@, old(path_cache)@, final(path_cache)@, r),
{
    publish_path_cache(list, repo_keys, repo_cache, path_cache)
}

/// Shows the checks of directories. Returns whether that changed anything.
pub fn publish_check_path_cache(
    list: &Vec<GithubWorkerPath>,
    repo_keys: &StrMap<String>,
    repo_cache: &StrMap<StrMap<CheckSummary>>,
    path_cache: &mut StrMap<CheckPathEntry>,
) -> (r: bool)
    ensures
        shown_anew(entries(list@), repo_keys@, repo_cache@, old(path_cache)@, final(path_cache)@, r),
{
    publish_path_cache(list, repo_keys, repo_cache, path_cache)
}

proof fn lemma_found<V>(
    es: Seq<(Seq<char>, Seq<char>)>,
    keys: Map<Seq<char>, String>,
    cache: Map<Seq<char>, StrMap<V>>,
    path: Seq<char>,
    n: int,
)
    requires
        n <= es.len(),
        found(es, keys, cache, path, n) is Some,
    ensures
        es.contains((path, (found(es, keys, cache, path, n)->0).0)),
        known(keys, cache, path, (found(es, keys, cache, path, n)->0).0) == Some((found(es, keys, cache, path, n)->0).1),
    decreases n,
{
    if !(es[n - 1].0 == path && known(keys, cache, path, es[n - 1].1) is Some) {
        lemma_found(es, keys, cache, path, n - 1);
    } else {
        assert(es[n - 1] == (path, es[n - 1].1));
    }
}

/// What a directory shows belongs to a branch that is checked out there, and is what is known of
/// that branch.
pub proof fn law_summaries_fit_the_branch<E: PathEntry>(
    es: Seq<(Seq<char>, Seq<char>)>,
    keys: Map<Seq<char>, String>,
    cache: Map<Seq<char>, StrMap<E::Known>>,
    before: Map<Seq<char>, E>,
    after: Map<Seq<char>, E>,
    path: Seq<char>,
)
    requires
        shown_anew(es, keys, cache, before, after, true),
        after.dom().contains(path),
    ensures
        es.contains((path, after[path].parts().0)),
        known(keys, cache, path, after[path].parts().0) == Some(after[path].parts().1),
{
    assert(taken_apart(collections::lookup(after, path)) == found(es, keys, cache, path, es.len() as int));
    lemma_found(es, keys, cache, path, es.len() as int);
}

fn clear<V>(cache: &mut StrMap<V>) -> (r: bool)
    ensures
        r == (old(cache)@ != Map::<Seq<char>, V>::empty()),
        final(cache)@ == Map::<Seq<char>, V>::empty(),
{
    let changed = !cache.is_empty();
    *cache = StrMap::new();
    changed
}

/// Forgets the pull requests of directories. Returns whether there were any.
pub fn clear_pr_path_cache(path_cache: &mut StrMap<PrPathEntry>) -> (r: bool)
    ensures
        r == (old(path_cache)@ != Map::<Seq<char>, PrPathEntry>::empty()),
        final(path_cache)@ == Map::<Seq<char>, PrPathEntry>::empty(),
{
    clear(path_cache)
}

/// Forgets the checks of directories. Returns whether there were any.
pub fn clear_check_path_cache(path_cache: &mut StrMap<CheckPathEntry>) -> (r: bool)
    ensures
        r == (old(path_cache)@ != Map::<Seq<char>, CheckPathEntry>::empty()),
        final(path_cache)@ == Map::<Seq<char>, CheckPathEntry>::empty(),
{
    clear(path_cache)
}

// ── What GitHub answers ─────────────────────────────────────────

/// What GitHub says of a branch.
#[derive(Debug)]
pub struct BranchSummary {
    pub pr: Option<PrSummary>,
    pub checks: Option<CheckSummary>,
}

/// What came of a question about branches. Not every branch that was asked about is answered.
pub struct BranchQueryOutcome {
    pub requested: StrSet,
    pub answered: StrMap<BranchSummary>,
}

/// What is known of a branch once an answer came: what the answer says; else, what was known before,
/// where the branch was asked about.
pub open spec fn merged<V>(
    before: Map<Seq<char>, V>,
    requested: Set<Seq<char>>,
    answered: bool,
    answer: Option<V>,
    branch: Seq<char>,
) -> Option<V> {
    if answered {
        answer
    } else if requested.contains(branch) {
        collections::lookup(before, branch)
    } else {
        None
    }
}

/// What an answer says of a branch's pull request.
pub open spec fn pr_answer(answered: Map<Seq<char>, BranchSummary>, branch: Seq<char>) -> Option<PrSummary> {
    if answered.dom().contains(branch) {
        answered[branch].pr
    } else {
        None
    }
}

/// What an answer says of a branch's checks.
pub open spec fn check_answer(answered: Map<Seq<char>, BranchSummary>, branch: Seq<char>) -> Option<CheckSummary> {
    if answered.dom().contains(branch) {
        answered[branch].checks
    } else {
        None
    }
}

/// Brings what is known of a repository's branches up to date.
pub fn merge_github_outcome(
    prs: StrMap<PrSummary>,
    checks: StrMap<CheckSummary>,
    outcome: &BranchQueryOutcome,
) -> (r: (StrMap<PrSummary>, StrMap<CheckSummary>))
    ensures
        forall|b: Seq<char>| #[trigger]
            collections::lookup(r.0@, b) == merged(
                prs@,
                outcome.requested@,
                outcome.answered@.dom().contains(b),
                pr_answer(outcome.answered@, b),
                b,
            ),
        forall|b: Seq<char>| #[trigger]
            collections::lookup(r.1@, b) == merged(
                checks@,
                outcome.requested@,
                outcome.answered@.dom().contains(b),
                check_answer(outcome.answered@, b),
                b,
            ),
{
    let ghost prs_before = prs@;
    let ghost checks_before = checks@;
    let mut prs = prs;
    let mut checks = checks;
    prs.retain_in(&outcome.requested);
    checks.retain_in(&outcome.requested);
    let n: usize = outcome.answered.len();
    let ghost keys = outcome.answered.keys();
    let ghost answered = outcome.answered@;
    let mut i: usize = 0;
    proof {
        collections::lemma_met(keys, 0);
    }
    while i < n
        invariant
            n == keys.len(),
            keys == outcome.answered.keys(),
            answered == outcome.answered@,
            i <= n,
            forall|b: Seq<char>| #[trigger]
                collections::lookup(prs@, b) == merged(
                    prs_before,
                    outcome.requested@,
                    collections::met(keys, i as int, b),
                    pr_answer(answered, b),
                    b,
                ),
            forall|b: Seq<char>| #[trigger]
                collections::lookup(checks@, b) == merged(
                    checks_before,
                    outcome.requested@,
                    collections::met(keys, i as int, b),
                    check_answer(answered, b),
                    b,
                ),
        decreases n - i,
    {
        let branch = outcome.answered.key_at(i);
        let summary = outcome.answered.value_at(i);
        let ghost prs_mid = prs@;
        let ghost checks_mid = checks@;
        proof {
            collections::lemma_met(keys, i as int);
        }
        let pr = match &summary.pr {
            Some(pr) => Some(pr.clone()),
            None => None,
        };
        let check = match &summary.checks {
            Some(check) => Some(check.clone()),
            None => None,
        };
        prs.put(branch.as_str(), pr);
        checks.put(branch.as_str(), check);
        proof {
            assert forall|b: Seq<char>| #[trigger]
                collections::lookup(prs@, b) == merged(
                    prs_before,
                    outcome.requested@,
                    collections::met(keys, i + 1, b),
                    pr_answer(answered, b),
                    b,
                ) by {
                assert(collections::lookup(prs_mid, b) == collections::lookup(prs_mid, b));
            }
            assert forall|b: Seq<char>| #[trigger]
                collections::lookup(checks@, b) == merged(
                    checks_before,
                    outcome.requested@,
                    collections::met(keys, i + 1, b),
                    check_answer(answered, b),
                    b,
                ) by {
                assert(collections::lookup(checks_mid, b) == collections::lookup(checks_mid, b));
            }
        }
        i += 1;
    }
    proof {
        outcome.answered.lemma_keys();
        collections::lemma_met(keys, n as int);
        assert forall|b: Seq<char>| collections::met(keys, n as int, b) == answered.dom().contains(b) by {
            assert(keys.contains(b) <==> answered.dom().contains(b));
        }
    }
    (prs, checks)
}

// ── The worker ──────────────────────────────────────────────────

/// The state of the GitHub worker.
pub struct GithubWorker {
    /// The directories in question, in order.
    pub active: Vec<GithubWorkerPath>,
    /// The repository of each directory.
    pub repo_keys: StrMap<String>,
    /// The directories that GitHub was last asked for.
    pub last_key: Vec<GithubWorkerPath>,
    pub last_fetch: u64,
    /// What is known of branches, per repository.
    pub prs: StrMap<StrMap<PrSummary>>,
    pub checks: StrMap<StrMap<CheckSummary>>,
}

/// What is known of a repository's branches.
pub open spec fn branches_of<V>(cache: Map<Seq<char>, StrMap<V>>, repo: Seq<char>) -> Map<Seq<char>, V> {
    if cache.dom().contains(repo) {
        cache[repo]@
    } else {
        Map::empty()
    }
}

/// Whether what is known of a repository's pull requests was brought up to date by an answer. No
/// empty record is kept.
pub open spec fn prs_updated(
    before: Map<Seq<char>, StrMap<PrSummary>>,
    after: Map<Seq<char>, StrMap<PrSummary>>,
    outcome: BranchQueryOutcome,
    repo: Seq<char>,
) -> bool {
    &&& after.dom().contains(repo) ==> after[repo]@ != Map::<Seq<char>, PrSummary>::empty()
    &&& forall|b: Seq<char>| #[trigger]
        collections::lookup(branches_of(after, repo), b) == merged(
            branches_of(before, repo),
            outcome.requested@,
            outcome.answered@.dom().contains(b),
            pr_answer(outcome.answered@, b),
            b,
        )
}

/// Whether what is known of a repository's checks was brought up to date by an answer. No empty
/// record is kept.
pub open spec fn checks_updated(
    before: Map<Seq<char>, StrMap<CheckSummary>>,
    after: Map<Seq<char>, StrMap<CheckSummary>>,
    outcome: BranchQueryOutcome,
    repo: Seq<char>,
) -> bool {
    &&& after.dom().contains(repo) ==> after[repo]@ != Map::<Seq<char>, CheckSummary>::empty()
    &&& forall|b: Seq<char>| #[trigger]
        collections::lookup(branches_of(after, repo), b) == merged(
            branches_of(before, repo),
            outcome.requested@,
            outcome.answered@.dom().contains(b),
            check_answer(outcome.answered@, b),
            b,
        )
}

/// Whether a repository's record follows from the answers: brought up to date where there is one,
/// unchanged elsewhere.
pub open spec fn follows(
    before: GithubWorker,
    after: GithubWorker,
    outcomes: Map<Seq<char>, BranchQueryOutcome>,
    repo: Seq<char>,
    answered: bool,
) -> bool {
    if answered {
        &&& prs_updated(before.prs@, after.prs@, outcomes[repo], repo)
        &&& checks_updated(before.checks@, after.checks@, outcomes[repo], repo)
    } else {
        &&& collections::lookup(after.prs@, repo) == collections::lookup(before.prs@, repo)
        &&& collections::lookup(after.checks@, repo) == collections::lookup(before.checks@, repo)
    }
}

/// Whether an entry is about a directory.
pub open spec fn about(es: Seq<(Seq<char>, Seq<char>)>, path: Seq<char>) -> bool {
    exists|i: int| 0 <= i < es.len() && (#[trigger] es[i]).0 == path
}

impl GithubWorker {
    pub fn new(prs: StrMap<StrMap<PrSummary>>, checks: StrMap<StrMap<CheckSummary>>, now: u64) -> (r: Self)
        ensures
            r.active@.len() == 0,
            r.repo_keys@ == Map::<Seq<char>, String>::empty(),
            r.last_key@.len() == 0,
            r.last_fetch == gitloop::back(now, GITHUB_FETCH_INTERVAL),
            r.prs == prs,
            r.checks == checks,
    {
        GithubWorker {
            active: Vec::new(),
            repo_keys: StrMap::new(),
            last_key: Vec::new(),
            last_fetch: now.saturating_sub(GITHUB_FETCH_INTERVAL),
            prs,
            checks,
        }
    }

    /// Takes the latest list of directories, if one came. Returns whether one did.
    pub fn receive(&mut self, latest: Option<Vec<GithubWorkerPath>>) -> (r: bool)
        ensures
            r == latest is Some,
            match latest {
                Some(list) => arranged(entries(list@), entries(final(self).active@)),
                None => final(self).active == old(self).active,
            },
            *final(self) == (GithubWorker { active: final(self).active, ..*old(self) }),
    {
        match latest {
            Some(list) => {
                self.active = sort_entries(&list);
                true
            },
            None => false,
        }
    }

    /// Where there are no directories, there is nothing to do but to show nothing. Returns whether
    /// that changed anything.
    pub fn idle(
        &self,
        paths_changed: bool,
        pr_paths: &mut StrMap<PrPathEntry>,
        check_paths: &mut StrMap<CheckPathEntry>,
    ) -> (r: Option<bool>)
        ensures
            r is Some <==> self.active@.len() == 0,
            self.active@.len() == 0 && paths_changed ==> {
                &&& r == Some(
                    old(pr_paths)@ != Map::<Seq<char>, PrPathEntry>::empty() || old(check_paths)@ != Map::<
                        Seq<char>,
                        CheckPathEntry,
                    >::empty(),
                )
                &&& final(pr_paths)@ == Map::<Seq<char>, PrPathEntry>::empty()
                &&& final(check_paths)@ == Map::<Seq<char>, CheckPathEntry>::empty()
            },
            !(self.active@.len() == 0 && paths_changed) ==> {
                &&& r != Some(true)
                &&& *final(pr_paths) == *old(pr_paths)
                &&& *final(check_paths) == *old(check_paths)
            },
    {
        if self.active.len() > 0 {
            return None;
        }
        if !paths_changed {
            return Some(false);
        }
        let prs_gone = clear_pr_path_cache(pr_paths);
        let checks_gone = clear_check_path_cache(check_paths);
        Some(prs_gone || checks_gone)
    }

    /// Forgets the repositories of directories that are not in question any more. Returns the
    /// directories whose repository is not known.
    pub fn undiscovered(&mut self) -> (r: StrSet)
        ensures
            forall|p: Seq<char>| #[trigger]
                collections::lookup(final(self).repo_keys@, p) == (if about(entries(old(self).active@), p) {
                    collections::lookup(old(self).repo_keys@, p)
                } else {
                    None
                }),
            forall|p: Seq<char>| #[trigger]
                r@.contains(p) <==> about(entries(old(self).active@), p) && !old(self).repo_keys@.dom().contains(p),
            *final(self) == (GithubWorker { repo_keys: final(self).repo_keys, ..*old(self) }),
    {
        let ghost es = entries(self.active@);
        let mut keep = StrSet::new();
        let mut r = StrSet::new();
        let mut i: usize = 0;
        while i < self.active.len()
            invariant
                es == entries(self.active@),
                *self == *old(self),
                i <= self.active@.len(),
                forall|p: Seq<char>| #[trigger]
                    keep@.contains(p) <==> exists|j: int| 0 <= j < i && (#[trigger] es[j]).0 == p,
                forall|p: Seq<char>| #[trigger]
                    r@.contains(p) <==> keep@.contains(p) && !self.repo_keys@.dom().contains(p),
            decreases self.active.len() - i,
        {
            let ghost before = keep@;
            let path = &self.active[i].path;
            proof {
                assert(es[i as int].0 == path@);
            }
            keep.insert(path.clone());
            if !self.repo_keys.contains_key(path.as_str()) {
                r.insert(path.clone());
            }
            proof {
                assert forall|p: Seq<char>| #[trigger]
                    keep@.contains(p) <==> exists|j: int| 0 <= j < i + 1 && (#[trigger] es[j]).0 == p by {
                    if before.contains(p) {
                        let j = choose|j: int| 0 <= j < i && (#[trigger] es[j]).0 == p;
                        assert(es[j].0 == p);
                    }
                    if p == path@ {
                        assert(es[i as int].0 == p);
                    }
                }
            }
            i += 1;
        }
        self.repo_keys.retain_in(&keep);
        proof {
            assert forall|p: Seq<char>| #[trigger] keep@.contains(p) <==> about(es, p) by {}
        }
        r
    }

    /// Takes over the repositories that were found for directories.
    pub fn discover(&mut self, discovered: &StrMap<String>)
        ensures
            forall|p: Seq<char>| #[trigger]
                collections::lookup(final(self).repo_keys@, p) == (if discovered@.dom().contains(p) {
                    Some(discovered@[p])
                } else {
                    collections::lookup(old(self).repo_keys@, p)
                }),
            *final(self) == (GithubWorker { repo_keys: final(self).repo_keys, ..*old(self) }),
    {
        let n: usize = discovered.len();
        let ghost keys = discovered.keys();
        let ghost before = self.repo_keys@;
        let mut i: usize = 0;
        proof {
            collections::lemma_met(keys, 0);
        }
        while i < n
            invariant
                n == keys.len(),
                keys == discovered.keys(),
                i <= n,
                before == old(self).repo_keys@,
                forall|p: Seq<char>| #[trigger]
                    collections::lookup(self.repo_keys@, p) == (if collections::met(keys, i as int, p) {
                        Some(discovered@[p])
                    } else {
                        collections::lookup(before, p)
                    }),
                *self == (GithubWorker { repo_keys: self.repo_keys, ..*old(self) }),
            decreases n - i,
        {
            let ghost mid = self.repo_keys@;
            proof {
                collections::lemma_met(keys, i as int);
            }
            self.repo_keys.insert(discovered.key_at(i).clone(), discovered.value_at(i).clone());
            proof {
                assert forall|p: Seq<char>| #[trigger]
                    collections::lookup(self.repo_keys@, p) == (if collections::met(keys, i + 1, p) {
                        Some(discovered@[p])
                    } else {
                        collections::lookup(before, p)
                    }) by {
                    assert(collections::lookup(mid, p) == collections::lookup(mid, p));
                }
            }
            i += 1;
        }
        proof {
            discovered.lemma_keys();
            collections::lemma_met(keys, n as int);
            assert forall|p: Seq<char>| collections::met(keys, n as int, p) == discovered@.dom().contains(p) by {
                assert(keys.contains(p) <==> discovered@.dom().contains(p));
            }
        }
    }

    /// Shows what is known of the directories. Returns whether that changed anything.
    pub fn show(&self, pr_paths: &mut StrMap<PrPathEntry>, check_paths: &mut StrMap<CheckPathEntry>) -> (r: bool)
        ensures
            exists|prs_changed: bool, checks_changed: bool|
                #![trigger shown_anew(
                    entries(self.active@),
                    self.repo_keys@,
                    self.prs@,
                    old(pr_paths)@,
                    final(pr_paths)@,
                    prs_changed,
                ), shown_anew(
                    entries(self.active@),
                    self.repo_keys@,
                    self.checks@,
                    old(check_paths)@,
                    final(check_paths)@,
                    checks_changed,
                )]
                shown_anew(
                    entries(self.active@),
                    self.repo_keys@,
                    self.prs@,
                    old(pr_paths)@,
                    final(pr_paths)@,
                    prs_changed,
                ) && shown_anew(
                    entries(self.active@),
                    self.repo_keys@,
                    self.checks@,
                    old(check_paths)@,
                    final(check_paths)@,
                    checks_changed,
                ) && r == (prs_changed || checks_changed),
    {
        let prs_changed = publish_pr_path_cache(&self.active, &self.repo_keys, &self.prs, pr_paths);
        let checks_changed = publish_check_path_cache(&self.active, &self.repo_keys, &self.checks, check_paths);
        prs_changed || checks_changed
    }

    /// Whether GitHub is to be asked.
    pub open spec fn due(&self, now: u64) -> bool {
        entries(self.active@) != entries(self.last_key@) || gitloop::since(self.last_fetch, now)
            >= GITHUB_FETCH_INTERVAL
    }

    /// What GitHub is to be asked now, per repository.
    pub fn requests(&mut self, now: u64) -> (r: Option<StrMap<RepoBranches>>)
        ensures
            !old(self).due(now) ==> r is None && *final(self) == *old(self),
            old(self).due(now) ==> {
                let es = entries(old(self).active@);
                let keys = old(self).repo_keys@;
                match r {
                    Some(asked_of) => {
                        &&& asked_of@ != Map::<Seq<char>, RepoBranches>::empty()
                        &&& forall|repo: Seq<char>|
                            asks_for(
                                #[trigger] collections::lookup(asked_of@, repo),
                                es,
                                keys,
                                repo,
                                es.len() as int,
                            )
                        &&& *final(self) == *old(self)
                    },
                    None => {
                        &&& forall|repo: Seq<char>| #[trigger] first_in(es, keys, repo, es.len() as int) is None
                        &&& entries(final(self).last_key@) == es
                        &&& *final(self) == (GithubWorker { last_key: final(self).last_key, ..*old(self) })
                    },
                }
            },
    {
        let changed = !same_entries(&self.active, &self.last_key);
        if !github_fetch_due(changed, now.saturating_sub(self.last_fetch)) {
            return None;
        }
        let asked_of = group_github_branches(&self.active, &self.repo_keys);
        if asked_of.is_empty() {
            proof {
                let es = entries(self.active@);
                assert forall|repo: Seq<char>| #[trigger]
                    first_in(es, self.repo_keys@, repo, es.len() as int) is None by {
                    assert(asks_for(
                        collections::lookup(asked_of@, repo),
                        es,
                        self.repo_keys@,
                        repo,
                        es.len() as int,
                    ));
                }
            }
            self.last_key = copy_entries(&self.active);
            return None;
        }
        Some(asked_of)
    }

    /// Takes over what GitHub answered for one repository.
    fn take_answer(&mut self, repo: &str, outcome: &BranchQueryOutcome)
        ensures
            prs_updated(old(self).prs@, final(self).prs@, *outcome, repo@),
            checks_updated(old(self).checks@, final(self).checks@, *outcome, repo@),
            forall|k: Seq<char>|
                k != repo@ ==> #[trigger] collections::lookup(final(self).prs@, k) == collections::lookup(
                    old(self).prs@,
                    k,
                ),
            forall|k: Seq<char>|
                k != repo@ ==> #[trigger] collections::lookup(final(self).checks@, k) == collections::lookup(
                    old(self).checks@,
                    k,
                ),
            *final(self) == (GithubWorker { prs: final(self).prs, checks: final(self).checks, ..*old(self) }),
    {
        let prs = match self.prs.remove(repo) {
            Some(prs) => prs,
            None => StrMap::new(),
        };
        let checks = match self.checks.remove(repo) {
            Some(checks) => checks,
            None => StrMap::new(),
        };
        let (prs, checks) = merge_github_outcome(prs, checks, outcome);
        if !prs.is_empty() {
            self.prs.insert(repo.to_owned(), prs);
        }
        if !checks.is_empty() {
            self.checks.insert(repo.to_owned(), checks);
        }
    }

    /// Takes over what GitHub answered.
    pub fn take_answers(&mut self, outcomes: &StrMap<BranchQueryOutcome>, now: u64)
        ensures
            forall|repo: Seq<char>| #[trigger]
                follows(*old(self), *final(self), outcomes@, repo, outcomes@.dom().contains(repo)),
            entries(final(self).last_key@) == entries(old(self).active@),
            final(self).last_fetch == now,
            *final(self) == (GithubWorker {
                prs: final(self).prs,
                checks: final(self).checks,
                last_key: final(self).last_key,
                last_fetch: final(self).last_fetch,
                ..*old(self)
            }),
    {
        let n: usize = outcomes.len();
        let ghost keys = outcomes.keys();
        let ghost before = *self;
        let mut i: usize = 0;
        outcomes.check_distinct();
        proof {
            collections::lemma_met(keys, 0);
        }
        while i < n
            invariant
                n == keys.len(),
                keys == outcomes.keys(),
                keys.no_duplicates(),
                i <= n,
                before == *old(self),
                forall|repo: Seq<char>| #[trigger]
                    follows(before, *self, outcomes@, repo, collections::met(keys, i as int, repo)),
                *self == (GithubWorker { prs: self.prs, checks: self.checks, ..*old(self) }),
            decreases n - i,
        {
            let repo = outcomes.key_at(i);
            let ghost mid = *self;
            proof {
                collections::lemma_met(keys, i as int);
                assert(!collections::met(keys, i as int, repo@));
                assert(follows(before, mid, outcomes@, repo@, collections::met(keys, i as int, repo@)));
                assert(branches_of(mid.prs@, repo@) == branches_of(before.prs@, repo@));
                assert(branches_of(mid.checks@, repo@) == branches_of(before.checks@, repo@));
            }
            self.take_answer(repo.as_str(), outcomes.value_at(i));
            proof {
                assert forall|k: Seq<char>| #[trigger]
                    follows(before, *self, outcomes@, k, collections::met(keys, i + 1, k)) by {
                    assert(follows(before, mid, outcomes@, k, collections::met(keys, i as int, k)));
                    if k != repo@ {
                        assert(collections::lookup(self.prs@, k) == collections::lookup(mid.prs@, k));
                        assert(collections::lookup(self.checks@, k) == collections::lookup(mid.checks@, k));
                        assert(branches_of(mid.prs@, k) == branches_of(self.prs@, k));
                        assert(branches_of(mid.checks@, k) == branches_of(self.checks@, k));
                    }
                }
            }
            i += 1;
        }
        proof {
            outcomes.lemma_keys();
            collections::lemma_met(keys, n as int);
        }
        let ghost updated = *self;
        self.last_key = copy_entries(&self.active);
        self.last_fetch = now;
        proof {
            assert forall|repo: Seq<char>| #[trigger]
                follows(before, *self, outcomes@, repo, outcomes@.dom().contains(repo)) by {
                assert(keys.contains(repo) <==> outcomes@.dom().contains(repo));
                assert(follows(before, updated, outcomes@, repo, collections::met(keys, n as int, repo)));
            }
        }
    }
}

fn copy_entries(list: &Vec<GithubWorkerPath>) -> (r: Vec<GithubWorkerPath>)
    ensures
        entries(r@) == entries(list@),
{
    let mut r: Vec<GithubWorkerPath> = Vec::new();
    let mut i: usize = 0;
    while i < list.len()
        invariant
            i <= list@.len(),
            r@ =~= list@.take(i as int),
        decreases list.len() - i,
    {
        r.push(list[i].clone());
        i += 1;
    }
    proof {
        assert(r@ =~= list@);
    }
    r
}

/// Once GitHub answered, and unless the branches change, it is asked again after the interval and no
/// sooner.
pub proof fn law_fetches_are_spaced(worker: GithubWorker, now: u64)
    requires
        entries(worker.active@) == entries(worker.last_key@),
    ensures
        worker.due(now) <==> now - worker.last_fetch >= GITHUB_FETCH_INTERVAL,
{
}

/// A branch without an answer keeps its summaries where it was asked about, and is forgotten where
/// it was not.
pub proof fn law_failures_keep_what_is_known(
    before: GithubWorker,
    after: GithubWorker,
    outcomes: Map<Seq<char>, BranchQueryOutcome>,
    repo: Seq<char>,
    branch: Seq<char>,
)
    requires
        follows(before, after, outcomes, repo, true),
        !outcomes[repo].answered@.dom().contains(branch),
    ensures
        collections::lookup(branches_of(after.prs@, repo), branch) == (if outcomes[repo].requested@.contains(branch) {
            collections::lookup(branches_of(before.prs@, repo), branch)
        } else {
            None
        }),
        collections::lookup(branches_of(after.checks@, repo), branch) == (if outcomes[repo].requested@.contains(branch) {
            collections::lookup(branches_of(before.checks@, repo), branch)
        } else {
            None
        }),
{
}

// ── What the answers come to ────────────────────────────────────

/// GitHub is asked at once where a branch came or went, and every half minute else.
pub proof fn law_new_branches_are_asked_at_once(worker: GithubWorker, now: u64)
    ensures
        entries(worker.active@) != entries(worker.last_key@) ==> worker.due(now),
        now >= worker.last_fetch + 30_000_000_000 ==> worker.due(now),
        entries(worker.active@) == entries(worker.last_key@) && now < worker.last_fetch + 30_000_000_000 ==> !worker.due(
            now,
        ),
{
}

/// What an answer says of a branch is taken over, also where it says that there is nothing. A branch
/// without an answer keeps what was known where it was asked about, and loses it where it was not.
pub proof fn law_answers_are_taken_over<V>(
    before: Map<Seq<char>, V>,
    requested: Set<Seq<char>>,
    answer: Option<V>,
    branch: Seq<char>,
)
    ensures
        merged(before, requested, true, answer, branch) == answer,
        requested.contains(branch) && before.dom().contains(branch) ==> merged(before, requested, false, answer, branch)
            == Some(before[branch]),
        requested.contains(branch) && !before.dom().contains(branch) ==> merged(
            before,
            requested,
            false,
            answer,
            branch,
        ) is None,
        !requested.contains(branch) ==> merged(before, requested, false, answer, branch) is None,
{
}

/// A branch's pull request and its checks are told apart, and neither is told of a branch that was not
/// answered.
pub proof fn law_answers_are_told_apart(answered: Map<Seq<char>, BranchSummary>, branch: Seq<char>)
    ensures
        answered.dom().contains(branch) ==> pr_answer(answered, branch) == answered[branch].pr && check_answer(
            answered,
            branch,
        ) == answered[branch].checks,
        !answered.dom().contains(branch) ==> pr_answer(answered, branch) is None && check_answer(answered, branch) is None,
{
}

proof fn lemma_found_some<V>(
    es: Seq<(Seq<char>, Seq<char>)>,
    keys: Map<Seq<char>, String>,
    cache: Map<Seq<char>, StrMap<V>>,
    path: Seq<char>,
    n: int,
)
    requires
        0 <= n <= es.len(),
    ensures
        found(es, keys, cache, path, n) is None <==> forall|i: int|
            0 <= i < n && (#[trigger] es[i]).0 == path ==> known(keys, cache, path, es[i].1) is None,
    decreases n,
{
    if n > 0 {
        lemma_found_some(es, keys, cache, path, n - 1);
        assert(es[n - 1] == es[n - 1]);
    }
}

/// A directory shows something exactly where something is known of a branch that is checked out there:
/// in the repository that the directory belongs to, under that very branch.
pub proof fn law_directories_show_what_is_known<V>(
    es: Seq<(Seq<char>, Seq<char>)>,
    keys: Map<Seq<char>, String>,
    cache: Map<Seq<char>, StrMap<V>>,
    path: Seq<char>,
    i: int,
)
    requires
        0 <= i < es.len(),
        es[i].0 == path,
        forall|j: int| 0 <= j < es.len() && j != i ==> (#[trigger] es[j]).0 != path,
    ensures
        ({
            let r = found(es, keys, cache, path, es.len() as int);
            let told = keys.dom().contains(path) && cache.dom().contains(keys[path]@) && cache[keys[path]@]@.dom().contains(
                es[i].1,
            );
            &&& r is Some <==> told
            &&& told ==> r == Some((es[i].1, cache[keys[path]@]@[es[i].1]))
        }),
{
    lemma_found_some(es, keys, cache, path, es.len() as int);
    let r = found(es, keys, cache, path, es.len() as int);
    if r is Some {
        lemma_found(es, keys, cache, path, es.len() as int);
        let b = (r->0).0;
        let j = choose|j: int| 0 <= j < es.len() && es[j] == (path, b);
        assert(es[j].0 == path);
        assert(j == i);
    }
}

proof fn lemma_first_in(es: Seq<(Seq<char>, Seq<char>)>, keys: Map<Seq<char>, String>, repo: Seq<char>, n: int)
    requires
        0 <= n <= es.len(),
    ensures
        match first_in(es, keys, repo, n) {
            Some(p) => exists|i: int|
                0 <= i < n && (#[trigger] es[i]).0 == p && repo_of(keys, p) == Some(repo) && forall|j: int|
                    0 <= j < i ==> repo_of(keys, (#[trigger] es[j]).0) != Some(repo),
            None => forall|j: int| 0 <= j < n ==> repo_of(keys, (#[trigger] es[j]).0) != Some(repo),
        },
    decreases n,
{
    if n > 0 {
        lemma_first_in(es, keys, repo, n - 1);
        if first_in(es, keys, repo, n - 1) is Some {
            let p = first_in(es, keys, repo, n - 1)->0;
            let i = choose|i: int|
                0 <= i < n - 1 && (#[trigger] es[i]).0 == p && repo_of(keys, p) == Some(repo) && forall|j: int|
                    0 <= j < i ==> repo_of(keys, (#[trigger] es[j]).0) != Some(repo);
            assert(es[i].0 == p);
        } else if repo_of(keys, es[n - 1].0) == Some(repo) {
            assert(es[n - 1].0 == first_in(es, keys, repo, n)->0);
        }
    }
}

/// A repository is asked about through the first directory that belongs to it, about exactly the branches
/// that are checked out in its directories, and not at all where none belongs to it.
pub proof fn law_repositories_are_asked_about_their_branches(
    asked_of: Option<RepoBranches>,
    es: Seq<(Seq<char>, Seq<char>)>,
    keys: Map<Seq<char>, String>,
    repo: Seq<char>,
    branch: Seq<char>,
)
    requires
        asks_for(asked_of, es, keys, repo, es.len() as int),
    ensures
        ({
            let belongs = |i: int| keys.dom().contains(es[i].0) && keys[es[i].0]@ == repo;
            &&& asked_of is None <==> forall|i: int| 0 <= i < es.len() ==> !#[trigger] belongs(i)
            &&& asked_of matches Some(q) ==> (text::texts(q.branches@).contains(branch) <==> exists|i: int|
                0 <= i < es.len() && #[trigger] belongs(i) && es[i].1 == branch)
            &&& asked_of matches Some(q) ==> exists|i: int|
                0 <= i < es.len() && #[trigger] belongs(i) && es[i].0 == q.root@ && forall|j: int|
                    0 <= j < i ==> !#[trigger] belongs(j)
        }),
{
    let belongs = |i: int| keys.dom().contains(es[i].0) && keys[es[i].0]@ == repo;
    let n = es.len() as int;
    lemma_first_in(es, keys, repo, n);
    assert forall|i: int| 0 <= i < n implies #[trigger] belongs(i) == (repo_of(keys, es[i].0) == Some(repo)) by {}
    match asked_of {
        Some(q) => {
            let p = q.root@;
            let i = choose|i: int|
                0 <= i < n && (#[trigger] es[i]).0 == p && repo_of(keys, p) == Some(repo) && forall|j: int|
                    0 <= j < i ==> repo_of(keys, (#[trigger] es[j]).0) != Some(repo);
            assert(belongs(i));
            assert forall|j: int| 0 <= j < i implies !#[trigger] belongs(j) by {
                assert(repo_of(keys, es[j].0) != Some(repo));
            }
            if text::texts(q.branches@).contains(branch) {
                let k = choose|k: int| 0 <= k < n && #[trigger] asks(es, keys, repo, branch, k);
                assert(belongs(k));
            }
            if exists|k: int| 0 <= k < n && #[trigger] belongs(k) && es[k].1 == branch {
                let k = choose|k: int| 0 <= k < n && #[trigger] belongs(k) && es[k].1 == branch;
                assert(asks(es, keys, repo, branch, k));
            }
        },
        None => {
            assert forall|i: int| 0 <= i < n implies !#[trigger] belongs(i) by {
                assert(repo_of(keys, es[i].0) != Some(repo));
            }
        },
    }
}

/// Entries are ordered by directory, and by branch where they name the same one.
pub proof fn law_entries_are_ordered_by_directory(a: (Seq<char>, Seq<char>), b: (Seq<char>, Seq<char>))
    ensures
        paths::order(a.0, b.0) < 0 ==> entry_order(a, b) < 0,
        paths::order(a.0, b.0) > 0 ==> entry_order(a, b) > 0,
        paths::order(a.0, b.0) == 0 && text::order(a.1, b.1) < 0 ==> entry_order(a, b) < 0,
{
}

/// What is shown changes only where a directory showed something else than what was found, and then
/// every directory shows what was found.
pub proof fn law_shown_summaries_are_current<E: PathEntry>(
    es: Seq<(Seq<char>, Seq<char>)>,
    keys: Map<Seq<char>, String>,
    cache: Map<Seq<char>, StrMap<E::Known>>,
    before: Map<Seq<char>, E>,
    after: Map<Seq<char>, E>,
    changed: bool,
    path: Seq<char>,
)
    requires
        shown_anew(es, keys, cache, before, after, changed),
    ensures
        ({
            let f = found(es, keys, cache, path, es.len() as int);
            &&& after.dom().contains(path) <==> f is Some
            &&& changed && f is Some ==> after[path].parts() == f->0
            &&& !changed && f is Some ==> after[path].parts().0 == (f->0).0 && after[path].parts().1.alike(&(f->0).1)
            &&& !changed ==> after == before
            &&& (before.dom().contains(path) != f is Some) ==> changed
        }),
{
    let f = found(es, keys, cache, path, es.len() as int);
    if changed {
        assert(taken_apart(collections::lookup(after, path)) == f);
    } else {
        assert(agrees(collections::lookup(before, path), f));
    }
    if (before.dom().contains(path) != f is Some) && !changed {
        assert(agrees(collections::lookup(before, path), f));
    }
}

/// After an answer about a repository, its record holds the pull request of a branch that was answered
/// with one, and none of a branch that was answered without; a branch that was asked about without an
/// answer is recorded as before. No record without a branch stays. The same holds of checks. Without an
/// answer nothing changes.
pub proof fn law_answers_reach_the_record(
    before: GithubWorker,
    after: GithubWorker,
    outcomes: Map<Seq<char>, BranchQueryOutcome>,
    repo: Seq<char>,
    b: Seq<char>,
    answered: bool,
)
    requires
        follows(before, after, outcomes, repo, answered),
    ensures
        ({
            let heard = outcomes[repo].answered@.dom().contains(b);
            let asked = outcomes[repo].requested@.contains(b);
            let prs = after.prs@.dom().contains(repo) && after.prs@[repo]@.dom().contains(b);
            let checks = after.checks@.dom().contains(repo) && after.checks@[repo]@.dom().contains(b);
            let had_prs = before.prs@.dom().contains(repo) && before.prs@[repo]@.dom().contains(b);
            let had_checks = before.checks@.dom().contains(repo) && before.checks@[repo]@.dom().contains(b);
            &&& answered && heard ==> (prs <==> pr_answer(outcomes[repo].answered@, b) is Some) && (checks
                <==> check_answer(outcomes[repo].answered@, b) is Some)
            &&& answered && heard && prs ==> pr_answer(outcomes[repo].answered@, b) == Some(after.prs@[repo]@[b])
            &&& answered && heard && checks ==> check_answer(outcomes[repo].answered@, b) == Some(
                after.checks@[repo]@[b],
            )
            &&& answered && !heard ==> (prs <==> asked && had_prs) && (checks <==> asked && had_checks)
            &&& answered && !heard && prs ==> after.prs@[repo]@[b] == before.prs@[repo]@[b]
            &&& answered && !heard && checks ==> after.checks@[repo]@[b] == before.checks@[repo]@[b]
            &&& !answered ==> (prs <==> had_prs) && (checks <==> had_checks)
            &&& !answered && prs ==> after.prs@[repo]@[b] == before.prs@[repo]@[b]
            &&& !answered && checks ==> after.checks@[repo]@[b] == before.checks@[repo]@[b]
            &&& answered && after.prs@.dom().contains(repo) ==> after.prs@[repo]@ != Map::<Seq<char>, PrSummary>::empty()
            &&& answered && after.checks@.dom().contains(repo) ==> after.checks@[repo]@ != Map::<
                Seq<char>,
                CheckSummary,
            >::empty()
        }),
{
    if answered {
        assert(collections::lookup(branches_of(after.prs@, repo), b) == merged(
            branches_of(before.prs@, repo),
            outcomes[repo].requested@,
            outcomes[repo].answered@.dom().contains(b),
            pr_answer(outcomes[repo].answered@, b),
            b,
        ));
        assert(collections::lookup(branches_of(after.checks@, repo), b) == merged(
            branches_of(before.checks@, repo),
            outcomes[repo].requested@,
            outcomes[repo].answered@.dom().contains(b),
            check_answer(outcomes[repo].answered@, b),
            b,
        ));
    }
}

} // verus!
