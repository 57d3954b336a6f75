//! One turn of the git worker: what is pending, and what is looked at when.

use vstd::prelude::*;

use crate::collections;
use crate::collections::{StrMap, StrSet};
use crate::gitworker;
use crate::gitworker::{
    GitWorkerPath, ResolvedGitWorktree, AUDIT_INTERVAL, DEBOUNCE, DEGRADED_POLL_INTERVAL, GIT_ROOT_REVALIDATION_INTERVAL,
    MIN_REFRESH_INTERVAL, POLL_INTERVAL, RECOVERY_COOLDOWN,
};
use crate::paths;
use crate::publish;
use crate::text;
use crate::watch;
use crate::watch::WatchTable;
use ignore::gitignore::Gitignore;

verus! {

/// How long ago `then` was, nothing where it lies ahead.
pub open spec fn since(then: u64, now: u64) -> int {
    if now >= then {
        now - then
    } else {
        0
    }
}

/// The time `by` before `now`.
pub open spec fn back(now: u64, by: u64) -> u64 {
    if now >= by {
        (now - by) as u64
    } else {
        0
    }
}

// ── Discoveries ─────────────────────────────────────────────────

/// Forgets what was discovered of roots, found or not, once it is old. Returns whether anything was
/// forgotten.
pub fn expire_git_roots(roots_by_agent: &mut StrMap<Option<String>>, last_revalidation: &mut u64, now: u64) -> (r: bool)
    ensures
        since(*old(last_revalidation), now) < GIT_ROOT_REVALIDATION_INTERVAL ==> {
            &&& !r
            &&& *final(roots_by_agent) == *old(roots_by_agent)
            &&& *final(last_revalidation) == *old(last_revalidation)
        },
        since(*old(last_revalidation), now) >= GIT_ROOT_REVALIDATION_INTERVAL ==> {
            &&& r == (old(roots_by_agent)@ != Map::<Seq<char>, Option<String>>::empty())
            &&& final(roots_by_agent)@ == Map::<Seq<char>, Option<String>>::empty()
            &&& *final(last_revalidation) == now
        },
{
    if now.saturating_sub(*last_revalidation) < GIT_ROOT_REVALIDATION_INTERVAL {
        return false;
    }
    *last_revalidation = now;
    let expired = !roots_by_agent.is_empty();
    *roots_by_agent = StrMap::new();
    expired
}

/// An entry, by its contents.
pub open spec fn entry_model(e: GitWorkerPath) -> (Seq<char>, bool, bool) {
    (e.path@, e.is_stale, e.is_focused)
}

pub open spec fn entry_models(es: Seq<GitWorkerPath>) -> Seq<(Seq<char>, bool, bool)> {
    Seq::new(es.len(), |i: int| entry_model(es[i]))
}

fn same_entry(a: &GitWorkerPath, b: &GitWorkerPath) -> (r: bool)
    ensures
        r == (entry_model(*a) == entry_model(*b)),
{
    text::same(a.path.as_str(), b.path.as_str()) && a.is_stale == b.is_stale && a.is_focused == b.is_focused
}

/// Whether two lists hold the same entries, in whatever order.
pub fn same_entries(a: &Vec<GitWorkerPath>, b: &Vec<GitWorkerPath>) -> (r: bool)
    ensures
        r == (entry_models(a@).to_multiset() == entry_models(b@).to_multiset()),
{
    let ghost ms = entry_models(a@);
    let ghost all = entry_models(b@);
    let mut rest: Vec<GitWorkerPath> = Vec::new();
    let mut k: usize = 0;
    while k < b.len()
        invariant
            k <= b@.len(),
            rest@ =~= b@.take(k as int),
        decreases b.len() - k,
    {
        rest.push(b[k].clone());
        k += 1;
    }
    let mut i: usize = 0;
    proof {
        assert(rest@ =~= b@);
        assert(ms.take(0) =~= Seq::<(Seq<char>, bool, bool)>::empty());
        broadcast use vstd::seq_lib::group_to_multiset_ensures;
        assert(ms.take(0).to_multiset() =~= vstd::multiset::Multiset::empty());
        assert(all.to_multiset() =~= entry_models(rest@).to_multiset().add(ms.take(0).to_multiset()));
    }
    while i < a.len()
        invariant
            ms == entry_models(a@),
            all == entry_models(b@),
            i <= a@.len(),
            all.to_multiset() =~= entry_models(rest@).to_multiset().add(ms.take(i as int).to_multiset()),
        decreases a.len() - i,
    {
        let found = find_entry(&rest, &a[i]);
        proof {
            broadcast use vstd::seq_lib::group_to_multiset_ensures;
            assert(ms.take(i + 1) =~= ms.take(i as int).push(ms[i as int]));
        }
        if found == rest.len() {
            proof {
                broadcast use vstd::seq_lib::group_to_multiset_ensures;
                let x = ms[i as int];
                assert(!entry_models(rest@).contains(x));
                assert(entry_models(rest@).to_multiset().count(x) == 0);
                assert(ms.take(i + 1).to_multiset().count(x) == ms.take(i as int).to_multiset().count(x) + 1);
                assert(all.to_multiset().count(x) == ms.take(i as int).to_multiset().count(x));
                assert(ms =~= ms.take(i + 1) + ms.skip(i + 1));
                vstd::seq_lib::lemma_multiset_commutative(ms.take(i + 1), ms.skip(i + 1));
                assert(ms.to_multiset().count(x) >= ms.take(i + 1).to_multiset().count(x));
            }
            return false;
        }
        let ghost before = entry_models(rest@);
        rest.remove(found);
        proof {
            broadcast use vstd::seq_lib::group_to_multiset_ensures;
            assert(entry_models(rest@) =~= before.remove(found as int));
            assert(before[found as int] == ms[i as int]);
            assert(entry_models(rest@).to_multiset() =~= before.to_multiset().remove(ms[i as int]));
            assert(before.contains(ms[i as int]));
            assert(before.to_multiset().contains(ms[i as int]));
            assert(ms.take(i + 1).to_multiset() =~= ms.take(i as int).to_multiset().insert(ms[i as int]));
            assert(all.to_multiset() =~= entry_models(rest@).to_multiset().add(ms.take(i + 1).to_multiset()));
        }
        i += 1;
    }
    proof {
        broadcast use vstd::seq_lib::group_to_multiset_ensures;
        assert(ms.take(i as int) =~= ms);
        if rest@.len() == 0 {
            assert(entry_models(rest@) =~= Seq::<(Seq<char>, bool, bool)>::empty());
            assert(entry_models(rest@).to_multiset() =~= vstd::multiset::Multiset::empty());
            assert(all.to_multiset() =~= ms.to_multiset());
        } else {
            assert(entry_models(rest@).to_multiset().len() == rest@.len());
            assert(all.to_multiset().len() == rest@.len() + ms.to_multiset().len());
        }
    }
    rest.len() == 0
}

fn find_entry(list: &Vec<GitWorkerPath>, e: &GitWorkerPath) -> (r: usize)
    ensures
        r <= list@.len(),
        r < list@.len() ==> entry_models(list@)[r as int] == entry_model(*e),
        r == list@.len() ==> !entry_models(list@).contains(entry_model(*e)),
{
    let mut i: usize = 0;
    while i < list.len()
        invariant
            i <= list@.len(),
            forall|j: int| 0 <= j < i ==> #[trigger] entry_models(list@)[j] != entry_model(*e),
        decreases list.len() - i,
    {
        if same_entry(&list[i], e) {
            return i;
        }
        i += 1;
    }
    i
}

// ── Pending worktrees ───────────────────────────────────────────

/// Marks a worktree as pending since `at`, unless it is pending already.
pub open spec fn marked(pending: Map<Seq<char>, u64>, p: Seq<char>, at: u64) -> Map<Seq<char>, u64> {
    if pending.dom().contains(p) {
        pending
    } else {
        pending.insert(p, at)
    }
}

pub fn mark(pending: &mut StrMap<u64>, path: &str, at: u64)
    ensures
        final(pending)@ == marked(old(pending)@, path@, at),
{
    if !pending.contains_key(path) {
        pending.insert(path.to_owned(), at);
    }
}

/// Since when a worktree is pending once those in `ps` are marked.
pub open spec fn pending_once_marked(pending: Map<Seq<char>, u64>, ps: Seq<Seq<char>>, at: u64, p: Seq<char>) -> Option<u64> {
    if pending.dom().contains(p) {
        Some(pending[p])
    } else if ps.contains(p) {
        Some(at)
    } else {
        None
    }
}

/// Marks worktrees as pending since `at`, unless they are pending already.
pub fn mark_all(pending: &mut StrMap<u64>, list: &Vec<String>, at: u64)
    ensures
        forall|p: Seq<char>| #[trigger]
            collections::lookup(final(pending)@, p) == pending_once_marked(
                old(pending)@,
                text::texts(list@),
                at,
                p,
            ),
{
    let ghost before = pending@;
    let ghost ts = text::texts(list@);
    let mut i: usize = 0;
    proof {
        collections::lemma_met(ts, 0);
    }
    while i < list.len()
        invariant
            ts == text::texts(list@),
            i <= list@.len(),
            forall|p: Seq<char>| #[trigger]
                collections::lookup(pending@, p) == (if before.dom().contains(p) {
                    Some(before[p])
                } else if collections::met(ts, i as int, p) {
                    Some(at)
                } else {
                    None
                }),
        decreases list.len() - i,
    {
        let ghost mid = pending@;
        proof {
            collections::lemma_met(ts, i as int);
            assert(ts[i as int] == list@[i as int]@);
            assert(collections::lookup(mid, ts[i as int]) == (if before.dom().contains(ts[i as int]) {
                Some(before[ts[i as int]])
            } else if collections::met(ts, i as int, ts[i as int]) {
                Some(at)
            } else {
                None
            }));
        }
        mark(pending, list[i].as_str(), at);
        proof {
            assert forall|p: Seq<char>| #[trigger]
                collections::lookup(pending@, p) == (if before.dom().contains(p) {
                    Some(before[p])
                } else if collections::met(ts, i + 1, p) {
                    Some(at)
                } else {
                    None
                }) by {
                if p != ts[i as int] {
                    assert(collections::lookup(pending@, p) == collections::lookup(mid, p));
                }
            }
        }
        i += 1;
    }
    proof {
        assert(ts.len() == list@.len());
        collections::lemma_met(ts, ts.len() as int);
        assert forall|p: Seq<char>| #[trigger]
            collections::lookup(pending@, p) == pending_once_marked(before, ts, at, p) by {
            assert(collections::met(ts, ts.len() as int, p) <==> ts.contains(p));
        }
    }
}

// ── Recovery, polling, audits ───────────────────────────────────

/// Whether to look at everything again: where changes were lost, and not too soon after the last
/// time.
pub fn recovery_ready(due: bool, last_recovery: u64, cooldown: u64, now: u64) -> (r: bool)
    ensures
        r == (due && since(last_recovery, now) >= cooldown),
{
    due && now.saturating_sub(last_recovery) >= cooldown
}

/// The next worktree to audit, and where the audit after it starts: going round from `cursor`, the
/// first of `tries` that is watched completely.
pub open spec fn audited(complete: Seq<bool>, cursor: int, tries: int) -> (Option<int>, int)
    decreases tries,
{
    if tries <= 0 {
        (None, cursor)
    } else {
        let at = cursor % complete.len() as int;
        let next = (at + 1) % complete.len() as int;
        if complete[at] {
            (Some(at), next)
        } else {
            audited(complete, next, tries - 1)
        }
    }
}

/// Which of `list` are watched completely.
pub open spec fn completeness(table: WatchTable, list: Seq<Seq<char>>) -> Seq<bool> {
    Seq::new(list.len(), |i: int| collections::lookup(table.watch_complete@, list[i]) == Some(true))
}

/// Picks the next worktree to audit.
pub fn next_audit_path(list: &Vec<String>, table: &WatchTable, cursor: &mut usize) -> (r: Option<String>)
    ensures
        ({
            let ts = text::texts(list@);
            let (at, next) = audited(completeness(*table, ts), *old(cursor) as int, ts.len() as int);
            &&& *final(cursor) == next
            &&& match (r, at) {
                (Some(path), Some(i)) => 0 <= i < ts.len() && path@ == ts[i],
                (None, None) => true,
                _ => false,
            }
        }),
{
    let n: usize = list.len();
    let ghost ts = text::texts(list@);
    let ghost complete = completeness(*table, ts);
    let mut tries: usize = n;
    while tries > 0
        invariant
            ts == text::texts(list@),
            n == ts.len() == list@.len(),
            complete == completeness(*table, ts),
            tries <= n,
            audited(complete, *old(cursor) as int, n as int) == audited(complete, *cursor as int, tries as int),
        decreases tries,
    {
        let at: usize = *cursor % n;
        *cursor = if at + 1 == n {
            0
        } else {
            at + 1
        };
        proof {
            assert(*cursor == (at + 1) % n as int) by {
                if at + 1 == n {
                    vstd::arithmetic::div_mod::lemma_mod_self_0(n as int);
                } else {
                    vstd::arithmetic::div_mod::lemma_small_mod((at + 1) as nat, n as nat);
                }
            }
            assert(ts[at as int] == list@[at as int]@);
        }
        if table.is_complete(list[at].as_str()) {
            return Some(list[at].clone());
        }
        tries -= 1;
    }
    None
}

/// An audit picks a worktree that is watched completely, passing over none that is, and the next
/// one starts behind it. Where there is none to pick, it went all the way round.
pub proof fn law_audits_are_fair(complete: Seq<bool>, cursor: int, tries: int)
    requires
        complete.len() > 0,
        0 <= cursor,
        0 <= tries,
    ensures
        match audited(complete, cursor, tries) {
            (Some(at), next) => exists|d: int|
                0 <= d < tries && at == #[trigger] ((cursor + d) % complete.len() as int) && complete[at] && next == (
                cursor + d + 1) % complete.len() as int && forall|e: int|
                    0 <= e < d ==> !complete[#[trigger] ((cursor + e) % complete.len() as int)],
            (None, next) => {
                &&& forall|e: int| 0 <= e < tries ==> !complete[#[trigger] ((cursor + e) % complete.len() as int)]
                &&& tries > 0 ==> next == (cursor + tries) % complete.len() as int
                &&& tries == complete.len() ==> next == cursor % complete.len() as int
            },
        },
    decreases tries,
{
    if tries > 0 {
        let n = complete.len() as int;
        let at = cursor % n;
        let next = (at + 1) % n;
        vstd::arithmetic::div_mod::lemma_mod_bound(cursor, n);
        assert(next == (cursor + 1) % n) by {
            vstd::arithmetic::div_mod::lemma_add_mod_noop_right(1, cursor, n);
        }
        assert((cursor + 0) % n == at);
        if complete[at] {
            assert(0 <= 0int < tries && at == (cursor + 0int) % n);
        } else {
            vstd::arithmetic::div_mod::lemma_mod_bound(at + 1, n);
            law_audits_are_fair(complete, next, tries - 1);
            assert forall|e: int| (next + e) % n == #[trigger] ((cursor + (e + 1)) % n) by {
                vstd::arithmetic::div_mod::lemma_add_mod_noop_right(e, cursor + 1, n);
            }
            match audited(complete, next, tries - 1) {
                (Some(i), after) => {
                    let d = choose|d: int|
                        0 <= d < tries - 1 && i == #[trigger] ((next + d) % n) && complete[i] && after == (next + d + 1)
                            % n && forall|e: int| 0 <= e < d ==> !complete[#[trigger] ((next + e) % n)];
                    assert((next + d) % n == (cursor + (d + 1)) % n);
                    assert((next + (d + 1)) % n == (cursor + (d + 2)) % n) by {
                        assert((next + (d + 1)) % n == (cursor + ((d + 1) + 1)) % n);
                    }
                    assert forall|e: int| 0 <= e < d + 1 implies !complete[#[trigger] ((cursor + e) % n)] by {
                        if e > 0 {
                            assert((next + (e - 1)) % n == (cursor + ((e - 1) + 1)) % n);
                        }
                    }
                    assert(i == (cursor + (d + 1)) % n);
                },
                (None, _) => {
                    assert((next + (tries - 1)) % n == (cursor + ((tries - 1) + 1)) % n);
                    vstd::arithmetic::div_mod::lemma_mod_add_multiples_vanish(cursor, n);
                    assert forall|e: int| 0 <= e < tries implies !complete[#[trigger] ((cursor + e) % n)] by {
                        if e > 0 {
                            assert((next + (e - 1)) % n == (cursor + ((e - 1) + 1)) % n);
                        }
                    }
                },
            }
        }
    }
}

/// The worktrees that are watched completely.
pub open spec fn watched_completely(complete: Seq<bool>) -> Set<int> {
    Set::new(|i: int| 0 <= i < complete.len() && complete[i])
}

/// The worktrees that `count` audits in a row pick.
pub open spec fn audits(complete: Seq<bool>, cursor: int, count: int) -> Seq<int>
    decreases count,
{
    if count <= 0 {
        seq![]
    } else {
        match audited(complete, cursor, complete.len() as int) {
            (Some(at), next) => seq![at] + audits(complete, next, count - 1),
            (None, _) => seq![],
        }
    }
}

/// The worktrees that are watched completely among those met from `from` up to `to` steps behind
/// `cursor`.
spec fn ahead(complete: Seq<bool>, cursor: int, from: int, to: int) -> Seq<int>
    decreases to - from,
{
    if from >= to {
        seq![]
    } else {
        let at = (cursor + from) % complete.len() as int;
        if complete[at] {
            seq![at] + ahead(complete, cursor, from + 1, to)
        } else {
            ahead(complete, cursor, from + 1, to)
        }
    }
}

proof fn lemma_ahead(complete: Seq<bool>, cursor: int, from: int, to: int)
    requires
        0 <= from <= to <= complete.len(),
    ensures
        ahead(complete, cursor, from, to).no_duplicates(),
        forall|i: int| #[trigger]
            ahead(complete, cursor, from, to).contains(i) <==> 0 <= i < complete.len() && complete[i] && exists|d: int|
                from <= d < to && i == #[trigger] ((cursor + d) % complete.len() as int),
    decreases to - from,
{
    let n = complete.len() as int;
    let all = ahead(complete, cursor, from, to);
    if from < to {
        let at = (cursor + from) % n;
        let rest = ahead(complete, cursor, from + 1, to);
        lemma_ahead(complete, cursor, from + 1, to);
        vstd::arithmetic::div_mod::lemma_mod_bound(cursor + from, n);
        assert forall|d: int| from < d < to implies #[trigger] ((cursor + d) % n) != at by {
            lemma_apart(cursor + from, d - from, n);
        }
        assert(!rest.contains(at));
        assert forall|i: int| #[trigger]
            all.contains(i) <==> 0 <= i < n && complete[i] && exists|d: int|
                from <= d < to && i == #[trigger] ((cursor + d) % n) by {
            if complete[at] {
                if all.contains(i) {
                    let j = choose|j: int| 0 <= j < all.len() && all[j] == i;
                    if j > 0 {
                        assert(rest[j - 1] == i);
                        assert(rest.contains(i));
                    }
                }
                if i == at {
                    assert(all[0] == i);
                }
                if rest.contains(i) {
                    let j = choose|j: int| 0 <= j < rest.len() && rest[j] == i;
                    assert(all[j + 1] == i);
                }
            }
        }
        assert(all.no_duplicates()) by {
            assert forall|p: int, q: int| 0 <= p < q < all.len() implies all[p] != all[q] by {
                if complete[at] {
                    assert(all[q] == rest[q - 1]);
                    assert(rest.contains(all[q]));
                    if p > 0 {
                        assert(all[p] == rest[p - 1]);
                    }
                }
            }
        }
    }
}

proof fn lemma_apart(a: int, d: int, n: int)
    requires
        0 < d < n,
    ensures
        (a + d) % n != a % n,
{
    vstd::arithmetic::div_mod::lemma_mod_bound(a, n);
    if (a + d) % n == a % n {
        vstd::arithmetic::div_mod::lemma_fundamental_div_mod(a, n);
        vstd::arithmetic::div_mod::lemma_fundamental_div_mod(a + d, n);
        let (p, q) = (a / n, (a + d) / n);
        assert(d == n * (q - p)) by (nonlinear_arith)
            requires
                a == n * p + a % n,
                a + d == n * q + (a + d) % n,
                (a + d) % n == a % n,
        ;
        assert(false) by (nonlinear_arith)
            requires
                d == n * (q - p),
                0 < d < n,
        ;
    }
}

proof fn lemma_audit_picks(complete: Seq<bool>, at: int, cursor: int, from: int, tries: int) -> (d: int)
    requires
        complete.len() > 0,
        0 <= from <= complete.len(),
        complete.len() - from <= tries,
        at % complete.len() as int == (cursor + from) % complete.len() as int,
        ahead(complete, cursor, from, complete.len() as int).len() > 0,
    ensures
        ({
            let n = complete.len() as int;
            let all = ahead(complete, cursor, from, n);
            &&& from <= d < n
            &&& audited(complete, at, tries).0 == Some(all[0])
            &&& audited(complete, at, tries).1 % n == (cursor + d + 1) % n
            &&& all == seq![all[0]] + ahead(complete, cursor, d + 1, n)
        }),
    decreases tries,
{
    let n = complete.len() as int;
    let here = at % n;
    let next = (here + 1) % n;
    assert(next % n == (cursor + from + 1) % n) by {
        vstd::arithmetic::div_mod::lemma_mod_bound(here + 1, n);
        vstd::arithmetic::div_mod::lemma_small_mod(next as nat, n as nat);
        vstd::arithmetic::div_mod::lemma_add_mod_noop_right(1, cursor + from, n);
    }
    if complete[here] {
        from
    } else {
        lemma_audit_picks(complete, next, cursor, from + 1, tries - 1)
    }
}

proof fn lemma_audits(complete: Seq<bool>, at: int, cursor: int, from: int, count: int)
    requires
        complete.len() > 0,
        0 <= from <= complete.len(),
        at % complete.len() as int == (cursor + from) % complete.len() as int,
        count == ahead(complete, cursor, from, complete.len() as int).len(),
    ensures
        audits(complete, at, count) == ahead(complete, cursor, from, complete.len() as int),
    decreases count,
{
    let n = complete.len() as int;
    if count > 0 {
        let d = lemma_audit_picks(complete, at, cursor, from, n);
        let next = audited(complete, at, n).1;
        lemma_audits(complete, next, cursor, d + 1, count - 1);
    } else {
        assert(ahead(complete, cursor, from, n) =~= seq![]);
    }
}

/// Of the worktrees that are watched completely, as many audits in a row as there are pick each of
/// them exactly once, wherever they start.
pub proof fn law_audits_take_turns(complete: Seq<bool>, cursor: int)
    requires
        0 <= cursor,
    ensures
        watched_completely(complete).finite(),
        ({
            let k = watched_completely(complete).len();
            let picked = audits(complete, cursor, k as int);
            &&& picked.len() == k
            &&& picked.no_duplicates()
            &&& picked.to_set() == watched_completely(complete)
        }),
{
    let n = complete.len() as int;
    let all = ahead(complete, cursor, 0, n);
    if n > 0 {
        lemma_ahead(complete, cursor, 0, n);
        assert forall|i: int| all.to_set().contains(i) == watched_completely(complete).contains(i) by {
            assert(all.contains(i) == all.to_set().contains(i));
            if 0 <= i < n {
                let d = (i - cursor) % n;
                vstd::arithmetic::div_mod::lemma_mod_bound(i - cursor, n);
                vstd::arithmetic::div_mod::lemma_add_mod_noop_right(cursor, i - cursor, n);
                vstd::arithmetic::div_mod::lemma_small_mod(i as nat, n as nat);
                assert(i == (cursor + d) % n);
            }
        }
        assert(all.to_set() =~= watched_completely(complete));
        all.unique_seq_to_set();
        lemma_audits(complete, cursor, cursor, 0, all.len() as int);
    } else {
        assert(all =~= Seq::<int>::empty());
        assert(all.to_set() =~= watched_completely(complete));
        all.unique_seq_to_set();
    }
}

// ── What is ignored where ───────────────────────────────────────

/// The ignore rules of worktrees, and the files that the rules match although git follows them.
pub struct IgnoreTable {
    pub rules: StrMap<Gitignore>,
    pub in_index: StrMap<StrSet>,
}

impl IgnoreTable {
    /// Whether each worktree's rules are its own.
    pub open spec fn fits(&self) -> bool {
        watch::rules_fit(self.rules@)
    }

    /// Whether the rules of a worktree are asked about a path.
    pub open spec fn asks(&self, path: Seq<char>, worktree: Seq<char>) -> bool {
        watch::rules_asked(path, worktree, self.rules@, self.in_index@)
    }

    /// Whether a change of a file in a worktree is passed over.
    pub open spec fn passes_over(&self, path: Seq<char>, worktree: Seq<char>) -> bool {
        watch::passed_over(
            path,
            worktree,
            watch::known_tracked(self.in_index@, worktree, path),
            watch::ruled_out(self.rules@, worktree, path),
        )
    }

    pub fn new() -> (r: Self)
        ensures
            r.fits(),
            r.rules@ == Map::<Seq<char>, Gitignore>::empty(),
            r.in_index@ == Map::<Seq<char>, StrSet>::empty(),
    {
        IgnoreTable { rules: StrMap::new(), in_index: StrMap::new() }
    }

    /// Takes over what is ignored in a worktree: the lines of its ignore file, and git's list of
    /// matching files that it follows.
    pub fn load(&mut self, worktree: &str, lines: &Vec<String>, output: &str)
        requires
            old(self).fits(),
        ensures
            final(self).fits(),
            final(self).rules@.dom() == old(self).rules@.dom().insert(worktree@),
            watch::rule_lines(final(self).rules@[worktree@]) == watch::read_lines(text::texts(lines@)),
            final(self).in_index@.dom() == old(self).in_index@.dom().insert(worktree@),
            final(self).in_index@[worktree@]@ == watch::listed_paths(worktree@, output@),
            forall|w: Seq<char>|
                w != worktree@ ==> #[trigger] collections::lookup(final(self).rules@, w) == collections::lookup(
                    old(self).rules@,
                    w,
                ) && collections::lookup(final(self).in_index@, w) == collections::lookup(old(self).in_index@, w),
    {
        let rules = watch::build_gitignore(worktree, lines);
        self.rules.insert(worktree.to_owned(), rules);
        let known = watch::ignored_tracked_paths(worktree, output);
        self.in_index.insert(worktree.to_owned(), known);
    }

    /// Forgets the worktrees that are not kept.
    pub fn retain_in(&mut self, keep: &StrSet)
        requires
            old(self).fits(),
        ensures
            final(self).fits(),
            final(self).rules@ == old(self).rules@.restrict(keep@),
            final(self).in_index@ == old(self).in_index@.restrict(keep@),
    {
        self.rules.retain_in(keep);
        self.in_index.retain_in(keep);
    }
}

// ── The worker ──────────────────────────────────────────────────

/// When the worker did what last.
#[derive(Debug, Clone, Copy, PartialEq, Eq, Structural)]
pub struct Clock {
    pub last_maintenance: u64,
    pub last_audit: u64,
    pub last_recovery: u64,
    pub last_root_revalidation: u64,
}

/// How changes reach the worker.
#[derive(Debug, Clone, Copy, PartialEq, Eq, Structural)]
pub struct Reporting {
    /// Whether the system reports changes at all.
    pub has_watcher: bool,
    /// Whether the files of worktrees are watched, beside git's metadata.
    pub watches_files: bool,
    /// Whether reporting failed, so that it is not relied on.
    pub degraded: bool,
    /// Whether reports were lost, so that everything is to be looked at.
    pub recovery_due: bool,
}

/// The state of the git worker.
pub struct GitWorker {
    pub entries: Vec<GitWorkerPath>,
    pub roots_by_agent: StrMap<Option<String>>,
    pub resolved: StrMap<ResolvedGitWorktree>,
    /// The worktrees in order.
    pub unique_active: Vec<String>,
    /// Worktrees to look at, and since when.
    pub pending: StrMap<u64>,
    pub last_refreshed: StrMap<u64>,
    pub audit_cursor: usize,
    pub clock: Clock,
    pub reporting: Reporting,
}

/// What becomes of a worktree that is due.
#[derive(Debug)]
pub enum Refresh {
    /// It was looked at a moment ago and waits.
    Later,
    /// It is of no interest any more.
    Dropped,
    /// It is looked at now, for the agents in these directories.
    Now(Vec<String>),
}

impl GitWorker {
    pub fn new(has_watcher: bool, watches_files: bool, now: u64) -> (r: Self)
        ensures
            r.entries@.len() == 0,
            r.roots_by_agent@ == Map::<Seq<char>, Option<String>>::empty(),
            r.resolved@ == Map::<Seq<char>, ResolvedGitWorktree>::empty(),
            r.unique_active@.len() == 0,
            r.pending@ == Map::<Seq<char>, u64>::empty(),
            r.last_refreshed@ == Map::<Seq<char>, u64>::empty(),
            r.audit_cursor == 0,
            r.clock == (Clock {
                last_maintenance: now,
                last_audit: now,
                last_recovery: back(now, RECOVERY_COOLDOWN),
                last_root_revalidation: now,
            }),
            r.reporting == (Reporting { has_watcher, watches_files, degraded: !has_watcher, recovery_due: false }),
    {
        GitWorker {
            entries: Vec::new(),
            roots_by_agent: StrMap::new(),
            resolved: StrMap::new(),
            unique_active: Vec::new(),
            pending: StrMap::new(),
            last_refreshed: StrMap::new(),
            audit_cursor: 0,
            clock: Clock {
                last_maintenance: now,
                last_audit: now,
                last_recovery: now.saturating_sub(RECOVERY_COOLDOWN),
                last_root_revalidation: now,
            },
            reporting: Reporting { has_watcher, watches_files, degraded: !has_watcher, recovery_due: false },
        }
    }

    /// The worktrees whose ignore rules are read anew when a path changes.
    pub fn rules_to_load(path: &str, table: &WatchTable) -> (r: StrSet)
        ensures
            r@ == (if paths::last_name(path@) == Some(".gitignore"@) {
                table.concerned(path@)
            } else {
                Set::empty()
            }),
    {
        match paths::file_name(path) {
            Some(name) => {
                if text::same(name.as_str(), ".gitignore") {
                    return table.find_worktrees_for_path(path);
                }
            },
            None => {},
        }
        StrSet::new()
    }

    /// Tests whether the change of a path can be noted: whether it can be judged in each worktree that
    /// it concerns.
    pub fn can_note(path: &str, table: &WatchTable, ignores: &IgnoreTable) -> (r: bool)
        ensures
            r == (forall|w: Seq<char>| #[trigger]
                table.concerned(path@).contains(w) && ignores.asks(path@, w) ==> watch::within(path@, w)),
    {
        let worktrees = table.find_worktrees_for_path(path);
        let n: usize = worktrees.len();
        let ghost items = worktrees.items();
        let mut i: usize = 0;
        proof {
            worktrees.lemma_items();
        }
        while i < n
            invariant
                n == items.len(),
                items == worktrees.items(),
                worktrees@ == table.concerned(path@),
                forall|w: Seq<char>| #[trigger] worktrees@.contains(w) <==> items.contains(w),
                i <= n,
                forall|j: int| 0 <= j < i && ignores.asks(path@, #[trigger] items[j]) ==> watch::within(path@, items[j]),
            decreases n - i,
        {
            let worktree = worktrees.get(i);
            if !watch::can_judge(path, worktree.as_str(), &ignores.rules, &ignores.in_index) {
                proof {
                    assert(items.contains(items[i as int]));
                    assert(table.concerned(path@).contains(worktree@));
                }
                return false;
            }
            i += 1;
        }
        true
    }

    /// Notes the change of a path: the worktrees that it concerns and do not ignore it are marked.
    pub fn note_change(&mut self, path: &str, table: &WatchTable, ignores: &IgnoreTable, now: u64)
        requires
            ignores.fits(),
            forall|w: Seq<char>| #[trigger]
                table.concerned(path@).contains(w) && ignores.asks(path@, w) ==> watch::within(path@, w),
        ensures
            forall|p: Seq<char>| #[trigger]
                collections::lookup(final(self).pending@, p) == (if table.concerned(path@).contains(p)
                    && !ignores.passes_over(path@, p) {
                    collections::lookup(marked(old(self).pending@, p, now), p)
                } else {
                    collections::lookup(old(self).pending@, p)
                }),
            *final(self) == (GitWorker { pending: final(self).pending, ..*old(self) }),
    {
        let worktrees = table.find_worktrees_for_path(path);
        let n: usize = worktrees.len();
        let ghost items = worktrees.items();
        let ghost before = self.pending@;
        let mut i: usize = 0;
        proof {
            collections::lemma_met(items, 0);
            worktrees.lemma_items();
        }
        while i < n
            invariant
                n == items.len(),
                items == worktrees.items(),
                worktrees@ == table.concerned(path@),
                forall|w: Seq<char>| #[trigger] worktrees@.contains(w) <==> items.contains(w),
                ignores.fits(),
                forall|w: Seq<char>| #[trigger]
                    table.concerned(path@).contains(w) && ignores.asks(path@, w) ==> watch::within(path@, w),
                i <= n,
                forall|p: Seq<char>| #[trigger]
                    collections::lookup(self.pending@, p) == (if collections::met(items, i as int, p)
                        && !ignores.passes_over(path@, p) {
                        collections::lookup(marked(before, p, now), p)
                    } else {
                        collections::lookup(before, p)
                    }),
                *self == (GitWorker { pending: self.pending, ..*old(self) }),
            decreases n - i,
        {
            let worktree = worktrees.get(i);
            let ghost mid = self.pending@;
            proof {
                collections::lemma_met(items, i as int);
                assert(items.contains(items[i as int]));
                assert(table.concerned(path@).contains(worktree@));
            }
            if !watch::is_event_ignored(path, worktree.as_str(), &ignores.rules, &ignores.in_index) {
                mark(&mut self.pending, worktree.as_str(), now);
                proof {
                    assert(collections::lookup(mid, worktree@) == collections::lookup(mid, worktree@));
                    assert forall|p: Seq<char>| #[trigger]
                        collections::lookup(self.pending@, p) == (if collections::met(items, i + 1, p)
                            && !ignores.passes_over(path@, p) {
                            collections::lookup(marked(before, p, now), p)
                        } else {
                            collections::lookup(before, p)
                        }) by {
                        assert(collections::lookup(mid, p) == collections::lookup(mid, p));
                    }
                }
            }
            i += 1;
        }
        proof {
            collections::lemma_met(items, n as int);
            assert forall|p: Seq<char>| #[trigger]
                collections::lookup(self.pending@, p) == (if table.concerned(path@).contains(p)
                    && !ignores.passes_over(path@, p) {
                    collections::lookup(marked(before, p, now), p)
                } else {
                    collections::lookup(before, p)
                }) by {
                assert(worktrees@.contains(p) <==> items.contains(p));
            }
        }
    }

    /// Notes that reporting failed.
    pub fn watch_failed(&mut self)
        ensures
            *final(self) == (GitWorker {
                reporting: Reporting { degraded: true, recovery_due: true, ..old(self).reporting },
                ..*old(self)
            }),
    {
        self.reporting.degraded = true;
        self.reporting.recovery_due = true;
    }

    /// Notes that reports were lost.
    pub fn reports_lost(&mut self)
        ensures
            *final(self) == (GitWorker {
                reporting: Reporting { recovery_due: true, ..old(self).reporting },
                ..*old(self)
            }),
    {
        self.reporting.recovery_due = true;
    }

    /// Takes the latest list of agents, if one came. Returns whether it differs from the one before.
    pub fn take_entries(&mut self, latest: Option<Vec<GitWorkerPath>>) -> (r: bool)
        ensures
            r == (match latest {
                Some(entries) => entry_models(entries@).to_multiset() != entry_models(old(self).entries@).to_multiset(),
                None => false,
            }),
            *final(self) == (GitWorker {
                entries: match latest {
                    Some(entries) => entries,
                    None => old(self).entries,
                },
                ..*old(self)
            }),
    {
        match latest {
            Some(entries) => {
                let changed = !same_entries(&entries, &self.entries);
                self.entries = entries;
                changed
            },
            None => false,
        }
    }

    /// Takes over where the agents are, given what was discovered for directories that were not
    /// known. Returns the worktrees as they were, where they changed. What is pending or known of
    /// worktrees without agents is forgotten.
    pub fn resolve(&mut self, discovered: &StrMap<Option<String>>) -> (r: Option<StrMap<ResolvedGitWorktree>>)
        ensures
            forall|p: Seq<char>| #[trigger]
                collections::lookup(final(self).roots_by_agent@, p) == gitworker::known_root(
                    old(self).roots_by_agent@,
                    discovered@,
                    old(self).entries@,
                    p,
                ),
            forall|root: Seq<char>|
                gitworker::gathers(
                    #[trigger] collections::lookup(final(self).resolved@, root),
                    old(self).entries@,
                    final(self).roots_by_agent@,
                    root,
                    old(self).entries@.len() as int,
                ),
            match r {
                Some(previous) => {
                    &&& previous == old(self).resolved
                    &&& !publish::maps_alike(final(self).resolved@, previous@)
                    &&& paths::lists(text::texts(final(self).unique_active@), final(self).resolved@.dom())
                    &&& final(self).pending@ == old(self).pending@.restrict(final(self).resolved@.dom())
                    &&& final(self).last_refreshed@ == old(self).last_refreshed@.restrict(final(self).resolved@.dom())
                    &&& *final(self) == (GitWorker {
                        roots_by_agent: final(self).roots_by_agent,
                        resolved: final(self).resolved,
                        unique_active: final(self).unique_active,
                        pending: final(self).pending,
                        last_refreshed: final(self).last_refreshed,
                        ..*old(self)
                    })
                },
                None => *final(self) == (GitWorker { roots_by_agent: final(self).roots_by_agent, ..*old(self) }),
            },
    {
        let current = gitworker::resolve_git_worktrees_cached(&self.entries, &mut self.roots_by_agent, discovered);
        if publish::same_maps(&current, &self.resolved) {
            proof {
                assert forall|root: Seq<char>|
                    gitworker::gathers(
                        #[trigger] collections::lookup(self.resolved@, root),
                        self.entries@,
                        self.roots_by_agent@,
                        root,
                        self.entries@.len() as int,
                    ) by {
                    let was = collections::lookup(self.resolved@, root);
                    let now = collections::lookup(current@, root);
                    assert(gitworker::gathers(now, self.entries@, self.roots_by_agent@, root, self.entries@.len() as int));
                    assert(current@.dom().contains(root) <==> self.resolved@.dom().contains(root));
                }
            }
            return None;
        }
        let keep = current.key_set();
        self.unique_active = paths::sorted(&keep);
        self.pending.retain_in(&keep);
        self.last_refreshed.retain_in(&keep);
        let mut previous = current;
        std::mem::swap(&mut previous, &mut self.resolved);
        Some(previous)
    }

    /// Looks at worktrees at once: those without a status, and those that an agent woke up in or
    /// turned to.
    pub fn expect(&mut self, previous: &StrMap<ResolvedGitWorktree>, missing: &Vec<String>, now: u64)
        ensures
            forall|p: Seq<char>| #[trigger]
                collections::lookup(final(self).pending@, p) == (if text::texts(missing@).contains(p) || stirred(
                    previous@,
                    old(self).resolved@,
                    p,
                ) {
                    Some(back(now, DEBOUNCE))
                } else {
                    collections::lookup(old(self).pending@, p)
                }),
            *final(self) == (GitWorker { pending: final(self).pending, ..*old(self) }),
    {
        let at: u64 = now.saturating_sub(DEBOUNCE);
        let woken = stirred_roots(previous, &self.resolved);
        expect_all(&mut self.pending, missing, &woken, at);
    }

    /// Marks everything where reports were lost and enough time has passed.
    pub fn recover(&mut self, now: u64)
        ensures
            ({
                let ready = old(self).reporting.recovery_due && since(old(self).clock.last_recovery, now)
                    >= RECOVERY_COOLDOWN;
                &&& !ready ==> *final(self) == *old(self)
                &&& ready ==> {
                    &&& forall|p: Seq<char>| #[trigger]
                        collections::lookup(final(self).pending@, p) == pending_once_marked(
                            old(self).pending@,
                            text::texts(old(self).unique_active@),
                            back(now, DEBOUNCE),
                            p,
                        )
                    &&& *final(self) == (GitWorker {
                        pending: final(self).pending,
                        clock: Clock { last_recovery: now, ..old(self).clock },
                        reporting: Reporting { recovery_due: false, ..old(self).reporting },
                        ..*old(self)
                    })
                }
            }),
    {
        if recovery_ready(self.reporting.recovery_due, self.clock.last_recovery, RECOVERY_COOLDOWN, now) {
            self.reporting.recovery_due = false;
            self.clock.last_recovery = now;
            mark_all(&mut self.pending, &self.unique_active, now.saturating_sub(DEBOUNCE));
        }
    }

    /// Whether changes are not reported reliably, so that everything is polled.
    pub open spec fn polls(&self) -> bool {
        !self.reporting.has_watcher || !self.reporting.watches_files || self.reporting.degraded
    }

    /// Whether maintenance is due: sooner where reporting failed.
    pub open spec fn maintenance_due(&self, now: u64) -> bool {
        since(self.clock.last_maintenance, now) >= (if self.reporting.degraded || !self.reporting.has_watcher {
            DEGRADED_POLL_INTERVAL
        } else {
            POLL_INTERVAL
        })
    }

    /// Marks the worktrees whose changes are not reported: all of them, or those whose watches are
    /// incomplete, which are returned to be watched again.
    pub fn maintain(&mut self, table: &WatchTable, now: u64) -> (r: Vec<String>)
        ensures
            !old(self).maintenance_due(now) ==> r@.len() == 0 && *final(self) == *old(self),
            old(self).maintenance_due(now) ==> {
                let marked_now = if old(self).polls() {
                    text::texts(old(self).unique_active@)
                } else {
                    text::texts(r@)
                };
                &&& text::texts(r@) == (if old(self).polls() {
                    seq![]
                } else {
                    incomplete(
                        *table,
                        text::texts(old(self).unique_active@),
                        old(self).unique_active@.len() as int,
                    )
                })
                &&& forall|p: Seq<char>| #[trigger]
                    collections::lookup(final(self).pending@, p) == pending_once_marked(
                        old(self).pending@,
                        marked_now,
                        back(now, DEBOUNCE),
                        p,
                    )
                &&& *final(self) == (GitWorker {
                    pending: final(self).pending,
                    clock: Clock { last_maintenance: now, ..old(self).clock },
                    ..*old(self)
                })
            },
    {
        let interval: u64 = if self.reporting.degraded || !self.reporting.has_watcher {
            DEGRADED_POLL_INTERVAL
        } else {
            POLL_INTERVAL
        };
        let none: Vec<String> = Vec::new();
        if now.saturating_sub(self.clock.last_maintenance) < interval {
            return none;
        }
        let at: u64 = now.saturating_sub(DEBOUNCE);
        self.clock.last_maintenance = now;
        if !self.reporting.has_watcher || !self.reporting.watches_files || self.reporting.degraded {
            mark_all(&mut self.pending, &self.unique_active, at);
            proof {
                assert(text::texts(none@) =~= Seq::<Seq<char>>::empty());
            }
            none
        } else {
            let list = incomplete_roots(table, &self.unique_active);
            mark_all(&mut self.pending, &list, at);
            list
        }
    }

    /// Whether an audit is due.
    pub open spec fn audit_due(&self, now: u64) -> bool {
        !self.polls() && since(self.clock.last_audit, now) >= AUDIT_INTERVAL && self.unique_active@.len() > 0
    }

    /// Marks one worktree that is watched completely, in turn, in case a report went missing.
    pub fn audit(&mut self, table: &WatchTable, now: u64)
        ensures
            !old(self).audit_due(now) ==> *final(self) == *old(self),
            old(self).audit_due(now) ==> {
                let ts = text::texts(old(self).unique_active@);
                let (at, next) = audited(completeness(*table, ts), old(self).audit_cursor as int, ts.len() as int);
                &&& final(self).audit_cursor == next
                &&& final(self).pending@ == (match at {
                    Some(i) => marked(old(self).pending@, ts[i], back(now, DEBOUNCE)),
                    None => old(self).pending@,
                })
                &&& *final(self) == (GitWorker {
                    pending: final(self).pending,
                    audit_cursor: final(self).audit_cursor,
                    clock: Clock { last_audit: now, ..old(self).clock },
                    ..*old(self)
                })
            },
    {
        let r = self.reporting;
        if r.has_watcher && r.watches_files && !r.degraded && now.saturating_sub(self.clock.last_audit)
            >= AUDIT_INTERVAL && self.unique_active.len() > 0 {
            self.clock.last_audit = now;
            let mut cursor: usize = self.audit_cursor;
            let pick = next_audit_path(&self.unique_active, table, &mut cursor);
            self.audit_cursor = cursor;
            match pick {
                Some(path) => {
                    mark(&mut self.pending, path.as_str(), now.saturating_sub(DEBOUNCE));
                },
                None => {},
            }
        }
    }

    /// The worktrees that have been pending long enough.
    pub fn ready(&self, now: u64) -> (r: StrSet)
        ensures
            forall|p: Seq<char>| #[trigger]
                r@.contains(p) <==> self.pending@.dom().contains(p) && since(self.pending@[p], now) >= DEBOUNCE,
    {
        let mut r = StrSet::new();
        let n: usize = self.pending.len();
        let ghost keys = self.pending.keys();
        let mut i: usize = 0;
        proof {
            collections::lemma_met(keys, 0);
        }
        while i < n
            invariant
                n == keys.len(),
                keys == self.pending.keys(),
                i <= n,
                forall|p: Seq<char>| #[trigger]
                    r@.contains(p) <==> collections::met(keys, i as int, p) && since(self.pending@[p], now) >= DEBOUNCE,
            decreases n - i,
        {
            let path = self.pending.key_at(i);
            proof {
                collections::lemma_met(keys, i as int);
            }
            if now.saturating_sub(*self.pending.value_at(i)) >= DEBOUNCE {
                r.insert(path.clone());
            }
            i += 1;
        }
        proof {
            self.pending.lemma_keys();
            collections::lemma_met(keys, n as int);
            assert forall|p: Seq<char>| #[trigger]
                r@.contains(p) <==> self.pending@.dom().contains(p) && since(self.pending@[p], now) >= DEBOUNCE by {
                assert(keys.contains(p) <==> self.pending@.dom().contains(p));
            }
        }
        r
    }

    /// Whether a worktree was looked at a moment ago.
    pub open spec fn just_refreshed(&self, p: Seq<char>, now: u64) -> bool {
        self.last_refreshed@.dom().contains(p) && since(self.last_refreshed@[p], now) < MIN_REFRESH_INTERVAL
    }

    /// Decides on a worktree that is due. One that was looked at a moment ago becomes due again once
    /// it may be.
    pub fn start_refresh(&mut self, path: &str, now: u64) -> (r: Refresh)
        ensures
            match r {
                Refresh::Later => {
                    &&& old(self).just_refreshed(path@, now)
                    &&& final(self).pending@ == old(self).pending@.insert(
                        path@,
                        postponed(old(self).last_refreshed@[path@]),
                    )
                },
                Refresh::Dropped => {
                    &&& !old(self).just_refreshed(path@, now)
                    &&& !old(self).resolved@.dom().contains(path@)
                    &&& final(self).pending@ == old(self).pending@.remove(path@)
                },
                Refresh::Now(agent_paths) => {
                    &&& !old(self).just_refreshed(path@, now)
                    &&& old(self).resolved@.dom().contains(path@)
                    &&& text::texts(agent_paths@) == text::texts(old(self).resolved@[path@].agent_paths@)
                    &&& final(self).pending@ == old(self).pending@.remove(path@)
                },
            },
            *final(self) == (GitWorker { pending: final(self).pending, ..*old(self) }),
    {
        match self.last_refreshed.get(path) {
            Some(last) => {
                let last: u64 = *last;
                if now.saturating_sub(last) < MIN_REFRESH_INTERVAL {
                    let ready_at: u64 = last.saturating_add(MIN_REFRESH_INTERVAL);
                    self.pending.insert(path.to_owned(), ready_at - DEBOUNCE);
                    return Refresh::Later;
                }
            },
            None => {},
        }
        self.pending.remove(path);
        match self.resolved.get(path) {
            Some(w) => Refresh::Now(crate::templates::copy_lines(&w.agent_paths)),
            None => Refresh::Dropped,
        }
    }

    /// Notes when a worktree was looked at.
    pub fn finish_refresh(&mut self, path: &str, now: u64)
        ensures
            final(self).last_refreshed@ == old(self).last_refreshed@.insert(path@, now),
            *final(self) == (GitWorker { last_refreshed: final(self).last_refreshed, ..*old(self) }),
    {
        self.last_refreshed.insert(path.to_owned(), now);
    }
}

/// The time from which a worktree counts as pending that was looked at `last`.
pub open spec fn postponed(last: u64) -> u64 {
    if last + MIN_REFRESH_INTERVAL <= u64::MAX {
        (last + MIN_REFRESH_INTERVAL - DEBOUNCE) as u64
    } else {
        (u64::MAX - DEBOUNCE) as u64
    }
}

/// A worktree that waits because it was looked at a moment ago is due exactly when it may be looked
/// at again: no sooner, no later.
pub proof fn law_postponed_worktrees_are_due_in_time(last: u64, now: u64)
    requires
        last + MIN_REFRESH_INTERVAL <= u64::MAX,
    ensures
        since(postponed(last), now) >= DEBOUNCE <==> since(last, now) >= MIN_REFRESH_INTERVAL,
{
}

/// A worktree that is expected, recovered or polled is due at once.
pub proof fn law_marked_worktrees_are_due(now: u64)
    requires
        now >= DEBOUNCE,
    ensures
        since(back(now, DEBOUNCE), now) >= DEBOUNCE,
{
}

/// Whether an agent woke up in a worktree, or turned to it.
pub open spec fn stirred(
    previous: Map<Seq<char>, ResolvedGitWorktree>,
    current: Map<Seq<char>, ResolvedGitWorktree>,
    root: Seq<char>,
) -> bool {
    &&& current.dom().contains(root)
    &&& previous.dom().contains(root)
    &&& (previous[root].is_stale && !current[root].is_stale) || (!previous[root].is_focused && current[root].is_focused)
}

fn stirred_roots(previous: &StrMap<ResolvedGitWorktree>, current: &StrMap<ResolvedGitWorktree>) -> (r: StrSet)
    ensures
        forall|p: Seq<char>| #[trigger] r@.contains(p) <==> stirred(previous@, current@, p),
{
    let mut r = StrSet::new();
    let n: usize = current.len();
    let ghost keys = current.keys();
    let mut i: usize = 0;
    proof {
        collections::lemma_met(keys, 0);
    }
    while i < n
        invariant
            n == keys.len(),
            keys == current.keys(),
            i <= n,
            forall|p: Seq<char>| #[trigger]
                r@.contains(p) <==> collections::met(keys, i as int, p) && stirred(previous@, current@, p),
        decreases n - i,
    {
        let root = current.key_at(i);
        let now = current.value_at(i);
        proof {
            collections::lemma_met(keys, i as int);
        }
        match previous.get(root.as_str()) {
            Some(was) => {
                if (was.is_stale && !now.is_stale) || (!was.is_focused && now.is_focused) {
                    r.insert(root.clone());
                }
            },
            None => {},
        }
        i += 1;
    }
    proof {
        current.lemma_keys();
        collections::lemma_met(keys, n as int);
        assert forall|p: Seq<char>| #[trigger] r@.contains(p) <==> stirred(previous@, current@, p) by {
            assert(keys.contains(p) <==> current@.dom().contains(p));
        }
    }
    r
}

fn expect_all(pending: &mut StrMap<u64>, missing: &Vec<String>, woken: &StrSet, at: u64)
    ensures
        forall|p: Seq<char>| #[trigger]
            collections::lookup(final(pending)@, p) == (if text::texts(missing@).contains(p) || woken@.contains(p) {
                Some(at)
            } else {
                collections::lookup(old(pending)@, p)
            }),
{
    let ghost before = pending@;
    let mut all = StrSet::of(missing);
    proof {
        assert forall|p: Seq<char>| all@.contains(p) <==> text::texts(missing@).contains(p) by {
            if all@.contains(p) {
                let j = choose|j: int| 0 <= j < missing@.len() && missing@[j]@ == p;
                assert(text::texts(missing@)[j] == p);
            }
            if text::texts(missing@).contains(p) {
                let j = choose|j: int| 0 <= j < text::texts(missing@).len() && text::texts(missing@)[j] == p;
                assert(missing@[j]@ == p);
            }
        }
    }
    all.add_all(woken);
    let n: usize = all.len();
    let mut i: usize = 0;
    proof {
        collections::lemma_met(all.items(), 0);
    }
    while i < n
        invariant
            n == all.items().len(),
            i <= n,
            forall|p: Seq<char>| #[trigger]
                collections::lookup(pending@, p) == (if collections::met(all.items(), i as int, p) {
                    Some(at)
                } else {
                    collections::lookup(before, p)
                }),
        decreases n - i,
    {
        let ghost mid = pending@;
        proof {
            collections::lemma_met(all.items(), i as int);
        }
        pending.insert(all.get(i).clone(), at);
        proof {
            assert forall|p: Seq<char>| #[trigger]
                collections::lookup(pending@, p) == (if collections::met(all.items(), i + 1, p) {
                    Some(at)
                } else {
                    collections::lookup(before, p)
                }) by {
                if p != all.items()[i as int] {
                    assert(collections::lookup(pending@, p) == collections::lookup(mid, p));
                }
            }
        }
        i += 1;
    }
    proof {
        all.lemma_items();
        collections::lemma_met(all.items(), n as int);
        assert forall|p: Seq<char>| #[trigger]
            collections::lookup(pending@, p) == (if text::texts(missing@).contains(p) || woken@.contains(p) {
                Some(at)
            } else {
                collections::lookup(before, p)
            }) by {
            assert(all@.contains(p) <==> text::texts(missing@).contains(p) || woken@.contains(p));
            assert(all.items().contains(p) <==> all@.contains(p));
        }
    }
}

/// Those of the first `k` worktrees that are not watched completely.
pub open spec fn incomplete(table: WatchTable, list: Seq<Seq<char>>, k: int) -> Seq<Seq<char>>
    decreases k,
{
    if k <= 0 {
        seq![]
    } else if collections::lookup(table.watch_complete@, list[k - 1]) == Some(true) {
        incomplete(table, list, k - 1)
    } else {
        incomplete(table, list, k - 1).push(list[k - 1])
    }
}

fn incomplete_roots(table: &WatchTable, list: &Vec<String>) -> (r: Vec<String>)
    ensures
        text::texts(r@) == incomplete(*table, text::texts(list@), list@.len() as int),
{
    let ghost ts = text::texts(list@);
    let mut r: Vec<String> = Vec::new();
    let mut i: usize = 0;
    proof {
        assert(text::texts(r@) =~= Seq::<Seq<char>>::empty());
    }
    while i < list.len()
        invariant
            ts == text::texts(list@),
            i <= list@.len(),
            text::texts(r@) == incomplete(*table, ts, i as int),
        decreases list.len() - i,
    {
        let ghost before = text::texts(r@);
        proof {
            assert(ts[i as int] == list@[i as int]@);
        }
        if !table.is_complete(list[i].as_str()) {
            r.push(list[i].clone());
            proof {
                assert(text::texts(r@) =~= before.push(ts[i as int]));
            }
        }
        i += 1;
    }
    r
}

// ── When worktrees are looked at ────────────────────────────────

/// Time is counted from then to now, and never backwards.
pub proof fn law_time_is_counted_forward(then: u64, now: u64, by: u64)
    ensures
        now >= then ==> since(then, now) == now - then,
        now < then ==> since(then, now) == 0,
        now >= by ==> back(now, by) == now - by,
        now < by ==> back(now, by) == 0,
{
}

/// A worktree that is marked is pending since then; one that was pending already stays so since it was,
/// and no other changes.
pub proof fn law_marks_do_not_postpone(pending: Map<Seq<char>, u64>, p: Seq<char>, at: u64, other: Seq<char>)
    requires
        other != p,
    ensures
        pending.dom().contains(p) ==> marked(pending, p, at) == pending,
        !pending.dom().contains(p) ==> marked(pending, p, at).dom().contains(p) && marked(pending, p, at)[p] == at,
        collections::lookup(marked(pending, p, at), other) == collections::lookup(pending, other),
{
}

/// The same of several at once.
pub proof fn law_marks_reach_all(pending: Map<Seq<char>, u64>, ps: Seq<Seq<char>>, at: u64, p: Seq<char>)
    ensures
        pending.dom().contains(p) ==> pending_once_marked(pending, ps, at, p) == Some(pending[p]),
        !pending.dom().contains(p) && ps.contains(p) ==> pending_once_marked(pending, ps, at, p) == Some(at),
        !pending.dom().contains(p) && !ps.contains(p) ==> pending_once_marked(pending, ps, at, p) is None,
{
}

/// Worktrees are polled unless the system reports changes, of their files too, and reporting did not
/// fail. Maintenance comes every five seconds, and every two where reporting failed or there is none.
pub proof fn law_unreported_worktrees_are_polled(w: GitWorker, now: u64)
    requires
        w.clock.last_maintenance <= now,
    ensures
        w.polls() <==> !(w.reporting.has_watcher && w.reporting.watches_files && !w.reporting.degraded),
        w.reporting.has_watcher && !w.reporting.degraded ==> (w.maintenance_due(now) <==> now
            >= w.clock.last_maintenance + 5_000_000_000),
        !w.reporting.has_watcher || w.reporting.degraded ==> (w.maintenance_due(now) <==> now
            >= w.clock.last_maintenance + 2_000_000_000),
{
}

/// Where nothing is polled, a worktree is audited every five seconds.
pub proof fn law_reported_worktrees_are_audited(w: GitWorker, now: u64)
    requires
        w.clock.last_audit <= now,
    ensures
        w.polls() || w.unique_active@.len() == 0 ==> !w.audit_due(now),
        !w.polls() && w.unique_active@.len() > 0 ==> (w.audit_due(now) <==> now >= w.clock.last_audit + 5_000_000_000),
{
}

/// A worktree that was looked at is left alone for two seconds.
pub proof fn law_worktrees_are_left_alone(w: GitWorker, p: Seq<char>, now: u64)
    ensures
        !w.last_refreshed@.dom().contains(p) ==> !w.just_refreshed(p, now),
        w.last_refreshed@.dom().contains(p) && w.last_refreshed@[p] <= now ==> (w.just_refreshed(p, now) <==> now
            < w.last_refreshed@[p] + 2_000_000_000),
{
}

/// A worktree is looked at at once where an agent in it woke up, or the user turned to it; not where an
/// agent fell asleep, the user turned away, or the worktree is new or gone.
pub proof fn law_waking_agents_stir_a_worktree(
    previous: Map<Seq<char>, ResolvedGitWorktree>,
    current: Map<Seq<char>, ResolvedGitWorktree>,
    root: Seq<char>,
)
    ensures
        !current.dom().contains(root) || !previous.dom().contains(root) ==> !stirred(previous, current, root),
        current.dom().contains(root) && previous.dom().contains(root) ==> {
            let (was, here) = (previous[root], current[root]);
            &&& was.is_stale && !here.is_stale ==> stirred(previous, current, root)
            &&& !was.is_focused && here.is_focused ==> stirred(previous, current, root)
            &&& (here.is_stale || !was.is_stale) && (!here.is_focused || was.is_focused) ==> !stirred(previous, current, root)
        },
{
}

/// The worktrees that are watched anew are those that are not watched completely, or of which that is not
/// known.
pub proof fn law_incomplete_worktrees_are_watched_anew(table: WatchTable, list: Seq<Seq<char>>, k: int, root: Seq<char>)
    requires
        0 <= k <= list.len(),
    ensures
        incomplete(table, list, k).contains(root) <==> exists|i: int|
            0 <= i < k && #[trigger] list[i] == root && !(table.watch_complete@.dom().contains(root)
                && table.watch_complete@[root]),
    decreases k,
{
    if k > 0 {
        law_incomplete_worktrees_are_watched_anew(table, list, k - 1, root);
        let before = incomplete(table, list, k - 1);
        let after = incomplete(table, list, k);
        if before.contains(root) {
            let j = choose|j: int| 0 <= j < before.len() && before[j] == root;
            assert(after[j] == root);
        }
        if after.len() > before.len() {
            assert(after.last() == list[k - 1]);
            if list[k - 1] == root {
                assert(after[after.len() - 1] == root);
            }
            if after.contains(root) && !before.contains(root) {
                let j = choose|j: int| 0 <= j < after.len() && after[j] == root;
                if j < before.len() {
                    assert(before[j] == root);
                }
                assert(list[k - 1] == root);
            }
        }
    }
}

/// Changes are gathered for three tenths of a second, recoveries and roots are half a minute apart.
pub proof fn law_the_worker_keeps_its_pace()
    ensures
        DEBOUNCE == 300_000_000,
        MIN_REFRESH_INTERVAL == 2_000_000_000,
        RECOVERY_COOLDOWN == 30_000_000_000,
        GIT_ROOT_REVALIDATION_INTERVAL == 30_000_000_000,
        gitworker::LONGEST_WAIT == 1_000_000_000,
        gitworker::SHORTEST_WAIT == 1_000_000,
{
}

/// Only worktrees that are known to be watched completely are audited.
pub proof fn law_audits_are_of_complete_worktrees(table: WatchTable, list: Seq<Seq<char>>, cursor: int, k: int)
    requires
        list.len() > 0,
        cursor >= 0,
        audited(completeness(table, list), cursor, list.len() as int).0 == Some(k),
    ensures
        0 <= k < list.len(),
        table.watch_complete@.dom().contains(list[k]) && table.watch_complete@[list[k]],
{
    lemma_audited_complete(completeness(table, list), cursor, list.len() as int);
}

proof fn lemma_audited_complete(complete: Seq<bool>, cursor: int, tries: int)
    requires
        complete.len() > 0,
        cursor >= 0,
    ensures
        audited(complete, cursor, tries).0 matches Some(k) ==> 0 <= k < complete.len() && complete[k],
    decreases tries,
{
    if tries > 0 {
        lemma_audited_complete(complete, (cursor % complete.len() as int + 1) % complete.len() as int, tries - 1);
    }
}

} // verus!
