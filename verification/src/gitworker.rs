//! The worker that keeps git statuses up to date. Times are nanoseconds on a clock that never goes
//! back.

use vstd::prelude::*;

use crate::collections;
use crate::collections::{StrMap, StrSet};
use crate::model::GitStatus;
use crate::paths;
use crate::publish;
use crate::publish::Alike;
use crate::text;

verus! {

/// How long changes are gathered before a worktree is looked at.
pub const DEBOUNCE: u64 = 300_000_000;

/// How long after a refresh a worktree is left alone.
pub const MIN_REFRESH_INTERVAL: u64 = 2_000_000_000;

/// How long after a recovery another one waits.
pub const RECOVERY_COOLDOWN: u64 = 30_000_000_000;

/// How often one worktree is looked at without any change reported.
pub const AUDIT_INTERVAL: u64 = 5_000_000_000;

/// How long a discovered root is believed.
pub const GIT_ROOT_REVALIDATION_INTERVAL: u64 = 30_000_000_000;

/// How often worktrees are polled where changes are not reported reliably, and where they are.
pub const DEGRADED_POLL_INTERVAL: u64 = 2_000_000_000;

pub const POLL_INTERVAL: u64 = 5_000_000_000;

/// The longest that the worker sleeps, so that it ends and polls in time.
pub const LONGEST_WAIT: u64 = 1_000_000_000;

/// The wait where something is due.
pub const SHORTEST_WAIT: u64 = 1_000_000;

// ── Waiting ─────────────────────────────────────────────────────

/// When a pending worktree is due, counted from `now`.
pub open spec fn due_in(pending: Map<Seq<char>, u64>, p: Seq<char>, debounce: u64, now: u64) -> int {
    pending[p] + debounce - now
}

/// How long to wait for the first pending worktree: hardly at all where one is due, never longer
/// than a second.
pub fn next_worker_timeout(pending: &StrMap<u64>, debounce: u64, now: u64) -> (r: u64)
    ensures
        (exists|p: Seq<char>| #[trigger] pending@.dom().contains(p) && due_in(pending@, p, debounce, now) <= 0) ==> r
            == SHORTEST_WAIT,
        !(exists|p: Seq<char>| #[trigger] pending@.dom().contains(p) && due_in(pending@, p, debounce, now) <= 0) ==> {
            &&& r <= LONGEST_WAIT
            &&& forall|p: Seq<char>| #[trigger] pending@.dom().contains(p) ==> r <= due_in(pending@, p, debounce, now)
            &&& r == LONGEST_WAIT || exists|p: Seq<char>| #[trigger]
                pending@.dom().contains(p) && r == due_in(pending@, p, debounce, now)
        },
{
    let n: usize = pending.len();
    let ghost keys = pending.keys();
    let mut wait: u64 = LONGEST_WAIT;
    let mut i: usize = 0;
    proof {
        collections::lemma_met(keys, 0);
    }
    while i < n
        invariant
            n == keys.len(),
            keys == pending.keys(),
            i <= n,
            wait <= LONGEST_WAIT,
            forall|p: Seq<char>| #[trigger]
                collections::met(keys, i as int, p) ==> wait <= due_in(pending@, p, debounce, now) && due_in(
                    pending@,
                    p,
                    debounce,
                    now,
                ) > 0,
            wait == LONGEST_WAIT || exists|p: Seq<char>| #[trigger]
                pending@.dom().contains(p) && wait == due_in(pending@, p, debounce, now),
        decreases n - i,
    {
        let ghost key = keys[i as int];
        let last: u64 = *pending.value_at(i);
        proof {
            collections::lemma_met(keys, i as int);
            pending.lemma_keys();
            assert(keys.contains(key));
            assert(pending@.dom().contains(key));
        }
        let ready_at: u128 = last as u128 + debounce as u128;
        if ready_at <= now as u128 {
            proof {
                assert(due_in(pending@, key, debounce, now) <= 0);
            }
            return SHORTEST_WAIT;
        }
        let left: u128 = ready_at - now as u128;
        if left < wait as u128 {
            wait = left as u64;
            proof {
                assert(pending@.dom().contains(key) && wait == due_in(pending@, key, debounce, now));
            }
        }
        i += 1;
    }
    proof {
        pending.lemma_keys();
        collections::lemma_met(keys, n as int);
    }
    wait
}

// ── Publishing statuses ─────────────────────────────────────────

/// Whether a cache shows a status at a path already.
pub open spec fn shows(cache: Map<Seq<char>, GitStatus>, p: Seq<char>, status: GitStatus) -> bool {
    cache.dom().contains(p) && cache[p].alike(&status)
}

/// Publishes the status of a worktree for every agent in it. Returns whether that changed what any
/// of them shows.
pub fn publish_status(cache: &mut StrMap<GitStatus>, agent_paths: &Vec<String>, status: &GitStatus) -> (r: bool)
    ensures
        forall|p: Seq<char>| #[trigger]
            collections::lookup(final(cache)@, p) == (if text::texts(agent_paths@).contains(p) && !shows(
                old(cache)@,
                p,
                *status,
            ) {
                Some(*status)
            } else {
                collections::lookup(old(cache)@, p)
            }),
        r == exists|p: Seq<char>| #[trigger]
            text::texts(agent_paths@).contains(p) && !shows(old(cache)@, p, *status),
{
    let ghost ts = text::texts(agent_paths@);
    let ghost before = cache@;
    let mut changed = false;
    let mut i: usize = 0;
    proof {
        collections::lemma_met(ts, 0);
    }
    while i < agent_paths.len()
        invariant
            ts == text::texts(agent_paths@),
            i <= agent_paths@.len(),
            forall|p: Seq<char>| #[trigger]
                collections::lookup(cache@, p) == (if collections::met(ts, i as int, p) && !shows(before, p, *status) {
                    Some(*status)
                } else {
                    collections::lookup(before, p)
                }),
            changed == exists|p: Seq<char>| #[trigger]
                collections::met(ts, i as int, p) && !shows(before, p, *status),
        decreases agent_paths.len() - i,
    {
        let path = &agent_paths[i];
        let ghost mid = cache@;
        proof {
            collections::lemma_met(ts, i as int);
            assert(ts[i as int] == path@);
            assert(collections::lookup(mid, path@) == (if collections::met(ts, i as int, path@) && !shows(
                before,
                path@,
                *status,
            ) {
                Some(*status)
            } else {
                collections::lookup(before, path@)
            }));
        }
        let known = match cache.get(path.as_str()) {
            Some(old_status) => publish::git_status_semantically_equal(old_status, status),
            None => false,
        };
        if !known {
            cache.insert(path.clone(), status.clone());
            changed = true;
            proof {
                assert(status.alike(status));
                assert(!shows(before, path@, *status)) by {
                    if shows(before, path@, *status) {
                        assert(collections::lookup(mid, path@) == collections::lookup(before, path@));
                    }
                }
                assert(collections::met(ts, i + 1, path@) && !shows(before, path@, *status));
            }
        }
        proof {
            assert forall|p: Seq<char>| #[trigger]
                collections::lookup(cache@, p) == (if collections::met(ts, i + 1, p) && !shows(before, p, *status) {
                    Some(*status)
                } else {
                    collections::lookup(before, p)
                }) by {
                if p != path@ {
                    assert(collections::lookup(mid, p) == collections::lookup(cache@, p));
                } else if known {
                    if !shows(before, p, *status) {
                        if !collections::met(ts, i as int, p) {
                            assert(collections::lookup(mid, p) == collections::lookup(before, p));
                        }
                    }
                }
            }
            if !changed {
                assert forall|p: Seq<char>| #[trigger] collections::met(ts, i + 1, p) implies shows(
                    before,
                    p,
                    *status,
                ) by {
                    if p == path@ && !collections::met(ts, i as int, p) {
                        assert(collections::lookup(mid, p) == collections::lookup(before, p));
                    }
                }
            } else if known {
                let p = choose|p: Seq<char>| #[trigger]
                    collections::met(ts, i as int, p) && !shows(before, p, *status);
                assert(collections::met(ts, i + 1, p) && !shows(before, p, *status));
            }
        }
        i += 1;
    }
    proof {
        assert(ts.len() == agent_paths@.len());
        collections::lemma_met(ts, ts.len() as int);
        if changed {
            let p = choose|p: Seq<char>| #[trigger]
                collections::met(ts, ts.len() as int, p) && !shows(before, p, *status);
            assert(ts.contains(p) && !shows(before, p, *status));
        } else {
            assert forall|p: Seq<char>| #[trigger] ts.contains(p) implies shows(before, p, *status) by {
                assert(collections::met(ts, ts.len() as int, p));
            }
        }
        assert forall|p: Seq<char>| #[trigger]
            collections::lookup(cache@, p) == (if ts.contains(p) && !shows(before, p, *status) {
                Some(*status)
            } else {
                collections::lookup(before, p)
            }) by {
            assert(collections::met(ts, ts.len() as int, p) <==> ts.contains(p));
        }
    }
    changed
}

// ── Resolving agents to worktrees ───────────────────────────────

/// An agent's directory, as the worker is told of it.
#[derive(Debug)]
pub struct GitWorkerPath {
    pub path: String,
    pub is_stale: bool,
    pub is_focused: bool,
}

impl Clone for GitWorkerPath {
    fn clone(&self) -> (r: Self)
        ensures
            r == *self,
    {
        GitWorkerPath { path: self.path.clone(), is_stale: self.is_stale, is_focused: self.is_focused }
    }
}

/// A worktree with the agents in it.
#[derive(Debug)]
pub struct ResolvedGitWorktree {
    /// The directories of the agents, in order.
    pub agent_paths: Vec<String>,
    /// Whether all agents are stale.
    pub is_stale: bool,
    /// Whether an agent has the focus.
    pub is_focused: bool,
}

impl Alike for ResolvedGitWorktree {
    open spec fn alike(&self, other: &Self) -> bool {
        &&& text::texts(self.agent_paths@) == text::texts(other.agent_paths@)
        &&& self.is_stale == other.is_stale
        &&& self.is_focused == other.is_focused
    }

    fn is_like(&self, other: &Self) -> (r: bool) {
        text::same_texts(&self.agent_paths, &other.agent_paths) && self.is_stale == other.is_stale && self.is_focused
            == other.is_focused
    }
}

/// The root that was discovered for a directory.
pub open spec fn root_of(roots: Map<Seq<char>, Option<String>>, path: Seq<char>) -> Option<Seq<char>> {
    match collections::lookup(roots, path) {
        Some(root) => text::optional(root),
        None => None,
    }
}

/// Whether entry `i` lies in the worktree `root`.
pub open spec fn lies_in(
    entries: Seq<GitWorkerPath>,
    roots: Map<Seq<char>, Option<String>>,
    root: Seq<char>,
    i: int,
) -> bool {
    root_of(roots, entries[i].path@) == Some(root)
}

/// Whether `w` is what the first `k` entries make of the worktree `root`: nothing where none lies
/// in it.
pub open spec fn gathers(
    w: Option<ResolvedGitWorktree>,
    entries: Seq<GitWorkerPath>,
    roots: Map<Seq<char>, Option<String>>,
    root: Seq<char>,
    k: int,
) -> bool {
    match w {
        None => forall|i: int| 0 <= i < k ==> !(#[trigger] lies_in(entries, roots, root, i)),
        Some(w) => {
            &&& exists|i: int| 0 <= i < k && #[trigger] lies_in(entries, roots, root, i)
            &&& paths::in_order(text::texts(w.agent_paths@))
            &&& forall|p: Seq<char>| #[trigger]
                text::texts(w.agent_paths@).contains(p) <==> has_agent(entries, roots, root, p, k)
            &&& w.is_stale == (forall|i: int|
                0 <= i < k && #[trigger] lies_in(entries, roots, root, i) ==> entries[i].is_stale)
            &&& w.is_focused == (exists|i: int|
                0 <= i < k && #[trigger] lies_in(entries, roots, root, i) && entries[i].is_focused)
        },
    }
}

/// Whether one of the first `k` entries is an agent in `p`, and that lies in the worktree `root`.
pub open spec fn has_agent(
    entries: Seq<GitWorkerPath>,
    roots: Map<Seq<char>, Option<String>>,
    root: Seq<char>,
    p: Seq<char>,
    k: int,
) -> bool {
    exists|i: int| 0 <= i < k && #[trigger] lies_in(entries, roots, root, i) && entries[i].path@ == p
}

/// Groups agents by worktree. Those in no worktree are left out.
pub fn group_by_worktree(entries: &Vec<GitWorkerPath>, roots: &StrMap<Option<String>>) -> (r: StrMap<ResolvedGitWorktree>)
    ensures
        forall|root: Seq<char>|
            gathers(#[trigger] collections::lookup(r@, root), entries@, roots@, root, entries@.len() as int),
{
    let mut r: StrMap<ResolvedGitWorktree> = StrMap::new();
    let mut i: usize = 0;
    while i < entries.len()
        invariant
            i <= entries@.len(),
            forall|root: Seq<char>|
                gathers(#[trigger] collections::lookup(r@, root), entries@, roots@, root, i as int),
        decreases entries.len() - i,
    {
        let entry = &entries[i];
        let ghost before = r@;
        let found = match roots.get(entry.path.as_str()) {
            Some(Some(root)) => Some(root.clone()),
            _ => None,
        };
        match found {
            Some(root) => {
                proof {
                    assert(lies_in(entries@, roots@, root@, i as int));
                    assert(gathers(collections::lookup(before, root@), entries@, roots@, root@, i as int));
                }
                let mut w = match r.remove(root.as_str()) {
                    Some(w) => w,
                    None => ResolvedGitWorktree { agent_paths: Vec::new(), is_stale: true, is_focused: false },
                };
                let ghost was = w;
                proof {
                    if collections::lookup(before, root@) is None {
                        assert(text::texts(w.agent_paths@) =~= Seq::<Seq<char>>::empty());
                    }
                }
                paths::insert_sorted(&mut w.agent_paths, entry.path.clone());
                w.is_stale = w.is_stale && entry.is_stale;
                w.is_focused = w.is_focused || entry.is_focused;
                proof {
                    lemma_gathers_next(collections::lookup(before, root@), was, w, entries@, roots@, root@, i as int);
                }
                r.insert(root, w);
            },
            None => {},
        }
        proof {
            assert forall|root: Seq<char>|
                gathers(#[trigger] collections::lookup(r@, root), entries@, roots@, root, i + 1) by {
                assert(gathers(collections::lookup(before, root), entries@, roots@, root, i as int));
                if !lies_in(entries@, roots@, root, i as int) {
                    assert(collections::lookup(r@, root) == collections::lookup(before, root));
                    lemma_gathers_skip(collections::lookup(before, root), entries@, roots@, root, i as int);
                }
            }
        }
        i += 1;
    }
    r
}

proof fn lemma_gathers_skip(
    w: Option<ResolvedGitWorktree>,
    entries: Seq<GitWorkerPath>,
    roots: Map<Seq<char>, Option<String>>,
    root: Seq<char>,
    k: int,
)
    requires
        gathers(w, entries, roots, root, k),
        !lies_in(entries, roots, root, k),
        0 <= k,
    ensures
        gathers(w, entries, roots, root, k + 1),
{
    match w {
        None => {},
        Some(w) => {
            let i = choose|i: int| 0 <= i < k && #[trigger] lies_in(entries, roots, root, i);
            assert(lies_in(entries, roots, root, i));
            assert forall|p: Seq<char>| #[trigger]
                text::texts(w.agent_paths@).contains(p) <==> has_agent(entries, roots, root, p, k + 1) by {
                if has_agent(entries, roots, root, p, k) {
                    let i = choose|i: int|
                        0 <= i < k && #[trigger] lies_in(entries, roots, root, i) && entries[i].path@ == p;
                    assert(lies_in(entries, roots, root, i));
                }
            }
            if w.is_focused {
                let i = choose|i: int| 0 <= i < k && #[trigger] lies_in(entries, roots, root, i) && entries[i].is_focused;
                assert(lies_in(entries, roots, root, i));
            }
        },
    }
}

proof fn lemma_gathers_next(
    was: Option<ResolvedGitWorktree>,
    base: ResolvedGitWorktree,
    now: ResolvedGitWorktree,
    entries: Seq<GitWorkerPath>,
    roots: Map<Seq<char>, Option<String>>,
    root: Seq<char>,
    k: int,
)
    requires
        0 <= k < entries.len(),
        gathers(was, entries, roots, root, k),
        lies_in(entries, roots, root, k),
        match was {
            Some(w) => base == w,
            None => text::texts(base.agent_paths@).len() == 0 && base.is_stale && !base.is_focused,
        },
        paths::in_order(text::texts(now.agent_paths@)),
        forall|p: Seq<char>| #[trigger]
            text::texts(now.agent_paths@).contains(p) <==> text::texts(base.agent_paths@).contains(p) || p
                == entries[k].path@,
        now.is_stale == (base.is_stale && entries[k].is_stale),
        now.is_focused == (base.is_focused || entries[k].is_focused),
    ensures
        gathers(Some(now), entries, roots, root, k + 1),
{
    assert(lies_in(entries, roots, root, k));
    assert forall|p: Seq<char>| #[trigger]
        text::texts(now.agent_paths@).contains(p) <==> has_agent(entries, roots, root, p, k + 1) by {
        if text::texts(base.agent_paths@).contains(p) {
            assert(has_agent(entries, roots, root, p, k));
            let i = choose|i: int| 0 <= i < k && #[trigger] lies_in(entries, roots, root, i) && entries[i].path@ == p;
            assert(lies_in(entries, roots, root, i));
        }
        if p == entries[k].path@ {
            assert(lies_in(entries, roots, root, k));
        }
        if has_agent(entries, roots, root, p, k + 1) {
            let i = choose|i: int| 0 <= i < k + 1 && #[trigger] lies_in(entries, roots, root, i) && entries[i].path@ == p;
            if i < k {
                assert(lies_in(entries, roots, root, i));
                assert(has_agent(entries, roots, root, p, k));
                assert(was is Some);
            }
        }
    }
    if now.is_focused {
        if base.is_focused {
            let i = choose|i: int| 0 <= i < k && #[trigger] lies_in(entries, roots, root, i) && entries[i].is_focused;
            assert(lies_in(entries, roots, root, i));
        } else {
            assert(lies_in(entries, roots, root, k) && entries[k].is_focused);
        }
    }
    if now.is_stale {
        assert forall|i: int| 0 <= i < k + 1 && #[trigger] lies_in(entries, roots, root, i) implies entries[i].is_stale by {
            if i < k && was is None {
                assert(!lies_in(entries, roots, root, i));
            }
        }
    } else if entries[k].is_stale {
        assert(!base.is_stale);
        let i = choose|i: int| 0 <= i < k && #[trigger] lies_in(entries, roots, root, i) && !entries[i].is_stale;
        assert(lies_in(entries, roots, root, i));
    }
}

/// Whether one of the entries is in `p`.
pub open spec fn active(entries: Seq<GitWorkerPath>, p: Seq<char>) -> bool {
    exists|i: int| 0 <= i < entries.len() && (#[trigger] entries[i]).path@ == p
}

fn active_paths(entries: &Vec<GitWorkerPath>) -> (r: StrSet)
    ensures
        forall|p: Seq<char>| #[trigger] r@.contains(p) <==> active(entries@, p),
{
    let mut r = StrSet::new();
    let mut i: usize = 0;
    while i < entries.len()
        invariant
            i <= entries@.len(),
            forall|p: Seq<char>| #[trigger]
                r@.contains(p) <==> exists|j: int| 0 <= j < i && (#[trigger] entries@[j]).path@ == p,
        decreases entries.len() - i,
    {
        let ghost before = r@;
        r.insert(entries[i].path.clone());
        proof {
            assert forall|p: Seq<char>| #[trigger]
                r@.contains(p) <==> exists|j: int| 0 <= j < i + 1 && (#[trigger] entries@[j]).path@ == p by {
                if before.contains(p) {
                    let j = choose|j: int| 0 <= j < i && (#[trigger] entries@[j]).path@ == p;
                    assert(entries@[j].path@ == p);
                }
                if entries@[i as int].path@ == p {
                    assert(r@.contains(p));
                }
            }
        }
        i += 1;
    }
    r
}

/// The directories whose worktree is still to be discovered.
pub fn undiscovered(entries: &Vec<GitWorkerPath>, roots_by_agent: &StrMap<Option<String>>) -> (r: StrSet)
    ensures
        forall|p: Seq<char>| #[trigger]
            r@.contains(p) <==> active(entries@, p) && !roots_by_agent@.dom().contains(p),
{
    let mut r = StrSet::new();
    let mut i: usize = 0;
    while i < entries.len()
        invariant
            i <= entries@.len(),
            forall|p: Seq<char>| #[trigger]
                r@.contains(p) <==> (exists|j: int| 0 <= j < i && (#[trigger] entries@[j]).path@ == p)
                    && !roots_by_agent@.dom().contains(p),
        decreases entries.len() - i,
    {
        let ghost before = r@;
        if !roots_by_agent.contains_key(entries[i].path.as_str()) {
            r.insert(entries[i].path.clone());
        }
        proof {
            assert forall|p: Seq<char>| #[trigger]
                r@.contains(p) <==> (exists|j: int| 0 <= j < i + 1 && (#[trigger] entries@[j]).path@ == p)
                    && !roots_by_agent@.dom().contains(p) by {
                if before.contains(p) {
                    let j = choose|j: int| 0 <= j < i && (#[trigger] entries@[j]).path@ == p;
                    assert(entries@[j].path@ == p);
                }
                if entries@[i as int].path@ == p && !roots_by_agent@.dom().contains(p) {
                    assert(r@.contains(p));
                }
            }
        }
        i += 1;
    }
    r
}

/// The roots that are known once `discovered` is: those of active directories only.
pub open spec fn known_root(
    roots: Map<Seq<char>, Option<String>>,
    discovered: Map<Seq<char>, Option<String>>,
    entries: Seq<GitWorkerPath>,
    p: Seq<char>,
) -> Option<Option<String>> {
    if !active(entries, p) {
        None
    } else if roots.dom().contains(p) {
        Some(roots[p])
    } else {
        collections::lookup(discovered, p)
    }
}

/// Resolves agent directories to worktrees, given what was discovered for the directories that were
/// not known. Directories that are no longer active are forgotten.
pub fn resolve_git_worktrees_cached(
    entries: &Vec<GitWorkerPath>,
    roots_by_agent: &mut StrMap<Option<String>>,
    discovered: &StrMap<Option<String>>,
) -> (r: StrMap<ResolvedGitWorktree>)
    ensures
        forall|p: Seq<char>| #[trigger]
            collections::lookup(final(roots_by_agent)@, p) == known_root(
                old(roots_by_agent)@,
                discovered@,
                entries@,
                p,
            ),
        forall|root: Seq<char>|
            gathers(
                #[trigger] collections::lookup(r@, root),
                entries@,
                final(roots_by_agent)@,
                root,
                entries@.len() as int,
            ),
{
    let wanted = active_paths(entries);
    roots_by_agent.retain_in(&wanted);
    let ghost kept = roots_by_agent@;
    let n: usize = discovered.len();
    let ghost keys = discovered.keys();
    let mut i: usize = 0;
    proof {
        collections::lemma_met(keys, 0);
    }
    while i < n
        invariant
            n == keys.len(),
            keys == discovered.keys(),
            i <= n,
            forall|p: Seq<char>| #[trigger] wanted@.contains(p) <==> active(entries@, p),
            forall|p: Seq<char>| #[trigger]
                collections::lookup(roots_by_agent@, p) == (if collections::met(keys, i as int, p) && active(entries@, p)
                    && !kept.dom().contains(p) {
                    Some(discovered@[p])
                } else {
                    collections::lookup(kept, p)
                }),
        decreases n - i,
    {
        let path = discovered.key_at(i);
        let ghost before = roots_by_agent@;
        proof {
            collections::lemma_met(keys, i as int);
            discovered.lemma_keys();
            assert(collections::lookup(before, path@) == (if collections::met(keys, i as int, path@) && active(
                entries@,
                path@,
            ) && !kept.dom().contains(path@) {
                Some(discovered@[path@])
            } else {
                collections::lookup(kept, path@)
            }));
        }
        if wanted.contains(path.as_str()) && !roots_by_agent.contains_key(path.as_str()) {
            let root = text::copy_optional(discovered.value_at(i));
            roots_by_agent.insert(path.clone(), root);
        }
        proof {
            assert forall|p: Seq<char>| #[trigger]
                collections::lookup(roots_by_agent@, p) == (if collections::met(keys, i + 1, p) && active(entries@, p)
                    && !kept.dom().contains(p) {
                    Some(discovered@[p])
                } else {
                    collections::lookup(kept, p)
                }) by {
                if p != path@ {
                    assert(collections::lookup(roots_by_agent@, p) == collections::lookup(before, p));
                }
            }
        }
        i += 1;
    }
    proof {
        discovered.lemma_keys();
        collections::lemma_met(keys, n as int);
        assert forall|p: Seq<char>| #[trigger]
            collections::lookup(roots_by_agent@, p) == known_root(old(roots_by_agent)@, discovered@, entries@, p) by {
            assert(wanted@.contains(p) <==> active(entries@, p));
            assert(keys.contains(p) <==> discovered@.dom().contains(p));
        }
    }
    group_by_worktree(entries, roots_by_agent)
}

/// Whether a worktree has an agent in `p`.
pub open spec fn owns(m: Map<Seq<char>, ResolvedGitWorktree>, root: Seq<char>, p: Seq<char>) -> bool {
    m.dom().contains(root) && text::texts(m[root].agent_paths@).contains(p)
}

/// Whether no directory belongs to two worktrees.
pub open spec fn owned_once(m: Map<Seq<char>, ResolvedGitWorktree>) -> bool {
    forall|a: Seq<char>, b: Seq<char>, p: Seq<char>| #[trigger] owns(m, a, p) && #[trigger] owns(m, b, p) ==> a == b
}

/// Resolving gives every directory to one worktree at most: the one that was discovered for it.
pub proof fn law_directories_have_one_worktree(
    m: Map<Seq<char>, ResolvedGitWorktree>,
    entries: Seq<GitWorkerPath>,
    roots: Map<Seq<char>, Option<String>>,
)
    requires
        forall|root: Seq<char>|
            gathers(#[trigger] collections::lookup(m, root), entries, roots, root, entries.len() as int),
    ensures
        owned_once(m),
        forall|root: Seq<char>, p: Seq<char>| #[trigger]
            owns(m, root, p) <==> active(entries, p) && root_of(roots, p) == Some(root),
{
    assert forall|root: Seq<char>, p: Seq<char>| #[trigger]
        owns(m, root, p) <==> active(entries, p) && root_of(roots, p) == Some(root) by {
        assert(gathers(collections::lookup(m, root), entries, roots, root, entries.len() as int));
        if owns(m, root, p) {
            assert(has_agent(entries, roots, root, p, entries.len() as int));
            let i = choose|i: int|
                0 <= i < entries.len() && #[trigger] lies_in(entries, roots, root, i) && entries[i].path@ == p;
            assert(entries[i].path@ == p);
        }
        if active(entries, p) && root_of(roots, p) == Some(root) {
            let i = choose|i: int| 0 <= i < entries.len() && (#[trigger] entries[i]).path@ == p;
            assert(lies_in(entries, roots, root, i));
            assert(collections::lookup(m, root) is Some);
            assert(has_agent(entries, roots, root, p, entries.len() as int));
        }
    }
}

// ── Carrying statuses over ──────────────────────────────────────

/// The first status that a cache has for the directories `ps`, from `i` on.
pub open spec fn first_status(ps: Seq<Seq<char>>, cache: Map<Seq<char>, GitStatus>, i: int) -> Option<GitStatus>
    decreases ps.len() - i,
{
    if i < 0 || i >= ps.len() {
        None
    } else if cache.dom().contains(ps[i]) {
        Some(cache[ps[i]])
    } else {
        first_status(ps, cache, i + 1)
    }
}

/// The status that is known of a worktree, from the agents that it had.
pub open spec fn root_status(
    previous: Map<Seq<char>, ResolvedGitWorktree>,
    cache: Map<Seq<char>, GitStatus>,
    root: Seq<char>,
) -> Option<GitStatus> {
    if previous.dom().contains(root) {
        first_status(text::texts(previous[root].agent_paths@), cache, 0)
    } else {
        None
    }
}

/// Whether a directory belongs to the same worktree as before.
pub open spec fn stays(
    previous: Map<Seq<char>, ResolvedGitWorktree>,
    current: Map<Seq<char>, ResolvedGitWorktree>,
    p: Seq<char>,
) -> bool {
    exists|root: Seq<char>| #[trigger] owns(current, root, p) && owns(previous, root, p)
}

/// Whether the status of its worktree is known for a directory.
pub open spec fn projected(
    previous: Map<Seq<char>, ResolvedGitWorktree>,
    current: Map<Seq<char>, ResolvedGitWorktree>,
    cache: Map<Seq<char>, GitStatus>,
    p: Seq<char>,
    status: GitStatus,
) -> bool {
    exists|root: Seq<char>| #[trigger] owns(current, root, p) && root_status(previous, cache, root) == Some(status)
}

/// Whether no status is known of a directory's worktree.
pub open spec fn unprojected(
    previous: Map<Seq<char>, ResolvedGitWorktree>,
    current: Map<Seq<char>, ResolvedGitWorktree>,
    cache: Map<Seq<char>, GitStatus>,
    p: Seq<char>,
) -> bool {
    forall|root: Seq<char>| #[trigger] owns(current, root, p) ==> root_status(previous, cache, root) is None
}

/// Whether a status is kept as it is.
pub open spec fn kept(
    previous: Map<Seq<char>, ResolvedGitWorktree>,
    current: Map<Seq<char>, ResolvedGitWorktree>,
    cache: Map<Seq<char>, GitStatus>,
    p: Seq<char>,
) -> bool {
    cache.dom().contains(p) && stays(previous, current, p)
}

fn status_of_first(agent_paths: &Vec<String>, cache: &StrMap<GitStatus>) -> (r: Option<GitStatus>)
    ensures
        r == first_status(text::texts(agent_paths@), cache@, 0),
{
    let ghost ts = text::texts(agent_paths@);
    let mut i: usize = 0;
    while i < agent_paths.len()
        invariant
            ts == text::texts(agent_paths@),
            i <= agent_paths@.len(),
            first_status(ts, cache@, 0) == first_status(ts, cache@, i as int),
        decreases agent_paths.len() - i,
    {
        match cache.get(agent_paths[i].as_str()) {
            Some(status) => return Some(status.clone()),
            None => {},
        }
        i += 1;
    }
    None
}

fn root_statuses(previous: &StrMap<ResolvedGitWorktree>, cache: &StrMap<GitStatus>) -> (r: StrMap<GitStatus>)
    ensures
        forall|root: Seq<char>| #[trigger]
            collections::lookup(r@, root) == root_status(previous@, cache@, root),
{
    let mut r: StrMap<GitStatus> = StrMap::new();
    let n: usize = previous.len();
    let ghost keys = previous.keys();
    let mut i: usize = 0;
    proof {
        collections::lemma_met(keys, 0);
    }
    while i < n
        invariant
            n == keys.len(),
            keys == previous.keys(),
            i <= n,
            forall|root: Seq<char>| #[trigger]
                collections::lookup(r@, root) == (if collections::met(keys, i as int, root) {
                    root_status(previous@, cache@, root)
                } else {
                    None
                }),
        decreases n - i,
    {
        let root = previous.key_at(i);
        let ghost before = r@;
        proof {
            collections::lemma_met(keys, i as int);
            assert(collections::lookup(before, root@) == (if collections::met(keys, i as int, root@) {
                root_status(previous@, cache@, root@)
            } else {
                None
            }));
        }
        match status_of_first(&previous.value_at(i).agent_paths, cache) {
            Some(status) => {
                r.insert(root.clone(), status);
            },
            None => {},
        }
        proof {
            assert forall|k: Seq<char>| #[trigger]
                collections::lookup(r@, k) == (if collections::met(keys, i + 1, k) {
                    root_status(previous@, cache@, k)
                } else {
                    None
                }) by {
                if k != root@ {
                    assert(collections::lookup(r@, k) == collections::lookup(before, k));
                }
            }
        }
        i += 1;
    }
    proof {
        previous.lemma_keys();
        collections::lemma_met(keys, n as int);
        assert forall|root: Seq<char>| #[trigger]
            collections::lookup(r@, root) == root_status(previous@, cache@, root) by {
            assert(keys.contains(root) <==> previous@.dom().contains(root));
        }
    }
    r
}

/// Adds the members of `a` that are in `b` too.
fn add_common(out: &mut StrSet, a: &Vec<String>, b: &Vec<String>)
    ensures
        forall|p: Seq<char>| #[trigger]
            final(out)@.contains(p) <==> old(out)@.contains(p) || (text::texts(a@).contains(p) && text::texts(b@).contains(
                p,
            )),
{
    let other = StrSet::of(b);
    let ghost ts = text::texts(a@);
    let ghost before = out@;
    proof {
        assert forall|p: Seq<char>| other@.contains(p) <==> text::texts(b@).contains(p) by {
            if other@.contains(p) {
                let j = choose|j: int| 0 <= j < b@.len() && b@[j]@ == p;
                assert(text::texts(b@)[j] == p);
            }
            if text::texts(b@).contains(p) {
                let j = choose|j: int| 0 <= j < text::texts(b@).len() && text::texts(b@)[j] == p;
                assert(b@[j]@ == p);
            }
        }
        collections::lemma_met(ts, 0);
    }
    let mut i: usize = 0;
    while i < a.len()
        invariant
            ts == text::texts(a@),
            i <= a@.len(),
            forall|p: Seq<char>| other@.contains(p) <==> #[trigger] text::texts(b@).contains(p),
            forall|p: Seq<char>| #[trigger]
                out@.contains(p) <==> before.contains(p) || (collections::met(ts, i as int, p) && text::texts(
                    b@,
                ).contains(p)),
        decreases a.len() - i,
    {
        proof {
            collections::lemma_met(ts, i as int);
            assert(ts[i as int] == a@[i as int]@);
            assert(text::texts(b@).contains(a@[i as int]@) <==> other@.contains(a@[i as int]@));
        }
        if other.contains(a[i].as_str()) {
            out.insert(a[i].clone());
        }
        i += 1;
    }
    proof {
        assert(ts.len() == a@.len());
        collections::lemma_met(ts, ts.len() as int);
    }
}

fn staying_paths(previous: &StrMap<ResolvedGitWorktree>, current: &StrMap<ResolvedGitWorktree>) -> (r: StrSet)
    ensures
        forall|p: Seq<char>| #[trigger] r@.contains(p) <==> stays(previous@, current@, p),
{
    let mut r = StrSet::new();
    let n: usize = current.len();
    let ghost keys = current.keys();
    let mut i: usize = 0;
    proof {
        collections::lemma_met(keys, 0);
    }
    while i < n
        invariant
            n == keys.len(),
            keys == current.keys(),
            i <= n,
            forall|p: Seq<char>| #[trigger]
                r@.contains(p) <==> exists|root: Seq<char>| #[trigger]
                    owns(current@, root, p) && owns(previous@, root, p) && collections::met(keys, i as int, root),
        decreases n - i,
    {
        let root = current.key_at(i);
        let ghost before = r@;
        proof {
            collections::lemma_met(keys, i as int);
        }
        match previous.get(root.as_str()) {
            Some(old_tree) => {
                add_common(&mut r, &current.value_at(i).agent_paths, &old_tree.agent_paths);
            },
            None => {},
        }
        proof {
            assert forall|p: Seq<char>| #[trigger]
                r@.contains(p) <==> exists|k: Seq<char>| #[trigger]
                    owns(current@, k, p) && owns(previous@, k, p) && collections::met(keys, i + 1, k) by {
                if before.contains(p) {
                    let k = choose|k: Seq<char>| #[trigger]
                        owns(current@, k, p) && owns(previous@, k, p) && collections::met(keys, i as int, k);
                    assert(owns(current@, k, p) && collections::met(keys, i + 1, k));
                }
                if owns(current@, root@, p) && owns(previous@, root@, p) {
                    assert(collections::met(keys, i + 1, root@));
                    assert(r@.contains(p));
                }
            }
        }
        i += 1;
    }
    proof {
        current.lemma_keys();
        collections::lemma_met(keys, n as int);
        assert forall|p: Seq<char>| #[trigger] r@.contains(p) <==> stays(previous@, current@, p) by {
            if stays(previous@, current@, p) {
                let k = choose|k: Seq<char>| #[trigger] owns(current@, k, p) && owns(previous@, k, p);
                assert(keys.contains(k));
                assert(collections::met(keys, n as int, k));
            }
        }
    }
    r
}

/// Gives the directories that have no status yet the one of their worktree.
fn fill(cache: &mut StrMap<GitStatus>, agent_paths: &Vec<String>, status: &GitStatus) -> (r: bool)
    ensures
        forall|p: Seq<char>| #[trigger]
            collections::lookup(final(cache)@, p) == (if !old(cache)@.dom().contains(p) && text::texts(
                agent_paths@,
            ).contains(p) {
                Some(*status)
            } else {
                collections::lookup(old(cache)@, p)
            }),
        r == exists|p: Seq<char>| #[trigger]
            text::texts(agent_paths@).contains(p) && !old(cache)@.dom().contains(p),
{
    let ghost ts = text::texts(agent_paths@);
    let ghost before = cache@;
    let mut changed = false;
    let mut i: usize = 0;
    proof {
        collections::lemma_met(ts, 0);
    }
    while i < agent_paths.len()
        invariant
            ts == text::texts(agent_paths@),
            i <= agent_paths@.len(),
            forall|p: Seq<char>| #[trigger]
                collections::lookup(cache@, p) == (if !before.dom().contains(p) && collections::met(ts, i as int, p) {
                    Some(*status)
                } else {
                    collections::lookup(before, p)
                }),
            changed == exists|p: Seq<char>| #[trigger]
                collections::met(ts, i as int, p) && !before.dom().contains(p),
        decreases agent_paths.len() - i,
    {
        let path = &agent_paths[i];
        let ghost mid = cache@;
        proof {
            collections::lemma_met(ts, i as int);
            assert(ts[i as int] == path@);
            assert(collections::lookup(mid, path@) == (if !before.dom().contains(path@) && collections::met(
                ts,
                i as int,
                path@,
            ) {
                Some(*status)
            } else {
                collections::lookup(before, path@)
            }));
        }
        if !cache.contains_key(path.as_str()) {
            cache.insert(path.clone(), status.clone());
            changed = true;
            proof {
                assert(collections::met(ts, i + 1, path@) && !before.dom().contains(path@));
            }
        }
        proof {
            assert forall|p: Seq<char>| #[trigger]
                collections::lookup(cache@, p) == (if !before.dom().contains(p) && collections::met(ts, i + 1, p) {
                    Some(*status)
                } else {
                    collections::lookup(before, p)
                }) by {
                if p != path@ {
                    assert(collections::lookup(cache@, p) == collections::lookup(mid, p));
                }
            }
            if changed && mid.dom().contains(path@) {
                let p = choose|p: Seq<char>| #[trigger]
                    collections::met(ts, i as int, p) && !before.dom().contains(p);
                assert(collections::met(ts, i + 1, p) && !before.dom().contains(p));
            }
        }
        i += 1;
    }
    proof {
        assert(ts.len() == agent_paths@.len());
        collections::lemma_met(ts, ts.len() as int);
        assert forall|p: Seq<char>| #[trigger]
            collections::lookup(cache@, p) == (if !before.dom().contains(p) && ts.contains(p) {
                Some(*status)
            } else {
                collections::lookup(before, p)
            }) by {
            assert(collections::met(ts, ts.len() as int, p) <==> ts.contains(p));
        }
        if changed {
            let p = choose|p: Seq<char>| #[trigger]
                collections::met(ts, ts.len() as int, p) && !before.dom().contains(p);
            assert(ts.contains(p) && !before.dom().contains(p));
        } else {
            assert forall|p: Seq<char>| #[trigger] ts.contains(p) implies before.dom().contains(p) by {
                assert(collections::met(ts, ts.len() as int, p));
            }
        }
    }
    changed
}

/// Whether the statuses of a cache are those of `before`, carried over to `current`.
pub open spec fn carried_over(
    previous: Map<Seq<char>, ResolvedGitWorktree>,
    current: Map<Seq<char>, ResolvedGitWorktree>,
    before: Map<Seq<char>, GitStatus>,
    after: Map<Seq<char>, GitStatus>,
) -> bool {
    forall|p: Seq<char>|
        match #[trigger] collections::lookup(after, p) {
            Some(status) => if kept(previous, current, before, p) {
                status == before[p]
            } else {
                projected(previous, current, before, p, status)
            },
            None => !kept(previous, current, before, p) && unprojected(previous, current, before, p),
        }
}

/// Whether carrying statuses over changes what any agent shows.
pub open spec fn carrying_changes(
    previous: Map<Seq<char>, ResolvedGitWorktree>,
    current: Map<Seq<char>, ResolvedGitWorktree>,
    before: Map<Seq<char>, GitStatus>,
) -> bool {
    ||| exists|p: Seq<char>| #[trigger] before.dom().contains(p) && !stays(previous, current, p)
    ||| exists|p: Seq<char>, root: Seq<char>| #[trigger]
        owns(current, root, p) && root_status(previous, before, root) is Some && !kept(previous, current, before, p)
}

/// Carries the statuses over when the worktrees of agents change. A status belongs to a worktree:
/// an agent keeps it while it stays in the same one, and takes over that of the worktree it moves
/// to, where one is known. Returns whether anything changed, and the worktrees without a status.
pub fn reconcile_git_cache(
    previous: &StrMap<ResolvedGitWorktree>,
    current: &StrMap<ResolvedGitWorktree>,
    cache: &mut StrMap<GitStatus>,
) -> (r: (bool, Vec<String>))
    requires
        owned_once(current@),
    ensures
        carried_over(previous@, current@, old(cache)@, final(cache)@),
        r.0 == carrying_changes(previous@, current@, old(cache)@),
        forall|root: Seq<char>| #[trigger]
            text::texts(r.1@).contains(root) <==> current@.dom().contains(root) && root_status(
                previous@,
                old(cache)@,
                root,
            ) is None,
        text::texts(r.1@).no_duplicates(),
{
    let ghost before = cache@;
    let statuses = root_statuses(previous, cache);
    let staying = staying_paths(previous, current);
    let mut changed = loses_any(cache, &staying);
    cache.retain_in(&staying);
    let ghost dropped = changed;
    let mut missing: Vec<String> = Vec::new();
    let n: usize = current.len();
    let ghost keys = current.keys();
    current.check_distinct();
    let mut i: usize = 0;
    proof {
        collections::lemma_met(keys, 0);
        current.lemma_keys();
        assert(text::texts(missing@) =~= Seq::<Seq<char>>::empty());
        assert forall|p: Seq<char>| filled(previous@, current@, before, #[trigger] collections::lookup(cache@, p), keys, 0, p) by {
            assert(staying@.contains(p) <==> stays(previous@, current@, p));
        }
    }
    while i < n
        invariant
            n == keys.len(),
            keys == current.keys(),
            keys.no_duplicates(),
            owned_once(current@),
            forall|root: Seq<char>| #[trigger] keys.contains(root) <==> current@.dom().contains(root),
            forall|root: Seq<char>| #[trigger]
                collections::lookup(statuses@, root) == root_status(previous@, before, root),
            i <= n,
            forall|p: Seq<char>|
                filled(
                    previous@,
                    current@,
                    before,
                    #[trigger] collections::lookup(cache@, p),
                    keys,
                    i as int,
                    p,
                ),
            changed == (dropped || exists|p: Seq<char>, root: Seq<char>| #[trigger]
                newly(previous@, current@, before, keys, i as int, p, root)),
            forall|root: Seq<char>| #[trigger]
                text::texts(missing@).contains(root) <==> collections::met(keys, i as int, root) && root_status(
                    previous@,
                    before,
                    root,
                ) is None,
            text::texts(missing@).no_duplicates(),
        decreases n - i,
    {
        let root = current.key_at(i);
        let ghost mid = cache@;
        let ghost listed = text::texts(missing@);
        let ghost was_changed = changed;
        proof {
            collections::lemma_met(keys, i as int);
            assert(keys[i as int] == root@);
            assert(collections::lookup(statuses@, root@) == root_status(previous@, before, root@));
        }
        match statuses.get(root.as_str()) {
            Some(status) => {
                let ps = &current.value_at(i).agent_paths;
                let more = fill(cache, ps, status);
                changed = changed || more;
                proof {
                    assert forall|p: Seq<char>|
                        filled(
                            previous@,
                            current@,
                            before,
                            #[trigger] collections::lookup(cache@, p),
                            keys,
                            i + 1,
                            p,
                        ) by {
                        lemma_filled_next(
                            previous@,
                            current@,
                            before,
                            collections::lookup(mid, p),
                            collections::lookup(cache@, p),
                            keys,
                            i as int,
                            p,
                            *status,
                        );
                    }
                    lemma_newly_next(previous@, current@, before, mid, keys, i as int, more, *status);
                }
            },
            None => {
                missing.push(root.clone());
                proof {
                    assert(text::texts(missing@) =~= listed.push(root@));
                    assert(!collections::met(keys, i as int, root@));
                    assert(!listed.contains(root@));
                    assert forall|k: Seq<char>| #[trigger]
                        text::texts(missing@).contains(k) <==> listed.contains(k) || k == root@ by {
                        if listed.contains(k) {
                            let j = choose|j: int| 0 <= j < listed.len() && listed[j] == k;
                            assert(text::texts(missing@)[j] == k);
                        }
                        if k == root@ {
                            assert(text::texts(missing@)[listed.len() as int] == k);
                        }
                    }
                    assert forall|p: Seq<char>|
                        filled(
                            previous@,
                            current@,
                            before,
                            #[trigger] collections::lookup(cache@, p),
                            keys,
                            i + 1,
                            p,
                        ) by {
                        assert(filled(
                            previous@,
                            current@,
                            before,
                            collections::lookup(mid, p),
                            keys,
                            i as int,
                            p,
                        ));
                        lemma_filled_skip(
                            previous@,
                            current@,
                            before,
                            collections::lookup(mid, p),
                            keys,
                            i as int,
                            p,
                        );
                    }
                    assert forall|p: Seq<char>, k: Seq<char>| #[trigger]
                        newly(previous@, current@, before, keys, i + 1, p, k) <==> newly(
                            previous@,
                            current@,
                            before,
                            keys,
                            i as int,
                            p,
                            k,
                        ) by {}
                    if was_changed && !dropped {
                        let (p, k) = choose|p: Seq<char>, k: Seq<char>| #[trigger]
                            newly(previous@, current@, before, keys, i as int, p, k);
                        assert(newly(previous@, current@, before, keys, i + 1, p, k));
                    }
                }
            },
        }
        i += 1;
    }
    proof {
        collections::lemma_met(keys, n as int);
        assert forall|p: Seq<char>|
            match #[trigger] collections::lookup(cache@, p) {
                Some(status) => if kept(previous@, current@, before, p) {
                    status == before[p]
                } else {
                    projected(previous@, current@, before, p, status)
                },
                None => !kept(previous@, current@, before, p) && unprojected(previous@, current@, before, p),
            } by {
            assert(filled(previous@, current@, before, collections::lookup(cache@, p), keys, n as int, p));
            lemma_filled_all(previous@, current@, before, collections::lookup(cache@, p), keys, p);
        }
        lemma_changes(previous@, current@, before, keys, dropped, changed);
    }
    (changed, missing)
}

/// What is in the cache for `p` once the first `i` worktrees were gone through.
spec fn filled(
    previous: Map<Seq<char>, ResolvedGitWorktree>,
    current: Map<Seq<char>, ResolvedGitWorktree>,
    before: Map<Seq<char>, GitStatus>,
    now: Option<GitStatus>,
    keys: Seq<Seq<char>>,
    i: int,
    p: Seq<char>,
) -> bool {
    match now {
        Some(status) => if kept(previous, current, before, p) {
            status == before[p]
        } else {
            exists|root: Seq<char>| #[trigger]
                owns(current, root, p) && collections::met(keys, i, root) && root_status(previous, before, root) == Some(
                    status,
                )
        },
        None => !kept(previous, current, before, p) && forall|root: Seq<char>| #[trigger]
            owns(current, root, p) && collections::met(keys, i, root) ==> root_status(previous, before, root) is None,
    }
}

/// Whether the worktree `root`, one of the first `i`, gives `p` a status that it did not have.
spec fn newly(
    previous: Map<Seq<char>, ResolvedGitWorktree>,
    current: Map<Seq<char>, ResolvedGitWorktree>,
    before: Map<Seq<char>, GitStatus>,
    keys: Seq<Seq<char>>,
    i: int,
    p: Seq<char>,
    root: Seq<char>,
) -> bool {
    owns(current, root, p) && collections::met(keys, i, root) && root_status(previous, before, root) is Some && !kept(
        previous,
        current,
        before,
        p,
    )
}

proof fn lemma_filled_skip(
    previous: Map<Seq<char>, ResolvedGitWorktree>,
    current: Map<Seq<char>, ResolvedGitWorktree>,
    before: Map<Seq<char>, GitStatus>,
    now: Option<GitStatus>,
    keys: Seq<Seq<char>>,
    i: int,
    p: Seq<char>,
)
    requires
        0 <= i < keys.len(),
        filled(previous, current, before, now, keys, i, p),
        root_status(previous, before, keys[i]) is None,
    ensures
        filled(previous, current, before, now, keys, i + 1, p),
{
    collections::lemma_met(keys, i);
    if now is Some && !kept(previous, current, before, p) {
        let status = now->0;
        let root = choose|root: Seq<char>| #[trigger]
            owns(current, root, p) && collections::met(keys, i, root) && root_status(previous, before, root) == Some(status);
        assert(owns(current, root, p) && collections::met(keys, i + 1, root));
    }
}

proof fn lemma_filled_next(
    previous: Map<Seq<char>, ResolvedGitWorktree>,
    current: Map<Seq<char>, ResolvedGitWorktree>,
    before: Map<Seq<char>, GitStatus>,
    was: Option<GitStatus>,
    now: Option<GitStatus>,
    keys: Seq<Seq<char>>,
    i: int,
    p: Seq<char>,
    status: GitStatus,
)
    requires
        0 <= i < keys.len(),
        current.dom().contains(keys[i]),
        filled(previous, current, before, was, keys, i, p),
        root_status(previous, before, keys[i]) == Some(status),
        now == (if was is None && owns(current, keys[i], p) {
            Some(status)
        } else {
            was
        }),
    ensures
        filled(previous, current, before, now, keys, i + 1, p),
{
    collections::lemma_met(keys, i);
    if was is Some && !kept(previous, current, before, p) {
        let s = was->0;
        let root = choose|root: Seq<char>| #[trigger]
            owns(current, root, p) && collections::met(keys, i, root) && root_status(previous, before, root) == Some(s);
        assert(owns(current, root, p) && collections::met(keys, i + 1, root));
    }
    if was is None && owns(current, keys[i], p) {
        assert(owns(current, keys[i], p) && collections::met(keys, i + 1, keys[i]));
    }
}

proof fn lemma_newly_next(
    previous: Map<Seq<char>, ResolvedGitWorktree>,
    current: Map<Seq<char>, ResolvedGitWorktree>,
    before: Map<Seq<char>, GitStatus>,
    mid: Map<Seq<char>, GitStatus>,
    keys: Seq<Seq<char>>,
    i: int,
    more: bool,
    status: GitStatus,
)
    requires
        0 <= i < keys.len(),
        owned_once(current),
        keys.no_duplicates(),
        current.dom().contains(keys[i]),
        root_status(previous, before, keys[i]) == Some(status),
        forall|p: Seq<char>|
            filled(previous, current, before, #[trigger] collections::lookup(mid, p), keys, i, p),
        more == exists|p: Seq<char>| #[trigger]
            text::texts(current[keys[i]].agent_paths@).contains(p) && !mid.dom().contains(p),
    ensures
        (exists|p: Seq<char>, root: Seq<char>| #[trigger]
            newly(previous, current, before, keys, i + 1, p, root)) <==> more || (exists|p: Seq<char>, root: Seq<char>|
         #[trigger]
            newly(previous, current, before, keys, i, p, root)),
{
    collections::lemma_met(keys, i);
    if more {
        let p = choose|p: Seq<char>| #[trigger]
            text::texts(current[keys[i]].agent_paths@).contains(p) && !mid.dom().contains(p);
        assert(filled(previous, current, before, collections::lookup(mid, p), keys, i, p));
        assert(newly(previous, current, before, keys, i + 1, p, keys[i]));
    }
    if exists|p: Seq<char>, root: Seq<char>| #[trigger] newly(previous, current, before, keys, i, p, root) {
        let (p, root) = choose|p: Seq<char>, root: Seq<char>| #[trigger]
            newly(previous, current, before, keys, i, p, root);
        assert(newly(previous, current, before, keys, i + 1, p, root));
    }
    if exists|p: Seq<char>, root: Seq<char>| #[trigger] newly(previous, current, before, keys, i + 1, p, root) {
        let (p, root) = choose|p: Seq<char>, root: Seq<char>| #[trigger]
            newly(previous, current, before, keys, i + 1, p, root);
        if root == keys[i] {
            if mid.dom().contains(p) {
                assert(filled(previous, current, before, collections::lookup(mid, p), keys, i, p));
                let s = mid[p];
                let other = choose|k: Seq<char>| #[trigger]
                    owns(current, k, p) && collections::met(keys, i, k) && root_status(previous, before, k) == Some(s);
                assert(owns(current, other, p) && owns(current, root, p));
                assert(other == root);
                let j = choose|j: int| 0 <= j < i && #[trigger] keys[j] == root;
                assert(keys[j] == keys[i]);
                assert(false);
            }
            assert(text::texts(current[keys[i]].agent_paths@).contains(p) && !mid.dom().contains(p));
        } else {
            assert(newly(previous, current, before, keys, i, p, root));
        }
    }
}

proof fn lemma_filled_all(
    previous: Map<Seq<char>, ResolvedGitWorktree>,
    current: Map<Seq<char>, ResolvedGitWorktree>,
    before: Map<Seq<char>, GitStatus>,
    now: Option<GitStatus>,
    keys: Seq<Seq<char>>,
    p: Seq<char>,
)
    requires
        filled(previous, current, before, now, keys, keys.len() as int, p),
        forall|root: Seq<char>| #[trigger] keys.contains(root) <==> current.dom().contains(root),
    ensures
        match now {
            Some(status) => if kept(previous, current, before, p) {
                status == before[p]
            } else {
                projected(previous, current, before, p, status)
            },
            None => !kept(previous, current, before, p) && unprojected(previous, current, before, p),
        },
{
    collections::lemma_met(keys, keys.len() as int);
    if now is None {
        assert forall|root: Seq<char>| #[trigger] owns(current, root, p) implies root_status(
            previous,
            before,
            root,
        ) is None by {
            assert(keys.contains(root));
            assert(collections::met(keys, keys.len() as int, root));
        }
    }
}

proof fn lemma_changes(
    previous: Map<Seq<char>, ResolvedGitWorktree>,
    current: Map<Seq<char>, ResolvedGitWorktree>,
    before: Map<Seq<char>, GitStatus>,
    keys: Seq<Seq<char>>,
    dropped: bool,
    changed: bool,
)
    requires
        forall|root: Seq<char>| #[trigger] keys.contains(root) <==> current.dom().contains(root),
        dropped == exists|p: Seq<char>| #[trigger] before.dom().contains(p) && !stays(previous, current, p),
        changed == (dropped || exists|p: Seq<char>, root: Seq<char>| #[trigger]
            newly(previous, current, before, keys, keys.len() as int, p, root)),
    ensures
        changed == carrying_changes(previous, current, before),
{
    collections::lemma_met(keys, keys.len() as int);
    if changed && !dropped {
        let (p, root) = choose|p: Seq<char>, root: Seq<char>| #[trigger]
            newly(previous, current, before, keys, keys.len() as int, p, root);
        assert(owns(current, root, p));
    }
    if exists|p: Seq<char>, root: Seq<char>| #[trigger]
        owns(current, root, p) && root_status(previous, before, root) is Some && !kept(previous, current, before, p) {
        let (p, root) = choose|p: Seq<char>, root: Seq<char>| #[trigger]
            owns(current, root, p) && root_status(previous, before, root) is Some && !kept(previous, current, before, p);
        assert(keys.contains(root));
        assert(newly(previous, current, before, keys, keys.len() as int, p, root));
    }
}

/// Whether keeping only `keep` takes anything out.
fn loses_any(cache: &StrMap<GitStatus>, keep: &StrSet) -> (r: bool)
    ensures
        r == exists|p: Seq<char>| #[trigger] cache@.dom().contains(p) && !keep@.contains(p),
{
    let n: usize = cache.len();
    let ghost keys = cache.keys();
    let mut i: usize = 0;
    proof {
        collections::lemma_met(keys, 0);
    }
    while i < n
        invariant
            n == keys.len(),
            keys == cache.keys(),
            i <= n,
            forall|p: Seq<char>| #[trigger] collections::met(keys, i as int, p) ==> keep@.contains(p),
        decreases n - i,
    {
        proof {
            collections::lemma_met(keys, i as int);
        }
        let p = cache.key_at(i);
        if !keep.contains(p.as_str()) {
            proof {
                assert(cache@.dom().contains(p@) && !keep@.contains(p@));
            }
            return true;
        }
        i += 1;
    }
    proof {
        cache.lemma_keys();
        collections::lemma_met(keys, n as int);
    }
    false
}

/// An agent that stays in its worktree keeps its status, and one that moves within a worktree shows
/// that worktree's status.
pub proof fn law_statuses_belong_to_worktrees(
    previous: Map<Seq<char>, ResolvedGitWorktree>,
    current: Map<Seq<char>, ResolvedGitWorktree>,
    before: Map<Seq<char>, GitStatus>,
    after: Map<Seq<char>, GitStatus>,
    root: Seq<char>,
    p: Seq<char>,
)
    requires
        carried_over(previous, current, before, after),
        owned_once(current),
        owns(current, root, p),
    ensures
        owns(previous, root, p) && before.dom().contains(p) ==> collections::lookup(after, p) == Some(before[p]),
        !kept(previous, current, before, p) ==> collections::lookup(after, p) == root_status(previous, before, root),
{
    if owns(previous, root, p) && before.dom().contains(p) {
        assert(owns(current, root, p) && owns(previous, root, p));
        assert(stays(previous, current, p));
        assert(collections::lookup(after, p) is Some);
    }
    if !kept(previous, current, before, p) {
        match collections::lookup(after, p) {
            Some(status) => {
                assert(projected(previous, current, before, p, status));
                let k = choose|k: Seq<char>| #[trigger]
                    owns(current, k, p) && root_status(previous, before, k) == Some(status);
                assert(owns(current, k, p) && owns(current, root, p));
            },
            None => {
                assert(unprojected(previous, current, before, p));
            },
        }
    }
}

/// Where the worktrees of agents do not change, neither do their statuses.
pub proof fn law_nothing_moves_where_nothing_changes(
    worktrees: Map<Seq<char>, ResolvedGitWorktree>,
    before: Map<Seq<char>, GitStatus>,
)
    requires
        owned_once(worktrees),
        forall|p: Seq<char>| #[trigger]
            before.dom().contains(p) <==> exists|root: Seq<char>| #[trigger] owns(worktrees, root, p),
    ensures
        !carrying_changes(worktrees, worktrees, before),
{
    assert forall|p: Seq<char>| #[trigger] before.dom().contains(p) implies stays(worktrees, worktrees, p) by {
        let root = choose|root: Seq<char>| #[trigger] owns(worktrees, root, p);
        assert(owns(worktrees, root, p));
    }
    assert forall|p: Seq<char>, root: Seq<char>| #[trigger] owns(worktrees, root, p) implies kept(
        worktrees,
        worktrees,
        before,
        p,
    ) by {
        assert(before.dom().contains(p));
    }
}

/// A worktree is stale only where every agent in it is, and has the focus where any agent in it has. It
/// lists the directories of exactly the agents in it.
pub proof fn law_worktrees_stand_for_their_agents(
    w: ResolvedGitWorktree,
    entries: Seq<GitWorkerPath>,
    roots: Map<Seq<char>, Option<String>>,
    root: Seq<char>,
    i: int,
)
    requires
        gathers(Some(w), entries, roots, root, entries.len() as int),
        0 <= i < entries.len(),
        roots.dom().contains(entries[i].path@),
        roots[entries[i].path@] is Some,
        roots[entries[i].path@]->0@ == root,
    ensures
        !entries[i].is_stale ==> !w.is_stale,
        entries[i].is_focused ==> w.is_focused,
        text::texts(w.agent_paths@).contains(entries[i].path@),
        (forall|j: int| 0 <= j < entries.len() ==> (#[trigger] entries[j]).is_stale) ==> w.is_stale,
        (forall|j: int| 0 <= j < entries.len() ==> !(#[trigger] entries[j]).is_focused) ==> !w.is_focused,
{
    assert(lies_in(entries, roots, root, i));
    assert(has_agent(entries, roots, root, entries[i].path@, entries.len() as int));
}

/// A directory in no worktree belongs to none; a directory without an agent is forgotten; what was
/// discovered before is not discovered again.
pub proof fn law_roots_are_discovered_once(
    roots: Map<Seq<char>, Option<String>>,
    discovered: Map<Seq<char>, Option<String>>,
    entries: Seq<GitWorkerPath>,
    i: int,
    p: Seq<char>,
)
    requires
        0 <= i < entries.len(),
    ensures
        (forall|j: int| 0 <= j < entries.len() ==> (#[trigger] entries[j]).path@ != p) ==> known_root(
            roots,
            discovered,
            entries,
            p,
        ) is None,
        roots.dom().contains(entries[i].path@) ==> known_root(roots, discovered, entries, entries[i].path@) == Some(
            roots[entries[i].path@],
        ),
        !roots.dom().contains(entries[i].path@) && discovered.dom().contains(entries[i].path@) ==> known_root(
            roots,
            discovered,
            entries,
            entries[i].path@,
        ) == Some(discovered[entries[i].path@]),
        !roots.dom().contains(p) ==> root_of(roots, p) is None,
        roots.dom().contains(p) && roots[p] is None ==> root_of(roots, p) is None,
        roots.dom().contains(p) && roots[p] is Some ==> root_of(roots, p) == Some(roots[p]->0@),
{
    assert(active(entries, entries[i].path@));
}

/// The status that is known of a worktree is one that a directory of an agent in it had.
pub proof fn law_known_statuses_come_from_the_worktree(
    ps: Seq<Seq<char>>,
    cache: Map<Seq<char>, GitStatus>,
    i: int,
)
    requires
        0 <= i <= ps.len(),
    ensures
        match first_status(ps, cache, i) {
            Some(status) => exists|j: int|
                i <= j < ps.len() && cache.dom().contains(#[trigger] ps[j]) && cache[ps[j]] == status,
            None => forall|j: int| i <= j < ps.len() ==> !cache.dom().contains(#[trigger] ps[j]),
        },
    decreases ps.len() - i,
{
    if i < ps.len() {
        if cache.dom().contains(ps[i]) {
            assert(cache[ps[i]] == first_status(ps, cache, i)->0);
        } else {
            law_known_statuses_come_from_the_worktree(ps, cache, i + 1);
        }
    }
}

/// A status that shows the same is not published again, whenever it was computed; any other is.
pub proof fn law_shown_statuses_are_not_published_again(cache: Map<Seq<char>, GitStatus>, p: Seq<char>, status: GitStatus, at: Option<u64>)
    ensures
        shows(cache.insert(p, GitStatus { cached_at: at, ..status }), p, status),
        !cache.dom().contains(p) ==> !shows(cache, p, status),
        cache.dom().contains(p) && cache[p].is_dirty != status.is_dirty ==> !shows(cache, p, status),
        cache.dom().contains(p) && cache[p].ahead != status.ahead ==> !shows(cache, p, status),
{
}

/// A worktree that has been pending for the whole debounce is due, and not before.
pub proof fn law_pending_worktrees_come_due(pending: Map<Seq<char>, u64>, p: Seq<char>, debounce: u64, now: u64)
    ensures
        due_in(pending, p, debounce, now) <= 0 <==> now >= pending[p] + debounce,
{
}

} // verus!
