//! Working agents that have stopped producing output.

use std::collections::hash_map::DefaultHasher;
use std::hash::Hasher;

use vstd::prelude::*;
use vstd::std_specs::hash::DefaultHasherAdditionalSpecFns;

use crate::collections;
use crate::collections::{StrMap, StrSet};
use crate::model::{AgentPane, AgentStatus};
use crate::text;

verus! {

// ── What a pane shows ───────────────────────────────────────────

/// A text without its ANSI escape codes.
pub uninterp spec fn without_codes(s: Seq<char>) -> Seq<char>;

/// `console::strip_ansi_codes`: a text without its ANSI escape codes. Which runs of characters
/// make up such a code is not stated; the result is a function of the text alone, and a text
/// without the two characters that codes begin with, ESC and the single-character CSI, is kept
/// as it is.
#[verifier::external_body]
fn strip_ansi_codes(s: &str) -> (r: String)
    ensures
        r@ == without_codes(s@),
        (forall|i: int| 0 <= i < s@.len() ==> s@[i] != '\u{1b}' && s@[i] != '\u{9b}') ==> r@ == s@,
{
    console::strip_ansi_codes(s).into_owned()
}

/// What stands for the contents of a pane: a hash of the bytes of its text.
pub open spec fn fingerprint(shown: Seq<char>) -> u64 {
    DefaultHasher::spec_finish(seq![vstd::utf8::encode_utf8(text::trimmed(shown))])
}

/// Takes the fingerprint of a text without escape codes.
pub fn fingerprint_of(shown: &str) -> (r: u64)
    ensures
        r == fingerprint(shown@),
{
    let mut hasher = DefaultHasher::new();
    hasher.write(text::trim(shown).as_bytes());
    proof {
        assert(hasher@ =~= seq![vstd::utf8::encode_utf8(text::trimmed(shown@))]);
    }
    hasher.finish()
}

/// The fingerprints of captured panes.
pub open spec fn fingerprints(captures: Map<Seq<char>, String>) -> Map<Seq<char>, u64> {
    captures.map_values(|raw: String| fingerprint(without_codes(raw@)))
}

/// Takes the fingerprints of captured panes.
pub fn fingerprint_captures(captures: &StrMap<String>) -> (r: StrMap<u64>)
    ensures
        r@ == fingerprints(captures@),
{
    let mut r: StrMap<u64> = StrMap::new();
    let n: usize = captures.len();
    let mut i: usize = 0;
    proof {
        collections::lemma_met(captures.keys(), 0);
    }
    while i < n
        invariant
            n == captures.keys().len(),
            i <= n,
            forall|c: Seq<char>| #[trigger]
                r@.dom().contains(c) <==> collections::met(captures.keys(), i as int, c),
            forall|c: Seq<char>| #[trigger]
                r@.dom().contains(c) ==> captures@.dom().contains(c) && r@[c] == fingerprint(without_codes(captures@[c]@)),
        decreases n - i,
    {
        let pane = captures.key_at(i);
        let plain = strip_ansi_codes(captures.value_at(i).as_str());
        let ghost before = r@;
        r.insert(pane.clone(), fingerprint_of(plain.as_str()));
        proof {
            collections::lemma_met(captures.keys(), i as int);
        }
        i += 1;
    }
    proof {
        captures.lemma_keys();
        collections::lemma_met(captures.keys(), n as int);
        assert(r@ =~= fingerprints(captures@));
    }
    r
}

// ── One pane ────────────────────────────────────────────────────

/// What a working agent showed last, since when, and the time of its last report then.
#[derive(Debug, Clone, Copy, PartialEq, Eq, Structural)]
pub struct Seen {
    pub hash: u64,
    /// Nanoseconds on a clock that never goes back.
    pub first_seen: u64,
    pub updated_ts: u64,
}

/// What is known of a pane.
pub struct Watch {
    pub seen: Option<Seen>,
    /// The last report of the agent when it was found interrupted.
    pub confirmed: Option<u64>,
}

/// What is known of a pane after a check.
///
/// `report` is the time of the agent's last report, none where it is not working; `hash` is what
/// the pane shows, none where it was not captured. An agent is found interrupted once it has shown
/// the same for the timeout without reporting. Only a report clears that, and opens a fresh window.
pub open spec fn checked(was: Watch, report: Option<u64>, hash: Option<u64>, now: u64, timeout: u64) -> Watch {
    match report {
        None => Watch { seen: None, confirmed: None },
        Some(ts) => {
            let resumed = was.confirmed matches Some(at) && ts > at;
            let seen = if resumed {
                None
            } else {
                was.seen
            };
            if was.confirmed is Some && !resumed {
                was
            } else {
                match hash {
                    None => Watch { seen, confirmed: None },
                    Some(h) => match seen {
                        Some(s) => if s.hash == h && s.updated_ts == ts {
                            Watch {
                                seen,
                                confirmed: if now - s.first_seen >= timeout || timeout == 0 {
                                    Some(ts)
                                } else {
                                    None
                                },
                            }
                        } else {
                            Watch { seen: Some(Seen { hash: h, first_seen: now, updated_ts: ts }), confirmed: None }
                        },
                        None => Watch {
                            seen: Some(Seen { hash: h, first_seen: now, updated_ts: ts }),
                            confirmed: None,
                        },
                    },
                }
            }
        },
    }
}

fn check_pane(was: Watch, ts: u64, hash: Option<u64>, now: u64, timeout: u64) -> (r: Watch)
    ensures
        r == checked(was, Some(ts), hash, now, timeout),
{
    let mut seen = was.seen;
    match was.confirmed {
        Some(at) => {
            if ts <= at {
                return was;
            }
            seen = None;
        },
        None => {},
    }
    match hash {
        None => Watch { seen, confirmed: None },
        Some(h) => {
            match seen {
                Some(s) => {
                    if s.hash == h && s.updated_ts == ts {
                        let idle: u64 = now.saturating_sub(s.first_seen);
                        let confirmed = if idle >= timeout {
                            Some(ts)
                        } else {
                            None
                        };
                        return Watch { seen, confirmed };
                    }
                },
                None => {},
            }
            Watch { seen: Some(Seen { hash: h, first_seen: now, updated_ts: ts }), confirmed: None }
        },
    }
}

/// Being interrupted sticks: whatever the pane shows, an agent stays interrupted until it reports
/// or stops working.
pub proof fn law_interruption_sticks(was: Watch, ts: u64, hash: Option<u64>, now: u64, timeout: u64)
    requires
        was.confirmed matches Some(at) && ts <= at,
    ensures
        checked(was, Some(ts), hash, now, timeout) == was,
{
}

/// A report ends an interruption, and the agent then has the whole timeout before it can be found
/// interrupted again.
pub proof fn law_reports_open_a_fresh_window(
    was: Watch,
    ts: u64,
    hash: u64,
    now: u64,
    later_hash: Option<u64>,
    later: u64,
    timeout: u64,
)
    requires
        was.confirmed matches Some(at) && ts > at,
        now <= later < now + timeout,
    ensures
        ({
            let first = checked(was, Some(ts), Some(hash), now, timeout);
            let second = checked(first, Some(ts), later_hash, later, timeout);
            first.confirmed is None && second.confirmed is None
        }),
{
}

/// An agent is found interrupted only where it showed the same, without a report, for the timeout.
pub proof fn law_only_silence_interrupts(was: Watch, ts: u64, hash: Option<u64>, now: u64, timeout: u64)
    requires
        was.confirmed is None,
        checked(was, Some(ts), hash, now, timeout).confirmed is Some,
    ensures
        was.seen matches Some(s) && hash == Some(s.hash) && s.updated_ts == ts && (now - s.first_seen >= timeout
            || timeout == 0),
{
}

/// An agent that is not working is not interrupted, and nothing is remembered of it.
pub proof fn law_idle_agents_are_forgotten(was: Watch, hash: Option<u64>, now: u64, timeout: u64)
    ensures
        checked(was, None, hash, now, timeout) == (Watch { seen: None, confirmed: None }),
{
}

// ── All panes ───────────────────────────────────────────────────

/// A process in a pane: the lifetime of the server, and the process.
#[derive(Debug)]
pub struct PaneIdentity {
    pub server_boot_id: Option<String>,
    pub pid: u32,
}

/// Detects working agents that have stopped producing output.
pub struct InactivityTracker {
    pub identities: StrMap<PaneIdentity>,
    pub entries: StrMap<Seen>,
    pub confirmed: StrMap<u64>,
    /// How long a pane must show the same before its agent counts as interrupted.
    pub timeout: u64,
}

/// The time of the last report of the working agent in a pane, among the first `k` agents.
pub open spec fn report_of(agents: Seq<AgentPane>, pane: Seq<char>, k: int) -> Option<u64>
    decreases k,
{
    if k <= 0 {
        None
    } else if agents[k - 1].pane_id@ == pane && agents[k - 1].status == Some(AgentStatus::Working) {
        Some(
            match agents[k - 1].updated_ts {
                Some(ts) => ts,
                None => 0,
            },
        )
    } else {
        report_of(agents, pane, k - 1)
    }
}

fn reports(agents: &Vec<AgentPane>) -> (r: StrMap<u64>)
    ensures
        forall|p: Seq<char>| #[trigger]
            collections::lookup(r@, p) == report_of(agents@, p, agents@.len() as int),
{
    let mut r: StrMap<u64> = StrMap::new();
    let mut i: usize = 0;
    while i < agents.len()
        invariant
            i <= agents@.len(),
            forall|p: Seq<char>| #[trigger] collections::lookup(r@, p) == report_of(agents@, p, i as int),
        decreases agents.len() - i,
    {
        let a = &agents[i];
        let ghost before = r@;
        if matches!(a.status, Some(AgentStatus::Working)) {
            let ts: u64 = match a.updated_ts {
                Some(ts) => ts,
                None => 0,
            };
            r.insert(a.pane_id.clone(), ts);
        }
        proof {
            assert forall|p: Seq<char>| #[trigger]
                collections::lookup(r@, p) == report_of(agents@, p, i + 1) by {
                assert(collections::lookup(before, p) == report_of(agents@, p, i as int));
            }
        }
        i += 1;
    }
    r
}

impl InactivityTracker {
    pub fn new(timeout: u64) -> (r: Self)
        ensures
            r.identities@ == Map::<Seq<char>, PaneIdentity>::empty(),
            r.entries@ == Map::<Seq<char>, Seen>::empty(),
            r.confirmed@ == Map::<Seq<char>, u64>::empty(),
            r.timeout == timeout,
    {
        InactivityTracker { identities: StrMap::new(), entries: StrMap::new(), confirmed: StrMap::new(), timeout }
    }

    /// What is known of a pane.
    pub open spec fn watch(&self, pane: Seq<char>) -> Watch {
        Watch {
            seen: collections::lookup(self.entries@, pane),
            confirmed: collections::lookup(self.confirmed@, pane),
        }
    }

    /// Whether a pane still holds the process that it held, or a first one.
    pub open spec fn same_process(
        &self,
        live: Map<Seq<char>, Option<u32>>,
        boot: Option<Seq<char>>,
        pane: Seq<char>,
    ) -> bool {
        &&& live.dom().contains(pane)
        &&& live[pane] is Some
        &&& self.identities@.dom().contains(pane) ==> (text::optional(self.identities@[pane].server_boot_id) == boot
            && Some(self.identities@[pane].pid) == live[pane])
    }

    /// Forgets the panes that are gone or hold another process than before. `live_panes` gives the
    /// process of each pane, where it is known.
    pub fn reconcile_identities(&mut self, live_panes: &StrMap<Option<u32>>, server_boot_id: Option<&str>)
        ensures
            ({
                let boot = match server_boot_id {
                    Some(b) => Some(b@),
                    None => None,
                };
                &&& forall|p: Seq<char>| #[trigger]
                    final(self).watch(p) == (if old(self).same_process(live_panes@, boot, p) {
                        old(self).watch(p)
                    } else {
                        Watch { seen: None, confirmed: None }
                    })
                &&& forall|p: Seq<char>| #[trigger]
                    final(self).identities@.dom().contains(p) <==> live_panes@.dom().contains(p) && live_panes@[p] is Some
                &&& forall|p: Seq<char>| #[trigger]
                    final(self).identities@.dom().contains(p) ==> text::optional(
                        final(self).identities@[p].server_boot_id,
                    ) == boot && Some(final(self).identities@[p].pid) == live_panes@[p]
            }),
            final(self).timeout == old(self).timeout,
    {
        let ghost boot = match server_boot_id {
            Some(b) => Some(b@),
            None => None,
        };
        let n: usize = live_panes.len();
        let mut current: StrMap<PaneIdentity> = StrMap::new();
        let mut kept = StrSet::new();
        let mut i: usize = 0;
        proof {
            collections::lemma_met(live_panes.keys(), 0);
        }
        while i < n
            invariant
                n == live_panes.keys().len(),
                *self == *old(self),
                boot == (match server_boot_id {
                    Some(b) => Some(b@),
                    None => None,
                }),
                i <= n,
                forall|p: Seq<char>| #[trigger]
                    current@.dom().contains(p) <==> collections::met(live_panes.keys(), i as int, p)
                        && live_panes@[p] is Some,
                forall|p: Seq<char>| #[trigger]
                    current@.dom().contains(p) ==> text::optional(current@[p].server_boot_id) == boot && Some(
                        current@[p].pid,
                    ) == live_panes@[p],
                forall|p: Seq<char>| #[trigger]
                    kept@.contains(p) <==> collections::met(live_panes.keys(), i as int, p)
                        && self.same_process(live_panes@, boot, p),
            decreases n - i,
        {
            let pane = live_panes.key_at(i);
            let ghost was = current@;
            let ghost held = kept@;
            let id_of = *live_panes.value_at(i);
            match id_of {
                Some(pid) => {
                    let same = match self.identities.get(pane.as_str()) {
                        Some(previous) => previous.pid == pid && same_boot(&previous.server_boot_id, server_boot_id),
                        None => true,
                    };
                    if same {
                        kept.insert(pane.clone());
                    }
                    let server_boot_id = match server_boot_id {
                        Some(b) => Some(b.to_owned()),
                        None => None,
                    };
                    current.insert(pane.clone(), PaneIdentity { server_boot_id, pid });
                },
                None => {},
            }
            proof {
                let k = live_panes.keys()[i as int];
                collections::lemma_met(live_panes.keys(), i as int);
                assert(live_panes@.dom().contains(k));
                assert(live_panes@[k] == id_of);
            }
            i += 1;
        }
        proof {
            live_panes.lemma_keys();
            collections::lemma_met(live_panes.keys(), n as int);
        }
        self.entries.retain_in(&kept);
        self.confirmed.retain_in(&kept);
        self.identities = current;
    }

    /// Whether a pane is known to be interrupted, so that it need not be captured.
    pub fn is_confirmed(&self, pane_id: &str, updated_ts: u64) -> (r: bool)
        ensures
            r == (self.watch(pane_id@).confirmed matches Some(at) && updated_ts <= at),
    {
        match self.confirmed.get(pane_id) {
            Some(at) => updated_ts <= *at,
            None => false,
        }
    }

    /// Checks all working agents, given the fingerprints of their panes. Returns the panes of
    /// those that are interrupted.
    pub fn check_seen(&mut self, agents: &Vec<AgentPane>, now: u64, shown: &StrMap<u64>) -> (r: StrSet)
        ensures
            forall|p: Seq<char>| #[trigger]
                final(self).watch(p) == checked(
                    old(self).watch(p),
                    report_of(agents@, p, agents@.len() as int),
                    collections::lookup(shown@, p),
                    now,
                    old(self).timeout,
                ),
            r@ == final(self).confirmed@.dom(),
            final(self).timeout == old(self).timeout,
            final(self).identities == old(self).identities,
    {
        let working = reports(agents);
        let active = working.key_set();
        self.entries.retain_in(&active);
        self.confirmed.retain_in(&active);
        let ghost mid = *self;
        working.check_distinct();
        let n: usize = working.len();
        let mut i: usize = 0;
        proof {
            working.lemma_keys();
            collections::lemma_met(working.keys(), 0);
            assert forall|p: Seq<char>| #[trigger] mid.watch(p) == (if working@.dom().contains(p) {
                old(self).watch(p)
            } else {
                Watch { seen: None, confirmed: None }
            }) by {}
        }
        while i < n
            invariant
                n == working.keys().len(),
                working.keys().no_duplicates(),
                i <= n,
                self.timeout == mid.timeout,
                self.identities == mid.identities,
                forall|p: Seq<char>| #[trigger]
                    self.watch(p) == (if collections::met(working.keys(), i as int, p) {
                        checked(mid.watch(p), Some(working@[p]), collections::lookup(shown@, p), now, mid.timeout)
                    } else {
                        mid.watch(p)
                    }),
            decreases n - i,
        {
            let pane = working.key_at(i);
            let ts = *working.value_at(i);
            let ghost before = *self;
            let seen = match self.entries.get(pane.as_str()) {
                Some(s) => Some(*s),
                None => None,
            };
            let confirmed = match self.confirmed.get(pane.as_str()) {
                Some(at) => Some(*at),
                None => None,
            };
            let hash = match shown.get(pane.as_str()) {
                Some(h) => Some(*h),
                None => None,
            };
            let next = check_pane(Watch { seen, confirmed }, ts, hash, now, self.timeout);
            self.entries.put(pane.as_str(), next.seen);
            self.confirmed.put(pane.as_str(), next.confirmed);
            proof {
                let k = working.keys()[i as int];
                collections::lemma_met(working.keys(), i as int);
                assert(!collections::met(working.keys(), i as int, k));
                assert(before.watch(k) == mid.watch(k));
                assert(self.watch(k) == next);
                assert forall|p: Seq<char>| #[trigger]
                    self.watch(p) == (if collections::met(working.keys(), i + 1, p) {
                        checked(mid.watch(p), Some(working@[p]), collections::lookup(shown@, p), now, mid.timeout)
                    } else {
                        mid.watch(p)
                    }) by {
                    if p != k {
                        assert(self.watch(p) == before.watch(p));
                    }
                }
            }
            i += 1;
        }
        proof {
            collections::lemma_met(working.keys(), n as int);
            assert forall|p: Seq<char>| #[trigger]
                self.watch(p) == checked(
                    old(self).watch(p),
                    report_of(agents@, p, agents@.len() as int),
                    collections::lookup(shown@, p),
                    now,
                    old(self).timeout,
                ) by {
                assert(collections::lookup(working@, p) == report_of(agents@, p, agents@.len() as int));
                assert(mid.watch(p) == (if working@.dom().contains(p) {
                    old(self).watch(p)
                } else {
                    Watch { seen: None, confirmed: None }
                }));
            }
        }
        self.confirmed.key_set()
    }

    /// Checks all working agents, given the captures of their panes. Returns the panes of those
    /// that are interrupted.
    pub fn check_with(&mut self, agents: &Vec<AgentPane>, now: u64, captures: &StrMap<String>) -> (r: StrSet)
        ensures
            forall|p: Seq<char>| #[trigger]
                final(self).watch(p) == checked(
                    old(self).watch(p),
                    report_of(agents@, p, agents@.len() as int),
                    collections::lookup(fingerprints(captures@), p),
                    now,
                    old(self).timeout,
                ),
            r@ == final(self).confirmed@.dom(),
            final(self).timeout == old(self).timeout,
            final(self).identities == old(self).identities,
    {
        let shown = fingerprint_captures(captures);
        self.check_seen(agents, now, &shown)
    }
}

fn same_boot(a: &Option<String>, b: Option<&str>) -> (r: bool)
    ensures
        r == (text::optional(*a) == (match b {
            Some(s) => Some(s@),
            None => None,
        })),
{
    match (a, b) {
        (Some(x), Some(y)) => text::same(x.as_str(), y),
        (None, None) => true,
        _ => false,
    }
}

/// A working agent whose pane shows what it showed for the timeout, without a report, is found
/// interrupted, as of that report.
pub proof fn law_silence_interrupts(was: Watch, s: Seen, now: u64, timeout: u64)
    requires
        was.confirmed is None,
        was.seen == Some(s),
        now >= s.first_seen + timeout,
    ensures
        checked(was, Some(s.updated_ts), Some(s.hash), now, timeout).confirmed == Some(s.updated_ts),
        checked(was, Some(s.updated_ts), Some(s.hash), now, timeout).seen == Some(s),
{
}

/// Showing something else, or a report, begins the wait anew; a pane that was not captured neither ends
/// the wait nor begins it.
pub proof fn law_output_begins_the_wait_anew(was: Watch, s: Seen, ts: u64, hash: u64, now: u64, timeout: u64)
    requires
        was.confirmed is None,
        was.seen == Some(s),
    ensures
        hash != s.hash || ts != s.updated_ts ==> checked(was, Some(ts), Some(hash), now, timeout) == (Watch {
            seen: Some(Seen { hash, first_seen: now, updated_ts: ts }),
            confirmed: None,
        }),
        checked(was, Some(ts), None, now, timeout) == was,
        checked(Watch { seen: None, confirmed: None }, Some(ts), Some(hash), now, timeout) == (Watch {
            seen: Some(Seen { hash, first_seen: now, updated_ts: ts }),
            confirmed: None,
        }),
{
}

/// A pane is looked at exactly while an agent works in it; the report that counts is that agent's last,
/// and one that never reported counts as having done so at the beginning of time.
pub proof fn law_working_agents_are_looked_at(agents: Seq<AgentPane>, i: int)
    requires
        0 <= i < agents.len(),
        forall|j: int| 0 <= j < agents.len() && j != i ==> (#[trigger] agents[j]).pane_id@ != agents[i].pane_id@,
    ensures
        ({
            let r = report_of(agents, agents[i].pane_id@, agents.len() as int);
            &&& r is Some <==> agents[i].status == Some(AgentStatus::Working)
            &&& r is Some && agents[i].updated_ts is Some ==> r == agents[i].updated_ts
            &&& r is Some && agents[i].updated_ts is None ==> r == Some(0u64)
        }),
{
    lemma_report_found(agents, i, agents.len() as int);
}

proof fn lemma_report_found(agents: Seq<AgentPane>, i: int, k: int)
    requires
        0 <= i < agents.len(),
        0 <= k <= agents.len(),
        forall|j: int| 0 <= j < agents.len() && j != i ==> (#[trigger] agents[j]).pane_id@ != agents[i].pane_id@,
    ensures
        report_of(agents, agents[i].pane_id@, k) == (if i < k && agents[i].status == Some(AgentStatus::Working) {
            Some(
                match agents[i].updated_ts {
                    Some(ts) => ts,
                    None => 0,
                },
            )
        } else {
            None
        }),
    decreases k,
{
    if k > 0 {
        lemma_report_found(agents, i, k - 1);
        if k - 1 != i {
            assert(agents[k - 1].pane_id@ != agents[i].pane_id@);
        }
    }
}

/// A pane holds the same process while its number stays and the server was not started anew; one that
/// was not known before holds its first. A pane that is gone, or of no known process, does not.
pub proof fn law_processes_are_told_apart(
    tracker: InactivityTracker,
    live: Map<Seq<char>, Option<u32>>,
    boot: Option<Seq<char>>,
    pane: Seq<char>,
)
    ensures
        ({
            let known = tracker.identities@.dom().contains(pane);
            let before = tracker.identities@[pane];
            let alive = live.dom().contains(pane) && live[pane] is Some;
            &&& !alive ==> !tracker.same_process(live, boot, pane)
            &&& alive && !known ==> tracker.same_process(live, boot, pane)
            &&& alive && known && before.pid != live[pane]->0 ==> !tracker.same_process(live, boot, pane)
            &&& alive && known && text::optional(before.server_boot_id) != boot ==> !tracker.same_process(live, boot, pane)
            &&& alive && known && before.pid == live[pane]->0 && text::optional(before.server_boot_id) == boot
                ==> tracker.same_process(live, boot, pane)
        }),
{
}

} // verus!
