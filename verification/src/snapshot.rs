//! The sidebar state that the daemon publishes, and the order of its agents.

use vstd::prelude::*;

use crate::app::{SidebarFilterMode, SidebarLayoutMode};
use crate::collections::{PairSet, StrMap, StrSet};
use crate::context;
use crate::model;
use crate::model::{
    AgentPane, AgentStatus, CheckSummary, GitStatus, PrSummary, SidebarGroupBy, SidebarPosition, SidebarSort,
    StatusIcons,
};
use crate::text;

verus! {

/// A pull request found for a branch.
#[derive(Debug)]
pub struct PrPathEntry {
    pub branch: String,
    pub summary: PrSummary,
}

/// Checks found for a branch.
#[derive(Debug)]
pub struct CheckPathEntry {
    pub branch: String,
    pub summary: CheckSummary,
}

/// A complete sidebar state, pushed from the daemon to its clients.
pub struct SidebarSnapshot {
    pub position: SidebarPosition,
    pub layout_mode: SidebarLayoutMode,
    pub filter_mode: SidebarFilterMode,
    /// Session name and window id of each active window.
    pub active_windows: PairSet,
    pub active_pane_ids: StrSet,
    /// Number of panes per window, by which a client sees that it is the last one.
    pub window_pane_counts: StrMap<usize>,
    /// Git status per worktree path.
    pub git_statuses: StrMap<GitStatus>,
    /// Pull request per worktree path.
    pub pr_statuses: StrMap<PrSummary>,
    /// Checks per worktree path.
    pub check_statuses: StrMap<CheckSummary>,
    /// Panes of agents that work but whose output stands still.
    pub interrupted_pane_ids: StrSet,
    /// Panes of agents that the user put to sleep.
    pub sleeping_pane_ids: StrSet,
    /// The grouping that `agents` is ordered by, if any.
    pub group_by: Option<SidebarGroupBy>,
    /// Labels of the groups whose stale agents the user expanded.
    pub expanded_groups: Vec<String>,
    /// Panes of the agents that count as stale.
    pub stale_pane_ids: StrSet,
    /// Whether stale agents fold.
    pub collapse_stale: bool,
    pub agents: Vec<AgentPane>,
    /// Grows whenever the daemon reloads its configuration.
    pub config_version: u64,
}

/// Label of a group that cannot be named.
pub const UNKNOWN_GROUP_LABEL: &'static str = "(unknown)";

/// Seconds without activity after which an agent counts as stale for ordering.
pub const STALE_THRESHOLD_SECS: u64 = 3600;

// ── Groups ──────────────────────────────────────────────────────

/// What names the group of an agent, before blanks are replaced.
pub open spec fn raw_label(agent: AgentPane, group_by: SidebarGroupBy) -> Seq<char> {
    match group_by {
        SidebarGroupBy::Project => agent.project@,
        SidebarGroupBy::Session => agent.session@,
        SidebarGroupBy::Nothing => seq![],
    }
}

/// The label of an agent's group.
pub open spec fn label(agent: AgentPane, group_by: SidebarGroupBy) -> Seq<char> {
    let raw = raw_label(agent, group_by);
    if text::trimmed(raw).len() == 0 {
        UNKNOWN_GROUP_LABEL@
    } else {
        raw
    }
}

/// The group that an agent belongs to under a grouping.
pub fn group_label(agent: &AgentPane, group_by: SidebarGroupBy) -> (r: String)
    ensures
        r@ == label(*agent, group_by),
{
    let raw = match group_by {
        SidebarGroupBy::Project => agent.project.clone(),
        SidebarGroupBy::Session => agent.session.clone(),
        SidebarGroupBy::Nothing => String::new(),
    };
    if text::trim(raw.as_str()).is_empty() {
        UNKNOWN_GROUP_LABEL.to_owned()
    } else {
        raw
    }
}

// ── Sort keys ───────────────────────────────────────────────────

/// The number of a pane id, `%3` or `3`; an id that is no number comes last.
pub open spec fn pane_number(pane_id: Seq<char>) -> nat {
    let digits = match text::without_prefix(pane_id, "%"@) {
        Some(rest) => rest,
        None => pane_id,
    };
    match text::unsigned(digits, 0xffff_ffff_ffff_ffff) {
        Some(n) => n,
        None => 0xffff_ffff_ffff_ffff,
    }
}

pub fn pane_num(agent: &AgentPane) -> (r: u64)
    ensures
        r == pane_number(agent.pane_id@),
{
    let digits = match text::strip_prefix(agent.pane_id.as_str(), "%") {
        Some(rest) => rest,
        None => agent.pane_id.as_str(),
    };
    match text::parse_unsigned(digits, 0xffff_ffff_ffff_ffff) {
        Some(n) => n,
        None => 0xffff_ffff_ffff_ffff,
    }
}

/// Seconds since an agent last did something; an agent that never did is as old as can be.
pub open spec fn age(agent: AgentPane, now: u64) -> nat {
    match model::last_activity(agent) {
        Some(ts) => if now > ts {
            (now - ts) as nat
        } else {
            0
        },
        None => 0xffff_ffff_ffff_ffff,
    }
}

pub fn activity_age(agent: &AgentPane, now: u64) -> (r: u64)
    ensures
        r == age(*agent, now),
{
    match agent.activity_ts() {
        Some(ts) => now.saturating_sub(ts),
        None => 0xffff_ffff_ffff_ffff,
    }
}

/// Attention category of an agent, lower is more urgent. Waiting and done agents stay actionable
/// however long they have waited; working agents are demoted when they stopped progressing,
/// others when they are old; sleeping overrides every status.
pub open spec fn urgency(agent: AgentPane, now: u64, sleeping: Set<Seq<char>>, interrupted: Set<Seq<char>>) -> nat {
    if sleeping.contains(agent.pane_id@) {
        5
    } else {
        match agent.status {
            Some(AgentStatus::Waiting) => 0,
            Some(AgentStatus::Done) => 1,
            Some(AgentStatus::Working) => if interrupted.contains(agent.pane_id@) {
                4
            } else {
                2
            },
            None => if age(agent, now) > STALE_THRESHOLD_SECS {
                4
            } else {
                3
            },
        }
    }
}

pub fn priority_category(agent: &AgentPane, now: u64, sleeping: &StrSet, interrupted: &StrSet) -> (r: u8)
    ensures
        r == urgency(*agent, now, sleeping@, interrupted@),
{
    if sleeping.contains(agent.pane_id.as_str()) {
        return 5;
    }
    match agent.status {
        Some(AgentStatus::Waiting) => 0,
        Some(AgentStatus::Done) => 1,
        Some(AgentStatus::Working) => if interrupted.contains(agent.pane_id.as_str()) {
            4
        } else {
            2
        },
        None => if activity_age(agent, now) > STALE_THRESHOLD_SECS {
            4
        } else {
            3
        },
    }
}

/// Whether an agent counts as stale for ordering.
pub open spec fn idle(agent: AgentPane, now: u64, sleeping: Set<Seq<char>>, interrupted: Set<Seq<char>>) -> bool {
    context::stale(
        model::last_activity(agent),
        agent.status,
        now,
        STALE_THRESHOLD_SECS,
        sleeping.contains(agent.pane_id@),
        interrupted.contains(agent.pane_id@),
    )
}

fn is_idle(agent: &AgentPane, now: u64, sleeping: &StrSet, interrupted: &StrSet) -> (r: bool)
    ensures
        r == idle(*agent, now, sleeping@, interrupted@),
{
    context::agent_is_stale(
        agent,
        now,
        STALE_THRESHOLD_SECS,
        sleeping.contains(agent.pane_id.as_str()),
        interrupted.contains(agent.pane_id.as_str()),
    )
}

/// Whether the group labelled `l` holds no live work: it has agents, and all of them are stale.
pub open spec fn dormant(
    agents: Seq<AgentPane>,
    group_by: SidebarGroupBy,
    l: Seq<char>,
    now: u64,
    sleeping: Set<Seq<char>>,
    interrupted: Set<Seq<char>>,
) -> bool {
    &&& exists|i: int| 0 <= i < agents.len() && label(#[trigger] agents[i], group_by) == l
    &&& forall|i: int|
        0 <= i < agents.len() && label(#[trigger] agents[i], group_by) == l ==> idle(
            agents[i],
            now,
            sleeping,
            interrupted,
        )
}

/// Labels of the groups that hold no live work. They sort below every other group.
pub fn dormant_groups(
    agents: &Vec<AgentPane>,
    group_by: Option<SidebarGroupBy>,
    now: u64,
    sleeping: &StrSet,
    interrupted: &StrSet,
) -> (r: StrSet)
    ensures
        forall|l: Seq<char>| #[trigger]
            r@.contains(l) <==> (group_by matches Some(mode) && dormant(
                agents@,
                mode,
                l,
                now,
                sleeping@,
                interrupted@,
            )),
{
    let mut r = StrSet::new();
    let mode = match group_by {
        Some(mode) => mode,
        None => return r,
    };
    let mut live = StrSet::new();
    let mut i: usize = 0;
    while i < agents.len()
        invariant
            0 <= i <= agents.len(),
            forall|l: Seq<char>| #[trigger]
                live@.contains(l) <==> exists|j: int|
                    0 <= j < i && label(#[trigger] agents@[j], mode) == l && !idle(
                        agents@[j],
                        now,
                        sleeping@,
                        interrupted@,
                    ),
        decreases agents.len() - i,
    {
        let ghost before = live@;
        if !is_idle(&agents[i], now, sleeping, interrupted) {
            live.insert(group_label(&agents[i], mode));
        }
        proof {
            let a = agents@[i as int];
            assert forall|l: Seq<char>| #[trigger]
                live@.contains(l) <==> exists|j: int|
                    0 <= j < i + 1 && label(#[trigger] agents@[j], mode) == l && !idle(
                        agents@[j],
                        now,
                        sleeping@,
                        interrupted@,
                    ) by {
                if before.contains(l) {
                    let j = choose|j: int|
                        0 <= j < i && label(#[trigger] agents@[j], mode) == l && !idle(
                            agents@[j],
                            now,
                            sleeping@,
                            interrupted@,
                        );
                    assert(label(agents@[j], mode) == l);
                }
                if label(a, mode) == l && !idle(a, now, sleeping@, interrupted@) {
                    assert(live@.contains(l));
                }
            }
        }
        i += 1;
    }
    let mut k: usize = 0;
    while k < agents.len()
        invariant
            0 <= k <= agents.len(),
            forall|l: Seq<char>| #[trigger]
                live@.contains(l) <==> exists|j: int|
                    0 <= j < agents.len() && label(#[trigger] agents@[j], mode) == l && !idle(
                        agents@[j],
                        now,
                        sleeping@,
                        interrupted@,
                    ),
            forall|l: Seq<char>| #[trigger]
                r@.contains(l) <==> !live@.contains(l) && exists|j: int|
                    0 <= j < k && label(#[trigger] agents@[j], mode) == l,
        decreases agents.len() - k,
    {
        let ghost before = r@;
        let name = group_label(&agents[k], mode);
        if !live.contains(name.as_str()) {
            r.insert(name);
        }
        proof {
            let a = agents@[k as int];
            assert forall|l: Seq<char>| #[trigger]
                r@.contains(l) <==> !live@.contains(l) && exists|j: int|
                    0 <= j < k + 1 && label(#[trigger] agents@[j], mode) == l by {
                if before.contains(l) {
                    let j = choose|j: int| 0 <= j < k && label(#[trigger] agents@[j], mode) == l;
                    assert(label(agents@[j], mode) == l);
                }
                if label(a, mode) == l && !live@.contains(l) {
                    assert(r@.contains(l));
                }
            }
        }
        k += 1;
    }
    proof {
        assert forall|l: Seq<char>| #[trigger]
            r@.contains(l) <==> dormant(agents@, mode, l, now, sleeping@, interrupted@) by {
            if r@.contains(l) {
                assert forall|j: int| 0 <= j < agents@.len() && label(#[trigger] agents@[j], mode) == l implies idle(
                    agents@[j],
                    now,
                    sleeping@,
                    interrupted@,
                ) by {}
            }
            if dormant(agents@, mode, l, now, sleeping@, interrupted@) {
                let j = choose|j: int| 0 <= j < agents@.len() && label(#[trigger] agents@[j], mode) == l;
                assert(label(agents@[j], mode) == l);
                assert(!live@.contains(l));
            }
        }
    }
    r
}

/// What an agent is ordered by, most significant first.
pub struct KeyModel {
    /// Whether its group holds no live work.
    pub dormant: bool,
    /// The label of its group in lower case, and as it is.
    pub lower: Seq<char>,
    pub label: Seq<char>,
    /// Whether it stands in the stale tail of its group.
    pub stale: bool,
    pub rank: nat,
    pub session: Seq<char>,
    pub value: nat,
    pub pane: nat,
}

pub open spec fn bool_order(a: bool, b: bool) -> int {
    if a == b {
        0
    } else if b {
        -1
    } else {
        1
    }
}

pub open spec fn nat_order(a: nat, b: nat) -> int {
    if a < b {
        -1
    } else if a == b {
        0
    } else {
        1
    }
}

/// `first`, unless it is zero.
pub open spec fn and_next(first: int, next: int) -> int {
    if first != 0 {
        first
    } else {
        next
    }
}

/// The order of two keys: -1, 0 or 1.
pub open spec fn key_order(a: KeyModel, b: KeyModel) -> int {
    and_next(
        group_order(a, b),
        and_next(
            nat_order(a.rank, b.rank),
            and_next(
                text::order(a.session, b.session),
                and_next(nat_order(a.value, b.value), nat_order(a.pane, b.pane)),
            ),
        ),
    )
}

/// The order of two keys by group, and by the stale tail within it.
pub open spec fn group_order(a: KeyModel, b: KeyModel) -> int {
    and_next(
        bool_order(a.dormant, b.dormant),
        and_next(
            text::order(a.lower, b.lower),
            and_next(text::order(a.label, b.label), bool_order(a.stale, b.stale)),
        ),
    )
}

proof fn lemma_key_order_turns(a: KeyModel, b: KeyModel)
    ensures
        key_order(a, b) == -key_order(b, a),
        group_order(a, b) == -group_order(b, a),
        -1 <= key_order(a, b) <= 1,
{
    text::lemma_order_total(a.lower, b.lower);
    text::lemma_order_total(a.label, b.label);
    text::lemma_order_total(a.session, b.session);
}

proof fn lemma_key_order_transitive(a: KeyModel, b: KeyModel, c: KeyModel)
    ensures
        key_order(a, b) <= 0 && key_order(b, c) <= 0 ==> key_order(a, c) <= 0,
        key_order(a, b) < 0 && key_order(b, c) <= 0 ==> key_order(a, c) < 0,
        key_order(a, b) <= 0 && key_order(b, c) < 0 ==> key_order(a, c) < 0,
{
    text::lemma_order_total(a.lower, b.lower);
    text::lemma_order_total(b.lower, c.lower);
    text::lemma_order_total(a.label, b.label);
    text::lemma_order_total(b.label, c.label);
    text::lemma_order_total(a.session, b.session);
    text::lemma_order_total(b.session, c.session);
    text::lemma_order_transitive(a.lower, b.lower, c.lower);
    text::lemma_order_transitive(a.label, b.label, c.label);
    text::lemma_order_transitive(a.session, b.session, c.session);
}

/// The key of an agent among `agents`.
pub open spec fn sort_key(
    agents: Seq<AgentPane>,
    agent: AgentPane,
    group_by: Option<SidebarGroupBy>,
    sort: SidebarSort,
    now: u64,
    sleeping: Set<Seq<char>>,
    interrupted: Set<Seq<char>>,
    sink: bool,
) -> KeyModel {
    let group = match group_by {
        Some(mode) => label(agent, mode),
        None => seq![],
    };
    KeyModel {
        dormant: sink && (group_by matches Some(mode) && dormant(agents, mode, group, now, sleeping, interrupted)),
        lower: if group_by is Some {
            text::lowercase(group)
        } else {
            seq![]
        },
        label: group,
        stale: sink && idle(agent, now, sleeping, interrupted),
        rank: match sort {
            SidebarSort::Recency => if sleeping.contains(agent.pane_id@) {
                1
            } else {
                0
            },
            SidebarSort::Priority => urgency(agent, now, sleeping, interrupted),
            SidebarSort::Window => 0,
        },
        session: if sort == SidebarSort::Window {
            agent.session@
        } else {
            seq![]
        },
        value: if sort == SidebarSort::Window {
            match agent.window_index {
                Some(n) => n as nat,
                None => 0xffff_ffff_ffff_ffff,
            }
        } else {
            age(agent, now)
        },
        pane: pane_number(agent.pane_id@),
    }
}

/// The keys of all agents.
pub open spec fn sort_keys(
    agents: Seq<AgentPane>,
    group_by: Option<SidebarGroupBy>,
    sort: SidebarSort,
    now: u64,
    sleeping: Set<Seq<char>>,
    interrupted: Set<Seq<char>>,
    sink: bool,
) -> Seq<KeyModel> {
    Seq::new(
        agents.len(),
        |i: int| sort_key(agents, agents[i], group_by, sort, now, sleeping, interrupted, sink),
    )
}

/// A computed key.
pub struct SortKey {
    dormant: bool,
    lower: String,
    label: String,
    stale: bool,
    rank: u8,
    session: String,
    value: u64,
    pane: u64,
}

impl View for SortKey {
    type V = KeyModel;

    closed spec fn view(&self) -> KeyModel {
        KeyModel {
            dormant: self.dormant,
            lower: self.lower@,
            label: self.label@,
            stale: self.stale,
            rank: self.rank as nat,
            session: self.session@,
            value: self.value as nat,
            pane: self.pane as nat,
        }
    }
}

fn key_of(
    agent: &AgentPane,
    group_by: Option<SidebarGroupBy>,
    sort: SidebarSort,
    now: u64,
    sleeping: &StrSet,
    interrupted: &StrSet,
    sink: bool,
    dormant_labels: &StrSet,
    Ghost(agents): Ghost<Seq<AgentPane>>,
) -> (r: SortKey)
    requires
        forall|l: Seq<char>| #[trigger]
            dormant_labels@.contains(l) <==> (sink && (group_by matches Some(mode) && dormant(
                agents,
                mode,
                l,
                now,
                sleeping@,
                interrupted@,
            ))),
    ensures
        r@ == sort_key(agents, *agent, group_by, sort, now, sleeping@, interrupted@, sink),
{
    let (lower, label) = match group_by {
        Some(mode) => {
            let label = group_label(agent, mode);
            (text::to_lowercase(label.as_str()), label)
        },
        None => (String::new(), String::new()),
    };
    let dormant = dormant_labels.contains(label.as_str());
    let stale = sink && is_idle(agent, now, sleeping, interrupted);
    let rank: u8 = match sort {
        SidebarSort::Recency => if sleeping.contains(agent.pane_id.as_str()) {
            1
        } else {
            0
        },
        SidebarSort::Priority => priority_category(agent, now, sleeping, interrupted),
        SidebarSort::Window => 0,
    };
    let window = matches!(sort, SidebarSort::Window);
    let session = if window {
        agent.session.clone()
    } else {
        String::new()
    };
    let value: u64 = if window {
        match agent.window_index {
            Some(n) => n as u64,
            None => 0xffff_ffff_ffff_ffff,
        }
    } else {
        activity_age(agent, now)
    };
    SortKey { dormant, lower, label, stale, rank, session, value, pane: pane_num(agent) }
}

fn bool_sign(a: bool, b: bool) -> (r: i8)
    ensures
        r == bool_order(a, b),
{
    if a == b {
        0
    } else if b {
        -1
    } else {
        1
    }
}

fn sign(a: u64, b: u64) -> (r: i8)
    ensures
        r == nat_order(a as nat, b as nat),
{
    if a < b {
        -1
    } else if a == b {
        0
    } else {
        1
    }
}

/// Whether `a` comes strictly before `b`.
fn comes_before(a: &SortKey, b: &SortKey) -> (r: bool)
    ensures
        r == (key_order(a@, b@) < 0),
{
    let s: i8 = bool_sign(a.dormant, b.dormant);
    if s != 0 {
        return s < 0;
    }
    let s: i8 = text::ordered(a.lower.as_str(), b.lower.as_str());
    if s != 0 {
        return s < 0;
    }
    let s: i8 = text::ordered(a.label.as_str(), b.label.as_str());
    if s != 0 {
        return s < 0;
    }
    let s: i8 = bool_sign(a.stale, b.stale);
    if s != 0 {
        return s < 0;
    }
    let s: i8 = sign(a.rank as u64, b.rank as u64);
    if s != 0 {
        return s < 0;
    }
    let s: i8 = text::ordered(a.session.as_str(), b.session.as_str());
    if s != 0 {
        return s < 0;
    }
    let s: i8 = sign(a.value, b.value);
    if s != 0 {
        return s < 0;
    }
    sign(a.pane, b.pane) < 0
}

// ── Sorting ─────────────────────────────────────────────────────

/// Whether `p` takes `before`, whose items have the given keys, to `after` in the order of the
/// keys, items with equal keys in the order in which they came.
pub open spec fn arranges(
    p: Seq<int>,
    before: Seq<AgentPane>,
    keys: Seq<KeyModel>,
    after: Seq<AgentPane>,
) -> bool {
    &&& p.len() == before.len()
    &&& after.len() == before.len()
    &&& forall|i: int| 0 <= i < p.len() ==> 0 <= #[trigger] p[i] < before.len() && after[i] == before[p[i]]
    &&& forall|i: int, j: int|
        0 <= i < j < p.len() ==> {
            let o = key_order(keys[#[trigger] p[i]], keys[#[trigger] p[j]]);
            o < 0 || o == 0 && p[i] < p[j]
        }
}

/// Whether `after` is `before` stably sorted by the given keys.
pub open spec fn stably_sorted(before: Seq<AgentPane>, keys: Seq<KeyModel>, after: Seq<AgentPane>) -> bool {
    exists|p: Seq<int>| #[trigger] arranges(p, before, keys, after)
}

/// Whether `q`, a selection of the first `n` items, is in order.
spec fn in_order(q: Seq<int>, keys: Seq<KeyModel>, n: int) -> bool {
    &&& q.len() == n
    &&& forall|i: int| 0 <= i < q.len() ==> 0 <= #[trigger] q[i] < n
    &&& forall|i: int, j: int|
        0 <= i < j < q.len() ==> {
            let o = key_order(keys[#[trigger] q[i]], keys[#[trigger] q[j]]);
            o < 0 || o == 0 && q[i] < q[j]
        }
}

proof fn lemma_insert_in_order(q: Seq<int>, keys: Seq<KeyModel>, n: int, at: int)
    requires
        in_order(q, keys, n),
        0 <= at <= n < keys.len(),
        at > 0 ==> key_order(keys[n], keys[q[at - 1]]) >= 0,
        at < n ==> key_order(keys[n], keys[q[at]]) < 0,
    ensures
        in_order(q.insert(at, n), keys, n + 1),
{
    let r = q.insert(at, n);
    assert forall|i: int, j: int| 0 <= i < j < r.len() implies {
        let o = key_order(keys[#[trigger] r[i]], keys[#[trigger] r[j]]);
        o < 0 || o == 0 && r[i] < r[j]
    } by {
        if j == at {
            let last = q[at - 1];
            assert(r[i] == q[i]);
            lemma_key_order_turns(keys[n], keys[last]);
            if i < at - 1 {
                lemma_key_order_transitive(keys[q[i]], keys[last], keys[n]);
            }
        } else if i == at {
            let next = q[at];
            assert(r[j] == q[j - 1]);
            if j - 1 > at {
                lemma_key_order_transitive(keys[n], keys[next], keys[q[j - 1]]);
            }
        } else {
            let i0 = if i < at {
                i
            } else {
                i - 1
            };
            let j0 = if j < at {
                j
            } else {
                j - 1
            };
            assert(r[i] == q[i0] && r[j] == q[j0]);
        }
    }
}

fn sort_stably(agents: &mut Vec<AgentPane>, sort_keys: Vec<SortKey>, Ghost(keys): Ghost<Seq<KeyModel>>)
    requires
        sort_keys@.len() == old(agents)@.len(),
        keys.len() == sort_keys@.len(),
        forall|i: int| 0 <= i < keys.len() ==> (#[trigger] sort_keys@[i])@ == keys[i],
    ensures
        stably_sorted(old(agents)@, keys, final(agents)@),
{
    let ghost before = agents@;
    let mut rest: Vec<AgentPane> = Vec::new();
    std::mem::swap(&mut rest, agents);
    let mut rest_keys = sort_keys;
    let mut done: Vec<AgentPane> = Vec::new();
    let mut done_keys: Vec<SortKey> = Vec::new();
    let ghost mut q: Seq<int> = Seq::empty();
    let ghost mut n: int = 0;
    proof {
        assert(before.skip(0) =~= before);
    }
    while rest.len() > 0
        invariant
            0 <= n <= before.len(),
            keys.len() == before.len(),
            rest@ =~= before.skip(n),
            rest_keys@.len() == rest@.len(),
            forall|i: int| 0 <= i < rest_keys@.len() ==> (#[trigger] rest_keys@[i])@ == keys[n + i],
            done@.len() == n,
            done_keys@.len() == n,
            in_order(q, keys, n),
            forall|i: int| 0 <= i < n ==> #[trigger] done@[i] == before[q[i]],
            forall|i: int| 0 <= i < n ==> (#[trigger] done_keys@[i])@ == keys[q[i]],
        decreases rest.len(),
    {
        let agent = rest.remove(0);
        let key = rest_keys.remove(0);
        proof {
            assert(agent == before[n]);
            assert(key@ == keys[n]);
        }
        let mut at: usize = done.len();
        while at > 0 && comes_before(&key, &done_keys[at - 1])
            invariant
                at <= n,
                n < keys.len(),
                done_keys@.len() == n,
                key@ == keys[n],
                in_order(q, keys, n),
                forall|i: int| 0 <= i < n ==> (#[trigger] done_keys@[i])@ == keys[q[i]],
                at < n ==> key_order(keys[n], keys[q[at as int]]) < 0,
            decreases at,
        {
            at -= 1;
        }
        proof {
            lemma_insert_in_order(q, keys, n, at as int);
            q = q.insert(at as int, n);
            n = n + 1;
        }
        done.insert(at, agent);
        done_keys.insert(at, key);
    }
    *agents = done;
    proof {
        assert(n == before.len());
        assert(arranges(q, before, keys, agents@));
    }
}

/// Orders agents for publication: groups alphabetically, then the configured order within each
/// group. Grouping only prefixes the key, so an agent never leaves its group. With
/// `sink_dormant_groups`, groups without live work come last, and the stale agents of a group
/// form its tail.
pub fn order_agents(
    agents: &mut Vec<AgentPane>,
    group_by: Option<SidebarGroupBy>,
    sort: SidebarSort,
    now: u64,
    sleeping: &StrSet,
    interrupted: &StrSet,
    sink_dormant_groups: bool,
)
    ensures
        stably_sorted(
            old(agents)@,
            sort_keys(old(agents)@, group_by, sort, now, sleeping@, interrupted@, sink_dormant_groups),
            final(agents)@,
        ),
{
    let dormant_labels = if sink_dormant_groups {
        dormant_groups(agents, group_by, now, sleeping, interrupted)
    } else {
        StrSet::new()
    };
    let ghost keys = sort_keys(agents@, group_by, sort, now, sleeping@, interrupted@, sink_dormant_groups);
    let mut computed: Vec<SortKey> = Vec::new();
    let mut i: usize = 0;
    while i < agents.len()
        invariant
            0 <= i <= agents.len(),
            computed@.len() == i,
            keys == sort_keys(agents@, group_by, sort, now, sleeping@, interrupted@, sink_dormant_groups),
            forall|j: int| 0 <= j < i ==> (#[trigger] computed@[j])@ == keys[j],
            forall|l: Seq<char>| #[trigger]
                dormant_labels@.contains(l) <==> (sink_dormant_groups && (group_by matches Some(mode) && dormant(
                    agents@,
                    mode,
                    l,
                    now,
                    sleeping@,
                    interrupted@,
                ))),
        decreases agents.len() - i,
    {
        let key = key_of(
            &agents[i],
            group_by,
            sort,
            now,
            sleeping,
            interrupted,
            sink_dormant_groups,
            &dormant_labels,
            Ghost(agents@),
        );
        computed.push(key);
        i += 1;
    }
    sort_stably(agents, computed, Ghost(keys));
}

// ── What the order keeps ────────────────────────────────────────

/// Sorting drops no agent and invents none.
pub proof fn law_order_keeps_the_agents(before: Seq<AgentPane>, keys: Seq<KeyModel>, after: Seq<AgentPane>)
    requires
        stably_sorted(before, keys, after),
    ensures
        after.len() == before.len(),
        after.to_multiset() == before.to_multiset(),
        forall|a: AgentPane| after.contains(a) <==> before.contains(a),
{
    let p = choose|p: Seq<int>| #[trigger] arranges(p, before, keys, after);
    lemma_arranged_multiset(p, before, keys, after);
    assert forall|a: AgentPane| after.contains(a) <==> before.contains(a) by {
        before.to_multiset_ensures();
        after.to_multiset_ensures();
        assert(after.contains(a) <==> after.to_multiset().count(a) > 0);
        assert(before.contains(a) <==> before.to_multiset().count(a) > 0);
    }
}

proof fn lemma_distinct(p: Seq<int>, before: Seq<AgentPane>, keys: Seq<KeyModel>, after: Seq<AgentPane>)
    requires
        arranges(p, before, keys, after),
    ensures
        forall|i: int, j: int| 0 <= i < p.len() && 0 <= j < p.len() && i != j ==> p[i] != p[j],
{
    assert forall|i: int, j: int| 0 <= i < p.len() && 0 <= j < p.len() && i != j implies p[i] != p[j] by {
        let (a, b) = if i < j {
            (i, j)
        } else {
            (j, i)
        };
        lemma_key_order_turns(keys[p[a]], keys[p[b]]);
        lemma_key_order_turns(keys[p[a]], keys[p[a]]);
    }
}

proof fn lemma_arranged_multiset(p: Seq<int>, before: Seq<AgentPane>, keys: Seq<KeyModel>, after: Seq<AgentPane>)
    requires
        arranges(p, before, keys, after),
    ensures
        after.to_multiset() == before.to_multiset(),
{
    lemma_distinct(p, before, keys, after);
    lemma_selected_multiset(p, before, after);
}

proof fn lemma_selected_multiset(p: Seq<int>, before: Seq<AgentPane>, after: Seq<AgentPane>)
    requires
        p.len() == before.len(),
        after.len() == before.len(),
        forall|i: int| 0 <= i < p.len() ==> 0 <= #[trigger] p[i] < before.len() && after[i] == before[p[i]],
        forall|i: int, j: int| 0 <= i < p.len() && 0 <= j < p.len() && i != j ==> p[i] != p[j],
    ensures
        after.to_multiset() == before.to_multiset(),
    decreases p.len(),
{
    broadcast use vstd::seq_lib::group_to_multiset_ensures;

    if p.len() > 0 {
        let n = p.len() - 1;
        let k = p[n];
        let fewer = before.remove(k);
        let q = Seq::new(
            n as nat,
            |i: int|
                if p[i] < k {
                    p[i]
                } else {
                    p[i] - 1
                },
        );
        let first = after.drop_last();
        assert forall|i: int| 0 <= i < q.len() implies 0 <= #[trigger] q[i] < fewer.len() && first[i] == fewer[q[i]] by {
            assert(p[i] != p[n]);
        }
        assert forall|i: int, j: int| 0 <= i < q.len() && 0 <= j < q.len() && i != j implies q[i] != q[j] by {
            assert(p[i] != p[j] && p[i] != p[n] && p[j] != p[n]);
        }
        lemma_selected_multiset(q, fewer, first);
        assert(after =~= first.push(after[n]));
        assert(before =~= fewer.insert(k, before[k]));
        assert(after.to_multiset() =~= first.to_multiset().insert(after[n]));
        assert(before.to_multiset() =~= fewer.to_multiset().insert(before[k]));
    } else {
        assert(before =~= after);
    }
}

/// The agents of a group stand together: nobody between two agents of a group is of another.
pub proof fn law_groups_stay_together(
    before: Seq<AgentPane>,
    mode: SidebarGroupBy,
    sort: SidebarSort,
    now: u64,
    sleeping: Set<Seq<char>>,
    interrupted: Set<Seq<char>>,
    sink: bool,
    after: Seq<AgentPane>,
    i: int,
    j: int,
    k: int,
)
    requires
        stably_sorted(before, sort_keys(before, Some(mode), sort, now, sleeping, interrupted, sink), after),
        0 <= i < j < k < after.len(),
        label(after[i], mode) == label(after[k], mode),
    ensures
        label(after[j], mode) == label(after[i], mode),
        sink && idle(after[i], now, sleeping, interrupted) ==> idle(after[j], now, sleeping, interrupted) && idle(
            after[k],
            now,
            sleeping,
            interrupted,
        ),
{
    let keys = sort_keys(before, Some(mode), sort, now, sleeping, interrupted, sink);
    let p = choose|p: Seq<int>| #[trigger] arranges(p, before, keys, after);
    let (a, b, c) = (keys[p[i]], keys[p[j]], keys[p[k]]);
    assert(key_order(a, b) <= 0 && key_order(b, c) <= 0);
    text::lemma_order_total(a.lower, b.lower);
    text::lemma_order_total(b.lower, c.lower);
    text::lemma_order_total(a.label, b.label);
    text::lemma_order_total(b.label, c.label);
    assert(a.dormant == c.dormant && a.lower == c.lower && a.label == c.label);
}

/// With sinking, a group without live work never stands above one with live work.
pub proof fn law_dormant_groups_sink(
    before: Seq<AgentPane>,
    mode: SidebarGroupBy,
    sort: SidebarSort,
    now: u64,
    sleeping: Set<Seq<char>>,
    interrupted: Set<Seq<char>>,
    after: Seq<AgentPane>,
    i: int,
    j: int,
)
    requires
        stably_sorted(before, sort_keys(before, Some(mode), sort, now, sleeping, interrupted, true), after),
        0 <= i < j < after.len(),
        dormant(before, mode, label(after[i], mode), now, sleeping, interrupted),
    ensures
        dormant(before, mode, label(after[j], mode), now, sleeping, interrupted),
{
    let keys = sort_keys(before, Some(mode), sort, now, sleeping, interrupted, true);
    let p = choose|p: Seq<int>| #[trigger] arranges(p, before, keys, after);
    assert(key_order(keys[p[i]], keys[p[j]]) <= 0);
}

/// The order is settled by the keys: two stable sorts of the same agents agree.
pub proof fn law_order_is_settled(
    before: Seq<AgentPane>,
    keys: Seq<KeyModel>,
    first: Seq<AgentPane>,
    second: Seq<AgentPane>,
)
    requires
        stably_sorted(before, keys, first),
        stably_sorted(before, keys, second),
    ensures
        first == second,
{
    let p = choose|p: Seq<int>| #[trigger] arranges(p, before, keys, first);
    let q = choose|q: Seq<int>| #[trigger] arranges(q, before, keys, second);
    lemma_distinct(p, before, keys, first);
    lemma_distinct(q, before, keys, second);
    assert forall|i: int| 0 <= i < first.len() implies #[trigger] first[i] == second[i] by {
        lemma_same_arrangement(p, q, keys, i);
        assert(first[i] == before[p[i]]);
        assert(second[i] == before[q[i]]);
    }
    assert(first =~= second);
}

/// Whether agents stand in the order of the keys that `key` gives them.
spec fn ordered_by(agents: Seq<AgentPane>, key: spec_fn(AgentPane) -> KeyModel) -> bool {
    forall|i: int, j: int|
        0 <= i < j < agents.len() ==> key_order(key(#[trigger] agents[i]), key(#[trigger] agents[j])) <= 0
}

proof fn lemma_same_order(a: Seq<AgentPane>, b: Seq<AgentPane>, key: spec_fn(AgentPane) -> KeyModel)
    requires
        a.to_multiset() == b.to_multiset(),
        ordered_by(a, key),
        ordered_by(b, key),
        forall|x: AgentPane, y: AgentPane| #[trigger]
            a.contains(x) && #[trigger] a.contains(y) && key_order(key(x), key(y)) == 0 ==> x == y,
    ensures
        a == b,
    decreases a.len(),
{
    a.to_multiset_ensures();
    b.to_multiset_ensures();
    if a.len() > 0 {
        let (x, y) = (a.last(), b.last());
        assert(a.contains(x) && b.contains(y));
        assert(a.to_multiset().count(y) > 0);
        assert(b.to_multiset().count(x) > 0);
        let i = choose|i: int| 0 <= i < b.len() && b[i] == x;
        let j = choose|j: int| 0 <= j < a.len() && a[j] == y;
        lemma_key_order_turns(key(x), key(y));
        lemma_key_order_turns(key(x), key(x));
        if i < b.len() - 1 {
            assert(key_order(key(b[i]), key(b[b.len() - 1])) <= 0);
        }
        if j < a.len() - 1 {
            assert(key_order(key(a[j]), key(a[a.len() - 1])) <= 0);
        }
        assert(x == y);
        let (c, d) = (a.drop_last(), b.drop_last());
        assert(c =~= a.remove(a.len() - 1));
        assert(d =~= b.remove(b.len() - 1));
        assert forall|p: AgentPane, q: AgentPane| #[trigger]
            c.contains(p) && #[trigger] c.contains(q) && key_order(key(p), key(q)) == 0 implies p == q by {
            let m = choose|m: int| 0 <= m < c.len() && c[m] == p;
            let n = choose|n: int| 0 <= n < c.len() && c[n] == q;
            assert(a[m] == p && a[n] == q);
            assert(a.contains(p) && a.contains(q));
        }
        assert(ordered_by(c, key)) by {
            assert forall|m: int, n: int| 0 <= m < n < c.len() implies key_order(
                key(#[trigger] c[m]),
                key(#[trigger] c[n]),
            ) <= 0 by {
                assert(c[m] == a[m] && c[n] == a[n]);
            }
        }
        assert(ordered_by(d, key)) by {
            assert forall|m: int, n: int| 0 <= m < n < d.len() implies key_order(
                key(#[trigger] d[m]),
                key(#[trigger] d[n]),
            ) <= 0 by {
                assert(d[m] == b[m] && d[n] == b[n]);
            }
        }
        lemma_same_order(c, d, key);
        assert(a =~= c.push(x));
        assert(b =~= d.push(y));
    } else {
        assert(a =~= b);
    }
}

proof fn lemma_sorted_is_ordered(
    all: Seq<AgentPane>,
    before: Seq<AgentPane>,
    group_by: Option<SidebarGroupBy>,
    sort: SidebarSort,
    now: u64,
    sleeping: Set<Seq<char>>,
    interrupted: Set<Seq<char>>,
    sink: bool,
    after: Seq<AgentPane>,
)
    requires
        all.to_multiset() == before.to_multiset(),
        stably_sorted(before, sort_keys(before, group_by, sort, now, sleeping, interrupted, sink), after),
    ensures
        ordered_by(after, |a: AgentPane| sort_key(all, a, group_by, sort, now, sleeping, interrupted, sink)),
        after.to_multiset() == all.to_multiset(),
{
    let keys = sort_keys(before, group_by, sort, now, sleeping, interrupted, sink);
    let key = |a: AgentPane| sort_key(all, a, group_by, sort, now, sleeping, interrupted, sink);
    law_order_keeps_the_agents(before, keys, after);
    let p = choose|p: Seq<int>| #[trigger] arranges(p, before, keys, after);
    assert forall|a: AgentPane| #[trigger] all.contains(a) <==> before.contains(a) by {
        all.to_multiset_ensures();
        before.to_multiset_ensures();
        assert(all.contains(a) <==> all.to_multiset().count(a) > 0);
        assert(before.contains(a) <==> before.to_multiset().count(a) > 0);
    }
    assert forall|a: AgentPane| #[trigger] key(a) == sort_key(
        before,
        a,
        group_by,
        sort,
        now,
        sleeping,
        interrupted,
        sink,
    ) by {
        if let Some(mode) = group_by {
            lemma_dormant_same(all, before, mode, label(a, mode), now, sleeping, interrupted);
        }
    }
    assert forall|i: int, j: int| 0 <= i < j < after.len() implies key_order(
        key(#[trigger] after[i]),
        key(#[trigger] after[j]),
    ) <= 0 by {
        assert(after[i] == before[p[i]] && after[j] == before[p[j]]);
        assert(key_order(keys[p[i]], keys[p[j]]) <= 0);
        assert(key(after[i]) == keys[p[i]] && key(after[j]) == keys[p[j]]);
    }
}

proof fn lemma_dormant_same(
    a: Seq<AgentPane>,
    b: Seq<AgentPane>,
    mode: SidebarGroupBy,
    l: Seq<char>,
    now: u64,
    sleeping: Set<Seq<char>>,
    interrupted: Set<Seq<char>>,
)
    requires
        forall|x: AgentPane| #[trigger] a.contains(x) <==> b.contains(x),
    ensures
        dormant(a, mode, l, now, sleeping, interrupted) == dormant(b, mode, l, now, sleeping, interrupted),
{
    if dormant(a, mode, l, now, sleeping, interrupted) {
        lemma_dormant_from(a, b, mode, l, now, sleeping, interrupted);
    }
    if dormant(b, mode, l, now, sleeping, interrupted) {
        lemma_dormant_from(b, a, mode, l, now, sleeping, interrupted);
    }
}

proof fn lemma_dormant_from(
    a: Seq<AgentPane>,
    b: Seq<AgentPane>,
    mode: SidebarGroupBy,
    l: Seq<char>,
    now: u64,
    sleeping: Set<Seq<char>>,
    interrupted: Set<Seq<char>>,
)
    requires
        forall|x: AgentPane| #[trigger] a.contains(x) <==> b.contains(x),
        dormant(a, mode, l, now, sleeping, interrupted),
    ensures
        dormant(b, mode, l, now, sleeping, interrupted),
{
    let i = choose|i: int| 0 <= i < a.len() && label(#[trigger] a[i], mode) == l;
    assert(a.contains(a[i]));
    let j = choose|j: int| 0 <= j < b.len() && b[j] == a[i];
    assert(label(b[j], mode) == l);
    assert forall|k: int| 0 <= k < b.len() && label(#[trigger] b[k], mode) == l implies idle(
        b[k],
        now,
        sleeping,
        interrupted,
    ) by {
        assert(b.contains(b[k]));
        assert(a.contains(b[k]));
        let m = choose|m: int| 0 <= m < a.len() && a[m] == b[k];
        assert(label(a[m], mode) == l);
    }
}

/// The order does not depend on the order in which the agents came, where agents with equal keys are
/// the same: it follows from which agents there are.
pub proof fn law_order_forgets_the_input(
    first: Seq<AgentPane>,
    second: Seq<AgentPane>,
    group_by: Option<SidebarGroupBy>,
    sort: SidebarSort,
    now: u64,
    sleeping: Set<Seq<char>>,
    interrupted: Set<Seq<char>>,
    sink: bool,
    one: Seq<AgentPane>,
    other: Seq<AgentPane>,
)
    requires
        first.to_multiset() == second.to_multiset(),
        stably_sorted(first, sort_keys(first, group_by, sort, now, sleeping, interrupted, sink), one),
        stably_sorted(second, sort_keys(second, group_by, sort, now, sleeping, interrupted, sink), other),
        forall|i: int, j: int|
            0 <= i < j < first.len() && key_order(
                sort_key(first, #[trigger] first[i], group_by, sort, now, sleeping, interrupted, sink),
                sort_key(first, #[trigger] first[j], group_by, sort, now, sleeping, interrupted, sink),
            ) == 0 ==> first[i] == first[j],
    ensures
        one == other,
{
    let key = |a: AgentPane| sort_key(first, a, group_by, sort, now, sleeping, interrupted, sink);
    lemma_sorted_is_ordered(first, first, group_by, sort, now, sleeping, interrupted, sink, one);
    lemma_sorted_is_ordered(first, second, group_by, sort, now, sleeping, interrupted, sink, other);
    assert forall|x: AgentPane, y: AgentPane| #[trigger]
        one.contains(x) && #[trigger] one.contains(y) && key_order(key(x), key(y)) == 0 implies x == y by {
        first.to_multiset_ensures();
        one.to_multiset_ensures();
        assert(one.to_multiset().count(x) > 0 && one.to_multiset().count(y) > 0);
        assert(first.contains(x) && first.contains(y));
        let i = choose|i: int| 0 <= i < first.len() && first[i] == x;
        let j = choose|j: int| 0 <= j < first.len() && first[j] == y;
        lemma_key_order_turns(key(x), key(y));
        if i < j {
            assert(first[i] == first[j]);
        } else if j < i {
            assert(first[j] == first[i]);
        }
    }
    lemma_same_order(one, other, key);
}

proof fn lemma_same_arrangement(p: Seq<int>, q: Seq<int>, keys: Seq<KeyModel>, i: int)
    requires
        p.len() == q.len(),
        0 <= i < p.len(),
        forall|k: int| 0 <= k < p.len() ==> 0 <= #[trigger] p[k] < p.len(),
        forall|k: int| 0 <= k < q.len() ==> 0 <= #[trigger] q[k] < q.len(),
        forall|a: int, b: int| 0 <= a < p.len() && 0 <= b < p.len() && a != b ==> p[a] != p[b],
        forall|a: int, b: int| 0 <= a < q.len() && 0 <= b < q.len() && a != b ==> q[a] != q[b],
        forall|a: int, b: int|
            0 <= a < b < p.len() ==> {
                let o = key_order(keys[#[trigger] p[a]], keys[#[trigger] p[b]]);
                o < 0 || o == 0 && p[a] < p[b]
            },
        forall|a: int, b: int|
            0 <= a < b < q.len() ==> {
                let o = key_order(keys[#[trigger] q[a]], keys[#[trigger] q[b]]);
                o < 0 || o == 0 && q[a] < q[b]
            },
    ensures
        p[i] == q[i],
    decreases i,
{
    assert forall|k: int| 0 <= k < i implies p[k] == q[k] by {
        lemma_same_arrangement(p, q, keys, k);
    }
    if p[i] != q[i] {
        let m = lemma_position(q, p[i]);
        let l = lemma_position(p, q[i]);
        if m < i {
            assert(p[m] == q[m]);
        }
        if l < i {
            assert(p[l] == q[l]);
        }
        assert(m > i && l > i);
        lemma_key_order_turns(keys[p[i]], keys[q[i]]);
        assert(false);
    }
}

/// Where the value `v` stands in a permutation.
proof fn lemma_position(p: Seq<int>, v: int) -> (k: int)
    requires
        0 <= v < p.len(),
        forall|k: int| 0 <= k < p.len() ==> 0 <= #[trigger] p[k] < p.len(),
        forall|a: int, b: int| 0 <= a < p.len() && 0 <= b < p.len() && a != b ==> p[a] != p[b],
    ensures
        0 <= k < p.len(),
        p[k] == v,
{
    if !p.contains(v) {
        let range = vstd::set_lib::set_int_range(0, p.len() as int);
        vstd::set_lib::lemma_int_range(0, p.len() as int);
        p.unique_seq_to_set();
        assert(p.to_set().subset_of(range.remove(v)));
        vstd::set_lib::lemma_len_subset(p.to_set(), range.remove(v));
        assert(false);
    }
    choose|k: int| 0 <= k < p.len() && p[k] == v
}

// ── Jumping ─────────────────────────────────────────────────────

/// Whether an agent with pane `pane_id` answers to a number.
pub open spec fn jumpable(group_by: Option<SidebarGroupBy>, stale_panes: Set<Seq<char>>, pane_id: Seq<char>) -> bool {
    group_by is None || !stale_panes.contains(pane_id)
}

/// Whether an agent can be reached by its number.
///
/// A grouped sidebar sorts the stale agents of each group into a tail and offers to fold it away,
/// so jumping skips them there, folded or not. A flat list makes no such distinction, so every
/// agent it shows keeps its number.
pub fn is_jump_target(snapshot: &SidebarSnapshot, agent: &AgentPane) -> (r: bool)
    ensures
        r == jumpable(snapshot.group_by, snapshot.stale_pane_ids@, agent.pane_id@),
{
    snapshot.group_by.is_none() || !snapshot.stale_pane_ids.contains(agent.pane_id.as_str())
}

// ── Building ────────────────────────────────────────────────────

/// Inputs of one snapshot.
pub struct SnapshotInputs {
    pub agents: Vec<AgentPane>,
    /// The status icon that tmux shows for a pane, where it was observed.
    pub tmux_statuses: StrMap<Option<String>>,
    pub pane_window_ids: StrMap<String>,
    pub pane_window_indexes: StrMap<u32>,
    pub active_windows: PairSet,
    pub active_pane_ids: StrSet,
    pub window_pane_counts: StrMap<usize>,
    pub position: SidebarPosition,
    pub layout_mode: SidebarLayoutMode,
    pub filter_mode: SidebarFilterMode,
    pub sort: SidebarSort,
    pub group_by: Option<SidebarGroupBy>,
    /// Sink groups that hold no live work below the rest, as clients fold them.
    pub collapse_stale: bool,
    pub expanded_groups: Vec<String>,
    pub status_icons: StatusIcons,
    pub git_statuses: StrMap<GitStatus>,
    pub pr_statuses: StrMap<PrPathEntry>,
    pub check_statuses: StrMap<CheckPathEntry>,
    pub sleeping_pane_ids: StrSet,
    pub interrupted_pane_ids: StrSet,
}

/// The status of an agent, once tmux's own clearing is taken over: a done or waiting agent whose
/// pane shows another icon has none.
pub open spec fn shown_status(
    agent: AgentPane,
    tmux_statuses: Map<Seq<char>, Option<String>>,
    done: Seq<char>,
    waiting: Seq<char>,
) -> Option<AgentStatus> {
    if !tmux_statuses.dom().contains(agent.pane_id@) {
        agent.status
    } else {
        let observed = text::optional(tmux_statuses[agent.pane_id@]);
        if agent.status == Some(AgentStatus::Done) && observed != Some(done) {
            None
        } else if agent.status == Some(AgentStatus::Waiting) && observed != Some(waiting) {
            None
        } else {
            agent.status
        }
    }
}

/// An agent with its status, window id and window index brought up to date.
pub open spec fn stamped(
    agent: AgentPane,
    tmux_statuses: Map<Seq<char>, Option<String>>,
    window_ids: Map<Seq<char>, String>,
    window_indexes: Map<Seq<char>, u32>,
    done: Seq<char>,
    waiting: Seq<char>,
) -> AgentPane {
    AgentPane {
        status: shown_status(agent, tmux_statuses, done, waiting),
        window_id: if window_ids.dom().contains(agent.pane_id@) {
            window_ids[agent.pane_id@]
        } else {
            agent.window_id
        },
        window_index: if window_indexes.dom().contains(agent.pane_id@) {
            Some(window_indexes[agent.pane_id@])
        } else {
            None
        },
        ..agent
    }
}

/// The agents of a snapshot, before they are ordered.
pub open spec fn current_agents(input: SnapshotInputs) -> Seq<AgentPane> {
    Seq::new(
        input.agents@.len(),
        |i: int|
            stamped(
                input.agents@[i],
                input.tmux_statuses@,
                input.pane_window_ids@,
                input.pane_window_indexes@,
                input.status_icons.done@,
                input.status_icons.waiting@,
            ),
    )
}

/// Whether one of `agents` has the pane `pane_id`.
pub open spec fn has_pane(agents: Seq<AgentPane>, pane_id: Seq<char>) -> bool {
    exists|i: int| 0 <= i < agents.len() && (#[trigger] agents[i]).pane_id@ == pane_id
}

/// Whether one of `agents` works in `path`.
pub open spec fn has_path(agents: Seq<AgentPane>, path: Seq<char>) -> bool {
    exists|i: int| 0 <= i < agents.len() && (#[trigger] agents[i]).path@ == path
}

/// Whether one of the stale `agents` has the pane `pane_id`.
pub open spec fn has_idle_pane(
    agents: Seq<AgentPane>,
    pane_id: Seq<char>,
    now: u64,
    sleeping: Set<Seq<char>>,
    interrupted: Set<Seq<char>>,
) -> bool {
    exists|i: int|
        0 <= i < agents.len() && (#[trigger] agents[i]).pane_id@ == pane_id && idle(
            agents[i],
            now,
            sleeping,
            interrupted,
        )
}

/// Whether `path` is checked out on `branch`.
pub open spec fn on_branch(git: Map<Seq<char>, GitStatus>, path: Seq<char>, branch: Seq<char>) -> bool {
    git.dom().contains(path) && text::optional(git[path].branch) == Some(branch)
}

/// Whether the checks found for `branch` are shown at `path`: where an agent works on it.
pub open spec fn checks_shown(
    agents: Seq<AgentPane>,
    git: Map<Seq<char>, GitStatus>,
    path: Seq<char>,
    branch: Seq<char>,
) -> bool {
    has_path(agents, path) && on_branch(git, path, branch)
}

/// Whether the pull request found for `branch` is shown at `path`. A main branch has none.
pub open spec fn pr_shown(
    agents: Seq<AgentPane>,
    git: Map<Seq<char>, GitStatus>,
    path: Seq<char>,
    branch: Seq<char>,
) -> bool {
    checks_shown(agents, git, path, branch) && branch != "main"@ && branch != "master"@
}

fn stamp(
    agent: &mut AgentPane,
    tmux_statuses: &StrMap<Option<String>>,
    window_ids: &StrMap<String>,
    window_indexes: &StrMap<u32>,
    icons: &StatusIcons,
)
    ensures
        *final(agent) == stamped(
            *old(agent),
            tmux_statuses@,
            window_ids@,
            window_indexes@,
            icons.done@,
            icons.waiting@,
        ),
{
    match tmux_statuses.get(agent.pane_id.as_str()) {
        Some(observed) => {
            let keeps = match agent.status {
                Some(AgentStatus::Done) => match observed {
                    Some(icon) => text::same(icon.as_str(), icons.done.as_str()),
                    None => false,
                },
                Some(AgentStatus::Waiting) => match observed {
                    Some(icon) => text::same(icon.as_str(), icons.waiting.as_str()),
                    None => false,
                },
                _ => true,
            };
            if !keeps {
                agent.status = None;
            }
        },
        None => {},
    }
    match window_ids.get(agent.pane_id.as_str()) {
        Some(id) => {
            agent.window_id = id.clone();
        },
        None => {},
    }
    agent.window_index = match window_indexes.get(agent.pane_id.as_str()) {
        Some(n) => Some(*n),
        None => None,
    };
}

fn pane_among(agents: &Vec<AgentPane>, pane_id: &str) -> (r: bool)
    ensures
        r == has_pane(agents@, pane_id@),
{
    let mut i: usize = 0;
    while i < agents.len()
        invariant
            0 <= i <= agents.len(),
            forall|j: int| 0 <= j < i ==> (#[trigger] agents@[j]).pane_id@ != pane_id@,
        decreases agents.len() - i,
    {
        if text::same(agents[i].pane_id.as_str(), pane_id) {
            return true;
        }
        i += 1;
    }
    false
}

fn path_among(agents: &Vec<AgentPane>, path: &str) -> (r: bool)
    ensures
        r == has_path(agents@, path@),
{
    let mut i: usize = 0;
    while i < agents.len()
        invariant
            0 <= i <= agents.len(),
            forall|j: int| 0 <= j < i ==> (#[trigger] agents@[j]).path@ != path@,
        decreases agents.len() - i,
    {
        if text::same(agents[i].path.as_str(), path) {
            return true;
        }
        i += 1;
    }
    false
}

fn shows_checks(agents: &Vec<AgentPane>, git: &StrMap<GitStatus>, path: &str, branch: &str) -> (r: bool)
    ensures
        r == checks_shown(agents@, git@, path@, branch@),
{
    match git.get(path) {
        Some(status) => match &status.branch {
            Some(current) => text::same(current.as_str(), branch) && path_among(agents, path),
            None => false,
        },
        None => false,
    }
}

fn idle_panes(agents: &Vec<AgentPane>, now: u64, sleeping: &StrSet, interrupted: &StrSet) -> (r: StrSet)
    ensures
        forall|k: Seq<char>| #[trigger]
            r@.contains(k) <==> has_idle_pane(agents@, k, now, sleeping@, interrupted@),
{
    let mut r = StrSet::new();
    let mut i: usize = 0;
    proof {
        assert forall|k: Seq<char>| !has_idle_pane(agents@.take(0), k, now, sleeping@, interrupted@) by {}
    }
    while i < agents.len()
        invariant
            0 <= i <= agents.len(),
            forall|k: Seq<char>| #[trigger]
                r@.contains(k) <==> has_idle_pane(agents@.take(i as int), k, now, sleeping@, interrupted@),
        decreases agents.len() - i,
    {
        let ghost before = r@;
        if is_idle(&agents[i], now, sleeping, interrupted) {
            r.insert(agents[i].pane_id.clone());
        }
        proof {
            let s0 = agents@.take(i as int);
            let s1 = agents@.take(i + 1);
            assert forall|k: Seq<char>| #[trigger]
                r@.contains(k) <==> has_idle_pane(s1, k, now, sleeping@, interrupted@) by {
                if before.contains(k) {
                    let j = choose|j: int|
                        0 <= j < s0.len() && (#[trigger] s0[j]).pane_id@ == k && idle(
                            s0[j],
                            now,
                            sleeping@,
                            interrupted@,
                        );
                    assert(s1[j] == s0[j]);
                }
                if has_idle_pane(s1, k, now, sleeping@, interrupted@) {
                    let j = choose|j: int|
                        0 <= j < s1.len() && (#[trigger] s1[j]).pane_id@ == k && idle(
                            s1[j],
                            now,
                            sleeping@,
                            interrupted@,
                        );
                    if j < i {
                        assert(s0[j] == s1[j]);
                    }
                }
                assert(s1[i as int] == agents@[i as int]);
            }
        }
        i += 1;
    }
    proof {
        assert(agents@.take(agents@.len() as int) =~= agents@);
    }
    r
}

fn live_sleepers(agents: &Vec<AgentPane>, sleeping: &StrSet) -> (r: StrSet)
    ensures
        forall|k: Seq<char>| #[trigger] r@.contains(k) <==> sleeping@.contains(k) && has_pane(agents@, k),
{
    let mut r = StrSet::new();
    let mut i: usize = 0;
    while i < sleeping.len()
        invariant
            0 <= i <= sleeping.items().len(),
            forall|k: Seq<char>| #[trigger]
                r@.contains(k) <==> has_pane(agents@, k) && exists|j: int|
                    0 <= j < i && sleeping.items()[j] == k,
        decreases sleeping.items().len() - i,
    {
        let ghost before = r@;
        let id = sleeping.get(i);
        if pane_among(agents, id.as_str()) {
            r.insert(id.clone());
        }
        proof {
            assert forall|k: Seq<char>| #[trigger]
                r@.contains(k) <==> has_pane(agents@, k) && exists|j: int|
                    0 <= j < i + 1 && sleeping.items()[j] == k by {
                if before.contains(k) {
                    let j = choose|j: int| 0 <= j < i && sleeping.items()[j] == k;
                    assert(sleeping.items()[j] == k);
                }
                if k == id@ {
                    assert(sleeping.items()[i as int] == k);
                }
            }
        }
        i += 1;
    }
    proof {
        sleeping.lemma_items();
    }
    r
}

fn shown_prs(agents: &Vec<AgentPane>, git: &StrMap<GitStatus>, found: &StrMap<PrPathEntry>) -> (r: StrMap<PrSummary>)
    ensures
        forall|k: Seq<char>| #[trigger]
            r@.dom().contains(k) <==> found@.dom().contains(k) && pr_shown(agents@, git@, k, found@[k].branch@),
        forall|k: Seq<char>| r@.dom().contains(k) ==> #[trigger] r@[k] == found@[k].summary,
{
    let mut r: StrMap<PrSummary> = StrMap::new();
    let mut i: usize = 0;
    while i < found.len()
        invariant
            0 <= i <= found.keys().len(),
            forall|k: Seq<char>| #[trigger]
                r@.dom().contains(k) <==> pr_shown(agents@, git@, k, found@[k].branch@) && exists|j: int|
                    0 <= j < i && found.keys()[j] == k,
            forall|k: Seq<char>| r@.dom().contains(k) ==> #[trigger] r@[k] == found@[k].summary,
        decreases found.keys().len() - i,
    {
        let ghost before = r@;
        let path = found.key_at(i);
        let entry = found.value_at(i);
        let branch = entry.branch.as_str();
        let shown = !text::same(branch, "main") && !text::same(branch, "master") && shows_checks(
            agents,
            git,
            path.as_str(),
            branch,
        );
        if shown {
            r.insert(path.clone(), entry.summary.clone());
        }
        proof {
            assert forall|k: Seq<char>| #[trigger]
                r@.dom().contains(k) <==> pr_shown(agents@, git@, k, found@[k].branch@) && exists|j: int|
                    0 <= j < i + 1 && found.keys()[j] == k by {
                if before.dom().contains(k) {
                    let j = choose|j: int| 0 <= j < i && found.keys()[j] == k;
                    assert(found.keys()[j] == k);
                }
                if k == path@ {
                    assert(found.keys()[i as int] == k);
                }
            }
        }
        i += 1;
    }
    proof {
        found.lemma_keys();
    }
    r
}

fn shown_checks(agents: &Vec<AgentPane>, git: &StrMap<GitStatus>, found: &StrMap<CheckPathEntry>) -> (r: StrMap<
    CheckSummary,
>)
    ensures
        forall|k: Seq<char>| #[trigger]
            r@.dom().contains(k) <==> found@.dom().contains(k) && checks_shown(agents@, git@, k, found@[k].branch@),
        forall|k: Seq<char>| r@.dom().contains(k) ==> #[trigger] r@[k] == found@[k].summary,
{
    let mut r: StrMap<CheckSummary> = StrMap::new();
    let mut i: usize = 0;
    while i < found.len()
        invariant
            0 <= i <= found.keys().len(),
            forall|k: Seq<char>| #[trigger]
                r@.dom().contains(k) <==> checks_shown(agents@, git@, k, found@[k].branch@) && exists|j: int|
                    0 <= j < i && found.keys()[j] == k,
            forall|k: Seq<char>| r@.dom().contains(k) ==> #[trigger] r@[k] == found@[k].summary,
        decreases found.keys().len() - i,
    {
        let ghost before = r@;
        let path = found.key_at(i);
        let entry = found.value_at(i);
        let shown = shows_checks(agents, git, path.as_str(), entry.branch.as_str());
        if shown {
            r.insert(path.clone(), entry.summary.clone());
        }
        proof {
            assert forall|k: Seq<char>| #[trigger]
                r@.dom().contains(k) <==> checks_shown(agents@, git@, k, found@[k].branch@) && exists|j: int|
                    0 <= j < i + 1 && found.keys()[j] == k by {
                if before.dom().contains(k) {
                    let j = choose|j: int| 0 <= j < i && found.keys()[j] == k;
                    assert(found.keys()[j] == k);
                }
                if k == path@ {
                    assert(found.keys()[i as int] == k);
                }
            }
        }
        i += 1;
    }
    proof {
        found.lemma_keys();
    }
    r
}

/// Whether `r` is the snapshot of reconciled agents and tmux state, at `now` seconds.
pub open spec fn pictures(input: SnapshotInputs, now: u64, r: SidebarSnapshot) -> bool {
    let agents = current_agents(input);
    let sleeping = input.sleeping_pane_ids@;
    let interrupted = input.interrupted_pane_ids@;
    let keys = sort_keys(agents, input.group_by, input.sort, now, sleeping, interrupted, input.collapse_stale);
    &&& stably_sorted(agents, keys, r.agents@)
    &&& forall|k: Seq<char>| #[trigger]
        r.stale_pane_ids@.contains(k) <==> has_idle_pane(agents, k, now, sleeping, interrupted)
    &&& forall|k: Seq<char>| #[trigger]
        r.sleeping_pane_ids@.contains(k) <==> sleeping.contains(k) && has_pane(agents, k)
    &&& forall|k: Seq<char>| #[trigger]
        r.pr_statuses@.dom().contains(k) <==> input.pr_statuses@.dom().contains(k) && pr_shown(
            agents,
            input.git_statuses@,
            k,
            input.pr_statuses@[k].branch@,
        )
    &&& forall|k: Seq<char>|
        r.pr_statuses@.dom().contains(k) ==> #[trigger] r.pr_statuses@[k] == input.pr_statuses@[k].summary
    &&& forall|k: Seq<char>| #[trigger]
        r.check_statuses@.dom().contains(k) <==> input.check_statuses@.dom().contains(k) && checks_shown(
            agents,
            input.git_statuses@,
            k,
            input.check_statuses@[k].branch@,
        )
    &&& forall|k: Seq<char>|
        r.check_statuses@.dom().contains(k) ==> #[trigger] r.check_statuses@[k] == input.check_statuses@[k].summary
    &&& r.position == input.position
    &&& r.layout_mode == input.layout_mode
    &&& r.filter_mode == input.filter_mode
    &&& r.active_windows == input.active_windows
    &&& r.active_pane_ids == input.active_pane_ids
    &&& r.window_pane_counts == input.window_pane_counts
    &&& r.git_statuses == input.git_statuses
    &&& r.interrupted_pane_ids == input.interrupted_pane_ids
    &&& r.group_by == input.group_by
    &&& r.expanded_groups == input.expanded_groups
    &&& r.collapse_stale == input.collapse_stale
    &&& r.config_version == 0
}

/// Builds a snapshot from reconciled agents and tmux state, at `now` seconds.
pub fn build_snapshot(input: SnapshotInputs, now: u64) -> (r: SidebarSnapshot)
    ensures
        pictures(input, now, r),
{
    let ghost current = current_agents(input);
    let mut agents = input.agents;
    let n: usize = agents.len();
    let ghost before = agents@;
    let mut i: usize = 0;
    while i < n
        invariant
            before == input.agents@,
            n == before.len() == agents@.len(),
            current == current_agents(input),
            0 <= i <= n,
            forall|j: int| 0 <= j < i ==> #[trigger] agents@[j] == current[j],
            forall|j: int| i <= j < n ==> #[trigger] agents@[j] == before[j],
        decreases n - i,
    {
        stamp(
            &mut agents[i],
            &input.tmux_statuses,
            &input.pane_window_ids,
            &input.pane_window_indexes,
            &input.status_icons,
        );
        i += 1;
    }
    proof {
        assert(agents@ =~= current);
    }
    let stale_pane_ids = idle_panes(&agents, now, &input.sleeping_pane_ids, &input.interrupted_pane_ids);
    let sleeping_pane_ids = live_sleepers(&agents, &input.sleeping_pane_ids);
    let pr_statuses = shown_prs(&agents, &input.git_statuses, &input.pr_statuses);
    let check_statuses = shown_checks(&agents, &input.git_statuses, &input.check_statuses);
    order_agents(
        &mut agents,
        input.group_by,
        input.sort,
        now,
        &input.sleeping_pane_ids,
        &input.interrupted_pane_ids,
        input.collapse_stale,
    );
    SidebarSnapshot {
        position: input.position,
        layout_mode: input.layout_mode,
        filter_mode: input.filter_mode,
        active_windows: input.active_windows,
        active_pane_ids: input.active_pane_ids,
        window_pane_counts: input.window_pane_counts,
        git_statuses: input.git_statuses,
        pr_statuses,
        check_statuses,
        interrupted_pane_ids: input.interrupted_pane_ids,
        sleeping_pane_ids,
        group_by: input.group_by,
        expanded_groups: input.expanded_groups,
        stale_pane_ids,
        collapse_stale: input.collapse_stale,
        agents,
        config_version: 0,
    }
}

// ── What a snapshot is for ──────────────────────────────────────

proof fn lemma_from_input(input: SnapshotInputs, now: u64, r: SidebarSnapshot, k: int) -> (i: int)
    requires
        pictures(input, now, r),
        0 <= k < r.agents@.len(),
    ensures
        0 <= i < input.agents@.len(),
        r.agents@[k] == current_agents(input)[i],
{
    let agents = current_agents(input);
    let keys = sort_keys(
        agents,
        input.group_by,
        input.sort,
        now,
        input.sleeping_pane_ids@,
        input.interrupted_pane_ids@,
        input.collapse_stale,
    );
    let p = choose|p: Seq<int>| #[trigger] arranges(p, agents, keys, r.agents@);
    p[k]
}

/// A snapshot publishes the agents with their current status and window. One that waits or is done
/// keeps that status exactly while its pane shows the icon of that very status, or was not observed;
/// any other status is kept. Its window is where the pane was seen, and its place among the windows is
/// known where tmux tells it. All else of the agent is as it came, and nobody is left out.
pub proof fn law_published_agents_are_current(input: SnapshotInputs, now: u64, r: SidebarSnapshot)
    requires
        pictures(input, now, r),
    ensures
        r.agents@.len() == input.agents@.len(),
        forall|k: int|
            0 <= k < r.agents@.len() ==> exists|i: int|
                #![trigger input.agents@[i]]
                0 <= i < input.agents@.len() && ({
                    let was = input.agents@[i];
                    let told = #[trigger] r.agents@[k];
                    let pane = was.pane_id@;
                    let seen = input.tmux_statuses@.dom().contains(pane);
                    let icon = input.tmux_statuses@[pane];
                    &&& told == (AgentPane {
                        status: told.status,
                        window_id: told.window_id,
                        window_index: told.window_index,
                        ..was
                    })
                    &&& told.status is None || told.status == was.status
                    &&& was.status == Some(AgentStatus::Waiting) ==> (told.status is Some <==> !seen || (icon is Some
                        && icon->0@ == input.status_icons.waiting@))
                    &&& was.status == Some(AgentStatus::Done) ==> (told.status is Some <==> !seen || (icon is Some
                        && icon->0@ == input.status_icons.done@))
                    &&& was.status == Some(AgentStatus::Working) ==> told.status == Some(AgentStatus::Working)
                    &&& input.pane_window_ids@.dom().contains(pane) ==> told.window_id == input.pane_window_ids@[pane]
                    &&& !input.pane_window_ids@.dom().contains(pane) ==> told.window_id == was.window_id
                    &&& told.window_index is Some <==> input.pane_window_indexes@.dom().contains(pane)
                    &&& told.window_index is Some ==> told.window_index->0 == input.pane_window_indexes@[pane]
                }),
        forall|i: int|
            0 <= i < input.agents@.len() ==> exists|k: int|
                0 <= k < r.agents@.len() && (#[trigger] r.agents@[k]).pane_id@ == (#[trigger] input.agents@[i]).pane_id@,
{
    let agents = current_agents(input);
    let keys = sort_keys(
        agents,
        input.group_by,
        input.sort,
        now,
        input.sleeping_pane_ids@,
        input.interrupted_pane_ids@,
        input.collapse_stale,
    );
    law_order_keeps_the_agents(agents, keys, r.agents@);
    assert forall|k: int| 0 <= k < r.agents@.len() implies exists|i: int|
        #![trigger input.agents@[i]]
        0 <= i < input.agents@.len() && ({
            let was = input.agents@[i];
            let told = #[trigger] r.agents@[k];
            let pane = was.pane_id@;
            let seen = input.tmux_statuses@.dom().contains(pane);
            let icon = input.tmux_statuses@[pane];
            &&& told == (AgentPane { status: told.status, window_id: told.window_id, window_index: told.window_index, ..was })
            &&& told.status is None || told.status == was.status
            &&& was.status == Some(AgentStatus::Waiting) ==> (told.status is Some <==> !seen || (icon is Some && icon->0@
                == input.status_icons.waiting@))
            &&& was.status == Some(AgentStatus::Done) ==> (told.status is Some <==> !seen || (icon is Some && icon->0@
                == input.status_icons.done@))
            &&& was.status == Some(AgentStatus::Working) ==> told.status == Some(AgentStatus::Working)
            &&& input.pane_window_ids@.dom().contains(pane) ==> told.window_id == input.pane_window_ids@[pane]
            &&& !input.pane_window_ids@.dom().contains(pane) ==> told.window_id == was.window_id
            &&& told.window_index is Some <==> input.pane_window_indexes@.dom().contains(pane)
            &&& told.window_index is Some ==> told.window_index->0 == input.pane_window_indexes@[pane]
        }) by {
        let i = lemma_from_input(input, now, r, k);
        let was = input.agents@[i];
        assert(r.agents@[k] == agents[i]);
    }
    assert forall|i: int| 0 <= i < input.agents@.len() implies exists|k: int|
        0 <= k < r.agents@.len() && (#[trigger] r.agents@[k]).pane_id@ == (#[trigger] input.agents@[i]).pane_id@ by {
        assert(agents.contains(agents[i]));
        assert(r.agents@.contains(agents[i]));
        let k = choose|k: int| 0 <= k < r.agents@.len() && r.agents@[k] == agents[i];
        assert(r.agents@[k].pane_id@ == input.agents@[i].pane_id@);
    }
}

/// Exactly the panes of agents that sleep or stopped progressing an hour ago are published as stale: an
/// agent that works or waits, and was not interrupted, never is; one that never did anything is.
pub proof fn law_stale_panes_stopped_progressing(input: SnapshotInputs, now: u64, r: SidebarSnapshot, k: int)
    requires
        pictures(input, now, r),
        0 <= k < r.agents@.len(),
        forall|j: int| 0 <= j < r.agents@.len() && j != k ==> (#[trigger] r.agents@[j]).pane_id@ != r.agents@[k].pane_id@,
    ensures
        ({
            let agent = r.agents@[k];
            let pane = agent.pane_id@;
            let active = latest(agent);
            r.stale_pane_ids@.contains(pane) <==> input.sleeping_pane_ids@.contains(pane) || ((
            input.interrupted_pane_ids@.contains(pane) || agent.status is None || agent.status == Some(
                AgentStatus::Done,
            )) && (active is Some ==> now - active->0 > 3600))
        }),
{
    let agents = current_agents(input);
    let keys = sort_keys(
        agents,
        input.group_by,
        input.sort,
        now,
        input.sleeping_pane_ids@,
        input.interrupted_pane_ids@,
        input.collapse_stale,
    );
    law_order_keeps_the_agents(agents, keys, r.agents@);
    let pane = r.agents@[k].pane_id@;
    let i = lemma_from_input(input, now, r, k);
    let sleeping = input.sleeping_pane_ids@;
    let interrupted = input.interrupted_pane_ids@;
    let agent = agents[i];
    match agent.status {
        Some(AgentStatus::Waiting) => {},
        Some(AgentStatus::Done) => {},
        Some(AgentStatus::Working) => {},
        None => {},
    }
    assert(agent.pane_id@ == pane);
    assert(idle(agents[i], now, sleeping, interrupted) ==> has_idle_pane(agents, pane, now, sleeping, interrupted));
    if has_idle_pane(agents, pane, now, sleeping, interrupted) {
        let j = choose|j: int|
            0 <= j < agents.len() && (#[trigger] agents[j]).pane_id@ == pane && idle(agents[j], now, sleeping, interrupted);
        assert(agents.contains(agents[j]));
        assert(r.agents@.contains(agents[j]));
        let m = choose|m: int| 0 <= m < r.agents@.len() && r.agents@[m] == agents[j];
        assert(m == k);
    }
}

/// A sleeping pane is published exactly where an agent is in it. A pull request is published at a path
/// exactly where an agent works there, on the branch that it was found for, which is no main branch;
/// checks likewise, on any branch. What is published is what was found.
pub proof fn law_published_requests_belong_to_the_branch(input: SnapshotInputs, now: u64, r: SidebarSnapshot, path: Seq<char>)
    requires
        pictures(input, now, r),
    ensures
        r.sleeping_pane_ids@.contains(path) <==> input.sleeping_pane_ids@.contains(path) && exists|i: int|
            0 <= i < input.agents@.len() && (#[trigger] input.agents@[i]).pane_id@ == path,
        ({
            let works = exists|i: int| 0 <= i < input.agents@.len() && (#[trigger] input.agents@[i]).path@ == path;
            let out = input.git_statuses@.dom().contains(path) && input.git_statuses@[path].branch is Some;
            let branch = input.git_statuses@[path].branch->0@;
            &&& r.pr_statuses@.dom().contains(path) <==> works && out && input.pr_statuses@.dom().contains(path)
                && input.pr_statuses@[path].branch@ == branch && branch != "main"@ && branch != "master"@
            &&& r.pr_statuses@.dom().contains(path) ==> r.pr_statuses@[path] == input.pr_statuses@[path].summary
            &&& r.check_statuses@.dom().contains(path) <==> works && out && input.check_statuses@.dom().contains(path)
                && input.check_statuses@[path].branch@ == branch
            &&& r.check_statuses@.dom().contains(path) ==> r.check_statuses@[path] == input.check_statuses@[path].summary
        }),
{
    let agents = current_agents(input);
    assert forall|i: int| 0 <= i < agents.len() implies (#[trigger] agents[i]).pane_id@ == input.agents@[i].pane_id@
        && agents[i].path@ == input.agents@[i].path@ by {}
    assert(has_pane(agents, path) <==> exists|i: int|
        0 <= i < input.agents@.len() && (#[trigger] input.agents@[i]).pane_id@ == path) by {
        if has_pane(agents, path) {
            let i = choose|i: int| 0 <= i < agents.len() && (#[trigger] agents[i]).pane_id@ == path;
            assert(input.agents@[i].pane_id@ == path);
        }
        if exists|i: int| 0 <= i < input.agents@.len() && (#[trigger] input.agents@[i]).pane_id@ == path {
            let i = choose|i: int| 0 <= i < input.agents@.len() && (#[trigger] input.agents@[i]).pane_id@ == path;
            assert(agents[i].pane_id@ == path);
        }
    }
    assert(has_path(agents, path) <==> exists|i: int|
        0 <= i < input.agents@.len() && (#[trigger] input.agents@[i]).path@ == path) by {
        if has_path(agents, path) {
            let i = choose|i: int| 0 <= i < agents.len() && (#[trigger] agents[i]).path@ == path;
            assert(input.agents@[i].path@ == path);
        }
        if exists|i: int| 0 <= i < input.agents@.len() && (#[trigger] input.agents@[i]).path@ == path {
            let i = choose|i: int| 0 <= i < input.agents@.len() && (#[trigger] input.agents@[i]).path@ == path;
            assert(agents[i].path@ == path);
        }
    }
}

// ── What the order is for ───────────────────────────────────────

/// Whether an agent was last active no earlier than another, as far as `now` tells them apart. One that
/// never was comes last.
pub open spec fn no_older(a: AgentPane, b: AgentPane, now: u64) -> bool {
    let (x, y) = (latest(a), latest(b));
    y is None || (x is Some && (x->0 >= y->0 || x->0 >= now))
}

/// The first of the times that tell of an agent's activity.
pub open spec fn latest(a: AgentPane) -> Option<u64> {
    if a.activity_ts is Some {
        a.activity_ts
    } else if a.status_ts is Some {
        a.status_ts
    } else {
        a.updated_ts
    }
}

/// Of two agents of one group and one part of it, ordered by recency, the one that sleeps comes last;
/// of two that both sleep or are both awake, the one that was active last comes first, and of two that
/// were active at once, the one in the pane with the lower number.
pub proof fn law_recent_agents_come_first(
    before: Seq<AgentPane>,
    group_by: Option<SidebarGroupBy>,
    now: u64,
    sleeping: Set<Seq<char>>,
    interrupted: Set<Seq<char>>,
    sink: bool,
    after: Seq<AgentPane>,
    i: int,
    j: int,
)
    requires
        stably_sorted(before, sort_keys(before, group_by, SidebarSort::Recency, now, sleeping, interrupted, sink), after),
        0 <= i < j < after.len(),
        now < u64::MAX,
        group_by is Some ==> label(after[i], group_by->0) == label(after[j], group_by->0),
        sink ==> idle(after[i], now, sleeping, interrupted) == idle(after[j], now, sleeping, interrupted),
    ensures
        sleeping.contains(after[i].pane_id@) ==> sleeping.contains(after[j].pane_id@),
        sleeping.contains(after[i].pane_id@) == sleeping.contains(after[j].pane_id@) ==> no_older(after[i], after[j], now),
        sleeping.contains(after[i].pane_id@) == sleeping.contains(after[j].pane_id@) && no_older(after[j], after[i], now)
            ==> pane_number(after[i].pane_id@) <= pane_number(after[j].pane_id@),
{
    lemma_keys_ordered(before, group_by, SidebarSort::Recency, now, sleeping, interrupted, sink, after, i, j);
}

/// Of two agents of one group and one part of it, ordered by priority, none comes before one that
/// deserves attention more: those that wait come first, then those that are done, those that work
/// undisturbed, those without a status that were active within the hour, then all others that are
/// awake, and those that sleep. Of two that deserve the same, the one that was active last comes first.
pub proof fn law_urgent_agents_come_first(
    before: Seq<AgentPane>,
    group_by: Option<SidebarGroupBy>,
    now: u64,
    sleeping: Set<Seq<char>>,
    interrupted: Set<Seq<char>>,
    sink: bool,
    after: Seq<AgentPane>,
    i: int,
    j: int,
)
    requires
        stably_sorted(before, sort_keys(before, group_by, SidebarSort::Priority, now, sleeping, interrupted, sink), after),
        0 <= i < j < after.len(),
        now < u64::MAX,
        group_by is Some ==> label(after[i], group_by->0) == label(after[j], group_by->0),
        sink ==> idle(after[i], now, sleeping, interrupted) == idle(after[j], now, sleeping, interrupted),
    ensures
        ({
            let (a, b) = (after[i], after[j]);
            let asleep = |x: AgentPane| sleeping.contains(x.pane_id@);
            let waits = |x: AgentPane| !asleep(x) && x.status == Some(AgentStatus::Waiting);
            let done = |x: AgentPane| !asleep(x) && x.status == Some(AgentStatus::Done);
            let works = |x: AgentPane|
                !asleep(x) && x.status == Some(AgentStatus::Working) && !interrupted.contains(x.pane_id@);
            let fresh = |x: AgentPane| !asleep(x) && x.status is None && latest(x) is Some && now - latest(x)->0 <= 3600;
            &&& asleep(a) ==> asleep(b)
            &&& waits(b) ==> waits(a)
            &&& done(b) ==> waits(a) || done(a)
            &&& works(b) ==> waits(a) || done(a) || works(a)
            &&& fresh(b) ==> waits(a) || done(a) || works(a) || fresh(a)
            &&& (waits(a) && waits(b)) || (done(a) && done(b)) || (works(a) && works(b)) || (fresh(a) && fresh(b)) || (
            asleep(a) && asleep(b)) ==> no_older(a, b, now)
        }),
{
    lemma_keys_ordered(before, group_by, SidebarSort::Priority, now, sleeping, interrupted, sink, after, i, j);
}

/// Of two agents of one group and one part of it, ordered by window, the one of the session whose name
/// comes first comes first; within a session, the one in the earlier window, one without a window last;
/// within a window, the one in the pane with the lower number. Sleep makes no difference.
pub proof fn law_windows_come_in_order(
    before: Seq<AgentPane>,
    group_by: Option<SidebarGroupBy>,
    now: u64,
    sleeping: Set<Seq<char>>,
    interrupted: Set<Seq<char>>,
    after: Seq<AgentPane>,
    i: int,
    j: int,
)
    requires
        stably_sorted(before, sort_keys(before, group_by, SidebarSort::Window, now, sleeping, interrupted, false), after),
        0 <= i < j < after.len(),
        group_by is Some ==> label(after[i], group_by->0) == label(after[j], group_by->0),
    ensures
        ({
            let (a, b) = (after[i], after[j]);
            &&& text::order(a.session@, b.session@) <= 0
            &&& a.session@ == b.session@ ==> b.window_index is None || (a.window_index is Some && a.window_index->0
                <= b.window_index->0)
            &&& a.session@ == b.session@ && a.window_index == b.window_index ==> pane_number(a.pane_id@) <= pane_number(
                b.pane_id@,
            )
        }),
{
    lemma_keys_ordered(before, group_by, SidebarSort::Window, now, sleeping, interrupted, false, after, i, j);
    text::lemma_order_total(after[i].session@, after[j].session@);
}

/// Groups come in the order of their labels, whatever the case of the letters: among groups that are
/// alike in holding live work or not, the label that comes first in lower case comes first.
pub proof fn law_groups_come_by_label(
    before: Seq<AgentPane>,
    mode: SidebarGroupBy,
    sort: SidebarSort,
    now: u64,
    sleeping: Set<Seq<char>>,
    interrupted: Set<Seq<char>>,
    sink: bool,
    after: Seq<AgentPane>,
    i: int,
    j: int,
)
    requires
        stably_sorted(before, sort_keys(before, Some(mode), sort, now, sleeping, interrupted, sink), after),
        0 <= i < j < after.len(),
        sink ==> dormant(before, mode, label(after[i], mode), now, sleeping, interrupted) == dormant(
            before,
            mode,
            label(after[j], mode),
            now,
            sleeping,
            interrupted,
        ),
    ensures
        ({
            let (a, b) = (label(after[i], mode), label(after[j], mode));
            &&& text::order(text::lowercase(a), text::lowercase(b)) <= 0
            &&& text::lowercase(a) == text::lowercase(b) ==> text::order(a, b) <= 0
        }),
{
    lemma_keys_ordered(before, Some(mode), sort, now, sleeping, interrupted, sink, after, i, j);
    let (a, b) = (label(after[i], mode), label(after[j], mode));
    text::lemma_order_total(text::lowercase(a), text::lowercase(b));
    text::lemma_order_total(a, b);
}

proof fn lemma_keys_ordered(
    before: Seq<AgentPane>,
    group_by: Option<SidebarGroupBy>,
    sort: SidebarSort,
    now: u64,
    sleeping: Set<Seq<char>>,
    interrupted: Set<Seq<char>>,
    sink: bool,
    after: Seq<AgentPane>,
    i: int,
    j: int,
)
    requires
        stably_sorted(before, sort_keys(before, group_by, sort, now, sleeping, interrupted, sink), after),
        0 <= i < j < after.len(),
    ensures
        key_order(
            sort_key(before, after[i], group_by, sort, now, sleeping, interrupted, sink),
            sort_key(before, after[j], group_by, sort, now, sleeping, interrupted, sink),
        ) <= 0,
        forall|a: Seq<char>| #[trigger] text::order(a, a) == 0,
{
    assert forall|a: Seq<char>| #[trigger] text::order(a, a) == 0 by {
        text::lemma_order_total(a, a);
    }
    let keys = sort_keys(before, group_by, sort, now, sleeping, interrupted, sink);
    let p = choose|p: Seq<int>| #[trigger] arranges(p, before, keys, after);
    assert(after[i] == before[p[i]] && after[j] == before[p[j]]);
    assert(key_order(keys[p[i]], keys[p[j]]) <= 0);
    let (a, b) = (keys[p[i]], keys[p[j]]);
    text::lemma_order_total(a.lower, b.lower);
    text::lemma_order_total(a.label, b.label);
    text::lemma_order_total(a.session, b.session);
}

/// Agents are grouped by their project or their session, as it is named; those that are named by
/// nothing but white space share one group.
pub proof fn law_groups_are_named(a: AgentPane, b: AgentPane)
    ensures
        text::trimmed(a.project@).len() > 0 ==> label(a, SidebarGroupBy::Project) == a.project@,
        text::trimmed(a.session@).len() > 0 ==> label(a, SidebarGroupBy::Session) == a.session@,
        text::trimmed(a.project@).len() == 0 && text::trimmed(b.project@).len() == 0 ==> label(
            a,
            SidebarGroupBy::Project,
        ) == label(b, SidebarGroupBy::Project),
        text::trimmed(a.session@).len() == 0 && text::trimmed(b.project@).len() == 0 ==> label(
            a,
            SidebarGroupBy::Session,
        ) == label(b, SidebarGroupBy::Project),
{
}

} // verus!
