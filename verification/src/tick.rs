//! One turn of the daemon: from what was observed to what is shown and stored.

use vstd::prelude::*;

use crate::app;
use crate::app::{SidebarApp, SidebarFilterMode, SidebarLayoutMode};
use crate::collections;
use crate::collections::{PairSet, StrMap, StrSet};
use crate::github;
use crate::github::GithubWorkerPath;
use crate::gitloop;
use crate::gitworker::GitWorkerPath;
use crate::inactivity;
use crate::inactivity::InactivityTracker;
use crate::model;
use crate::model::{AgentPane, AgentStatus, GitStatus, SidebarGroupBy, SidebarPosition, SidebarSort, StatusIcons};
use crate::rows;
use crate::snapshot;
use crate::snapshot::{
    CheckPathEntry, PrPathEntry, SidebarSnapshot, SnapshotInputs, STALE_THRESHOLD_SECS,
};
use crate::text;
use crate::updates;

verus! {

/// What one query of tmux tells.
pub struct TmuxState {
    /// The process in each live pane, where it is known.
    pub live_panes: StrMap<Option<u32>>,
    pub window_statuses: StrMap<Option<String>>,
    pub active_windows: PairSet,
    pub pane_window_ids: StrMap<String>,
    pub pane_window_indexes: StrMap<u32>,
    pub active_pane_ids: StrSet,
    pub window_pane_counts: StrMap<usize>,
    pub server_boot_id: Option<String>,
    pub position: Option<String>,
    pub layout: Option<String>,
    pub filter: Option<String>,
    pub sleeping_panes: Option<String>,
    pub group_by: Option<String>,
    pub expanded_groups: Option<String>,
}

/// What is gathered for one turn.
pub struct TickInput {
    pub agents: Vec<AgentPane>,
    pub tmux_state: TmuxState,
    pub captured_panes: StrMap<String>,
    /// The time on the clock that never goes back.
    pub now: u64,
    /// The time of day, in seconds.
    pub now_ts: u64,
    pub position: SidebarPosition,
    pub layout_mode: SidebarLayoutMode,
    pub filter_mode: SidebarFilterMode,
    pub sort: SidebarSort,
    pub group_by: Option<SidebarGroupBy>,
    pub collapse_stale: bool,
    pub expanded_groups: Vec<String>,
    pub git_statuses: StrMap<GitStatus>,
    pub pr_statuses: StrMap<PrPathEntry>,
    pub check_statuses: StrMap<CheckPathEntry>,
    pub sleeping_pane_ids: StrSet,
}

/// The record of an agent that is to be brought up to date.
#[derive(Debug)]
pub struct AgentWrite {
    pub pane_id: String,
    pub resumed_ts: u64,
}

/// What is stored of the daemon.
pub struct RuntimeState {
    pub interrupted_pane_ids: StrSet,
    pub updated_ts: u64,
}

/// What one turn comes to.
pub struct TickOutput {
    pub snapshot: SidebarSnapshot,
    pub agent_writes: Vec<AgentWrite>,
    pub runtime_write: Option<RuntimeState>,
    /// The panes that are interrupted now.
    pub next_interrupted: StrSet,
}

// ── Agents that resumed ─────────────────────────────────────────

/// Whether an agent was interrupted and is no more.
pub open spec fn resumed(agent: AgentPane, last: Set<Seq<char>>, interrupted: Set<Seq<char>>) -> bool {
    last.contains(agent.pane_id@) && !interrupted.contains(agent.pane_id@)
}

/// An agent, whose times start afresh where it resumed.
pub open spec fn refreshed(agent: AgentPane, last: Set<Seq<char>>, interrupted: Set<Seq<char>>, now_ts: u64) -> AgentPane {
    if resumed(agent, last, interrupted) {
        AgentPane { status_ts: Some(now_ts), activity_ts: Some(now_ts), ..agent }
    } else {
        agent
    }
}

pub open spec fn all_refreshed(
    agents: Seq<AgentPane>,
    last: Set<Seq<char>>,
    interrupted: Set<Seq<char>>,
    now_ts: u64,
) -> Seq<AgentPane> {
    Seq::new(agents.len(), |i: int| refreshed(agents[i], last, interrupted, now_ts))
}

/// The records to write: those of the first `k` agents that resumed.
pub open spec fn writes(
    agents: Seq<AgentPane>,
    last: Set<Seq<char>>,
    interrupted: Set<Seq<char>>,
    now_ts: u64,
    k: int,
) -> Seq<(Seq<char>, u64)>
    decreases k,
{
    if k <= 0 {
        seq![]
    } else if resumed(agents[k - 1], last, interrupted) {
        writes(agents, last, interrupted, now_ts, k - 1).push((agents[k - 1].pane_id@, now_ts))
    } else {
        writes(agents, last, interrupted, now_ts, k - 1)
    }
}

pub open spec fn write_models(ws: Seq<AgentWrite>) -> Seq<(Seq<char>, u64)> {
    Seq::new(ws.len(), |i: int| (ws[i].pane_id@, ws[i].resumed_ts))
}

fn refresh_agents(agents: &mut Vec<AgentPane>, last: &StrSet, interrupted: &StrSet, now_ts: u64) -> (r: Vec<AgentWrite>)
    ensures
        final(agents)@ == all_refreshed(old(agents)@, last@, interrupted@, now_ts),
        write_models(r@) == writes(old(agents)@, last@, interrupted@, now_ts, old(agents)@.len() as int),
{
    let ghost before = agents@;
    let ghost after = all_refreshed(before, last@, interrupted@, now_ts);
    let n: usize = agents.len();
    let mut r: Vec<AgentWrite> = Vec::new();
    let mut i: usize = 0;
    proof {
        assert(write_models(r@) =~= Seq::<(Seq<char>, u64)>::empty());
    }
    while i < n
        invariant
            before == old(agents)@,
            after == all_refreshed(before, last@, interrupted@, now_ts),
            n == before.len() == agents@.len(),
            i <= n,
            forall|j: int| 0 <= j < i ==> #[trigger] agents@[j] == after[j],
            forall|j: int| i <= j < n ==> #[trigger] agents@[j] == before[j],
            write_models(r@) == writes(before, last@, interrupted@, now_ts, i as int),
        decreases n - i,
    {
        let ghost held = write_models(r@);
        if last.contains(agents[i].pane_id.as_str()) && !interrupted.contains(agents[i].pane_id.as_str()) {
            let mut agent = agents[i].clone();
            agent.status_ts = Some(now_ts);
            agent.activity_ts = Some(now_ts);
            r.push(AgentWrite { pane_id: agent.pane_id.clone(), resumed_ts: now_ts });
            agents.set(i, agent);
            proof {
                assert(write_models(r@) =~= held.push((before[i as int].pane_id@, now_ts)));
            }
        }
        i += 1;
    }
    proof {
        assert(agents@ =~= after);
    }
    r
}

// ── The turn ────────────────────────────────────────────────────

/// Whether a snapshot is built from what was gathered, with agents that resumed starting afresh, and
/// the panes that are interrupted now.
pub open spec fn fed(
    input: TickInput,
    icons: StatusIcons,
    last: Set<Seq<char>>,
    interrupted: Set<Seq<char>>,
    built_from: SnapshotInputs,
) -> bool {
    &&& built_from.agents@ == all_refreshed(input.agents@, last, interrupted, input.now_ts)
    &&& built_from.tmux_statuses == input.tmux_state.window_statuses
    &&& built_from.pane_window_ids == input.tmux_state.pane_window_ids
    &&& built_from.pane_window_indexes == input.tmux_state.pane_window_indexes
    &&& built_from.active_windows == input.tmux_state.active_windows
    &&& built_from.active_pane_ids == input.tmux_state.active_pane_ids
    &&& built_from.window_pane_counts == input.tmux_state.window_pane_counts
    &&& built_from.position == input.position
    &&& built_from.layout_mode == input.layout_mode
    &&& built_from.filter_mode == input.filter_mode
    &&& built_from.sort == input.sort
    &&& built_from.group_by == input.group_by
    &&& built_from.collapse_stale == input.collapse_stale
    &&& built_from.expanded_groups == input.expanded_groups
    &&& built_from.status_icons.done@ == icons.done@
    &&& built_from.status_icons.waiting@ == icons.waiting@
    &&& built_from.git_statuses == input.git_statuses
    &&& built_from.pr_statuses == input.pr_statuses
    &&& built_from.check_statuses == input.check_statuses
    &&& built_from.sleeping_pane_ids == input.sleeping_pane_ids
    &&& built_from.interrupted_pane_ids@ == interrupted
}

/// Computes one turn: looks for agents that went silent, lets those that resumed start afresh, builds
/// the snapshot, and says what is to be stored.
pub fn compute_tick(
    input: TickInput,
    tracker: &mut InactivityTracker,
    last_interrupted: &StrSet,
    status_icons: &StatusIcons,
    heartbeat_due: bool,
) -> (r: TickOutput)
    ensures
        forall|p: Seq<char>| #[trigger]
            final(tracker).watch(p) == inactivity::checked(
                old(tracker).watch(p),
                inactivity::report_of(input.agents@, p, input.agents@.len() as int),
                collections::lookup(inactivity::fingerprints(input.captured_panes@), p),
                input.now,
                old(tracker).timeout,
            ),
        final(tracker).timeout == old(tracker).timeout,
        final(tracker).identities == old(tracker).identities,
        r.next_interrupted@ == final(tracker).confirmed@.dom(),
        exists|built_from: SnapshotInputs|
            #![trigger snapshot::pictures(built_from, input.now_ts, r.snapshot)]
            snapshot::pictures(built_from, input.now_ts, r.snapshot) && fed(
                input,
                *status_icons,
                last_interrupted@,
                r.next_interrupted@,
                built_from,
            ),
        write_models(r.agent_writes@) == writes(
            input.agents@,
            last_interrupted@,
            r.next_interrupted@,
            input.now_ts,
            input.agents@.len() as int,
        ),
        match r.runtime_write {
            Some(state) => {
                &&& r.next_interrupted@ != last_interrupted@ || heartbeat_due
                &&& state.interrupted_pane_ids@ == r.next_interrupted@
                &&& state.updated_ts == input.now_ts
            },
            None => r.next_interrupted@ == last_interrupted@ && !heartbeat_due,
        },
{
    let ghost given = input;
    let now_ts: u64 = input.now_ts;
    let mut agents = input.agents;
    let interrupted = tracker.check_with(&agents, input.now, &input.captured_panes);
    let agent_writes = refresh_agents(&mut agents, last_interrupted, &interrupted, now_ts);
    let built_from = SnapshotInputs {
        agents,
        tmux_statuses: input.tmux_state.window_statuses,
        pane_window_ids: input.tmux_state.pane_window_ids,
        pane_window_indexes: input.tmux_state.pane_window_indexes,
        active_windows: input.tmux_state.active_windows,
        active_pane_ids: input.tmux_state.active_pane_ids,
        window_pane_counts: input.tmux_state.window_pane_counts,
        position: input.position,
        layout_mode: input.layout_mode,
        filter_mode: input.filter_mode,
        sort: input.sort,
        group_by: input.group_by,
        collapse_stale: input.collapse_stale,
        expanded_groups: input.expanded_groups,
        status_icons: StatusIcons {
            working: text::copy_optional(&status_icons.working),
            waiting: status_icons.waiting.clone(),
            custom_waiting: status_icons.custom_waiting,
            done: status_icons.done.clone(),
            custom_done: status_icons.custom_done,
        },
        git_statuses: input.git_statuses,
        pr_statuses: input.pr_statuses,
        check_statuses: input.check_statuses,
        sleeping_pane_ids: input.sleeping_pane_ids,
        interrupted_pane_ids: interrupted.copy(),
    };
    let ghost source = built_from;
    let shown = snapshot::build_snapshot(built_from, now_ts);
    proof {
        assert(snapshot::pictures(source, given.now_ts, shown));
        assert(fed(given, *status_icons, last_interrupted@, interrupted@, source));
    }
    let runtime_write = if heartbeat_due || !interrupted.same(last_interrupted) {
        Some(RuntimeState { interrupted_pane_ids: interrupted.copy(), updated_ts: now_ts })
    } else {
        None
    };
    TickOutput { snapshot: shown, agent_writes, runtime_write, next_interrupted: interrupted }
}

/// An agent that resumed was active just now, and its record says so.
pub proof fn law_resumed_agents_start_afresh(
    agents: Seq<AgentPane>,
    last: Set<Seq<char>>,
    interrupted: Set<Seq<char>>,
    now_ts: u64,
    i: int,
)
    requires
        0 <= i < agents.len(),
    ensures
        resumed(agents[i], last, interrupted) ==> model::last_activity(
            all_refreshed(agents, last, interrupted, now_ts)[i],
        ) == Some(now_ts) && writes(agents, last, interrupted, now_ts, agents.len() as int).contains(
            (agents[i].pane_id@, now_ts),
        ),
        !resumed(agents[i], last, interrupted) ==> all_refreshed(agents, last, interrupted, now_ts)[i] == agents[i],
{
    if resumed(agents[i], last, interrupted) {
        lemma_written(agents, last, interrupted, now_ts, i, agents.len() as int);
    }
}

proof fn lemma_written(
    agents: Seq<AgentPane>,
    last: Set<Seq<char>>,
    interrupted: Set<Seq<char>>,
    now_ts: u64,
    i: int,
    k: int,
)
    requires
        0 <= i < k <= agents.len(),
        resumed(agents[i], last, interrupted),
    ensures
        writes(agents, last, interrupted, now_ts, k).contains((agents[i].pane_id@, now_ts)),
    decreases k,
{
    let all = writes(agents, last, interrupted, now_ts, k);
    let w = (agents[i].pane_id@, now_ts);
    if i == k - 1 {
        assert(all[all.len() - 1] == w);
    } else {
        lemma_written(agents, last, interrupted, now_ts, i, k - 1);
        let shorter = writes(agents, last, interrupted, now_ts, k - 1);
        let j = choose|j: int| 0 <= j < shorter.len() && shorter[j] == w;
        assert(all[j] == w);
    }
}

/// Where nobody was interrupted, nothing is written of agents.
pub proof fn law_quiet_turns_write_nothing(
    agents: Seq<AgentPane>,
    interrupted: Set<Seq<char>>,
    now_ts: u64,
    k: int,
)
    requires
        0 <= k <= agents.len(),
    ensures
        writes(agents, Set::empty(), interrupted, now_ts, k) == Seq::<(Seq<char>, u64)>::empty(),
        all_refreshed(agents, Set::empty(), interrupted, now_ts) == agents,
    decreases k,
{
    if k > 0 {
        law_quiet_turns_write_nothing(agents, interrupted, now_ts, k - 1);
    }
    assert(all_refreshed(agents, Set::empty(), interrupted, now_ts) =~= agents);
}

// ── What is captured ────────────────────────────────────────────

/// Whether a pane is to be captured: its agent works, and is not known to be interrupted.
pub open spec fn to_capture(agent: AgentPane, tracker: InactivityTracker) -> bool {
    &&& agent.status == Some(AgentStatus::Working)
    &&& !(tracker.watch(agent.pane_id@).confirmed matches Some(at) && (match agent.updated_ts {
        Some(ts) => ts,
        None => 0,
    }) <= at)
}

/// The panes of the first `k` agents that are to be captured.
pub open spec fn captured(agents: Seq<AgentPane>, tracker: InactivityTracker, k: int) -> Seq<Seq<char>>
    decreases k,
{
    if k <= 0 {
        seq![]
    } else if to_capture(agents[k - 1], tracker) {
        captured(agents, tracker, k - 1).push(agents[k - 1].pane_id@)
    } else {
        captured(agents, tracker, k - 1)
    }
}

/// The panes to capture.
pub fn panes_to_capture(agents: &Vec<AgentPane>, tracker: &InactivityTracker) -> (r: Vec<String>)
    ensures
        text::texts(r@) == captured(agents@, *tracker, agents@.len() as int),
{
    let mut r: Vec<String> = Vec::new();
    let mut i: usize = 0;
    proof {
        assert(text::texts(r@) =~= Seq::<Seq<char>>::empty());
    }
    while i < agents.len()
        invariant
            i <= agents@.len(),
            text::texts(r@) == captured(agents@, *tracker, i as int),
        decreases agents.len() - i,
    {
        let agent = &agents[i];
        let ghost before = text::texts(r@);
        let updated: u64 = match agent.updated_ts {
            Some(ts) => ts,
            None => 0,
        };
        if matches!(agent.status, Some(AgentStatus::Working)) && !tracker.is_confirmed(
            agent.pane_id.as_str(),
            updated,
        ) {
            r.push(agent.pane_id.clone());
            proof {
                assert(text::texts(r@) =~= before.push(agent.pane_id@));
            }
        }
        i += 1;
    }
    r
}

// ── What the workers are told ───────────────────────────────────

/// Whether an agent did nothing for long.
pub open spec fn long_idle(agent: AgentPane, now_ts: u64) -> bool {
    match model::last_activity(agent) {
        Some(ts) => now_ts - ts > STALE_THRESHOLD_SECS,
        None => false,
    }
}

/// Whether the user looks at an agent: at its pane, or at its window.
pub open spec fn focused(agent: AgentPane, shown: SidebarSnapshot) -> bool {
    shown.active_pane_ids@.contains(agent.pane_id@) || (agent.window_id@.len() > 0 && shown.active_windows@.contains(
        (agent.session@, agent.window_id@),
    ))
}

/// What the git worker is told.
pub fn git_entries(shown: &SidebarSnapshot, now_ts: u64) -> (r: Vec<GitWorkerPath>)
    ensures
        gitloop::entry_models(r@) == Seq::new(
            shown.agents@.len(),
            |i: int| (shown.agents@[i].path@, long_idle(shown.agents@[i], now_ts), focused(shown.agents@[i], *shown)),
        ),
{
    let mut r: Vec<GitWorkerPath> = Vec::new();
    let mut i: usize = 0;
    while i < shown.agents.len()
        invariant
            i <= shown.agents@.len(),
            r@.len() == i,
            forall|j: int|
                0 <= j < i ==> gitloop::entry_model(#[trigger] r@[j]) == (
                    shown.agents@[j].path@,
                    long_idle(shown.agents@[j], now_ts),
                    focused(shown.agents@[j], *shown),
                ),
        decreases shown.agents.len() - i,
    {
        let agent = &shown.agents[i];
        let is_stale = match agent.activity_ts() {
            Some(ts) => now_ts.saturating_sub(ts) > STALE_THRESHOLD_SECS,
            None => false,
        };
        let is_focused = shown.active_pane_ids.contains(agent.pane_id.as_str()) || (
        agent.window_id.as_str().unicode_len() > 0 && shown.active_windows.contains(
            agent.session.as_str(),
            agent.window_id.as_str(),
        ));
        r.push(GitWorkerPath { path: agent.path.clone(), is_stale, is_focused });
        i += 1;
    }
    proof {
        assert(gitloop::entry_models(r@) =~= Seq::new(
            shown.agents@.len(),
            |i: int| (shown.agents@[i].path@, long_idle(shown.agents@[i], now_ts), focused(shown.agents@[i], *shown)),
        ));
    }
    r
}

/// The branch that an agent works on.
pub open spec fn branch_of(git: Map<Seq<char>, GitStatus>, agent: AgentPane) -> Option<Seq<char>> {
    if git.dom().contains(agent.path@) {
        text::optional(git[agent.path@].branch)
    } else {
        None
    }
}

/// Directories and branches of the first `k` agents whose branch is known.
pub open spec fn branches(agents: Seq<AgentPane>, git: Map<Seq<char>, GitStatus>, k: int) -> Seq<(Seq<char>, Seq<char>)>
    decreases k,
{
    if k <= 0 {
        seq![]
    } else {
        match branch_of(git, agents[k - 1]) {
            Some(branch) => branches(agents, git, k - 1).push((agents[k - 1].path@, branch)),
            None => branches(agents, git, k - 1),
        }
    }
}

/// What the GitHub worker is told.
pub fn github_entries(shown: &SidebarSnapshot) -> (r: Vec<GithubWorkerPath>)
    ensures
        github::entries(r@) == branches(shown.agents@, shown.git_statuses@, shown.agents@.len() as int),
{
    let mut r: Vec<GithubWorkerPath> = Vec::new();
    let mut i: usize = 0;
    proof {
        assert(github::entries(r@) =~= Seq::<(Seq<char>, Seq<char>)>::empty());
    }
    while i < shown.agents.len()
        invariant
            i <= shown.agents@.len(),
            github::entries(r@) == branches(shown.agents@, shown.git_statuses@, i as int),
        decreases shown.agents.len() - i,
    {
        let agent = &shown.agents[i];
        let ghost before = github::entries(r@);
        match shown.git_statuses.get(agent.path.as_str()) {
            Some(status) => match &status.branch {
                Some(branch) => {
                    r.push(GithubWorkerPath { path: agent.path.clone(), branch: branch.clone() });
                    proof {
                        assert(github::entries(r@) =~= before.push((agent.path@, branch@)));
                    }
                },
                None => {},
            },
            None => {},
        }
        i += 1;
    }
    r
}

// ── Project configurations ──────────────────────────────────────

/// Forgets the configurations of directories without agents. Returns the directories whose
/// configuration is not known.
pub fn unknown_configs(cache: &mut StrMap<String>, agents: &Vec<AgentPane>) -> (r: StrSet)
    ensures
        forall|p: Seq<char>| #[trigger]
            collections::lookup(final(cache)@, p) == (if snapshot::has_path(agents@, p) {
                collections::lookup(old(cache)@, p)
            } else {
                None
            }),
        forall|p: Seq<char>| #[trigger]
            r@.contains(p) <==> snapshot::has_path(agents@, p) && !old(cache)@.dom().contains(p),
{
    let mut keep = StrSet::new();
    let mut r = StrSet::new();
    let mut i: usize = 0;
    while i < agents.len()
        invariant
            *cache == *old(cache),
            i <= agents@.len(),
            forall|p: Seq<char>| #[trigger]
                keep@.contains(p) <==> exists|j: int| 0 <= j < i && (#[trigger] agents@[j]).path@ == p,
            forall|p: Seq<char>| #[trigger]
                r@.contains(p) <==> keep@.contains(p) && !cache@.dom().contains(p),
        decreases agents.len() - i,
    {
        let ghost before = keep@;
        let path = &agents[i].path;
        keep.insert(path.clone());
        if !cache.contains_key(path.as_str()) {
            r.insert(path.clone());
        }
        proof {
            assert forall|p: Seq<char>| #[trigger]
                keep@.contains(p) <==> exists|j: int| 0 <= j < i + 1 && (#[trigger] agents@[j]).path@ == p by {
                if before.contains(p) {
                    let j = choose|j: int| 0 <= j < i && (#[trigger] agents@[j]).path@ == p;
                    assert(agents@[j].path@ == p);
                }
                if p == path@ {
                    assert(agents@[i as int].path@ == p);
                }
            }
        }
        i += 1;
    }
    cache.retain_in(&keep);
    proof {
        assert forall|p: Seq<char>| #[trigger] keep@.contains(p) <==> snapshot::has_path(agents@, p) by {}
    }
    r
}

/// Whether an agent's configuration lies in a directory.
pub open spec fn configured_in(
    agents: Seq<AgentPane>,
    cache: Map<Seq<char>, String>,
    dir: Seq<char>,
    i: int,
) -> bool {
    cache.dom().contains(agents[i].path@) && cache[agents[i].path@]@ == dir
}

/// The directories that hold the agents' configurations.
pub fn config_dirs(cache: &StrMap<String>, agents: &Vec<AgentPane>) -> (r: StrSet)
    ensures
        forall|d: Seq<char>| #[trigger]
            r@.contains(d) <==> exists|i: int| 0 <= i < agents@.len() && #[trigger] configured_in(agents@, cache@, d, i),
{
    let mut r = StrSet::new();
    let mut i: usize = 0;
    while i < agents.len()
        invariant
            i <= agents@.len(),
            forall|d: Seq<char>| #[trigger]
                r@.contains(d) <==> exists|j: int| 0 <= j < i && #[trigger] configured_in(agents@, cache@, d, j),
        decreases agents.len() - i,
    {
        let ghost before = r@;
        match cache.get(agents[i].path.as_str()) {
            Some(dir) => {
                r.insert(dir.clone());
            },
            None => {},
        }
        proof {
            assert forall|d: Seq<char>| #[trigger]
                r@.contains(d) <==> exists|j: int| 0 <= j < i + 1 && #[trigger] configured_in(agents@, cache@, d, j) by {
                if before.contains(d) {
                    let j = choose|j: int| 0 <= j < i && #[trigger] configured_in(agents@, cache@, d, j);
                    assert(configured_in(agents@, cache@, d, j));
                }
                if r@.contains(d) && !before.contains(d) {
                    assert(configured_in(agents@, cache@, d, i as int));
                }
                if configured_in(agents@, cache@, d, i as int) {
                    assert(r@.contains(d));
                }
            }
        }
        i += 1;
    }
    r
}

// ── Agents within reach ─────────────────────────────────────────

/// The panes of the first `k` agents that keys reach.
pub open spec fn reachable(shown: SidebarSnapshot, k: int) -> Seq<Seq<char>>
    decreases k,
{
    if k <= 0 {
        seq![]
    } else if snapshot::jumpable(shown.group_by, shown.stale_pane_ids@, shown.agents@[k - 1].pane_id@) {
        reachable(shown, k - 1).push(shown.agents@[k - 1].pane_id@)
    } else {
        reachable(shown, k - 1)
    }
}

proof fn lemma_reachable(shown: SidebarSnapshot, wanted: Seq<bool>, k: int, j: int)
    requires
        0 <= k < j <= shown.agents@.len(),
        wanted.len() == shown.agents@.len(),
        forall|i: int|
            0 <= i < wanted.len() ==> #[trigger] wanted[i] == snapshot::jumpable(
                shown.group_by,
                shown.stale_pane_ids@,
                shown.agents@[i].pane_id@,
            ),
    ensures
        reachable(shown, k).len() == rows::wanted_below(wanted, k).len(),
        reachable(shown, j).len() == rows::wanted_below(wanted, j).len(),
        wanted[k] ==> reachable(shown, k).len() < reachable(shown, j).len() && reachable(shown, j)[reachable(
            shown,
            k,
        ).len() as int] == shown.agents@[k].pane_id@,
    decreases j,
{
    lemma_reachable_len(shown, wanted, k);
    lemma_reachable_len(shown, wanted, j);
    if k < j - 1 {
        lemma_reachable(shown, wanted, k, j - 1);
    }
}

proof fn lemma_reachable_len(shown: SidebarSnapshot, wanted: Seq<bool>, k: int)
    requires
        0 <= k <= shown.agents@.len(),
        wanted.len() == shown.agents@.len(),
        forall|i: int|
            0 <= i < wanted.len() ==> #[trigger] wanted[i] == snapshot::jumpable(
                shown.group_by,
                shown.stale_pane_ids@,
                shown.agents@[i].pane_id@,
            ),
    ensures
        reachable(shown, k).len() == rows::wanted_below(wanted, k).len(),
        reachable(shown, k).len() <= k,
    decreases k,
{
    if k > 0 {
        lemma_reachable_len(shown, wanted, k - 1);
        assert(wanted[k - 1] == snapshot::jumpable(
            shown.group_by,
            shown.stale_pane_ids@,
            shown.agents@[k - 1].pane_id@,
        ));
    }
}

/// The number that a sidebar shows beside an agent is where the list that tmux is told of names the
/// agent's pane, so that jumping by number leads to the agent; an agent without a number is none that
/// jumping reaches. This is so where the sidebar filters no agent out.
pub proof fn law_numbers_lead_to_their_agents(before: SidebarApp, snap: SidebarSnapshot, after: SidebarApp, k: int)
    requires
        updates::applied(before, snap, after),
        after.agents@ == snap.agents@,
        0 <= k < after.agents@.len(),
    ensures
        ({
            let list = reachable(snap, snap.agents@.len() as int);
            match after.jump_numbers@[k] {
                Some(n) => n < list.len() && list[n as int] == after.agents@[k].pane_id@,
                None => !snapshot::jumpable(snap.group_by, snap.stale_pane_ids@, after.agents@[k].pane_id@),
            }
        }),
{
    let wanted = app::numbered(after);
    assert(after.agents.len() == after.agents@.len());
    lemma_reachable(snap, wanted, k, snap.agents@.len() as int);
    lemma_reachable_len(snap, wanted, k);
}

/// The panes that keys reach, as tmux is told of them.
pub fn agent_list(shown: &SidebarSnapshot) -> (r: String)
    ensures
        r@ == text::joined(reachable(*shown, shown.agents@.len() as int), " "@),
{
    let mut panes: Vec<String> = Vec::new();
    let mut i: usize = 0;
    proof {
        assert(text::texts(panes@) =~= Seq::<Seq<char>>::empty());
    }
    while i < shown.agents.len()
        invariant
            i <= shown.agents@.len(),
            text::texts(panes@) == reachable(*shown, i as int),
        decreases shown.agents.len() - i,
    {
        let agent = &shown.agents[i];
        let ghost before = text::texts(panes@);
        if snapshot::is_jump_target(shown, agent) {
            panes.push(agent.pane_id.clone());
            proof {
                assert(text::texts(panes@) =~= before.push(agent.pane_id@));
            }
        }
        i += 1;
    }
    text::join(&panes, " ")
}

// ── What a turn is for ──────────────────────────────────────────

/// An agent resumed where it was interrupted and is no more. Its times start afresh; all else of it, and
/// of every other agent, stays.
pub proof fn law_only_resumed_agents_change(
    agents: Seq<AgentPane>,
    last: Set<Seq<char>>,
    interrupted: Set<Seq<char>>,
    now_ts: u64,
    i: int,
)
    requires
        0 <= i < agents.len(),
    ensures
        ({
            let was = agents[i];
            let told = all_refreshed(agents, last, interrupted, now_ts)[i];
            let back = last.contains(was.pane_id@) && !interrupted.contains(was.pane_id@);
            &&& back ==> told.activity_ts == Some(now_ts) && told.status_ts == Some(now_ts)
            &&& back ==> told == (AgentPane { activity_ts: told.activity_ts, status_ts: told.status_ts, ..was })
            &&& !back ==> told == was
        }),
        all_refreshed(agents, last, interrupted, now_ts).len() == agents.len(),
{
}

proof fn lemma_captured(agents: Seq<AgentPane>, tracker: InactivityTracker, k: int, pane: Seq<char>)
    requires
        0 <= k <= agents.len(),
    ensures
        captured(agents, tracker, k).contains(pane) <==> exists|i: int|
            0 <= i < k && (#[trigger] agents[i]).pane_id@ == pane && to_capture(agents[i], tracker),
    decreases k,
{
    if k > 0 {
        lemma_captured(agents, tracker, k - 1, pane);
        let before = captured(agents, tracker, k - 1);
        let after = captured(agents, tracker, k);
        if before.contains(pane) {
            let i = choose|i: int|
                0 <= i < k - 1 && (#[trigger] agents[i]).pane_id@ == pane && to_capture(agents[i], tracker);
            assert(agents[i].pane_id@ == pane);
            let j = choose|j: int| 0 <= j < before.len() && before[j] == pane;
            assert(after[j] == pane);
        }
        if to_capture(agents[k - 1], tracker) {
            assert(after.last() == agents[k - 1].pane_id@);
            if agents[k - 1].pane_id@ == pane {
                assert(after[after.len() - 1] == pane);
            }
            if after.contains(pane) && !before.contains(pane) {
                let j = choose|j: int| 0 <= j < after.len() && after[j] == pane;
                if j < before.len() {
                    assert(before[j] == pane);
                }
                assert(agents[k - 1].pane_id@ == pane);
            }
        }
    }
}

/// A pane is captured exactly where an agent works in it that is not found interrupted already, or that
/// reported since.
pub proof fn law_working_panes_are_captured(agents: Seq<AgentPane>, tracker: InactivityTracker, pane: Seq<char>)
    ensures
        captured(agents, tracker, agents.len() as int).contains(pane) <==> exists|i: int|
            0 <= i < agents.len() && (#[trigger] agents[i]).pane_id@ == pane && agents[i].status == Some(
                AgentStatus::Working,
            ) && (tracker.confirmed@.dom().contains(pane) ==> agents[i].updated_ts is Some && agents[i].updated_ts->0
                > tracker.confirmed@[pane]),
{
    lemma_captured(agents, tracker, agents.len() as int, pane);
    assert forall|i: int| 0 <= i < agents.len() && (#[trigger] agents[i]).pane_id@ == pane implies (to_capture(
        agents[i],
        tracker,
    ) <==> agents[i].status == Some(AgentStatus::Working) && (tracker.confirmed@.dom().contains(pane)
        ==> agents[i].updated_ts is Some && agents[i].updated_ts->0 > tracker.confirmed@[pane])) by {}
    if exists|i: int|
        0 <= i < agents.len() && (#[trigger] agents[i]).pane_id@ == pane && agents[i].status == Some(
            AgentStatus::Working,
        ) && (tracker.confirmed@.dom().contains(pane) ==> agents[i].updated_ts is Some && agents[i].updated_ts->0
            > tracker.confirmed@[pane]) {
        let i = choose|i: int|
            0 <= i < agents.len() && (#[trigger] agents[i]).pane_id@ == pane && agents[i].status == Some(
                AgentStatus::Working,
            ) && (tracker.confirmed@.dom().contains(pane) ==> agents[i].updated_ts is Some && agents[i].updated_ts->0
                > tracker.confirmed@[pane]);
        assert(to_capture(agents[i], tracker));
    }
    if exists|i: int| 0 <= i < agents.len() && (#[trigger] agents[i]).pane_id@ == pane && to_capture(agents[i], tracker) {
        let i = choose|i: int|
            0 <= i < agents.len() && (#[trigger] agents[i]).pane_id@ == pane && to_capture(agents[i], tracker);
        assert(agents[i].pane_id@ == pane);
    }
}

/// The git worker is told which agents have been idle for more than an hour, never of one whose activity
/// is not known, and which the user looks at: by its pane, or by its window where that is known.
pub proof fn law_workers_know_where_the_user_looks(agent: AgentPane, shown: SidebarSnapshot, now_ts: u64)
    ensures
        ({
            let active = snapshot::latest(agent);
            &&& active is None ==> !long_idle(agent, now_ts)
            &&& active is Some ==> (long_idle(agent, now_ts) <==> now_ts > active->0 + 3600)
        }),
        shown.active_pane_ids@.contains(agent.pane_id@) ==> focused(agent, shown),
        agent.window_id@.len() > 0 && shown.active_windows@.contains((agent.session@, agent.window_id@)) ==> focused(
            agent,
            shown,
        ),
        !shown.active_pane_ids@.contains(agent.pane_id@) && (agent.window_id@.len() == 0
            || !shown.active_windows@.contains((agent.session@, agent.window_id@))) ==> !focused(agent, shown),
{
}

proof fn lemma_branches(agents: Seq<AgentPane>, git: Map<Seq<char>, GitStatus>, k: int, e: (Seq<char>, Seq<char>))
    requires
        0 <= k <= agents.len(),
    ensures
        branches(agents, git, k).contains(e) <==> exists|i: int|
            0 <= i < k && (#[trigger] agents[i]).path@ == e.0 && branch_of(git, agents[i]) == Some(e.1),
    decreases k,
{
    if k > 0 {
        lemma_branches(agents, git, k - 1, e);
        let before = branches(agents, git, k - 1);
        let after = branches(agents, git, k);
        if before.contains(e) {
            let i = choose|i: int|
                0 <= i < k - 1 && (#[trigger] agents[i]).path@ == e.0 && branch_of(git, agents[i]) == Some(e.1);
            assert(agents[i].path@ == e.0);
            let j = choose|j: int| 0 <= j < before.len() && before[j] == e;
            assert(after[j] == e);
        }
        if branch_of(git, agents[k - 1]) is Some {
            assert(after.last() == (agents[k - 1].path@, branch_of(git, agents[k - 1])->0));
            if after.last() == e {
                assert(after[after.len() - 1] == e);
                assert(agents[k - 1].path@ == e.0);
            }
            if after.contains(e) && !before.contains(e) {
                let j = choose|j: int| 0 <= j < after.len() && after[j] == e;
                if j < before.len() {
                    assert(before[j] == e);
                }
                assert(after.last() == e);
            }
        }
    }
}

/// The GitHub worker is told of every directory that an agent works in with the branch that is checked
/// out there, and of no other.
pub proof fn law_workers_know_the_branches(agents: Seq<AgentPane>, git: Map<Seq<char>, GitStatus>, path: Seq<char>, branch: Seq<char>)
    ensures
        branches(agents, git, agents.len() as int).contains((path, branch)) <==> (exists|i: int|
            0 <= i < agents.len() && (#[trigger] agents[i]).path@ == path) && git.dom().contains(path)
            && git[path].branch is Some && git[path].branch->0@ == branch,
{
    lemma_branches(agents, git, agents.len() as int, (path, branch));
    if exists|i: int| 0 <= i < agents.len() && (#[trigger] agents[i]).path@ == path {
        let i = choose|i: int| 0 <= i < agents.len() && (#[trigger] agents[i]).path@ == path;
        assert(agents[i].path@ == path);
    }
}

/// What a snapshot is built from is what was gathered: the agents as refreshed, and all else unchanged.
pub proof fn law_turns_pass_on_what_was_gathered(
    input: TickInput,
    icons: StatusIcons,
    last: Set<Seq<char>>,
    interrupted: Set<Seq<char>>,
    built_from: SnapshotInputs,
)
    requires
        fed(input, icons, last, interrupted, built_from),
    ensures
        built_from.agents@.len() == input.agents@.len(),
        last == Set::<Seq<char>>::empty() ==> built_from.agents@ == input.agents@,
        built_from.sort == input.sort && built_from.group_by == input.group_by && built_from.position == input.position,
        built_from.layout_mode == input.layout_mode && built_from.filter_mode == input.filter_mode,
        built_from.collapse_stale == input.collapse_stale && built_from.expanded_groups == input.expanded_groups,
        built_from.sleeping_pane_ids == input.sleeping_pane_ids && built_from.interrupted_pane_ids@ == interrupted,
        built_from.git_statuses == input.git_statuses && built_from.pr_statuses == input.pr_statuses
            && built_from.check_statuses == input.check_statuses,
        built_from.tmux_statuses == input.tmux_state.window_statuses && built_from.active_windows
            == input.tmux_state.active_windows && built_from.active_pane_ids == input.tmux_state.active_pane_ids,
        built_from.pane_window_ids == input.tmux_state.pane_window_ids && built_from.pane_window_indexes
            == input.tmux_state.pane_window_indexes && built_from.window_pane_counts
            == input.tmux_state.window_pane_counts,
        built_from.status_icons.waiting@ == icons.waiting@ && built_from.status_icons.done@ == icons.done@,
{
    if last == Set::<Seq<char>>::empty() {
        assert(built_from.agents@ =~= input.agents@);
    }
}

} // verus!
