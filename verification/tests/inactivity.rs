use sidebar::app::{SidebarFilterMode, SidebarLayoutMode};
use sidebar::collections::{PairSet, StrMap, StrSet};
use sidebar::inactivity::{fingerprint_captures, fingerprint_of, InactivityTracker};
use sidebar::model::{AgentPane, AgentStatus, GitStatus, SidebarGroupBy, SidebarPosition, SidebarSort, StatusIcons};
use sidebar::snapshot::SidebarSnapshot;
use sidebar::tick::{
    agent_list, compute_tick, config_dirs, git_entries, github_entries, panes_to_capture, unknown_configs, TickInput,
    TickOutput, TmuxState,
};
use std::collections::HashMap;

const SECOND: u64 = 1_000_000_000;
const T0: u64 = 1_000 * SECOND;

fn working_agent(pane_id: &str, updated_ts: u64) -> AgentPane {
    AgentPane {
        session: String::new(),
        window_name: String::new(),
        pane_id: pane_id.to_string(),
        window_id: String::new(),
        window_index: None,
        path: String::new(),
        project: String::new(),
        pane_title: None,
        status: Some(AgentStatus::Working),
        status_ts: Some(100),
        activity_ts: Some(100),
        updated_ts: Some(updated_ts),
        window_cmd: None,
        agent_command: None,
        agent_kind: None,
    }
}

fn done_agent(pane_id: &str) -> AgentPane {
    AgentPane { status: Some(AgentStatus::Done), ..working_agent(pane_id, 1) }
}

fn tracker() -> InactivityTracker {
    InactivityTracker::new(10 * SECOND)
}

/// Checks agents whose panes all show `content`.
fn check(tracker: &mut InactivityTracker, agents: &[AgentPane], now: u64, content: Option<&str>) -> StrSet {
    let mut captures = StrMap::new();
    if let Some(content) = content {
        for agent in agents {
            captures.insert(agent.pane_id.clone(), content.to_string());
        }
    }
    tracker.check_with(&agents.to_vec(), now, &captures)
}

fn is_just(set: &StrSet, pane: &str) -> bool {
    set.len() == 1 && set.contains(pane)
}

fn live(pid: u32) -> StrMap<Option<u32>> {
    let mut panes = StrMap::new();
    panes.insert("%1".to_string(), Some(pid));
    panes
}

#[test]
fn pane_lifecycle_replacement_resets_inactivity_tracking() {
    let mut tracker = tracker();
    let agents = vec![working_agent("%1", 1)];

    tracker.reconcile_identities(&live(10), Some("server-a"));
    check(&mut tracker, &agents, T0, Some("same"));
    assert!(check(&mut tracker, &agents, T0 + 11 * SECOND, Some("same")).contains("%1"));

    tracker.reconcile_identities(&live(11), Some("server-a"));
    assert!(check(&mut tracker, &agents, T0 + 12 * SECOND, Some("same")).is_empty());
}

#[test]
fn server_lifecycle_replacement_resets_sticky_interruption() {
    let mut tracker = tracker();
    let agents = vec![working_agent("%1", 1)];

    tracker.reconcile_identities(&live(10), Some("server-a"));
    check(&mut tracker, &agents, T0, Some("same"));
    check(&mut tracker, &agents, T0 + 11 * SECOND, Some("same"));
    tracker.reconcile_identities(&live(10), Some("server-b"));

    assert!(check(&mut tracker, &agents, T0 + 12 * SECOND, Some("same")).is_empty());
}

#[test]
fn no_interruption_before_timeout() {
    let mut tracker = tracker();
    let agents = vec![working_agent("%1", 1)];

    // First check: records the hash
    let result = check(&mut tracker, &agents, T0, Some("hello"));
    assert!(result.is_empty());

    // 5s later, same content: not yet interrupted
    let result = check(&mut tracker, &agents, T0 + 5 * SECOND, Some("hello"));
    assert!(result.is_empty());
}

#[test]
fn interruption_after_timeout() {
    let mut tracker = tracker();
    let agents = vec![working_agent("%1", 1)];

    // First check records hash
    check(&mut tracker, &agents, T0, Some("hello"));

    // 11s later, same content: interrupted
    let result = check(&mut tracker, &agents, T0 + 11 * SECOND, Some("hello"));
    assert!(result.contains("%1"));
}

#[test]
fn changing_content_resets_window() {
    let mut tracker = tracker();
    let agents = vec![working_agent("%1", 1)];

    // First check
    check(&mut tracker, &agents, T0, Some("hello"));

    // 8s later, content changes: resets the window
    check(&mut tracker, &agents, T0 + 8 * SECOND, Some("world"));

    // 5s after the change (13s total): not interrupted (only 5s since reset)
    let result = check(&mut tracker, &agents, T0 + 13 * SECOND, Some("world"));
    assert!(result.is_empty());

    // 11s after the change (19s total): now interrupted
    let result = check(&mut tracker, &agents, T0 + 19 * SECOND, Some("world"));
    assert!(result.contains("%1"));
}

#[test]
fn sticky_despite_content_change() {
    let mut tracker = tracker();
    let agents = vec![working_agent("%1", 1)];

    // Become interrupted
    check(&mut tracker, &agents, T0, Some("hello"));
    let result = check(&mut tracker, &agents, T0 + 11 * SECOND, Some("hello"));
    assert!(result.contains("%1"));

    // Content changes (user typing): still interrupted
    let result = check(&mut tracker, &agents, T0 + 12 * SECOND, Some("user typed something"));
    assert!(result.contains("%1"));
}

#[test]
fn clears_on_updated_ts_change() {
    let mut tracker = tracker();
    let agents = vec![working_agent("%1", 1)];

    // Become interrupted
    check(&mut tracker, &agents, T0, Some("hello"));
    check(&mut tracker, &agents, T0 + 11 * SECOND, Some("hello"));

    // Agent sends new RPC (updated_ts changes): clears interrupted
    let resumed_agents = vec![working_agent("%1", 2)];
    let result = check(&mut tracker, &resumed_agents, T0 + 12 * SECOND, Some("hello"));
    assert!(result.is_empty());
}

#[test]
fn fresh_window_after_resume() {
    let mut tracker = tracker();
    let agents = vec![working_agent("%1", 1)];

    // Become interrupted
    check(&mut tracker, &agents, T0, Some("hello"));
    check(&mut tracker, &agents, T0 + 11 * SECOND, Some("hello"));

    // Resume (updated_ts changes) at t=12s
    let resumed = vec![working_agent("%1", 2)];
    check(&mut tracker, &resumed, T0 + 12 * SECOND, Some("hello"));

    // 5s after resume (t=17s): same content but not interrupted yet (fresh window)
    let result = check(&mut tracker, &resumed, T0 + 17 * SECOND, Some("hello"));
    assert!(result.is_empty());

    // 11s after resume (t=23s): now interrupted again
    let result = check(&mut tracker, &resumed, T0 + 23 * SECOND, Some("hello"));
    assert!(result.contains("%1"));
}

#[test]
fn non_working_agents_ignored() {
    let mut tracker = tracker();
    let agents = vec![done_agent("%1")];

    check(&mut tracker, &agents, T0, Some("hello"));
    let result = check(&mut tracker, &agents, T0 + 11 * SECOND, Some("hello"));
    assert!(result.is_empty());
}

#[test]
fn leaves_working_clears_tracking() {
    let mut tracker = tracker();
    let working = vec![working_agent("%1", 1)];

    // Become interrupted
    check(&mut tracker, &working, T0, Some("hello"));
    check(&mut tracker, &working, T0 + 11 * SECOND, Some("hello"));

    // Agent transitions to Done
    let done = vec![done_agent("%1")];
    let result = check(&mut tracker, &done, T0 + 12 * SECOND, Some("hello"));
    assert!(result.is_empty());

    // Comes back as Working: starts fresh
    let working_again = vec![working_agent("%1", 3)];
    let result = check(&mut tracker, &working_again, T0 + 13 * SECOND, Some("hello"));
    assert!(result.is_empty()); // just recorded, not yet timed out
}

#[test]
fn capture_failure_skips_pane() {
    let mut tracker = tracker();
    let agents = vec![working_agent("%1", 1)];

    // Capture fails: no entry recorded
    check(&mut tracker, &agents, T0, None);
    let result = check(&mut tracker, &agents, T0 + 11 * SECOND, None);
    assert!(result.is_empty());
}

#[test]
fn multiple_agents_tracked_independently() {
    let mut tracker = tracker();
    let agents = vec![working_agent("%1", 1), working_agent("%2", 1)];

    let mut content = StrMap::new();
    content.insert("%1".to_string(), "static".to_string());
    content.insert("%2".to_string(), "changing".to_string());

    // First check
    tracker.check_with(&agents, T0, &content);

    // Change %2's content at 5s
    content.insert("%2".to_string(), "new output".to_string());
    tracker.check_with(&agents, T0 + 5 * SECOND, &content);

    // At 11s: %1 is interrupted (11s unchanged), %2 is not (only 6s since change)
    let result = tracker.check_with(&agents, T0 + 11 * SECOND, &content);
    assert!(is_just(&result, "%1"));
}

#[test]
fn rpc_update_before_timeout_resets_window() {
    let mut tracker = tracker();

    // Start tracking
    check(&mut tracker, &[working_agent("%1", 1)], T0, Some("hello"));

    // Agent sends RPC at 5s (updated_ts changes) but content unchanged
    check(&mut tracker, &[working_agent("%1", 2)], T0 + 5 * SECOND, Some("hello"));

    // At 11s: only 6s since RPC update, should NOT be interrupted
    let result = check(&mut tracker, &[working_agent("%1", 2)], T0 + 11 * SECOND, Some("hello"));
    assert!(result.is_empty());

    // At 16s: 11s since RPC update, now interrupted
    let result = check(&mut tracker, &[working_agent("%1", 2)], T0 + 16 * SECOND, Some("hello"));
    assert!(is_just(&result, "%1"));
}

#[test]
fn interruption_at_exact_timeout() {
    let mut tracker = tracker();
    let agents = vec![working_agent("%1", 1)];

    check(&mut tracker, &agents, T0, Some("hello"));
    let result = check(&mut tracker, &agents, T0 + 10 * SECOND, Some("hello"));
    assert!(is_just(&result, "%1"));
}

#[test]
fn ansi_and_whitespace_normalized() {
    let mut tracker = tracker();
    let agents = vec![working_agent("%1", 1)];

    // Plain text first
    check(&mut tracker, &agents, T0, Some("hello\n"));

    // Same text wrapped in ANSI codes + trailing whitespace: should hash the same
    let result = check(&mut tracker, &agents, T0 + 11 * SECOND, Some("\x1b[31mhello\x1b[0m   "));
    assert!(is_just(&result, "%1"));
}

#[test]
fn capture_failure_does_not_create_baseline() {
    let mut tracker = tracker();
    let agents = vec![working_agent("%1", 1)];

    // Capture fails: no baseline recorded
    check(&mut tracker, &agents, T0, None);

    // Capture succeeds later: this is the first successful capture, not a timeout
    let result = check(&mut tracker, &agents, T0 + 11 * SECOND, Some("hello"));
    assert!(result.is_empty());
}

#[test]
fn fingerprints_tell_contents_apart() {
    assert_eq!(fingerprint_of("hello"), fingerprint_of("hello  \n"));
    assert!(fingerprint_of("hello") != fingerprint_of("world"));
    let prints = fingerprint_captures(&cap("\x1b[1mhello\x1b[0m"));
    assert_eq!(prints.get("%1"), Some(&fingerprint_of("hello")));
}

// ── Whole turns ─────────────────────────────────────────────────

/// What is stored of agents and of the daemon.
struct Store {
    agents: HashMap<String, (u64, u64)>,
    interrupted: Vec<String>,
}

impl Store {
    fn new() -> Self {
        Store { agents: HashMap::new(), interrupted: Vec::new() }
    }

    fn seed(&mut self, pane_id: &str, status_ts: u64) {
        self.agents.insert(pane_id.to_string(), (status_ts, status_ts));
    }

    fn apply(&mut self, output: &TickOutput) {
        for write in &output.agent_writes {
            if let Some(record) = self.agents.get_mut(&write.pane_id) {
                *record = (write.resumed_ts, write.resumed_ts);
            }
        }
        if let Some(state) = &output.runtime_write {
            self.interrupted =
                (0..state.interrupted_pane_ids.len()).map(|i| state.interrupted_pane_ids.get(i).clone()).collect();
        }
    }
}

fn icons() -> StatusIcons {
    StatusIcons {
        working: None,
        waiting: "waiting".to_string(),
        custom_waiting: false,
        done: "done".to_string(),
        custom_done: false,
    }
}

fn do_tick(
    tracker: &mut InactivityTracker,
    last: &mut StrSet,
    agents: Vec<AgentPane>,
    captures: StrMap<String>,
    now: u64,
    now_ts: u64,
) -> TickOutput {
    let output = compute_tick(
        TickInput {
            agents,
            tmux_state: TmuxState {
                live_panes: StrMap::new(),
                window_statuses: StrMap::new(),
                active_windows: PairSet::new(),
                pane_window_ids: StrMap::new(),
                pane_window_indexes: StrMap::new(),
                active_pane_ids: StrSet::new(),
                window_pane_counts: StrMap::new(),
                server_boot_id: None,
                position: None,
                layout: None,
                filter: None,
                sleeping_panes: None,
                group_by: None,
                expanded_groups: None,
            },
            captured_panes: captures,
            sort: SidebarSort::Recency,
            group_by: None,
            collapse_stale: false,
            expanded_groups: Vec::new(),
            now,
            now_ts,
            position: SidebarPosition::Left,
            layout_mode: SidebarLayoutMode::default(),
            filter_mode: SidebarFilterMode::default(),
            git_statuses: StrMap::new(),
            pr_statuses: StrMap::new(),
            check_statuses: StrMap::new(),
            sleeping_pane_ids: StrSet::new(),
        },
        tracker,
        last,
        &icons(),
        false,
    );
    // Commit state like the daemon loop does once the effects are applied
    *last = output.next_interrupted.copy();
    output
}

fn cap(content: &str) -> StrMap<String> {
    let mut m = StrMap::new();
    m.insert("%1".to_string(), content.to_string());
    m
}

fn cap2(content: &str) -> StrMap<String> {
    let mut m = cap(content);
    m.insert("%2".to_string(), content.to_string());
    m
}

#[test]
fn resumed_agent_gets_status_ts_reset() {
    let mut store = Store::new();
    store.seed("%1", 100);

    let mut tracker = tracker();
    let mut last = StrSet::new();

    // Tick 1: start observing
    do_tick(&mut tracker, &mut last, vec![working_agent("%1", 1)], cap("hello"), T0, 1000);

    // Tick 2: interrupted
    let output =
        do_tick(&mut tracker, &mut last, vec![working_agent("%1", 1)], cap("hello"), T0 + 11 * SECOND, 1011);
    assert!(output.snapshot.interrupted_pane_ids.contains("%1"));

    // Tick 3: agent resumes (updated_ts 1 -> 2)
    let output =
        do_tick(&mut tracker, &mut last, vec![working_agent("%1", 2)], cap("hello"), T0 + 12 * SECOND, 1012);
    assert!(output.snapshot.interrupted_pane_ids.is_empty());

    // Snapshot has corrected status_ts (no stale one-tick race)
    let agent = output.snapshot.agents.iter().find(|a| a.pane_id == "%1").unwrap();
    assert_eq!(agent.status_ts, Some(1012));
    assert_eq!(agent.activity_ts, Some(1012));

    // Side effect says to write it to disk
    assert_eq!(output.agent_writes.len(), 1);
    assert_eq!(output.agent_writes[0].resumed_ts, 1012);

    // Apply effects and verify store
    store.apply(&output);
    assert_eq!(store.agents["%1"], (1012, 1012));
}

#[test]
fn only_resumed_agent_gets_reset() {
    let mut store = Store::new();
    store.seed("%1", 100);
    store.seed("%2", 200);

    let mut tracker = tracker();
    let mut last = StrSet::new();

    let agents = vec![working_agent("%1", 1), working_agent("%2", 1)];

    // Tick 1 + 2: both interrupted
    do_tick(&mut tracker, &mut last, agents.clone(), cap2("hello"), T0, 1000);
    do_tick(&mut tracker, &mut last, agents, cap2("hello"), T0 + 11 * SECOND, 1011);

    // Tick 3: only %1 resumes
    let mixed = vec![working_agent("%1", 2), working_agent("%2", 1)];
    let output = do_tick(&mut tracker, &mut last, mixed, cap2("hello"), T0 + 12 * SECOND, 1012);

    // Only %1 in agent_writes
    assert_eq!(output.agent_writes.len(), 1);
    assert_eq!(output.agent_writes[0].pane_id, "%1");

    // Apply and verify
    store.apply(&output);
    assert_eq!(store.agents["%1"], (1012, 1012));
    assert_eq!(store.agents["%2"], (200, 200));
}

#[test]
fn runtime_file_reflects_interrupted_set() {
    let mut store = Store::new();
    let mut tracker = tracker();
    let mut last = StrSet::new();

    // Tick 1: not interrupted yet
    let output = do_tick(&mut tracker, &mut last, vec![working_agent("%1", 1)], cap("hello"), T0, 1000);
    store.apply(&output);

    // Tick 2: interrupted
    let output =
        do_tick(&mut tracker, &mut last, vec![working_agent("%1", 1)], cap("hello"), T0 + 11 * SECOND, 1011);
    store.apply(&output);
    assert!(store.interrupted.contains(&"%1".to_string()));

    // Tick 3: resumes
    let output =
        do_tick(&mut tracker, &mut last, vec![working_agent("%1", 2)], cap("hello"), T0 + 12 * SECOND, 1012);
    store.apply(&output);
    assert!(store.interrupted.is_empty());
}

#[test]
fn snapshot_has_correct_status_ts_on_resume_tick() {
    // Proves the one-tick race is structurally impossible: agents
    // are mutated before build_snapshot, not patched after.
    let mut tracker = tracker();
    let mut last = StrSet::new();

    do_tick(&mut tracker, &mut last, vec![working_agent("%1", 1)], cap("hello"), T0, 1000);
    do_tick(&mut tracker, &mut last, vec![working_agent("%1", 1)], cap("hello"), T0 + 11 * SECOND, 1011);

    // Resume tick: snapshot must have the fresh status_ts, not the stale 100
    let output =
        do_tick(&mut tracker, &mut last, vec![working_agent("%1", 2)], cap("hello"), T0 + 12 * SECOND, 1012);
    let agent = output.snapshot.agents.iter().find(|a| a.pane_id == "%1").unwrap();
    assert_eq!(agent.status_ts, Some(1012));
    assert_eq!(agent.activity_ts, Some(1012));
    assert!(!output.snapshot.interrupted_pane_ids.contains("%1"));
}

#[test]
fn quiet_turns_store_nothing() {
    let mut tracker = tracker();
    let mut last = StrSet::new();
    let output = do_tick(&mut tracker, &mut last, vec![done_agent("%1")], StrMap::new(), T0, 1000);
    assert!(output.agent_writes.is_empty());
    assert!(output.runtime_write.is_none());
}

#[test]
fn panes_known_to_be_interrupted_are_not_captured() {
    let mut tracker = tracker();
    let agents = vec![working_agent("%1", 1), done_agent("%2"), working_agent("%3", 1)];
    assert_eq!(panes_to_capture(&agents, &tracker), vec!["%1", "%3"]);
    tracker.check_with(&agents, T0, &cap("hello"));
    tracker.check_with(&agents, T0 + 11 * SECOND, &cap("hello"));
    assert_eq!(panes_to_capture(&agents, &tracker), vec!["%3"]);
    // A report makes the pane worth looking at again.
    let resumed = vec![working_agent("%1", 2)];
    assert_eq!(panes_to_capture(&resumed, &tracker), vec!["%1"]);
}

// ── What the workers are told ───────────────────────────────────

fn shown() -> SidebarSnapshot {
    let mut tracker = tracker();
    let mut last = StrSet::new();
    let mut first = working_agent("%1", 1);
    first.path = "/repo/a".to_string();
    first.activity_ts = Some(9_000);
    let mut second = working_agent("%2", 1);
    second.path = "/repo/b".to_string();
    second.session = "main".to_string();
    second.window_id = "@2".to_string();
    second.activity_ts = Some(100);
    do_tick(&mut tracker, &mut last, vec![first, second], StrMap::new(), T0, 10_000).snapshot
}

#[test]
fn the_git_worker_is_told_of_focus_and_staleness() {
    let mut snapshot = shown();
    let entries = git_entries(&snapshot, 10_000);
    let told: Vec<_> = entries.iter().map(|e| (e.path.as_str(), e.is_stale, e.is_focused)).collect();
    assert_eq!(told, vec![("/repo/a", false, false), ("/repo/b", true, false)]);
    snapshot.active_pane_ids.insert("%1".to_string());
    snapshot.active_windows.insert("main".to_string(), "@2".to_string());
    assert!(git_entries(&snapshot, 10_000).iter().all(|e| e.is_focused));
}

#[test]
fn the_github_worker_is_told_of_known_branches() {
    let mut snapshot = shown();
    assert!(github_entries(&snapshot).is_empty());
    snapshot
        .git_statuses
        .insert("/repo/b".to_string(), GitStatus { branch: Some("feature".to_string()), ..GitStatus::default() });
    snapshot.git_statuses.insert("/repo/a".to_string(), GitStatus::default());
    let entries = github_entries(&snapshot);
    assert_eq!(entries.len(), 1);
    assert_eq!((entries[0].path.as_str(), entries[0].branch.as_str()), ("/repo/b", "feature"));
}

#[test]
fn configurations_are_looked_for_once() {
    let snapshot = shown();
    let mut cache = StrMap::new();
    cache.insert("/gone".to_string(), "/gone".to_string());
    cache.insert("/repo/a".to_string(), "/repo".to_string());
    let unknown = unknown_configs(&mut cache, &snapshot.agents);
    assert!(is_just(&unknown, "/repo/b"));
    assert!(!cache.contains_key("/gone"));
    assert!(is_just(&config_dirs(&cache, &snapshot.agents), "/repo"));
}

#[test]
fn the_agent_list_names_what_keys_reach() {
    let mut snapshot = shown();
    assert_eq!(agent_list(&snapshot), "%1 %2");
    snapshot.group_by = Some(SidebarGroupBy::Project);
    snapshot.stale_pane_ids.insert("%1".to_string());
    assert_eq!(agent_list(&snapshot), "%2");
    snapshot.stale_pane_ids.insert("%2".to_string());
    assert_eq!(agent_list(&snapshot), "");
}
