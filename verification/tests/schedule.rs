use sidebar::app::{SidebarFilterMode, SidebarLayoutMode};
use sidebar::collections::{PairSet, StrMap, StrSet};
use sidebar::daemon::{folds_stale, Announcement, DaemonLoop, Maintenance};
use sidebar::model::{
    AgentPane, AgentStatus, CheckState, CheckSummary, GitStatus, PrSummary, SidebarGroupBy, SidebarPosition,
};
use sidebar::publish::{frame, snapshots_equal, socket_path, BroadcastCache};
use sidebar::schedule::{
    Scheduler, CAPTURE_INTERVAL, EVENT_COALESCE_INTERVAL, HEARTBEAT_INTERVAL, HEARTBEAT_RETRY_INTERVAL,
    MAINTENANCE_INTERVAL, OBSERVATION_INTERVAL,
};
use sidebar::settings::{
    read_expanded_groups, read_sidebar_filter_mode, read_sidebar_group_by, read_sidebar_layout_mode,
    read_sidebar_position, read_sleeping_panes, GroupingValue,
};
use sidebar::snapshot::SidebarSnapshot;

const MILLI: u64 = 1_000_000;
const SECOND: u64 = 1_000_000_000;
const START: u64 = 1_000 * SECOND;

#[test]
fn socket_path_uses_a_stable_fixed_width_instance_key() {
    let default = socket_path("/tmp", "/private/tmp/tmux-501/default");
    let long = socket_path("/tmp", "/private/tmp/tmux-501/sidebar-repro-socket");
    let unicode = socket_path("/tmp", "/private/tmp/tmux-501/サイドバー");

    assert_eq!(default, "/tmp/workmux-sidebar-3d3d4a9387e30f49.sock");
    assert_eq!(long, "/tmp/workmux-sidebar-51c46e2d6ee045f1.sock");
    assert_eq!(unicode, "/tmp/workmux-sidebar-b596df9918d556c8.sock");
}

// ── Deadlines ───────────────────────────────────────────────────

#[test]
fn scheduler_observes_and_captures_immediately_at_startup() {
    let now = START;
    let scheduler = Scheduler::new(now);

    assert!(scheduler.observation_due(now));
    assert!(scheduler.capture_due(now));
    assert!(!scheduler.heartbeat_due(now));
}

#[test]
fn worker_and_config_publications_schedule_no_tmux_or_capture_work() {
    let start = START;
    let mut scheduler = Scheduler::new(start);
    scheduler.finish_observation(start);
    scheduler.finish_capture(start);
    for publication_wakeup in [start + 100 * MILLI, start + 200 * MILLI] {
        assert!(!scheduler.observation_due(publication_wakeup));
        assert!(!scheduler.capture_due(publication_wakeup));
    }
}

#[test]
fn failed_observation_keeps_the_periodic_recovery_deadline() {
    let start = START;
    let mut scheduler = Scheduler::new(start);
    scheduler.finish_observation(start);

    assert!(!scheduler.observation_due(start + SECOND));
    assert!(scheduler.observation_due(start + OBSERVATION_INTERVAL));
}

#[test]
fn tmux_events_coalesce_without_postponing_the_first_deadline() {
    let start = START;
    let mut scheduler = Scheduler::new(start);
    scheduler.finish_observation(start);
    scheduler.finish_capture(start);
    scheduler.notify_tmux_event(start + 10 * MILLI);
    scheduler.notify_tmux_event(start + 40 * MILLI);

    assert!(!scheduler.observation_due(start + 59 * MILLI));
    assert!(scheduler.observation_due(start + 60 * MILLI));
}

#[test]
fn event_arriving_during_observation_gets_its_own_coalesced_run() {
    let start = START;
    let mut scheduler = Scheduler::new(start);
    scheduler.finish_observation(start);
    scheduler.notify_tmux_event(start + 20 * MILLI);
    scheduler.finish_observation(start + 70 * MILLI);
    scheduler.notify_tmux_event(start + 80 * MILLI);

    assert!(!scheduler.observation_due(start + 129 * MILLI));
    assert!(scheduler.observation_due(start + 130 * MILLI));
}

#[test]
fn periodic_observation_absorbs_a_pending_event() {
    let start = START;
    let mut scheduler = Scheduler::new(start);
    scheduler.finish_observation(start);
    scheduler.notify_tmux_event(start + OBSERVATION_INTERVAL - 10 * MILLI);
    scheduler.finish_observation(start + OBSERVATION_INTERVAL);

    assert_eq!(scheduler.event_observation, None);
    assert!(!scheduler.observation_due(start + OBSERVATION_INTERVAL + EVENT_COALESCE_INTERVAL));
}

#[test]
fn event_work_does_not_postpone_periodic_deadlines() {
    let start = START;
    let mut scheduler = Scheduler::new(start);
    scheduler.finish_observation(start);
    scheduler.finish_capture(start);
    scheduler.notify_tmux_event(start + 500 * MILLI);
    scheduler.finish_observation(start + 550 * MILLI);

    assert!(scheduler.observation_due(start + OBSERVATION_INTERVAL));
    assert!(scheduler.capture_due(start + CAPTURE_INTERVAL));
}

#[test]
fn overdue_deadlines_advance_past_long_running_work() {
    let start = START;
    let mut scheduler = Scheduler::new(start);
    let after_stall = start + 7 * SECOND;
    scheduler.finish_observation(after_stall);
    scheduler.finish_capture(after_stall);

    assert!(!scheduler.observation_due(after_stall));
    assert!(!scheduler.capture_due(after_stall));
    assert_eq!(scheduler.next_observation, start + 8 * SECOND);
    assert_eq!(scheduler.next_capture, start + 8 * SECOND);
}

#[test]
fn heartbeat_retry_and_maintenance_are_independent() {
    let start = START;
    let mut scheduler = Scheduler::new(start);
    let heartbeat = start + HEARTBEAT_INTERVAL;
    assert!(scheduler.heartbeat_due(heartbeat));
    scheduler.finish_heartbeat(heartbeat, false);
    scheduler.finish_maintenance(start + MAINTENANCE_INTERVAL);

    assert_eq!(scheduler.next_heartbeat, heartbeat + HEARTBEAT_RETRY_INTERVAL);
    assert_eq!(scheduler.next_maintenance, start + MAINTENANCE_INTERVAL * 2);
}

#[test]
fn the_daemon_sleeps_until_the_first_deadline() {
    let mut scheduler = Scheduler::new(START);
    assert_eq!(scheduler.wait(START), 0);
    scheduler.finish_observation(START);
    scheduler.finish_capture(START);
    assert_eq!(scheduler.wait(START), SECOND);
    scheduler.notify_tmux_event(START);
    assert_eq!(scheduler.wait(START + 20 * MILLI), 30 * MILLI);
}

// ── The loop ────────────────────────────────────────────────────

#[test]
fn news_waits_until_agents_were_observed() {
    let mut daemon = DaemonLoop::new(START);
    daemon.wake(false, true, START);
    assert!(!daemon.publish(false));
    assert!(daemon.publish_pending);
    assert!(daemon.publish(true));
    assert!(!daemon.publish(true));
    daemon.observed();
    assert!(daemon.publish(true));
}

#[test]
fn tmux_events_bring_an_observation_forward() {
    let mut daemon = DaemonLoop::new(START);
    assert!(daemon.observe(START));
    assert!(!daemon.observe(START + SECOND));
    daemon.wake(true, false, START + SECOND);
    assert!(daemon.observe(START + SECOND + 50 * MILLI));
}

#[test]
fn captures_without_agents_pass_their_turn() {
    let mut daemon = DaemonLoop::new(START);
    assert!(!daemon.capture(false, START));
    assert!(!daemon.publish_pending);
    assert!(!daemon.capture(true, START + SECOND));
    assert!(daemon.capture(true, START + 2 * SECOND));
    assert!(daemon.publish_pending);
}

#[test]
fn records_are_compacted_once_per_server() {
    let mut daemon = DaemonLoop::new(START);
    let boot = Some("boot".to_string());
    assert!(!daemon.needs_compaction(&None));
    assert!(daemon.needs_compaction(&boot));
    daemon.compacted(&boot);
    assert!(!daemon.needs_compaction(&boot));
    assert!(daemon.needs_compaction(&Some("other".to_string())));
}

#[test]
fn agents_are_announced_when_they_change() {
    let mut daemon = DaemonLoop::new(START);
    assert!(matches!(daemon.announce(""), Announcement::Nothing));
    assert!(matches!(daemon.announce("%1 %2"), Announcement::Tell(list) if list == "%1 %2"));
    assert!(matches!(daemon.announce("%1 %2"), Announcement::Nothing));
    assert!(matches!(daemon.announce(""), Announcement::Clear));
}

#[test]
fn config_directories_are_followed_when_they_change() {
    let mut daemon = DaemonLoop::new(START);
    assert!(!daemon.follow_configs(&set(&[])));
    assert!(daemon.follow_configs(&set(&["/a", "/b"])));
    assert!(!daemon.follow_configs(&set(&["/b", "/a"])));
}

#[test]
fn a_daemon_without_clients_ends() {
    let mut daemon = DaemonLoop::new(START);
    let nothing = Maintenance { exit: false, log: false };
    assert_eq!(daemon.maintain(0, START + SECOND - 1), nothing);
    assert_eq!(daemon.maintain(0, START + 10 * SECOND), nothing);
    assert_eq!(daemon.maintain(1, START + 11 * SECOND), nothing);
    assert_eq!(daemon.maintain(0, START + 21 * SECOND), nothing);
    assert_eq!(daemon.maintain(0, START + 22 * SECOND), Maintenance { exit: true, log: false });
    let mut lively = DaemonLoop::new(START);
    assert_eq!(lively.maintain(1, START + 60 * SECOND), Maintenance { exit: false, log: true });
}

#[test]
fn a_stored_turn_counts_as_a_heartbeat() {
    let mut daemon = DaemonLoop::new(START);
    daemon.published(set(&["%1"]), true, START + 9 * SECOND);
    assert!(daemon.last_interrupted.contains("%1"));
    assert!(!daemon.scheduler.heartbeat_due(START + 10 * SECOND));
    daemon.published(set(&[]), false, START + 18 * SECOND);
    assert!(daemon.scheduler.heartbeat_due(START + 19 * SECOND));
}

#[test]
fn only_grouped_lists_fold() {
    assert!(folds_stale(true, Some(SidebarGroupBy::Project)));
    assert!(!folds_stale(true, None));
    assert!(!folds_stale(false, Some(SidebarGroupBy::Project)));
}

// ── Snapshots ───────────────────────────────────────────────────

fn set(items: &[&str]) -> StrSet {
    let mut s = StrSet::new();
    for i in items {
        s.insert(i.to_string());
    }
    s
}

fn empty_snapshot() -> SidebarSnapshot {
    SidebarSnapshot {
        position: SidebarPosition::Left,
        layout_mode: SidebarLayoutMode::Tiles,
        filter_mode: SidebarFilterMode::All,
        group_by: None,
        expanded_groups: Vec::new(),
        stale_pane_ids: StrSet::new(),
        collapse_stale: false,
        active_windows: PairSet::new(),
        active_pane_ids: StrSet::new(),
        window_pane_counts: StrMap::new(),
        git_statuses: StrMap::new(),
        pr_statuses: StrMap::new(),
        check_statuses: StrMap::new(),
        interrupted_pane_ids: StrSet::new(),
        sleeping_pane_ids: StrSet::new(),
        agents: Vec::new(),
        config_version: 0,
    }
}

fn working_agent(pane_id: &str, updated_ts: u64) -> AgentPane {
    AgentPane {
        session: String::new(),
        window_name: String::new(),
        pane_id: pane_id.to_string(),
        window_id: String::new(),
        window_index: None,
        path: String::new(),
        project: String::new(),
        pane_title: None,
        status: Some(AgentStatus::Working),
        status_ts: Some(100),
        activity_ts: Some(100),
        updated_ts: Some(updated_ts),
        window_cmd: None,
        agent_command: None,
        agent_kind: None,
    }
}

fn changed(change: impl FnOnce(&mut SidebarSnapshot)) -> SidebarSnapshot {
    let mut snapshot = empty_snapshot();
    change(&mut snapshot);
    snapshot
}

#[test]
fn snapshot_comparison_covers_every_sidebar_state_category() {
    let original = empty_snapshot();
    let variants = vec![
        changed(|s| s.position = SidebarPosition::Top),
        changed(|s| s.layout_mode = SidebarLayoutMode::Compact),
        changed(|s| s.filter_mode = SidebarFilterMode::Session),
        changed(|s| {
            s.active_windows.insert("s".into(), "@1".into());
        }),
        changed(|s| {
            s.active_pane_ids.insert("%1".into());
        }),
        changed(|s| {
            s.window_pane_counts.insert("@1".into(), 2);
        }),
        changed(|s| {
            s.git_statuses.insert("/repo".into(), GitStatus { is_dirty: true, ..GitStatus::default() });
        }),
        changed(|s| {
            s.pr_statuses.insert(
                "/repo".into(),
                PrSummary {
                    number: 1,
                    title: "title".into(),
                    state: "OPEN".into(),
                    is_draft: false,
                    checks: None,
                    check_meta: None,
                    url: None,
                },
            );
        }),
        changed(|s| {
            s.check_statuses.insert("/repo".into(), CheckSummary { state: CheckState::Success, meta: None });
        }),
        changed(|s| {
            s.interrupted_pane_ids.insert("%1".into());
        }),
        changed(|s| {
            s.sleeping_pane_ids.insert("%1".into());
        }),
        changed(|s| s.agents.push(working_agent("%1", 1))),
        changed(|s| s.config_version = 1),
        changed(|s| s.group_by = Some(SidebarGroupBy::Session)),
        changed(|s| s.expanded_groups.push("api".into())),
        changed(|s| s.collapse_stale = true),
        changed(|s| {
            s.stale_pane_ids.insert("%1".into());
        }),
    ];

    assert!(variants.iter().all(|changed| !snapshots_equal(&original, changed)));
    assert!(snapshots_equal(&original, &empty_snapshot()));
}

#[test]
fn agent_display_and_sorting_changes_are_meaningful() {
    let with = |change: fn(&mut AgentPane)| {
        let mut snapshot = empty_snapshot();
        let mut agent = working_agent("%1", 1);
        change(&mut agent);
        snapshot.agents.push(agent);
        snapshot
    };
    let first = with(|_| {});

    let prompt = with(|a| a.pane_title = Some("updated prompt".into()));
    assert!(!snapshots_equal(&first, &prompt));

    let status = with(|a| a.status = Some(AgentStatus::Waiting));
    assert!(!snapshots_equal(&first, &status));

    let activity = with(|a| a.activity_ts = Some(200));
    assert!(!snapshots_equal(&first, &activity));

    let window_order = with(|a| a.window_index = Some(2));
    assert!(!snapshots_equal(&first, &window_order));
}

#[test]
fn snapshot_comparison_is_set_order_independent() {
    let mut first = empty_snapshot();
    first.active_pane_ids = set(&["%1", "%2"]);
    first.active_windows.insert("one".into(), "@1".into());
    first.active_windows.insert("two".into(), "@2".into());
    let mut second = empty_snapshot();
    second.active_pane_ids = set(&["%2", "%1"]);
    second.active_windows.insert("two".into(), "@2".into());
    second.active_windows.insert("one".into(), "@1".into());

    assert!(snapshots_equal(&first, &second));
}

#[test]
fn git_snapshot_comparison_ignores_only_cache_freshness() {
    let with = |status: GitStatus| {
        let mut snapshot = empty_snapshot();
        snapshot.git_statuses.insert("/repo".into(), status);
        snapshot
    };
    let first = with(GitStatus { cached_at: Some(1), ..GitStatus::default() });
    let second = with(GitStatus { cached_at: Some(2), ..GitStatus::default() });
    assert!(snapshots_equal(&first, &second));

    let third = with(GitStatus { cached_at: Some(2), is_rebasing: true, ..GitStatus::default() });
    assert!(!snapshots_equal(&first, &third));
}

#[test]
fn only_news_is_broadcast() {
    let mut cache = BroadcastCache::new();
    assert!(cache.accept(empty_snapshot(), Some(vec![7, 8])));
    assert_eq!(cache.payload, vec![0, 0, 0, 2, 7, 8]);
    assert!(cache.is_current(1));
    assert!(!cache.is_news(&empty_snapshot()));
    assert!(!cache.accept(empty_snapshot(), Some(vec![9])));
    let news = || changed(|s| s.config_version = 1);
    assert!(!cache.accept(news(), None));
    assert!(cache.is_news(&news()));
    assert!(cache.accept(news(), Some(vec![])));
    assert_eq!((cache.payload.clone(), cache.generation), (vec![0, 0, 0, 0], 2));
}

#[test]
fn a_frame_starts_with_its_length() {
    assert_eq!(frame(&vec![1, 2, 3]), Some(vec![0, 0, 0, 3, 1, 2, 3]));
    let long = frame(&vec![5; 70_000]).unwrap();
    assert_eq!(long[..4], 70_000u32.to_be_bytes());
    assert_eq!(long.len(), 70_004);
}

// ── Settings ────────────────────────────────────────────────────

#[test]
fn settings_fall_back_from_tmux_to_storage_to_configuration() {
    assert_eq!(
        read_sidebar_layout_mode(Some("compact"), Some("tiles"), None),
        Some(SidebarLayoutMode::Compact)
    );
    assert_eq!(read_sidebar_layout_mode(None, Some("tiles"), Some("compact")), Some(SidebarLayoutMode::Tiles));
    assert_eq!(read_sidebar_layout_mode(None, None, Some("compact")), Some(SidebarLayoutMode::Compact));
    assert_eq!(read_sidebar_layout_mode(None, None, None), None);
    assert_eq!(read_sidebar_filter_mode(Some("session"), None), SidebarFilterMode::Session);
    assert_eq!(read_sidebar_filter_mode(None, Some("session")), SidebarFilterMode::Session);
    assert_eq!(read_sidebar_filter_mode(None, None), SidebarFilterMode::All);
    assert_eq!(read_sidebar_position(Some("top"), SidebarPosition::Left), SidebarPosition::Top);
    assert_eq!(read_sidebar_position(Some("left"), SidebarPosition::Top), SidebarPosition::Left);
    assert_eq!(read_sidebar_position(None, SidebarPosition::Top), SidebarPosition::Top);
}

#[test]
fn a_grouping_that_names_none_leaves_the_configured_one() {
    let project = Some(SidebarGroupBy::Project);
    let session = Some(SidebarGroupBy::Session);
    let named: GroupingValue = Some(session);
    let off: GroupingValue = Some(None);
    let unread: GroupingValue = None;
    assert_eq!(read_sidebar_group_by(Some(named), Some(off), project), session);
    assert_eq!(read_sidebar_group_by(Some(off), Some(named), project), None);
    assert_eq!(read_sidebar_group_by(Some(unread), Some(named), project), project);
    assert_eq!(read_sidebar_group_by(None, Some(named), project), session);
    assert_eq!(read_sidebar_group_by(None, None, project), project);
}

#[test]
fn stored_lists_are_read_back() {
    assert_eq!(read_expanded_groups(Some("api\tmobile app")), vec!["api", "mobile app"]);
    assert_eq!(read_expanded_groups(Some("api\t\t")), vec!["api"]);
    assert!(read_expanded_groups(None).is_empty());
    let panes = read_sleeping_panes(Some("%1  %2\n"));
    assert!(panes.contains("%1") && panes.contains("%2") && panes.len() == 2);
    assert!(read_sleeping_panes(None).is_empty());
}
