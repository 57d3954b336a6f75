use sidebar::app::{SidebarFilterMode, SidebarLayoutMode};
use sidebar::collections::{PairSet, StrMap, StrSet};
use sidebar::model::{
    AgentPane, AgentStatus, CheckState, CheckSummary, GitStatus, PrSummary, SidebarGroupBy, SidebarPosition, SidebarSort,
    StatusIcons,
};
use sidebar::snapshot::{
    build_snapshot, dormant_groups, group_label, is_jump_target, order_agents, CheckPathEntry, PrPathEntry,
    SidebarSnapshot, SnapshotInputs, UNKNOWN_GROUP_LABEL,
};

fn agent(path: &str) -> AgentPane {
    AgentPane {
        session: "s".to_string(),
        window_name: "w".to_string(),
        pane_id: "%1".to_string(),
        window_id: String::new(),
        window_index: None,
        path: path.to_string(),
        project: project_of(path),
        pane_title: None,
        status: None,
        status_ts: None,
        activity_ts: None,
        updated_ts: None,
        window_cmd: None,
        agent_command: None,
        agent_kind: None,
    }
}

/// The project of a worktree at `/tmp/project__worktrees/name`.
fn project_of(path: &str) -> String {
    path.split('/').find_map(|part| part.strip_suffix("__worktrees")).unwrap_or("repo").to_string()
}

fn pr(number: u32) -> PrSummary {
    PrSummary {
        number,
        title: "test".to_string(),
        state: "OPEN".to_string(),
        is_draft: false,
        checks: None,
        check_meta: None,
        url: None,
    }
}

fn pr_entry(branch: &str, number: u32) -> PrPathEntry {
    PrPathEntry { branch: branch.to_string(), summary: pr(number) }
}

fn check_entry(branch: &str) -> CheckPathEntry {
    CheckPathEntry {
        branch: branch.to_string(),
        summary: CheckSummary { state: CheckState::Success, meta: None },
    }
}

fn map_of<V, const N: usize>(entries: [(&str, V); N]) -> StrMap<V> {
    let mut m = StrMap::new();
    for (k, v) in entries {
        m.insert(k.to_string(), v);
    }
    m
}

fn set_of(items: &[&str]) -> StrSet {
    let mut s = StrSet::new();
    for i in items {
        s.insert(i.to_string());
    }
    s
}

fn inputs() -> SnapshotInputs {
    SnapshotInputs {
        agents: Vec::new(),
        tmux_statuses: StrMap::new(),
        pane_window_ids: StrMap::new(),
        pane_window_indexes: StrMap::new(),
        active_windows: PairSet::new(),
        active_pane_ids: StrSet::new(),
        window_pane_counts: StrMap::new(),
        position: SidebarPosition::Left,
        layout_mode: SidebarLayoutMode::Tiles,
        filter_mode: SidebarFilterMode::All,
        sort: SidebarSort::Recency,
        group_by: None,
        collapse_stale: false,
        expanded_groups: Vec::new(),
        status_icons: StatusIcons {
            working: None,
            waiting: "w".to_string(),
            custom_waiting: false,
            done: "d".to_string(),
            custom_done: false,
        },
        git_statuses: StrMap::new(),
        pr_statuses: StrMap::new(),
        check_statuses: StrMap::new(),
        sleeping_pane_ids: StrSet::new(),
        interrupted_pane_ids: StrSet::new(),
    }
}

fn build(
    agents: Vec<AgentPane>,
    git_statuses: StrMap<GitStatus>,
    pr_statuses: StrMap<PrPathEntry>,
) -> SidebarSnapshot {
    build_with_checks(agents, git_statuses, pr_statuses, StrMap::new())
}

fn build_with_checks(
    agents: Vec<AgentPane>,
    git_statuses: StrMap<GitStatus>,
    pr_statuses: StrMap<PrPathEntry>,
    check_statuses: StrMap<CheckPathEntry>,
) -> SidebarSnapshot {
    build_snapshot(SnapshotInputs { agents, git_statuses, pr_statuses, check_statuses, ..inputs() }, NOW)
}

/// Agent in project `project`, pane `%n`, with `age` seconds since activity.
fn grouped_agent(project: &str, session: &str, pane: u32, age: u64, now: u64) -> AgentPane {
    let mut a = agent(&format!("/tmp/{project}__worktrees/w{pane}"));
    a.session = session.to_string();
    a.pane_id = format!("%{pane}");
    a.activity_ts = Some(now.saturating_sub(age));
    a.status_ts = a.activity_ts;
    a
}

#[test]
fn grouping_takes_stale_agents_out_of_the_hotkeys() {
    let now = NOW;
    let live = grouped_agent("api", "main", 1, 30, now);
    let idle = grouped_agent("api", "main", 2, 6 * 60 * 60, now);
    let mut snapshot = build(vec![live.clone(), idle.clone()], StrMap::new(), StrMap::new());
    snapshot.group_by = Some(SidebarGroupBy::Project);
    snapshot.stale_pane_ids = set_of(&[&idle.pane_id]);
    snapshot.collapse_stale = true;

    assert!(is_jump_target(&snapshot, &live));
    assert!(!is_jump_target(&snapshot, &idle));

    // While grouped, staleness decides on its own: showing the agent, by
    // expanding its group, turning folding off, or drawing the top bar,
    // does not make it worth a hotkey.
    snapshot.expanded_groups = vec!["api".to_string()];
    assert!(!is_jump_target(&snapshot, &idle));
    snapshot.collapse_stale = false;
    assert!(!is_jump_target(&snapshot, &idle));
    snapshot.position = SidebarPosition::Top;
    assert!(!is_jump_target(&snapshot, &idle));

    // A flat list has no stale tail and no fold, so it numbers everything
    // it draws.
    snapshot.group_by = None;
    assert!(is_jump_target(&snapshot, &idle));
    assert!(is_jump_target(&snapshot, &live));
}

fn order(agents: &[AgentPane]) -> Vec<String> {
    agents.iter().map(|a| a.pane_id.clone()).collect()
}

/// Fixture spanning two projects and two sessions with mixed statuses.
fn grouping_fixture(now: u64) -> Vec<AgentPane> {
    let mut waiting_old = grouped_agent("mobile", "beta", 1, 10_000, now);
    waiting_old.status = Some(AgentStatus::Waiting);
    let mut working_fresh = grouped_agent("api", "alpha", 2, 5, now);
    working_fresh.status = Some(AgentStatus::Working);
    let mut done = grouped_agent("api", "beta", 3, 100, now);
    done.status = Some(AgentStatus::Done);
    let unknown_old = grouped_agent("mobile", "alpha", 4, 10_000, now);
    let mut working_recent = grouped_agent("api", "alpha", 5, 1, now);
    working_recent.status = Some(AgentStatus::Working);
    vec![waiting_old, working_fresh, done, unknown_old, working_recent]
}

fn ordered(
    now: u64,
    group_by: Option<SidebarGroupBy>,
    sort: SidebarSort,
    sleeping: &[&str],
    interrupted: &[&str],
) -> Vec<String> {
    let mut agents = grouping_fixture(now);
    for a in &mut agents {
        a.window_index = Some(a.pane_id.trim_start_matches('%').parse().unwrap());
    }
    order_agents(&mut agents, group_by, sort, now, &set_of(sleeping), &set_of(interrupted), false);
    order(&agents)
}

const NOW: u64 = 1_000_000;

#[test]
fn ungrouped_orders_match_each_sort() {
    assert_eq!(
        ordered(NOW, None, SidebarSort::Recency, &[], &[]),
        ["%5", "%2", "%3", "%1", "%4"]
    );
    assert_eq!(
        ordered(NOW, None, SidebarSort::Priority, &[], &[]),
        ["%1", "%3", "%5", "%2", "%4"]
    );
    assert_eq!(
        ordered(NOW, None, SidebarSort::Window, &[], &[]),
        ["%2", "%4", "%5", "%1", "%3"]
    );
}

#[test]
fn project_grouping_keeps_groups_contiguous_and_alphabetical() {
    let by_project = Some(SidebarGroupBy::Project);
    assert_eq!(
        ordered(NOW, by_project, SidebarSort::Recency, &[], &[]),
        ["%5", "%2", "%3", "%1", "%4"]
    );
    assert_eq!(
        ordered(NOW, by_project, SidebarSort::Priority, &[], &[]),
        ["%3", "%5", "%2", "%1", "%4"]
    );
    assert_eq!(
        ordered(NOW, by_project, SidebarSort::Window, &[], &[]),
        ["%2", "%5", "%3", "%4", "%1"]
    );
}

#[test]
fn session_grouping_keeps_groups_contiguous_and_alphabetical() {
    let by_session = Some(SidebarGroupBy::Session);
    assert_eq!(
        ordered(NOW, by_session, SidebarSort::Recency, &[], &[]),
        ["%5", "%2", "%4", "%3", "%1"]
    );
    assert_eq!(
        ordered(NOW, by_session, SidebarSort::Priority, &[], &[]),
        ["%5", "%2", "%4", "%1", "%3"]
    );
    assert_eq!(
        ordered(NOW, by_session, SidebarSort::Window, &[], &[]),
        ["%2", "%4", "%5", "%1", "%3"]
    );
}

#[test]
fn waiting_and_done_stay_actionable_regardless_of_age() {
    // %1 has waited 10000s, %5 worked 1s ago: waiting still leads.
    let order = ordered(NOW, None, SidebarSort::Priority, &[], &[]);
    assert_eq!(order[0], "%1");
    assert_eq!(order[1], "%3");
}

#[test]
fn interrupted_working_demotes_but_waiting_does_not() {
    let order = ordered(NOW, None, SidebarSort::Priority, &[], &["%5"]);
    assert_eq!(order, ["%1", "%3", "%2", "%5", "%4"]);
}

#[test]
fn sleeping_sinks_to_the_bottom_of_its_own_group() {
    // %3 (api) asleep: last within api, never below the mobile group.
    let order = ordered(NOW, Some(SidebarGroupBy::Project), SidebarSort::Priority, &["%3"], &[]);
    assert_eq!(order, ["%5", "%2", "%3", "%1", "%4"]);

    // Ungrouped, the same agent sinks to the bottom of the whole list.
    let order = ordered(NOW, None, SidebarSort::Priority, &["%3"], &[]);
    assert_eq!(order, ["%1", "%5", "%2", "%4", "%3"]);
}

#[test]
fn window_sort_keeps_sleeping_agents_in_place() {
    assert_eq!(
        ordered(NOW, None, SidebarSort::Window, &["%2"], &[]),
        ordered(NOW, None, SidebarSort::Window, &[], &[])
    );
}

#[test]
fn priority_order_is_stable_across_ticks() {
    let first = ordered(NOW, Some(SidebarGroupBy::Project), SidebarSort::Priority, &[], &[]);
    let mut agents = grouping_fixture(NOW);
    let empty = StrSet::new();
    order_agents(
        &mut agents,
        Some(SidebarGroupBy::Project),
        SidebarSort::Priority,
        NOW + 30,
        &empty,
        &empty,
        false,
    );
    assert_eq!(order(&agents), first);
}

#[test]
fn groups_with_no_live_work_sort_below_the_rest() {
    // "alpha" holds one agent that has been quiet for hours, "zed" one
    // that is working, so alphabetical order alone would bury the live one.
    let mut working = grouped_agent("zed", "s", 2, 5, NOW);
    working.status = Some(AgentStatus::Working);
    let quiet = grouped_agent("alpha", "s", 1, 10_000, NOW);
    let empty = StrSet::new();

    let mut agents = vec![quiet.clone(), working.clone()];
    order_agents(
        &mut agents,
        Some(SidebarGroupBy::Project),
        SidebarSort::Priority,
        NOW,
        &empty,
        &empty,
        true,
    );
    assert_eq!(order(&agents), ["%2", "%1"]);

    // Without collapsing, groups stay strictly alphabetical.
    let mut agents = vec![quiet, working];
    order_agents(
        &mut agents,
        Some(SidebarGroupBy::Project),
        SidebarSort::Priority,
        NOW,
        &empty,
        &empty,
        false,
    );
    assert_eq!(order(&agents), ["%1", "%2"]);
}

#[test]
fn group_label_falls_back_when_the_session_is_empty() {
    let mut a = agent("/tmp/api__worktrees/w1");
    a.session = String::new();
    assert_eq!(group_label(&a, SidebarGroupBy::Session), UNKNOWN_GROUP_LABEL);
    assert_eq!(group_label(&a, SidebarGroupBy::Project), "api");
}

#[test]
fn group_order_is_case_insensitive_with_a_deterministic_tiebreak() {
    let mut upper = grouped_agent("api", "API", 1, 5, NOW);
    upper.session = "API".to_string();
    let mut lower = grouped_agent("api", "api", 2, 5, NOW);
    lower.session = "api".to_string();
    let mut zed = grouped_agent("api", "zed", 3, 5, NOW);
    zed.session = "zed".to_string();
    let mut agents = vec![zed, lower, upper];
    let empty = StrSet::new();
    order_agents(
        &mut agents,
        Some(SidebarGroupBy::Session),
        SidebarSort::Recency,
        NOW,
        &empty,
        &empty,
        false,
    );
    assert_eq!(order(&agents), ["%1", "%2", "%3"]);
}

#[test]
fn newly_registered_agent_sorts_first_by_activity() {
    let now = NOW;
    let mut registered = agent("/repo/new");
    registered.pane_id = "%2".to_string();
    registered.activity_ts = Some(now);

    let mut done = agent("/repo/done");
    done.pane_id = "%1".to_string();
    done.status = Some(AgentStatus::Done);
    done.status_ts = Some(now - 60);
    done.activity_ts = Some(now - 60);

    let snapshot = build(vec![done, registered], StrMap::new(), StrMap::new());
    assert_eq!(snapshot.agents[0].pane_id, "%2");
    assert!(snapshot.agents[0].status.is_none());
    assert!(snapshot.agents[0].status_ts.is_none());
}

#[test]
fn legacy_statusless_registration_uses_updated_time_for_recency() {
    let now = NOW;
    let mut registered = agent("/repo/new");
    registered.pane_id = "%2".to_string();
    registered.updated_ts = Some(now);

    let mut done = agent("/repo/done");
    done.pane_id = "%1".to_string();
    done.status = Some(AgentStatus::Done);
    done.status_ts = Some(now - 60);

    let snapshot = build(vec![done, registered], StrMap::new(), StrMap::new());
    assert_eq!(snapshot.agents[0].pane_id, "%2");
}

#[test]
fn window_index_stamped_from_tmux_state() {
    let agents = vec![agent("/repo")];
    let indexes = map_of([("%1", 4u32)]);
    let snapshot = build_snapshot(SnapshotInputs { agents, pane_window_indexes: indexes, ..inputs() }, NOW);
    assert_eq!(snapshot.agents[0].window_index, Some(4));

    // A pane missing from the lookup clears any stale index.
    let mut stale = agent("/repo");
    stale.window_index = Some(9);
    let snapshot = build_with_checks(vec![stale], StrMap::new(), StrMap::new(), StrMap::new());
    assert_eq!(snapshot.agents[0].window_index, None);
}

#[test]
fn window_sort_orders_by_index_not_recency() {
    let mut a = agent("/repo/a");
    a.pane_id = "%1".to_string();
    a.status_ts = Some(1); // oldest — recency sort would put it last
    let mut b = agent("/repo/b");
    b.pane_id = "%2".to_string();
    b.status_ts = Some(999);
    let mut c = agent("/repo/c");
    c.pane_id = "%3".to_string();
    c.status_ts = Some(500);
    let indexes = map_of([("%1", 2u32), ("%2", 7u32)]);
    let snapshot = build_snapshot(
        SnapshotInputs {
            agents: vec![b, c, a],
            pane_window_indexes: indexes,
            sort: SidebarSort::Window,
            ..inputs()
        },
        NOW,
    );
    let order: Vec<_> = snapshot.agents.iter().map(|a| a.pane_id.clone()).collect();
    assert_eq!(order, vec!["%1", "%2", "%3"]); // idx 2, idx 7, unresolved
}

fn on_branch(branch: &str, base: &str) -> GitStatus {
    GitStatus { branch: Some(branch.to_string()), base_branch: base.to_string(), ..Default::default() }
}

#[test]
fn pr_statuses_exclude_main_branch_paths() {
    let snapshot = build(
        vec![agent("/repo")],
        map_of([("/repo", on_branch("main", "main"))]),
        map_of([("/repo", pr_entry("main", 10757))]),
    );

    assert!(!snapshot.pr_statuses.contains_key("/repo"));
}

#[test]
fn check_statuses_include_main_branch_paths() {
    let snapshot = build_with_checks(
        vec![agent("/repo")],
        map_of([("/repo", on_branch("main", "main"))]),
        StrMap::new(),
        map_of([("/repo", check_entry("main"))]),
    );

    assert!(snapshot.check_statuses.contains_key("/repo"));
}

#[test]
fn check_statuses_exclude_mismatched_branch() {
    let snapshot = build_with_checks(
        vec![agent("/repo")],
        map_of([("/repo", on_branch("feature-b", ""))]),
        StrMap::new(),
        map_of([("/repo", check_entry("feature-a"))]),
    );

    assert!(!snapshot.check_statuses.contains_key("/repo"));
}

#[test]
fn pr_statuses_keep_feature_branch_paths() {
    let snapshot = build(
        vec![agent("/repo")],
        map_of([("/repo", on_branch("feature", ""))]),
        map_of([("/repo", pr_entry("feature", 123))]),
    );

    assert_eq!(snapshot.pr_statuses.get("/repo").map(|pr| pr.number), Some(123));
}

#[test]
fn pr_statuses_exclude_master_branch_paths() {
    let snapshot = build(
        vec![agent("/repo")],
        map_of([("/repo", on_branch("master", "master"))]),
        map_of([("/repo", pr_entry("master", 10757))]),
    );

    assert!(!snapshot.pr_statuses.contains_key("/repo"));
}

#[test]
fn pr_statuses_exclude_mismatched_branch() {
    let snapshot = build(
        vec![agent("/repo")],
        map_of([("/repo", on_branch("feature-b", ""))]),
        map_of([("/repo", pr_entry("feature-a", 123))]),
    );

    assert!(!snapshot.pr_statuses.contains_key("/repo"));
}

#[test]
fn pr_statuses_exclude_missing_branch() {
    let snapshot = build(
        vec![agent("/repo")],
        map_of([("/repo", GitStatus::default())]),
        map_of([("/repo", pr_entry("feature", 123))]),
    );

    assert!(!snapshot.pr_statuses.contains_key("/repo"));
}

#[test]
fn pr_statuses_exclude_stale_paths() {
    let snapshot = build(
        vec![agent("/repo")],
        map_of([("/repo", on_branch("feature", "")), ("/old-repo", on_branch("feature", ""))]),
        map_of([("/repo", pr_entry("feature", 1)), ("/old-repo", pr_entry("feature", 2))]),
    );

    assert!(snapshot.pr_statuses.contains_key("/repo"));
    assert!(!snapshot.pr_statuses.contains_key("/old-repo"));
}

#[test]
fn a_status_that_tmux_cleared_is_not_shown() {
    let mut done = agent("/repo");
    done.status = Some(AgentStatus::Done);
    let cleared = build_snapshot(
        SnapshotInputs { agents: vec![done.clone()], tmux_statuses: map_of([("%1", None)]), ..inputs() },
        NOW,
    );
    assert_eq!(cleared.agents[0].status, None);
    let kept = build_snapshot(
        SnapshotInputs { agents: vec![done], tmux_statuses: map_of([("%1", Some("d".to_string()))]), ..inputs() },
        NOW,
    );
    assert_eq!(kept.agents[0].status, Some(AgentStatus::Done));
}

#[test]
fn dormant_groups_hold_no_live_work() {
    let mut working = grouped_agent("zed", "s", 2, 5, NOW);
    working.status = Some(AgentStatus::Working);
    let quiet = grouped_agent("alpha", "s", 1, 10_000, NOW);
    let groups = dormant_groups(
        &vec![quiet, working],
        Some(SidebarGroupBy::Project),
        NOW,
        &StrSet::new(),
        &StrSet::new(),
    );
    assert!(groups.contains("alpha"));
    assert!(!groups.contains("zed"));
}

#[test]
fn the_order_does_not_depend_on_how_the_agents_came() {
    let none = set_of(&[]);
    for sort in [SidebarSort::Recency, SidebarSort::Priority, SidebarSort::Window] {
        for group_by in [None, Some(SidebarGroupBy::Project)] {
            let mut forth = grouping_fixture(NOW);
            let mut back = grouping_fixture(NOW);
            back.reverse();
            order_agents(&mut forth, group_by, sort, NOW, &none, &none, true);
            order_agents(&mut back, group_by, sort, NOW, &none, &none, true);
            assert_eq!(order(&forth), order(&back));
        }
    }
}
