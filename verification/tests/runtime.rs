use sidebar::app::{HostIdentity, SidebarApp};
use sidebar::runtime::{
    advance_refresh_if_due, closing, handle_key_press, handle_resize_event, heed_panes, heed_startup,
    pane_kill_command, process_event, quit_for_last_pane, refresh_interval, sole_pane_is_sidebar, wait, Closing, Effect, Input, Key, LastPaneCheck,
    Mouse, Redraw,
};
use sidebar::client::ClientSetup;
use sidebar::app::{ResolvedAgentIcons, SidebarFilterMode, SidebarLayoutMode};
use sidebar::collections::{PairSet, StrMap, StrSet};
use sidebar::model::{AgentPane, AgentStatus, SidebarGroupBy, SidebarPosition, StatusIcons};
use sidebar::snapshot::SidebarSnapshot;
use sidebar::style::{Color, Palette};
use sidebar::templates::{ParsedTemplates, TemplateError, TemplateStrings, Token, TokenId};

fn palette() -> Palette {
    Palette {
        text: Color::Reset,
        dimmed: Color::Reset,
        border: Color::Reset,
        header: Color::Reset,
        success: Color::Reset,
        danger: Color::Reset,
        warning: Color::Reset,
        accent: Color::Reset,
        info: Color::Reset,
        current_worktree_fg: Color::Reset,
        current_row_bg: Color::Reset,
        highlight_row_bg: Color::Reset,
        help_border: Color::Reset,
        help_muted: Color::Reset,
        group_band_bg: Color::Reset,
    }
}

fn test_app() -> SidebarApp {
    let primary = || vec![Token::Field(TokenId::Primary)];
    SidebarApp::new_client(ClientSetup {
        palette: palette(),
        status_icons: StatusIcons {
            working: None,
            waiting: "waiting".to_string(),
            custom_waiting: false,
            done: "done".to_string(),
            custom_done: false,
        },
        agent_icons: ResolvedAgentIcons { icons: StrMap::new(), colors: StrMap::new() },
        window_prefix: "wm-".to_string(),
        group_by: None,
        dim_stale: true,
        position: SidebarPosition::Left,
        horizontal_item_width: 24,
        template_config: None,
        template_strings: TemplateStrings {
            compact: "{primary}".to_string(),
            tiles: vec!["{primary}".to_string()],
            horizontal: vec!["{primary}".to_string()],
            group_header: "{group}".to_string(),
        },
        templates: ParsedTemplates {
            compact: primary(),
            tiles: vec![primary()],
            horizontal: vec![primary()],
            group_header: vec![Token::Field(TokenId::Group)],
        },
        template_error: Some(TemplateError { location: String::new(), message: String::new() }),
        host_identity: None,
        hint_pending: false,
        window_width: None,
        window_height: None,
    })
}

fn test_identity() -> HostIdentity {
    HostIdentity {
        session_name: "main".to_string(),
        session_id: "$1".to_string(),
        window_id: "@42".to_string(),
        pane_id: "%12".to_string(),
    }
}

fn agent(pane_id: &str) -> AgentPane {
    AgentPane {
        session: "main".to_string(),
        window_name: "window".to_string(),
        pane_id: pane_id.to_string(),
        window_id: "@1".to_string(),
        window_index: None,
        path: "/tmp/work".to_string(),
        project: "work".to_string(),
        pane_title: None,
        status: Some(AgentStatus::Waiting),
        status_ts: None,
        activity_ts: None,
        updated_ts: None,
        window_cmd: None,
        agent_command: None,
        agent_kind: None,
    }
}

fn app_with(panes: &[&str]) -> SidebarApp {
    let mut app = test_app();
    app.agents = panes.iter().map(|p| agent(p)).collect();
    app.has_loaded_snapshot = true;
    app.rebuild_rows();
    app
}

const SECOND: u64 = 1_000_000_000;

#[test]
fn startup_recheck_exits_without_another_snapshot() {
    let identity = test_identity();
    let startup = 100 * SECOND;
    let grace = 3 * SECOND;
    let mut check = LastPaneCheck::new(startup + grace);
    check.pane_count = Some(1);

    assert_eq!(check.timeout(startup), Some(grace));
    assert!(!check.grace_expired(startup + grace - 1));
    assert!(!check.should_exit(Some(&identity), |_, _| {
        panic!("startup grace must skip live verification")
    }));

    assert_eq!(check.timeout(startup + grace), Some(0));
    assert!(check.grace_expired(startup + grace));
    assert!(check.should_exit(Some(&identity), |window, pane| {
        window == "@42" && pane == "%12"
    }));
    assert_eq!(check.timeout(startup + grace), None);
    assert!(!check.grace_expired(startup + grace + SECOND));
}

#[test]
fn startup_recheck_live_verifies_stale_snapshot_only_once() {
    let identity = test_identity();
    let deadline = 100 * SECOND;
    let mut check = LastPaneCheck::new(deadline);
    check.pane_count = Some(1);
    let mut live_checks = 0;

    for now in [deadline, deadline + 60 * SECOND] {
        if check.grace_expired(now) {
            assert!(!check.should_exit(Some(&identity), |_, _| {
                live_checks += 1;
                false
            }));
        }
    }
    assert_eq!(live_checks, 1);
    assert_eq!(check.timeout(deadline), None);
}

#[test]
fn startup_recheck_uses_latest_snapshot_count() {
    let identity = test_identity();
    let deadline = 100 * SECOND;
    let mut check = LastPaneCheck::new(deadline);
    check.pane_count = Some(1);
    check.pane_count = Some(2);
    assert!(check.grace_expired(deadline));
    assert!(!check.should_exit(Some(&identity), |_, _| {
        panic!("content pane created during grace must skip live verification")
    }));
    assert_eq!(check.timeout(deadline), None);

    // Snapshot-driven checks remain available after the one-shot deadline.
    check.pane_count = Some(1);
    assert!(check.should_exit(Some(&identity), |_, _| true));
}

#[test]
fn last_pane_exit_requires_snapshot_and_live_confirmation() {
    let identity = test_identity();
    let deadline = 100 * SECOND;
    let mut check = LastPaneCheck::new(deadline);
    assert!(check.grace_expired(deadline));

    for count in [None, Some(2)] {
        check.pane_count = count;
        assert!(!check.should_exit(Some(&identity), |_, _| {
            panic!("missing count or multiple panes must skip live verification")
        }));
    }
    check.pane_count = Some(1);
    assert!(!check.should_exit(None, |_, _| {
        panic!("missing identity must skip live verification")
    }));
    assert!(!check.should_exit(Some(&identity), |_, _| false));
    assert!(check.should_exit(Some(&identity), |window, pane| {
        window == "@42" && pane == "%12"
    }));
}

#[test]
fn pane_kill_command_targets_captured_sidebar_pane() {
    assert_eq!(
        pane_kill_command("%12"),
        "sleep 0.05; tmux kill-pane -t '%12' 2>/dev/null || true"
    );
}

#[test]
fn quotes_in_a_pane_id_are_escaped() {
    assert_eq!(
        pane_kill_command("a'b"),
        "sleep 0.05; tmux kill-pane -t 'a'\\''b' 2>/dev/null || true"
    );
}

#[test]
fn sole_pane_confirmation_requires_sidebar_identity() {
    assert!(sole_pane_is_sidebar("%12\n", "%12"));
    assert!(!sole_pane_is_sidebar("%12\n%13\n", "%12"));
    assert!(!sole_pane_is_sidebar("%13\n", "%12"));
    assert!(!sole_pane_is_sidebar("", "%12"));
}

#[test]
fn blank_lines_do_not_count_as_panes() {
    assert!(sole_pane_is_sidebar("\r\n  %12 \r\n\n", "%12"));
}

#[test]
fn resize_requests_full_redraw() {
    let mut app = test_app();
    let mut redraw = Redraw { needs_render: false, needs_clear: false };

    handle_resize_event(&mut app, 120, 3, 200, 1_000, &mut redraw);

    assert!(redraw.needs_render);
    assert!(redraw.needs_clear);
}

#[test]
fn q_q_does_not_quit_sidebar() {
    let mut app = test_app();

    handle_key_press(&mut app, Key::Char('q'), false);
    assert!(app.pending_exit);
    assert!(!app.should_quit);

    handle_key_press(&mut app, Key::Char('q'), false);
    assert!(!app.pending_exit);
    assert!(!app.should_quit);
}

#[test]
fn any_key_closes_the_help_overlay_without_acting() {
    let mut app = test_app();

    handle_key_press(&mut app, Key::Char('?'), false);
    assert!(app.show_help);

    // 'q' would normally ask to quit, but it is spent closing the overlay.
    handle_key_press(&mut app, Key::Char('q'), false);
    assert!(!app.show_help);
    assert!(!app.pending_exit);
}

#[test]
fn y_confirms_pending_exit() {
    let mut app = test_app();

    handle_key_press(&mut app, Key::Char('q'), false);
    handle_key_press(&mut app, Key::Char('y'), false);

    assert!(app.should_quit);
    assert_eq!(app.quit_reason.as_deref(), Some("confirmed user exit"));
}

#[test]
fn control_c_asks_to_exit_and_a_plain_c_does_not() {
    let mut app = test_app();
    handle_key_press(&mut app, Key::Char('c'), false);
    assert!(!app.pending_exit);
    handle_key_press(&mut app, Key::Char('c'), true);
    assert!(app.pending_exit);
    handle_key_press(&mut app, Key::Other, false);
    handle_key_press(&mut app, Key::Esc, false);
    assert!(app.pending_exit);
}

#[test]
fn keys_move_the_selection_and_enter_jumps() {
    let mut app = app_with(&["%1", "%2", "%3"]);
    handle_key_press(&mut app, Key::Char('g'), false);
    assert_eq!(app.list_state.selected, Some(0));
    handle_key_press(&mut app, Key::Char('j'), false);
    handle_key_press(&mut app, Key::Down, false);
    assert_eq!(app.list_state.selected, Some(2));
    handle_key_press(&mut app, Key::Char('k'), false);
    handle_key_press(&mut app, Key::Up, false);
    assert_eq!(app.list_state.selected, Some(0));
    handle_key_press(&mut app, Key::Char('G'), false);
    assert_eq!(app.list_state.selected, Some(2));
    assert!(matches!(handle_key_press(&mut app, Key::Enter, false), Effect::Jump(pane) if pane == "%3"));
}

#[test]
fn keys_ask_for_what_every_sidebar_shares() {
    let mut app = app_with(&["%1"]);
    assert!(matches!(
        handle_key_press(&mut app, Key::Char('v'), false),
        Effect::StoreLayout(SidebarLayoutMode::Compact)
    ));
    assert!(matches!(
        handle_key_press(&mut app, Key::Char('f'), false),
        Effect::StoreFilter(SidebarFilterMode::Session)
    ));
    assert!(matches!(
        handle_key_press(&mut app, Key::Char('t'), false),
        Effect::StoreGrouping(Some(SidebarGroupBy::Project))
    ));
    assert!(matches!(handle_key_press(&mut app, Key::Char('z'), false), Effect::ToggleSleeping));
    assert!(matches!(handle_key_press(&mut app, Key::Char('s'), false), Effect::Nothing));
    app.hint_pending = true;
    assert!(matches!(handle_key_press(&mut app, Key::Char('?'), false), Effect::RecordHint));
    assert!(!app.hint_pending);
}

#[test]
fn a_group_is_folded_and_unfolded_by_its_keys() {
    let mut app = app_with(&["%1", "%2"]);
    app.group_by = Some(SidebarGroupBy::Project);
    app.stale_pane_ids.insert("%2".to_string());
    app.collapse_stale = true;
    app.rebuild_rows();
    handle_key_press(&mut app, Key::Char('g'), false);
    assert!(matches!(
        handle_key_press(&mut app, Key::Char('l'), false),
        Effect::StoreGroups(Some(groups)) if groups == "work"
    ));
    assert!(matches!(handle_key_press(&mut app, Key::Right, false), Effect::Nothing));
    assert!(matches!(handle_key_press(&mut app, Key::Char('h'), false), Effect::StoreGroups(None)));
    assert!(matches!(handle_key_press(&mut app, Key::Left, false), Effect::Nothing));
    assert!(matches!(
        handle_key_press(&mut app, Key::Char('S'), false),
        Effect::StoreGroups(Some(groups)) if groups == "work"
    ));
    assert!(matches!(handle_key_press(&mut app, Key::Char('S'), false), Effect::StoreGroups(None)));
}

#[test]
fn the_mouse_does_nothing_while_an_exit_is_pending() {
    let mut app = app_with(&["%1", "%2"]);
    app.pending_exit = true;
    app.list_state.select(Some(0));
    let mut redraw = Redraw { needs_render: false, needs_clear: false };
    let effect = process_event(&mut app, Input::Mouse(Mouse::ScrollDown), 1, &mut redraw);
    assert!(matches!(effect, Effect::Nothing));
    assert_eq!(app.list_state.selected, Some(0));
    assert_eq!(redraw, Redraw { needs_render: false, needs_clear: false });

    app.pending_exit = false;
    process_event(&mut app, Input::Mouse(Mouse::ScrollDown), 1, &mut redraw);
    assert_eq!(app.list_state.selected, Some(1));
    assert_eq!(redraw, Redraw { needs_render: true, needs_clear: false });
}

#[test]
fn a_click_selects_the_agent_under_it_and_jumps() {
    let mut app = app_with(&["%1", "%2"]);
    app.layout_mode = SidebarLayoutMode::Compact;
    app.list_area.width = 20;
    app.list_area.height = 5;
    let mut redraw = Redraw { needs_render: false, needs_clear: false };
    let effect = process_event(&mut app, Input::Mouse(Mouse::Click { column: 3, row: 1 }), 1, &mut redraw);
    assert!(matches!(effect, Effect::Jump(pane) if pane == "%2"));
    assert_eq!(app.list_state.selected, Some(1));
    let effect = process_event(&mut app, Input::Mouse(Mouse::Click { column: 3, row: 4 }), 1, &mut redraw);
    assert!(matches!(effect, Effect::Nothing));
}

#[test]
fn a_lone_sidebar_quits_in_silence() {
    let mut app = test_app();
    assert_eq!(closing(&app), Closing::Not);
    quit_for_last_pane(&mut app);
    assert_eq!(app.quit_reason.as_deref(), Some("last-pane: sidebar is sole pane in window unknown"));
    assert_eq!(closing(&app), Closing::Alone);

    let mut app = test_app();
    app.host_identity = Some(test_identity());
    quit_for_last_pane(&mut app);
    assert_eq!(app.quit_reason.as_deref(), Some("last-pane: sidebar is sole pane in window @42"));
    app.quit_silent = false;
    assert_eq!(closing(&app), Closing::All);
}

#[test]
fn the_loop_waits_for_the_first_thing_that_is_due() {
    let mut app = app_with(&["%1"]);
    let check = LastPaneCheck::new(3_000);
    let mut started = check;
    assert!(started.grace_expired(3_000));
    assert_eq!(refresh_interval(&app), None);
    assert_eq!(wait(&app, None, 0, &started, 5_000), 3_600_000);
    assert_eq!(wait(&app, None, 0, &check, 1_000), 2_000);

    app.agents[0].status_ts = Some(7);
    let refresh = refresh_interval(&app);
    assert_eq!(refresh, Some(1_000));
    assert_eq!(wait(&app, refresh, 4_600, &started, 5_000), 600);
    app.resize.deadline = Some(5_100);
    assert_eq!(wait(&app, refresh, 4_600, &started, 5_000), 100);
    app.host_window_active = false;
    assert_eq!(refresh_interval(&app), None);
}

#[test]
fn frames_advance_when_they_are_due() {
    let mut app = test_app();
    let mut last = 1_000;
    let mut redraw = Redraw { needs_render: false, needs_clear: false };
    advance_refresh_if_due(&mut app, &mut last, Some(250), 1_249, &mut redraw);
    assert_eq!((app.spinner_frame, last, redraw.needs_render), (0, 1_000, false));
    advance_refresh_if_due(&mut app, &mut last, Some(250), 1_250, &mut redraw);
    assert_eq!((app.spinner_frame, last, redraw.needs_render), (1, 1_250, true));
    app.spinner_frame = 9;
    advance_refresh_if_due(&mut app, &mut last, Some(250), 1_500, &mut redraw);
    assert_eq!(app.spinner_frame, 0);
    advance_refresh_if_due(&mut app, &mut last, None, 9_000, &mut redraw);
    assert_eq!((app.spinner_frame, last), (0, 9_000));
}

fn snapshot_with_panes(count: usize) -> SidebarSnapshot {
    let mut window_pane_counts = StrMap::new();
    window_pane_counts.insert("@42".to_string(), count);
    SidebarSnapshot {
        position: SidebarPosition::Left,
        layout_mode: SidebarLayoutMode::Tiles,
        filter_mode: SidebarFilterMode::All,
        group_by: None,
        expanded_groups: Vec::new(),
        stale_pane_ids: StrSet::new(),
        collapse_stale: false,
        active_windows: PairSet::new(),
        active_pane_ids: StrSet::new(),
        window_pane_counts,
        git_statuses: StrMap::new(),
        pr_statuses: StrMap::new(),
        check_statuses: StrMap::new(),
        interrupted_pane_ids: StrSet::new(),
        sleeping_pane_ids: StrSet::new(),
        agents: Vec::new(),
        config_version: 0,
    }
}

#[test]
fn a_sidebar_that_is_left_alone_closes_once_it_has_started_up() {
    let mut app = test_app();
    app.host_identity = Some(test_identity());
    let mut check = LastPaneCheck::new(3_000);

    // While it starts up, tmux is not even asked.
    assert!(!heed_panes(&mut app, &mut check, &snapshot_with_panes(1), |_, _| unreachable!()));
    assert!(!heed_startup(&mut app, &mut check, 2_999, |_, _| unreachable!()));
    assert_eq!(closing(&app), Closing::Not);

    // tmux may know better than the last snapshot.
    assert!(!heed_startup(&mut app, &mut check, 3_000, |window, pane| {
        assert_eq!((window, pane), ("@42", "%12"));
        false
    }));
    // The deadline passes once.
    assert!(!heed_startup(&mut app, &mut check, 4_000, |_, _| unreachable!()));
    assert!(!heed_panes(&mut app, &mut check, &snapshot_with_panes(2), |_, _| unreachable!()));
    assert!(heed_panes(&mut app, &mut check, &snapshot_with_panes(1), |_, _| true));
    assert_eq!(closing(&app), Closing::Alone);
}
