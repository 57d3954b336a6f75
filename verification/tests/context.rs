use sidebar::app::{ResolvedAgentIcons, SidebarApp, SidebarLayoutMode};
use sidebar::client::ClientSetup;
use sidebar::collections::StrMap;
use sidebar::context::{
    agent_is_stale, build_pane_title, effective_agent_kind, format_compact_elapsed, is_agent_stale,
    is_hostname_title_with, label_names, resolve_agent_icon, resolve_agent_icon_color, resolve_agent_label,
    should_dim_agent, AgentKind, RowContext, RowFacts,
};
use sidebar::model::{
    AgentPane, AgentStatus, CheckState, CheckSummary, GitStatus, PrSummary, SidebarPosition, StatusIcons,
};
use sidebar::style::{Color, Palette};
use sidebar::templates::{ParsedTemplates, Token, TokenId, TemplateStrings};
use sidebar::ui::Glyphs;

/// The kinds that the tests know.
fn known(name: &str) -> Option<AgentKind> {
    let (label, icon, color) = match name {
        "kiro-cli" => ("Kiro", "K", None),
        "opencode" => ("OpenCode", "O", None),
        "gemini" => ("Gemini", "G", Some(Color::Rgb(0x42, 0x85, 0xf4))),
        "agy" => ("Antigravity", "⋂", None),
        _ => return None,
    };
    Some(AgentKind { name: name.to_string(), label: label.to_string(), icon: icon.to_string(), color })
}

fn kind(agent_kind: Option<&str>, agent_command: Option<&str>) -> Option<AgentKind> {
    effective_agent_kind(agent_kind.and_then(known), agent_command.and_then(known))
}

fn icons() -> ResolvedAgentIcons {
    ResolvedAgentIcons { icons: StrMap::new(), colors: StrMap::new() }
}

fn glyphs() -> Glyphs {
    Glyphs {
        nerd_font: false,
        diff: "*".to_string(),
        rebase: "R".to_string(),
        conflict: "!".to_string(),
        check_success: "+".to_string(),
        check_failure: "x".to_string(),
        spinner: vec!["-".to_string(), "|".to_string()],
    }
}

fn palette() -> Palette {
    Palette {
        text: Color::Indexed(1),
        dimmed: Color::Indexed(2),
        border: Color::Indexed(3),
        header: Color::Indexed(4),
        success: Color::Indexed(5),
        danger: Color::Indexed(6),
        warning: Color::Indexed(7),
        accent: Color::Indexed(8),
        info: Color::Indexed(9),
        current_worktree_fg: Color::Indexed(10),
        current_row_bg: Color::Indexed(11),
        highlight_row_bg: Color::Indexed(12),
        help_border: Color::Indexed(13),
        help_muted: Color::Indexed(14),
        group_band_bg: Color::Indexed(15),
    }
}

fn app() -> SidebarApp {
    let line = || vec![Token::Field(TokenId::Primary)];
    let mut app = SidebarApp::new_client(ClientSetup {
        palette: palette(),
        status_icons: StatusIcons {
            working: None,
            waiting: "waiting".to_string(),
            custom_waiting: false,
            done: "done".to_string(),
            custom_done: false,
        },
        agent_icons: icons(),
        window_prefix: "wm-".to_string(),
        group_by: None,
        dim_stale: true,
        position: SidebarPosition::Left,
        horizontal_item_width: 24,
        template_config: None,
        template_strings: TemplateStrings {
            compact: "{primary}".to_string(),
            tiles: vec!["{primary}".to_string()],
            horizontal: vec!["{primary}".to_string()],
            group_header: "{group}".to_string(),
        },
        templates: ParsedTemplates {
            compact: line(),
            tiles: vec![line()],
            horizontal: vec![line()],
            group_header: vec![Token::Field(TokenId::Group)],
        },
        template_error: None,
        host_identity: None,
        hint_pending: false,
        window_width: None,
        window_height: None,
    });
    app.has_loaded_snapshot = true;
    app.layout_mode = SidebarLayoutMode::Compact;
    app
}

fn facts(primary: &str, secondary: &str) -> RowFacts {
    RowFacts {
        primary: primary.to_string(),
        secondary: secondary.to_string(),
        worktree: "w".to_string(),
        title: None,
        hostname: None,
        kind: None,
        coded_icon: vec![],
        shows_checks: false,
        pr_color: None,
    }
}

fn test_agent() -> AgentPane {
    AgentPane {
        session: "s".to_string(),
        window_name: "w".to_string(),
        pane_id: "%1".to_string(),
        window_id: "@1".to_string(),
        window_index: None,
        path: "/tmp/x".to_string(),
        project: "x".to_string(),
        pane_title: None,
        status: None,
        status_ts: None,
        activity_ts: None,
        updated_ts: None,
        window_cmd: None,
        agent_command: None,
        agent_kind: None,
    }
}

#[test]
fn missing_activity_timestamp_is_stale() {
    assert!(is_agent_stale(None, None, 100, 60, false, false));
}

#[test]
fn active_statuses_are_not_stale_without_activity_timestamp() {
    assert!(!is_agent_stale(None, Some(AgentStatus::Working), 100, 60, false, false));
    assert!(!is_agent_stale(None, Some(AgentStatus::Waiting), 100, 60, false, false));
}

#[test]
fn stale_rendering_can_be_disabled() {
    assert!(should_dim_agent(true, true));
    assert!(!should_dim_agent(false, true));
    assert!(!should_dim_agent(true, false));
}

#[test]
fn sleeping_agent_is_stale_even_with_active_status() {
    assert!(is_agent_stale(Some(100), Some(AgentStatus::Working), 100, 60, true, false));
}

#[test]
fn interrupted_active_agent_can_become_stale() {
    assert!(is_agent_stale(Some(100), Some(AgentStatus::Working), 500, 60, false, true));
    assert!(!is_agent_stale(Some(480), Some(AgentStatus::Working), 500, 60, false, true));
}

#[test]
fn activity_falls_back_to_the_status() {
    let mut agent = test_agent();
    agent.status = Some(AgentStatus::Done);
    agent.status_ts = Some(100);
    assert!(!agent_is_stale(&agent, 160, 60, false, false));
    assert!(agent_is_stale(&agent, 161, 60, false, false));
    // A clock that runs backwards is no silence.
    assert!(!agent_is_stale(&agent, 50, 60, false, false));
}

#[test]
fn cached_kind_resolves_label_without_command() {
    // Command is a version string that tells no kind; the recorded kind must drive the label.
    assert_eq!(resolve_agent_label(kind(Some("gemini"), Some("2.1.118")).as_ref()), "Gemini");
}

#[test]
fn cached_kind_renders_friendly_kiro_label() {
    assert_eq!(resolve_agent_label(kind(Some("kiro-cli"), None).as_ref()), "Kiro");
}

#[test]
fn cached_kind_renders_friendly_opencode_label() {
    assert_eq!(resolve_agent_label(kind(Some("opencode"), None).as_ref()), "OpenCode");
}

#[test]
fn unknown_cached_kind_falls_back_to_command() {
    // A malformed record must not shadow a command that tells the kind.
    let kind = kind(Some("not-a-profile"), Some("gemini"));
    assert_eq!(resolve_agent_label(kind.as_ref()), "Gemini");
    assert_eq!(resolve_agent_icon(kind.as_ref(), &icons()), "G");
}

#[test]
fn no_cache_falls_back_to_today_behavior() {
    let kind = kind(None, Some("gemini"));
    assert_eq!(resolve_agent_label(kind.as_ref()), "Gemini");
    assert_eq!(resolve_agent_icon(kind.as_ref(), &icons()), "G");
}

#[test]
fn antigravity_uses_curved_default_icon() {
    let kind = kind(None, Some("agy"));
    assert_eq!(resolve_agent_label(kind.as_ref()), "Antigravity");
    assert_eq!(resolve_agent_icon(kind.as_ref(), &icons()), "⋂");
}

#[test]
fn the_recorded_kind_goes_before_the_command() {
    assert_eq!(resolve_agent_label(kind(Some("gemini"), Some("opencode")).as_ref()), "Gemini");
    assert_eq!(resolve_agent_label(kind(None, None).as_ref()), "");
    assert_eq!(resolve_agent_icon(None, &icons()), "");
}

#[test]
fn custom_icon_override_still_honored_with_cached_kind() {
    let mut icons = icons();
    icons.icons.insert("gemini".to_string(), "X".to_string());
    assert_eq!(resolve_agent_icon(kind(Some("gemini"), Some("2.1.118")).as_ref(), &icons), "X");
}

#[test]
fn a_kind_has_a_color_of_its_own() {
    assert_eq!(
        resolve_agent_icon_color(kind(Some("gemini"), None).as_ref(), &icons()),
        Some(Color::Rgb(0x42, 0x85, 0xf4))
    );
}

#[test]
fn user_color_override_wins_over_default() {
    let mut icons = icons();
    icons.colors.insert("gemini".to_string(), Some(Color::Rgb(0, 255, 0)));
    assert_eq!(
        resolve_agent_icon_color(kind(Some("gemini"), None).as_ref(), &icons),
        Some(Color::Rgb(0, 255, 0))
    );
}

#[test]
fn explicit_empty_color_disables_default() {
    let mut icons = icons();
    icons.colors.insert("gemini".to_string(), None);
    assert_eq!(resolve_agent_icon_color(kind(Some("gemini"), None).as_ref(), &icons), None);
}

#[test]
fn unknown_agent_has_no_color() {
    assert_eq!(resolve_agent_icon_color(None, &icons()), None);
}

#[test]
fn hostname_pane_title_is_noise() {
    assert!(is_hostname_title_with("framework", Some("framework")));
    assert!(!is_hostname_title_with("framework", Some("other")));
    assert!(!is_hostname_title_with("framework", None));
    assert!(!is_hostname_title_with("framework", Some("")));
}

#[test]
fn titles_that_repeat_a_label_are_dropped() {
    let title = |t| build_pane_title(Some(t), "auth", "api", Some("framework"));
    assert_eq!(title("Fixing tests").as_deref(), Some("Fixing tests"));
    assert_eq!(title("auth"), None);
    assert_eq!(title("api"), None);
    assert_eq!(title("framework"), None);
    assert_eq!(build_pane_title(None, "auth", "api", None), None);
}

#[test]
fn names_of_the_programs_own_windows_label_nothing() {
    let mut agent = test_agent();
    agent.window_name = "wm-feature".to_string();
    assert_eq!(label_names(&agent, "wm-"), ("s".to_string(), String::new()));
    agent.session = "wm-feature".to_string();
    agent.window_name = "review".to_string();
    assert_eq!(label_names(&agent, "wm-"), (String::new(), "review".to_string()));
}

#[test]
fn elapsed_times_are_short() {
    let cases = [
        (0, "0:00"),
        (59, "0:59"),
        (60, "1:00"),
        (3599, "59:59"),
        (3600, "1h"),
        (7200, "2h"),
        (86_399, "23h"),
        (86_400, "1d"),
    ];
    for (secs, text) in cases {
        assert_eq!(format_compact_elapsed(secs), text, "{secs}");
    }
}

#[test]
fn newly_registered_agent_is_fresh_without_elapsed_status_time() {
    let mut app = app();
    app.stale_threshold_secs = 60;
    let mut agent = test_agent();
    agent.activity_ts = Some(100);
    let pane_suffixes = vec![String::new()];
    let glyphs = glyphs();

    let fresh = RowContext::build(&app, &agent, 0, &pane_suffixes, facts("w", "x"), &glyphs, 160, None);
    assert!(!fresh.is_stale);
    assert!(fresh.elapsed.is_empty());

    let stale = RowContext::build(&app, &agent, 0, &pane_suffixes, facts("w", "x"), &glyphs, 161, None);
    assert!(stale.is_stale);
    assert!(stale.elapsed.is_empty());
}

#[test]
fn row_context_keeps_stale_done_agent_colored_when_dimming_is_disabled() {
    let mut app = app();
    app.dim_stale = false;
    let mut agent = test_agent();
    agent.status = Some(AgentStatus::Done);
    agent.status_ts = Some(1);
    let pane_suffixes = vec![String::new()];
    let glyphs = glyphs();
    let ctx = RowContext::build(&app, &agent, 0, &pane_suffixes, facts("w", "x"), &glyphs, 7200, None);

    assert!(!ctx.is_stale);
    assert_eq!(ctx.status_color, app.palette.success);
}

#[test]
fn a_row_takes_what_is_known_of_its_worktree() {
    let mut app = app();
    app.git_statuses.insert(
        "/tmp/x".to_string(),
        GitStatus { branch: Some("topic".to_string()), ..Default::default() },
    );
    app.host_agent_idx = Some(0);
    app.jump_numbers = vec![Some(3)];
    app.agent_icons.icons.insert("gemini".to_string(), "X".to_string());
    let agent = test_agent();
    let pane_suffixes = vec!["(1)".to_string()];
    let glyphs = glyphs();
    let mut facts = facts("w", "x");
    facts.title = Some("Fixing tests".to_string());
    facts.kind = known("gemini");
    let ctx = RowContext::build(&app, &agent, 0, &pane_suffixes, facts, &glyphs, 100, Some(0));

    assert!(ctx.is_active && ctx.is_selected);
    assert_eq!(ctx.resolve(TokenId::GitBranch), "topic");
    assert_eq!(ctx.resolve(TokenId::Idx), "4");
    assert_eq!(ctx.resolve(TokenId::PaneSuffix), "(1)");
    assert_eq!(ctx.resolve(TokenId::PaneTitle), "Fixing tests");
    assert_eq!(ctx.resolve(TokenId::AgentIcon), "X");
    assert_eq!(ctx.resolve(TokenId::AgentLabel), "Gemini");
    assert_eq!(ctx.resolve(TokenId::Project), "x");
    assert_eq!(ctx.resolve(TokenId::Worktree), "w");
}

fn make_context<'a>(
    agent: &'a AgentPane,
    git: Option<&'a GitStatus>,
    idx: usize,
    palette: &'a Palette,
    glyphs: &'a Glyphs,
) -> RowContext<'a> {
    make_context_with_pr(agent, git, None, None, idx, palette, glyphs)
}

fn make_context_with_pr<'a>(
    agent: &'a AgentPane,
    git: Option<&'a GitStatus>,
    pr: Option<&'a PrSummary>,
    checks: Option<&'a CheckSummary>,
    idx: usize,
    palette: &'a Palette,
    glyphs: &'a Glyphs,
) -> RowContext<'a> {
    RowContext {
        agent,
        primary: String::new(),
        secondary: String::new(),
        template_worktree: String::new(),
        project: String::new(),
        pane_suffix: String::new(),
        elapsed: String::new(),
        status_icon_spans: vec![],
        status_color: Color::Reset,
        pane_title: None,
        git_status: git,
        pr_summary: pr,
        pr_color: None,
        check_summary: checks,
        shows_checks: checks.is_some(),
        is_stale: false,
        is_active: false,
        is_selected: false,
        palette,
        glyphs,
        agent_icon: String::new(),
        agent_icon_color: None,
        agent_label: String::new(),
        idx: Some(idx),
        spinner_frame: 0,
    }
}

#[test]
fn resolve_idx_is_one_based() {
    let (agent, p, g) = (test_agent(), palette(), glyphs());
    assert_eq!(make_context(&agent, None, 0, &p, &g).resolve(TokenId::Idx), "1");
    assert_eq!(make_context(&agent, None, 9, &p, &g).resolve(TokenId::Idx), "10");
}

#[test]
fn resolve_window_index_empty_when_unset() {
    let (mut agent, p, g) = (test_agent(), palette(), glyphs());
    assert_eq!(make_context(&agent, None, 0, &p, &g).resolve(TokenId::WindowIndex), "");
    agent.window_index = Some(3);
    assert_eq!(make_context(&agent, None, 0, &p, &g).resolve(TokenId::WindowIndex), "3");
}

#[test]
fn resolve_jump_key_caps_at_nine() {
    let (agent, p, g) = (test_agent(), palette(), glyphs());
    assert_eq!(make_context(&agent, None, 0, &p, &g).resolve(TokenId::JumpKey), "M-1");
    assert_eq!(make_context(&agent, None, 8, &p, &g).resolve(TokenId::JumpKey), "M-9");
    assert_eq!(make_context(&agent, None, 9, &p, &g).resolve(TokenId::JumpKey), "");
}

#[test]
fn resolve_status_label_capitalised() {
    let (mut agent, p, g) = (test_agent(), palette(), glyphs());
    agent.status = Some(AgentStatus::Working);
    assert_eq!(make_context(&agent, None, 0, &p, &g).resolve(TokenId::StatusLabel), "Working");
    agent.status = Some(AgentStatus::Waiting);
    assert_eq!(make_context(&agent, None, 0, &p, &g).resolve(TokenId::StatusLabel), "Waiting");
    agent.status = Some(AgentStatus::Done);
    assert_eq!(make_context(&agent, None, 0, &p, &g).resolve(TokenId::StatusLabel), "Done");
    agent.status = None;
    assert_eq!(make_context(&agent, None, 0, &p, &g).resolve(TokenId::StatusLabel), "");
}

#[test]
fn resolve_git_ahead_behind() {
    let (agent, p, g) = (test_agent(), palette(), glyphs());
    // No git status -> empty.
    assert_eq!(make_context(&agent, None, 0, &p, &g).resolve(TokenId::GitAhead), "");
    assert_eq!(make_context(&agent, None, 0, &p, &g).resolve(TokenId::GitBehind), "");

    let status = GitStatus { has_upstream: true, ahead: 3, behind: 0, ..Default::default() };
    let ctx = make_context(&agent, Some(&status), 0, &p, &g);
    assert_eq!(ctx.resolve(TokenId::GitAhead), "\u{2191}3");
    assert_eq!(ctx.resolve(TokenId::GitBehind), "");

    let status = GitStatus { has_upstream: true, ahead: 0, behind: 5, ..Default::default() };
    let ctx = make_context(&agent, Some(&status), 0, &p, &g);
    assert_eq!(ctx.resolve(TokenId::GitAhead), "");
    assert_eq!(ctx.resolve(TokenId::GitBehind), "\u{2193}5");

    // No upstream: even nonzero counts collapse to empty.
    let status = GitStatus { has_upstream: false, ahead: 3, behind: 5, ..Default::default() };
    let ctx = make_context(&agent, Some(&status), 0, &p, &g);
    assert_eq!(ctx.resolve(TokenId::GitAhead), "");
    assert_eq!(ctx.resolve(TokenId::GitBehind), "");
}

#[test]
fn resolve_git_dirty_conflict_glyphs() {
    let (agent, p, g) = (test_agent(), palette(), glyphs());

    let clean = GitStatus::default();
    let ctx = make_context(&agent, Some(&clean), 0, &p, &g);
    assert_eq!(ctx.resolve(TokenId::GitDirty), "");
    assert_eq!(ctx.resolve(TokenId::GitConflict), "");

    let dirty = GitStatus { is_dirty: true, has_conflict: true, ..Default::default() };
    let ctx = make_context(&agent, Some(&dirty), 0, &p, &g);
    assert_eq!(ctx.resolve(TokenId::GitDirty), g.diff);
    assert_eq!(ctx.resolve(TokenId::GitConflict), g.conflict);
}

#[test]
fn resolve_git_branch() {
    let (agent, p, g) = (test_agent(), palette(), glyphs());
    let status = GitStatus { branch: Some("feature/x".to_string()), ..Default::default() };
    assert_eq!(make_context(&agent, Some(&status), 0, &p, &g).resolve(TokenId::GitBranch), "feature/x");
    // Detached HEAD -> empty.
    let detached = GitStatus::default();
    assert_eq!(make_context(&agent, Some(&detached), 0, &p, &g).resolve(TokenId::GitBranch), "");
    // No git status -> empty.
    assert_eq!(make_context(&agent, None, 0, &p, &g).resolve(TokenId::GitBranch), "");
}

#[test]
fn resolve_pr_number_and_status() {
    let (agent, p, g) = (test_agent(), palette(), glyphs());
    let pr = PrSummary {
        number: 123,
        title: "Add thing".to_string(),
        state: "OPEN".to_string(),
        is_draft: false,
        checks: Some(CheckState::Success),
        check_meta: None,
        url: None,
    };
    let checks = CheckSummary { state: CheckState::Success, meta: None };
    let ctx = make_context_with_pr(&agent, None, Some(&pr), Some(&checks), 0, &p, &g);
    assert_eq!(ctx.resolve(TokenId::PrNumber), "#123");
    assert_eq!(ctx.resolve(TokenId::PrChecks), "");
    assert!(ctx.natural_width(TokenId::PrChecks) > 0);
}

#[test]
fn resolve_pr_tokens_empty_without_pr() {
    let (agent, p, g) = (test_agent(), palette(), glyphs());
    let ctx = make_context(&agent, None, 0, &p, &g);
    assert_eq!(ctx.resolve(TokenId::PrNumber), "");
    assert_eq!(ctx.natural_width(TokenId::PrChecks), 0);
}

#[test]
fn intrinsic_style_assigns_palette_colors() {
    let (agent, p, g) = (test_agent(), palette(), glyphs());
    let ctx = make_context(&agent, None, 0, &p, &g);
    assert_eq!(ctx.intrinsic_style(TokenId::GitAhead).fg, Some(p.success));
    assert_eq!(ctx.intrinsic_style(TokenId::GitBehind).fg, Some(p.danger));
    assert_eq!(ctx.intrinsic_style(TokenId::GitConflict).fg, Some(p.danger));
    assert_eq!(ctx.intrinsic_style(TokenId::GitDirty).fg, Some(p.warning));
    assert_eq!(ctx.intrinsic_style(TokenId::Idx).fg, Some(p.dimmed));
    assert_eq!(ctx.intrinsic_style(TokenId::JumpKey).fg, Some(p.dimmed));
}

#[test]
fn intrinsic_style_dims_when_stale() {
    let (agent, p, g) = (test_agent(), palette(), glyphs());
    let mut ctx = make_context(&agent, None, 0, &p, &g);
    ctx.is_stale = true;
    assert_eq!(ctx.intrinsic_style(TokenId::GitAhead).fg, Some(p.dimmed));
    assert_eq!(ctx.intrinsic_style(TokenId::StatusLabel).fg, Some(p.dimmed));
}

#[test]
fn fields_of_git_shrink_to_the_room_they_get() {
    let (agent, p, g) = (test_agent(), palette(), glyphs());
    let status = GitStatus { lines_added: 123, lines_removed: 45, ..Default::default() };
    let ctx = make_context(&agent, Some(&status), 0, &p, &g);
    let text = |width| {
        let (spans, w) = ctx.git_segment_spans(TokenId::GitCommitted, width);
        let text: String = spans.iter().map(|s| s.content.as_str()).collect();
        assert_eq!(text.chars().count(), w);
        text
    };
    assert_eq!(text(80), "+123 -45");
    assert_eq!(text(8), "+123 -45");
    assert_eq!(text(7), "+123");
    assert_eq!(text(3), "-45");
    assert_eq!(text(2), "");
}

#[test]
fn row_context_reuses_names_without_changing_label_or_token_semantics() {
    let mut app = app();
    app.dim_stale = false;
    let glyphs = glyphs();
    let cases = [
        ("session", "wm-feature-auth", ("session", ""), ("feature-auth", "project")),
        ("wm-session-branch", "zsh", ("", "zsh"), ("session-branch", "project")),
        ("team-session", "review", ("team-session", "review"), ("review", "team-session · main")),
        ("default", "bash", ("default", "bash"), ("project", "main")),
    ];
    for (session, window, names, labels) in cases {
        let mut agent = test_agent();
        agent.session = session.to_string();
        agent.window_name = window.to_string();
        let (a, b) = label_names(&agent, app.window_prefix());
        assert_eq!((a.as_str(), b.as_str()), names);

        let facts = RowFacts { worktree: window.to_string(), ..facts(labels.0, labels.1) };
        let ctx = RowContext::build(&app, &agent, 0, &vec![String::new()], facts, &glyphs, 100, None);
        assert_eq!((ctx.primary.as_str(), ctx.secondary.as_str()), labels, "session={session} window={window}");
        assert_eq!(ctx.resolve(TokenId::Worktree), window);
    }

    let mut agent = test_agent();
    agent.window_name = "wm-feature-auth".to_string();
    agent.pane_title = Some("feature-auth".to_string());
    let facts = RowFacts { title: agent.pane_title.clone(), ..facts("feature-auth", "x") };
    let ctx = RowContext::build(&app, &agent, 0, &vec![String::new()], facts, &glyphs, 100, None);
    assert_eq!(ctx.resolve(TokenId::Project), "x");
    assert_eq!(ctx.pane_title, None);
}
