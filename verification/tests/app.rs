use sidebar::app::{
    confirm_host_identity, host_agent_index, parse_host_identity, AgentIconConfig, HostIdentity, ResolvedAgentIcons, SelectionMode, SidebarApp,
    SidebarFilterMode, SidebarLayoutMode,
};
use sidebar::client::ClientSetup;
use sidebar::collections::{PairSet, StrMap, StrSet};
use sidebar::context::agent_is_stale;
use sidebar::model::{
    AgentPane, AgentStatus, CheckState, CheckSummary, SidebarGroupBy, SidebarPosition, StatusIcons,
};
use sidebar::pointer::{claim_hint_for_this_version, HintRecord, HINT_LIFETIME_SECS};
use sidebar::resize::{ResizeAction, ResizeFacts, ResizeState};
use sidebar::rows::{SidebarRow, STALE_RULE_LABEL};
use sidebar::snapshot::{SidebarSnapshot, STALE_THRESHOLD_SECS};
use sidebar::style::{Color, Palette};
use sidebar::templates::{
    default_grouped_tile_templates, default_horizontal_templates, default_tile_templates, parse_templates,
    resolved_template_strings, try_reparse_templates, validate_group_header_tokens, GroupedTemplatesConfig, LineParse,
    ParseError, ParsedTemplates, TemplateError, TemplateParses, TemplateStrings, TemplatesConfig, Token, TokenId,
    DEFAULT_COMPACT_TEMPLATE, DEFAULT_GROUP_HEADER_TEMPLATE,
};
use sidebar::tick::agent_list;
use sidebar::updates::ConfigSource;

const NOW: u64 = 1_000_000;

// ── Templates ───────────────────────────────────────────────────

const FIELDS: [TokenId; 29] = [
    TokenId::Primary,
    TokenId::Secondary,
    TokenId::Worktree,
    TokenId::Project,
    TokenId::Session,
    TokenId::Window,
    TokenId::WindowIndex,
    TokenId::PaneTitle,
    TokenId::AgentLabel,
    TokenId::StatusIcon,
    TokenId::AgentIcon,
    TokenId::PaneSuffix,
    TokenId::Elapsed,
    TokenId::GitStats,
    TokenId::GitCommitted,
    TokenId::GitUncommitted,
    TokenId::GitRebase,
    TokenId::GitAhead,
    TokenId::GitBehind,
    TokenId::GitDirty,
    TokenId::GitConflict,
    TokenId::GitBranch,
    TokenId::PrNumber,
    TokenId::PrChecks,
    TokenId::StatusLabel,
    TokenId::Group,
    TokenId::GroupCount,
    TokenId::GroupStatus,
    TokenId::Idx,
];

/// A reader of the templates below.
fn parse_line(s: &str) -> LineParse {
    let mut tokens = Vec::new();
    let mut rest = s;
    let mut column = 1;
    while !rest.is_empty() {
        let len = if rest.starts_with('{') {
            let Some(end) = rest.find('}') else {
                return Err(ParseError { message: format!("unclosed brace at column {column}: '{rest}'") });
            };
            let name = &rest[1..end];
            match FIELDS.iter().find(|id| id.name() == name) {
                Some(id) => tokens.push(Token::Field(*id)),
                None if name == "fill" => tokens.push(Token::Fill),
                None => {
                    return Err(ParseError { message: format!("unknown token '{name}' at column {column}") });
                }
            }
            end + 1
        } else if rest.starts_with("#[") {
            let end = rest.find(']').unwrap();
            tokens.push(Token::Style(rest[2..end].to_string()));
            end + 1
        } else {
            let end = rest.find(['{', '#']).unwrap_or(rest.len());
            tokens.push(Token::Literal(rest[..end].to_string()));
            end
        };
        rest = &rest[len..];
        column += len;
    }
    Ok(tokens)
}

fn parses(strings: &TemplateStrings) -> TemplateParses {
    TemplateParses {
        compact: parse_line(&strings.compact),
        tiles: strings.tiles.iter().map(|l| parse_line(l)).collect(),
        horizontal: strings.horizontal.iter().map(|l| parse_line(l)).collect(),
        group_header: parse_line(&strings.group_header),
    }
}

fn defaults() -> ParsedTemplates {
    let all = |lines: Vec<String>| lines.iter().map(|l| parse_line(l).unwrap()).collect();
    ParsedTemplates {
        compact: parse_line(DEFAULT_COMPACT_TEMPLATE).unwrap(),
        tiles: all(default_tile_templates()),
        horizontal: all(default_horizontal_templates()),
        group_header: parse_line(DEFAULT_GROUP_HEADER_TEMPLATE).unwrap(),
    }
}

fn copy(s: &TemplateStrings) -> TemplateStrings {
    TemplateStrings {
        compact: s.compact.clone(),
        tiles: s.tiles.clone(),
        horizontal: s.horizontal.clone(),
        group_header: s.group_header.clone(),
    }
}

fn reparse(templates: &mut ParsedTemplates, current: &mut TemplateStrings, new: TemplateStrings) -> Option<TemplateError> {
    let outcomes = parses(&new);
    try_reparse_templates(templates, current, new, outcomes)
}

fn parsed_for(s: &str) -> ParsedTemplates {
    ParsedTemplates {
        compact: parse_line(s).unwrap(),
        tiles: vec![parse_line(s).unwrap()],
        horizontal: vec![parse_line(s).unwrap()],
        group_header: parse_line(DEFAULT_GROUP_HEADER_TEMPLATE).unwrap(),
    }
}

fn strings_for(s: &str) -> TemplateStrings {
    TemplateStrings {
        compact: s.to_string(),
        tiles: vec![s.to_string()],
        horizontal: vec![s.to_string()],
        group_header: DEFAULT_GROUP_HEADER_TEMPLATE.to_string(),
    }
}

// ── Apps ────────────────────────────────────────────────────────

fn palette() -> Palette {
    Palette {
        text: Color::Reset,
        dimmed: Color::Reset,
        border: Color::Reset,
        header: Color::Reset,
        success: Color::Reset,
        danger: Color::Reset,
        warning: Color::Reset,
        accent: Color::Reset,
        info: Color::Reset,
        current_worktree_fg: Color::Reset,
        current_row_bg: Color::Reset,
        highlight_row_bg: Color::Reset,
        help_border: Color::Reset,
        help_muted: Color::Reset,
        group_band_bg: Color::Reset,
    }
}

fn app() -> SidebarApp {
    let mut app = SidebarApp::new_client(ClientSetup {
        palette: palette(),
        status_icons: StatusIcons {
            working: None,
            waiting: "waiting".to_string(),
            custom_waiting: false,
            done: "done".to_string(),
            custom_done: false,
        },
        agent_icons: ResolvedAgentIcons { icons: StrMap::new(), colors: StrMap::new() },
        window_prefix: "wm-".to_string(),
        group_by: None,
        dim_stale: true,
        position: SidebarPosition::Left,
        horizontal_item_width: 24,
        template_config: None,
        template_strings: strings_for("{primary}"),
        templates: parsed_for("{primary}"),
        template_error: Some(TemplateError { location: String::new(), message: String::new() }),
        host_identity: None,
        hint_pending: false,
        window_width: None,
        window_height: None,
    });
    app.has_loaded_snapshot = true;
    app.layout_mode = SidebarLayoutMode::Compact;
    app
}

fn identity(session: &str, window: &str) -> HostIdentity {
    HostIdentity {
        session_name: session.to_string(),
        session_id: "$1".to_string(),
        window_id: window.to_string(),
        pane_id: "%sidebar".to_string(),
    }
}

/// Applies a snapshot, and reads the templates that the presentation asks for.
fn apply(app: &mut SidebarApp, snap: SidebarSnapshot) {
    app.apply_snapshot(snap);
    if let Some(new) = app.templates_to_parse() {
        let outcomes = parses(&new);
        app.refresh_templates(new, outcomes);
    }
}

#[test]
fn parses_complete_host_identity() {
    let identity = parse_host_identity("main\t$1\t@42\t%94").unwrap();

    assert_eq!(identity.session_name, "main");
    assert_eq!(identity.session_id, "$1");
    assert_eq!(identity.window_id, "@42");
    assert_eq!(identity.pane_id, "%94");
}

#[test]
fn rejects_incomplete_host_identity() {
    assert!(parse_host_identity("main\t$1\t@42").is_none());
    assert!(parse_host_identity("main\t\t@42\t%94").is_none());
}

#[test]
fn default_multiline_templates_show_the_pull_request() {
    assert_eq!(
        default_tile_templates().last().map(String::as_str),
        Some("{pane_title} {fill} {pr_number} {pr_checks}")
    );
    assert_eq!(
        default_horizontal_templates().last().map(String::as_str),
        Some("{pane_title} {fill} {pr_number} {pr_checks}")
    );
}

fn icon(icon: Option<&str>, color: Option<&str>) -> Vec<AgentIconConfig> {
    vec![AgentIconConfig {
        kind: "kiro".to_string(),
        icon: icon.map(str::to_string),
        color: color.map(str::to_string),
    }]
}

#[test]
fn resolved_icons_legacy_string() {
    let r = ResolvedAgentIcons::from_config(&icon(Some("C"), None));
    assert_eq!(r.icons.get("kiro").map(String::as_str), Some("C"));
    assert!(r.colors.is_empty());
}

#[test]
fn resolved_icons_detailed_with_valid_color() {
    let r = ResolvedAgentIcons::from_config(&icon(Some("X"), Some("#00ff00")));
    assert_eq!(r.icons.get("kiro").map(String::as_str), Some("X"));
    assert_eq!(r.colors.get("kiro"), Some(&Some(Color::Rgb(0, 255, 0))));
}

#[test]
fn resolved_icons_blank_color_disables_default() {
    let r = ResolvedAgentIcons::from_config(&icon(None, Some("   ")));
    assert_eq!(r.colors.get("kiro"), Some(&None));
}

#[test]
fn resolved_icons_invalid_color_is_dropped() {
    let r = ResolvedAgentIcons::from_config(&icon(None, Some("not-a-color")));
    // No entry: lookup falls through to the kind's default color at use site.
    assert!(!r.colors.contains_key("kiro"));
}

#[test]
fn resolved_icons_null_variant_is_no_op() {
    let r = ResolvedAgentIcons::from_config(&icon(None, None));
    assert!(r.icons.is_empty());
    assert!(r.colors.is_empty());
}

#[test]
fn colors_are_read_by_name_too() {
    assert_eq!(ResolvedAgentIcons::resolve_color(" light red "), Some(Some(Color::LightRed)));
    assert_eq!(ResolvedAgentIcons::resolve_color("42"), Some(Some(Color::Indexed(42))));
    assert_eq!(ResolvedAgentIcons::kept_color(None), None);
    assert_eq!(ResolvedAgentIcons::kept_color(Some(Color::Blue)), Some(Some(Color::Blue)));
}

#[test]
fn reparse_swaps_templates_on_change() {
    let mut templates = parsed_for("{primary}");
    let mut current = strings_for("{primary}");

    let new = TemplateStrings {
        compact: "{secondary} {fill}".to_string(),
        tiles: vec!["{primary} {fill} {elapsed}".to_string()],
        horizontal: vec!["{secondary} {fill} {git_stats}".to_string()],
        group_header: DEFAULT_GROUP_HEADER_TEMPLATE.to_string(),
    };
    let error = reparse(&mut templates, &mut current, copy(&new));

    assert_eq!(error, None);
    assert_eq!(current, new);
    // 3 tokens: secondary field, literal " ", fill
    assert_eq!(templates.compact.len(), 3);
}

#[test]
fn reparse_keeps_previous_on_compact_parse_error() {
    let original_str = "{primary}".to_string();
    let mut templates = parsed_for(&original_str);
    let original_tokens = templates.compact.clone();
    let mut current = strings_for(&original_str);

    let bad_compact = "{unclosed";
    let mut new = strings_for(&original_str);
    new.compact = bad_compact.to_string();
    let error = reparse(&mut templates, &mut current, new);

    assert_eq!(
        error,
        Some(TemplateError {
            location: "compact".to_string(),
            message: "unclosed brace at column 1: '{unclosed'".to_string(),
        })
    );
    // Templates unchanged
    assert_eq!(templates.compact, original_tokens);
    // But cached strings updated so we don't retry the broken value
    assert_eq!(current.compact, bad_compact);
}

#[test]
fn reparse_keeps_previous_on_tile_parse_error() {
    let mut templates = parsed_for("{primary}");
    let original_tiles = templates.tiles.clone();
    let mut current = strings_for("{primary}");

    let mut new = strings_for("{primary}");
    new.tiles = vec!["{pr_status}".to_string()];
    let error = reparse(&mut templates, &mut current, new);

    assert_eq!(templates.tiles, original_tiles);
    assert_eq!(current.tiles, vec!["{pr_status}".to_string()]);
    assert_eq!(
        error,
        Some(TemplateError {
            location: "tiles[0]".to_string(),
            message: "unknown token 'pr_status' at column 1".to_string(),
        })
    );
}

fn no_templates() -> TemplatesConfig {
    TemplatesConfig { compact: None, tiles: None, horizontal: None, grouped: None }
}

fn no_grouped() -> GroupedTemplatesConfig {
    GroupedTemplatesConfig { header: None, compact: None, tiles: None }
}

#[test]
fn parse_templates_reports_invalid_horizontal_template() {
    let config = TemplatesConfig {
        horizontal: Some(vec!["{primary}".to_string(), "{pr_status}".to_string()]),
        ..no_templates()
    };

    let strings = resolved_template_strings(Some(&config), false);
    let (templates, error) = parse_templates(parses(&strings), defaults());

    assert_eq!(templates.horizontal, defaults().horizontal);
    assert_eq!(
        error,
        Some(TemplateError {
            location: "horizontal[1]".to_string(),
            message: "unknown token 'pr_status' at column 1".to_string(),
        })
    );
}

#[test]
fn a_template_error_names_what_and_where() {
    let error = TemplateError {
        location: "horizontal[1]".to_string(),
        message: "unknown token 'pr_status' at column 1".to_string(),
    };
    assert_eq!(
        error.display_message(),
        "template error: unknown token 'pr_status' at column 1 in horizontal[1]"
    );
}

#[test]
fn parse_templates_reports_first_error() {
    let config = TemplatesConfig {
        compact: Some("{bad_compact}".to_string()),
        tiles: Some(vec!["{pr_status}".to_string()]),
        ..no_templates()
    };

    let strings = resolved_template_strings(Some(&config), false);
    let (_, error) = parse_templates(parses(&strings), defaults());

    assert_eq!(
        error,
        Some(TemplateError {
            location: "compact".to_string(),
            message: "unknown token 'bad_compact' at column 1".to_string(),
        })
    );
}

fn selection_agent(pane_id: &str, window_id: &str) -> AgentPane {
    AgentPane {
        session: "s".to_string(),
        window_name: window_id.to_string(),
        pane_id: pane_id.to_string(),
        window_id: window_id.to_string(),
        window_index: None,
        path: format!("/tmp/{pane_id}"),
        project: "tmp".to_string(),
        pane_title: None,
        status: None,
        status_ts: None,
        activity_ts: None,
        updated_ts: None,
        window_cmd: None,
        agent_command: None,
        agent_kind: None,
    }
}

fn empty_snapshot() -> SidebarSnapshot {
    SidebarSnapshot {
        position: SidebarPosition::Left,
        layout_mode: SidebarLayoutMode::Tiles,
        filter_mode: SidebarFilterMode::All,
        group_by: None,
        expanded_groups: Vec::new(),
        stale_pane_ids: StrSet::new(),
        collapse_stale: false,
        active_windows: PairSet::new(),
        active_pane_ids: StrSet::new(),
        window_pane_counts: StrMap::new(),
        git_statuses: StrMap::new(),
        pr_statuses: StrMap::new(),
        check_statuses: StrMap::new(),
        interrupted_pane_ids: StrSet::new(),
        sleeping_pane_ids: StrSet::new(),
        agents: Vec::new(),
        config_version: 0,
    }
}

fn selection_snapshot(active_pane_ids: &[&str]) -> SidebarSnapshot {
    let mut active_windows = PairSet::new();
    active_windows.insert("s".to_string(), "@host".to_string());
    let mut active = StrSet::new();
    for pane_id in active_pane_ids {
        active.insert(pane_id.to_string());
    }
    SidebarSnapshot {
        active_windows,
        active_pane_ids: active,
        agents: vec![selection_agent("%host-agent", "@host"), selection_agent("%other-agent", "@other")],
        ..empty_snapshot()
    }
}

fn selection_app() -> SidebarApp {
    let mut app = app();
    app.host_identity = Some(identity("s", "@host"));
    apply(&mut app, selection_snapshot(&["%host-agent"]));
    app
}

#[test]
fn static_loaded_sidebar_has_no_periodic_refresh() {
    let app = app();

    assert_eq!(app.refresh_interval(), None);
}

#[test]
fn loading_and_animated_statuses_refresh_four_times_per_second() {
    let mut app = app();
    app.has_loaded_snapshot = false;
    assert_eq!(app.refresh_interval(), Some(250));

    app.has_loaded_snapshot = true;
    let mut agent = selection_agent("%working", "@host");
    agent.status = Some(AgentStatus::Working);
    app.agents.push(agent);
    assert_eq!(app.refresh_interval(), Some(250));

    app.agents.clear();
    app.check_statuses.insert(
        "/tmp/pending".to_string(),
        CheckSummary { state: CheckState::Pending { passed: 1, total: 2 }, meta: None },
    );
    assert_eq!(app.refresh_interval(), Some(250));
}

#[test]
fn elapsed_status_refreshes_once_per_second() {
    let mut app = app();
    let mut agent = selection_agent("%done", "@host");
    agent.status = Some(AgentStatus::Done);
    agent.status_ts = Some(1);
    app.agents.push(agent);

    assert_eq!(app.refresh_interval(), Some(1000));
}

#[test]
fn custom_working_icon_only_needs_elapsed_refresh() {
    let mut app = app();
    app.status_icons.working = Some("working".to_string());
    let mut agent = selection_agent("%working", "@host");
    agent.status = Some(AgentStatus::Working);
    agent.status_ts = Some(1);
    app.agents.push(agent);

    assert_eq!(app.refresh_interval(), Some(1000));
}

#[test]
fn active_agent_pane_restores_follow_host_selection() {
    let mut app = selection_app();
    app.select_index(1);

    apply(&mut app, selection_snapshot(&["%host-agent"]));

    assert_eq!(app.list_state.selected, Some(0));
    assert_eq!(app.selection_mode, SelectionMode::FollowHost);
}

#[test]
fn active_sidebar_pane_preserves_manual_selection() {
    let mut app = selection_app();
    app.select_index(1);

    apply(&mut app, selection_snapshot(&["%sidebar"]));

    assert_eq!(app.list_state.selected, Some(1));
    assert_eq!(app.selection_mode, SelectionMode::Manual);
}

#[test]
fn reparse_updates_valid_sections_when_tile_parse_fails() {
    let mut templates = parsed_for("{primary}");
    let mut current = strings_for("{primary}");

    let new = TemplateStrings {
        compact: "{secondary}".to_string(),
        tiles: vec!["{pr_status}".to_string()],
        horizontal: vec!["{elapsed}".to_string()],
        group_header: DEFAULT_GROUP_HEADER_TEMPLATE.to_string(),
    };
    let error = reparse(&mut templates, &mut current, new);

    assert_eq!(templates.compact, parse_line("{secondary}").unwrap());
    assert_eq!(templates.tiles, vec![parse_line("{primary}").unwrap()]);
    assert_eq!(templates.horizontal, vec![parse_line("{elapsed}").unwrap()]);
    assert_eq!(
        error,
        Some(TemplateError {
            location: "tiles[0]".to_string(),
            message: "unknown token 'pr_status' at column 1".to_string(),
        })
    );
}

// ── Grouping ────────────────────────────────────────────────────

fn agent(pane: &str, project: &str, session: &str) -> AgentPane {
    AgentPane {
        session: session.to_string(),
        window_name: "w".to_string(),
        window_id: "@1".to_string(),
        path: format!("/tmp/{project}__worktrees/{pane}"),
        project: project.to_string(),
        ..selection_agent(pane, "@1")
    }
}

/// A snapshot from a daemon with folding on, which is what publishes the
/// decision to clients.
fn folding_snapshot(group_by: Option<SidebarGroupBy>, agents: Vec<AgentPane>) -> SidebarSnapshot {
    SidebarSnapshot { collapse_stale: true, ..snapshot(group_by, agents) }
}

fn snapshot(group_by: Option<SidebarGroupBy>, agents: Vec<AgentPane>) -> SidebarSnapshot {
    let mut stale_pane_ids = StrSet::new();
    for agent in &agents {
        if agent_is_stale(agent, NOW, STALE_THRESHOLD_SECS, false, false) {
            stale_pane_ids.insert(agent.pane_id.clone());
        }
    }
    SidebarSnapshot { stale_pane_ids, group_by, agents, ..empty_snapshot() }
}

fn grouped_agents() -> Vec<AgentPane> {
    vec![agent("%1", "api", "alpha"), agent("%2", "api", "beta"), agent("%3", "mobile", "alpha")]
}

fn header(label: &str, count: usize) -> SidebarRow {
    SidebarRow::Header { label: label.to_string(), count }
}

#[test]
fn rows_are_the_identity_mapping_without_grouping() {
    let mut app = app();
    apply(&mut app, snapshot(None, grouped_agents()));
    assert_eq!(app.rows, vec![SidebarRow::Agent(0), SidebarRow::Agent(1), SidebarRow::Agent(2)]);
    assert_eq!(app.selected_agent_idx(), Some(0));
}

#[test]
fn grouped_rows_carry_headers_with_counts() {
    let mut app = app();
    apply(&mut app, snapshot(Some(SidebarGroupBy::Project), grouped_agents()));
    assert_eq!(
        app.rows,
        vec![
            header("api", 2),
            SidebarRow::Agent(0),
            SidebarRow::Agent(1),
            header("mobile", 1),
            SidebarRow::Agent(2),
        ]
    );
}

#[test]
fn counts_are_computed_after_the_session_filter() {
    let mut app = app();
    app.host_identity = Some(identity("alpha", "@1"));
    let mut snap = snapshot(Some(SidebarGroupBy::Project), grouped_agents());
    snap.filter_mode = SidebarFilterMode::Session;
    apply(&mut app, snap);

    assert_eq!(
        app.rows,
        vec![header("api", 1), SidebarRow::Agent(0), header("mobile", 1), SidebarRow::Agent(1)]
    );
}

#[test]
fn a_single_remaining_group_still_renders_a_header() {
    let mut app = app();
    apply(&mut app, snapshot(Some(SidebarGroupBy::Session), vec![agent("%1", "api", "alpha")]));
    assert!(matches!(app.rows[0], SidebarRow::Header { .. }));
}

#[test]
fn navigation_and_selection_skip_headers() {
    let mut app = app();
    apply(&mut app, snapshot(Some(SidebarGroupBy::Project), grouped_agents()));

    app.select_first();
    assert_eq!(app.selected_agent_idx(), Some(0));
    assert_eq!(app.list_state.selected, Some(1));

    app.next();
    assert_eq!(app.selected_agent_idx(), Some(1));
    app.next();
    assert_eq!(app.selected_agent_idx(), Some(2));
    assert_eq!(app.list_state.selected, Some(4));
    app.next();
    assert_eq!(app.selected_agent_idx(), Some(0));

    app.previous();
    assert_eq!(app.selected_agent_idx(), Some(2));

    app.select_last();
    assert_eq!(app.selected_agent_idx(), Some(2));
    app.scroll_up();
    assert_eq!(app.selected_agent_idx(), Some(1));
    app.select_index(0);
    assert_eq!(app.selected_agent_idx(), Some(0));
}

#[test]
fn selection_follows_the_pane_across_reorders_and_reapplies() {
    let mut app = app();
    apply(&mut app, snapshot(Some(SidebarGroupBy::Project), grouped_agents()));
    app.select_index(1);
    assert_eq!(app.agents[app.selected_agent_idx().unwrap()].pane_id, "%2");

    // The same agents in a different order keep the selected pane.
    let reordered =
        vec![agent("%2", "api", "beta"), agent("%1", "api", "alpha"), agent("%3", "mobile", "alpha")];
    apply(&mut app, snapshot(Some(SidebarGroupBy::Project), reordered));
    assert_eq!(app.agents[app.selected_agent_idx().unwrap()].pane_id, "%2");

    // Re-applying an unchanged snapshot does not drift the selection.
    apply(&mut app, snapshot(Some(SidebarGroupBy::Project), grouped_agents()));
    assert_eq!(app.agents[app.selected_agent_idx().unwrap()].pane_id, "%2");
}

#[test]
fn rows_list_every_agent_once_in_order() {
    let mut app = app();
    apply(&mut app, snapshot(Some(SidebarGroupBy::Project), grouped_agents()));
    let agents: Vec<usize> = app
        .rows
        .iter()
        .filter_map(|row| match row {
            SidebarRow::Agent(idx) => Some(*idx),
            _ => None,
        })
        .collect();
    assert_eq!(agents, (0..app.agents.len()).collect::<Vec<_>>());
}

#[test]
fn a_disappearing_selected_agent_lands_on_an_agent() {
    let mut app = app();
    apply(&mut app, snapshot(Some(SidebarGroupBy::Project), grouped_agents()));
    app.select_index(2);

    apply(
        &mut app,
        snapshot(
            Some(SidebarGroupBy::Project),
            vec![agent("%1", "api", "alpha"), agent("%2", "api", "beta")],
        ),
    );
    assert!(app.selected_agent_idx().is_some());
    assert!(matches!(app.rows[app.list_state.selected.unwrap()], SidebarRow::Agent(_)));
}

#[test]
fn host_follow_selects_the_host_agents_row() {
    let mut app = app();
    let mut snap = snapshot(Some(SidebarGroupBy::Project), grouped_agents());
    snap.agents[2].window_id = "@host".to_string();
    app.host_identity = Some(identity("alpha", "@host"));
    apply(&mut app, snap);

    assert_eq!(app.host_agent_idx, Some(2));
    assert_eq!(app.selected_agent_idx(), Some(2));
    assert_eq!(app.list_state.selected, Some(4));
}

#[test]
fn top_position_keeps_grouped_order_without_headers() {
    let mut app = app();
    let mut snap = snapshot(Some(SidebarGroupBy::Project), grouped_agents());
    snap.position = SidebarPosition::Top;
    apply(&mut app, snap);

    assert!(app.rows.iter().all(|row| matches!(row, SidebarRow::Agent(_))));
}

#[test]
fn agent_tokens_are_rejected_in_a_group_header() {
    let tokens = parse_line("{group} {fill} {primary}").unwrap();
    let error = validate_group_header_tokens(&tokens).unwrap_err();
    assert_eq!(error.location, "group_header");
    assert!(error.message.contains("unsupported token 'primary'"));

    let valid = parse_line("#[bold]{group} {fill} {group_status} {group_count}").unwrap();
    assert!(validate_group_header_tokens(&valid).is_ok());
}

#[test]
fn the_default_header_asks_only_for_the_name_and_the_count() {
    // `{group_status}` is available but not assumed: it costs columns a
    // narrow sidebar would rather give the label.
    assert_eq!(DEFAULT_GROUP_HEADER_TEMPLATE, "{group} {fill} {group_count}");
}

#[test]
fn a_broken_header_template_keeps_the_previous_one() {
    let mut templates = parsed_for("{primary}");
    let previous = templates.group_header.clone();
    let mut current = strings_for("{primary}");
    let mut new = strings_for("{primary}");
    new.group_header = "{group} {elapsed}".to_string();

    let error = reparse(&mut templates, &mut current, copy(&new));

    assert_eq!(templates.group_header, previous);
    assert_eq!(error.map(|e| e.location), Some("group_header".to_string()));
    // The broken value is cached so it is not retried every snapshot.
    assert_eq!(current, new);
}

/// An agent with recent activity, which is never stale. Fixture agents
/// carry no activity timestamp at all, which counts as stale.
fn active(mut agent: AgentPane) -> AgentPane {
    agent.activity_ts = Some(NOW);
    agent
}

fn stale_mix() -> Vec<AgentPane> {
    vec![agent("%1", "api", "alpha"), agent("%2", "mobile", "alpha"), active(agent("%3", "mobile", "beta"))]
}

#[test]
fn a_flat_list_shows_every_agent_it_carries() {
    let mut app = app();
    apply(
        &mut app,
        folding_snapshot(None, vec![active(agent("%1", "api", "alpha")), agent("%2", "mobile", "beta")]),
    );

    // Every agent is drawn, and a flat list numbers all of them: it has no
    // stale tail to sort them into and no fold to hide them behind.
    assert_eq!(app.rows, vec![SidebarRow::Agent(0), SidebarRow::Agent(1)]);
    assert_eq!(app.jump_numbers, vec![Some(0), Some(1)]);
    app.select_first();
    assert_eq!(app.selected_group(), None);
}

fn folds(row: &SidebarRow) -> bool {
    matches!(row, SidebarRow::StaleTail { .. } | SidebarRow::StaleGroup { .. })
}

#[test]
fn folding_follows_the_daemon_not_this_client() {
    let mut app = app();
    let agents = vec![active(agent("%1", "api", "alpha")), agent("%2", "api", "beta")];

    // A client that folded on its own would hide a row the daemon's pane
    // list still carries.
    app.collapse_stale = true;
    apply(&mut app, snapshot(Some(SidebarGroupBy::Project), agents.clone()));

    assert!(!app.collapse_stale);
    assert!(!app.rows.iter().any(folds));

    apply(&mut app, folding_snapshot(Some(SidebarGroupBy::Project), agents));

    assert!(app.collapse_stale);
    assert!(app.rows.iter().any(folds));
}

#[test]
fn a_rule_marks_where_the_groups_without_live_work_begin() {
    let mut app = app();
    // The daemon sorts groups with no live work last; the client marks
    // where that run begins and folds each of them into one row.
    apply(
        &mut app,
        folding_snapshot(
            Some(SidebarGroupBy::Project),
            vec![active(agent("%1", "api", "alpha")), agent("%2", "mobile", "alpha")],
        ),
    );

    assert_eq!(
        app.rows,
        vec![
            header("api", 1),
            SidebarRow::Agent(0),
            SidebarRow::Rule { label: STALE_RULE_LABEL.to_string() },
            SidebarRow::StaleGroup { label: "mobile".to_string(), count: 1, expanded: false },
        ]
    );
}

#[test]
fn a_groups_stale_agents_fold_behind_one_toggle() {
    let mut app = app();
    apply(
        &mut app,
        folding_snapshot(
            Some(SidebarGroupBy::Project),
            vec![active(agent("%1", "api", "alpha")), agent("%2", "api", "beta"), agent("%3", "api", "beta")],
        ),
    );

    assert_eq!(
        app.rows,
        vec![
            header("api", 3),
            SidebarRow::Agent(0),
            SidebarRow::StaleTail { group: "api".to_string(), count: 2, expanded: false },
        ]
    );

    // Hidden agents keep their indices, so numbering never shifts.
    app.expanded_groups.insert("api".to_string());
    app.rebuild_rows();
    assert_eq!(
        app.rows.last(),
        Some(&SidebarRow::Agent(2)),
        "expanding shows the stale agents under the toggle"
    );
}

#[test]
fn navigation_stops_on_a_toggle_and_skips_what_it_folds() {
    let mut app = app();
    apply(
        &mut app,
        folding_snapshot(
            Some(SidebarGroupBy::Project),
            vec![
                active(agent("%1", "api", "alpha")),
                agent("%2", "api", "beta"),
                active(agent("%3", "mobile", "alpha")),
            ],
        ),
    );

    assert_eq!(app.selected_agent_idx(), Some(0));
    // The folded agent is skipped, but its toggle is reachable.
    app.next();
    assert_eq!(app.selected_agent_idx(), None);
    assert_eq!(app.selected_toggle().as_deref(), Some("api"));
    app.next();
    assert_eq!(app.selected_agent_idx(), Some(2));
    app.next();
    assert_eq!(app.selected_agent_idx(), Some(0));
    app.previous();
    assert_eq!(app.selected_agent_idx(), Some(2));
}

#[test]
fn a_selected_toggle_expands_its_own_group_and_survives_a_snapshot() {
    let mut app = app();
    let agents = vec![active(agent("%1", "api", "alpha")), agent("%2", "api", "beta")];
    apply(&mut app, folding_snapshot(Some(SidebarGroupBy::Project), agents.clone()));

    app.next();
    assert_eq!(app.selected_toggle().as_deref(), Some("api"));
    app.toggle_selected_group();
    assert!(app.expanded_groups.contains("api"));
    assert!(app.rows.contains(&SidebarRow::Agent(1)));

    // A new snapshot, with the daemon echoing the expanded set back, keeps
    // the selection on the toggle rather than dropping it to an agent.
    let mut next = folding_snapshot(Some(SidebarGroupBy::Project), agents);
    next.expanded_groups = vec!["api".to_string()];
    apply(&mut app, next);
    assert_eq!(app.selected_toggle().as_deref(), Some("api"));

    app.set_selected_group_expanded(true);
    assert!(app.expanded_groups.contains("api"), "already open, unchanged");
    app.set_selected_group_expanded(false);
    assert!(!app.expanded_groups.contains("api"));
}

#[test]
fn only_live_agents_answer_to_a_jump_number() {
    let mut app = app();
    apply(
        &mut app,
        folding_snapshot(
            Some(SidebarGroupBy::Project),
            vec![
                active(agent("%1", "api", "alpha")),
                agent("%2", "api", "beta"),
                active(agent("%3", "mobile", "alpha")),
            ],
        ),
    );

    // The stale agent answers to no number, and numbering closes up behind
    // it rather than leaving a gap.
    assert_eq!(app.jump_numbers, vec![Some(0), None, Some(1)]);

    // Unfolding shows the agent without making it a jump target: the
    // hotkeys reach live work, not whatever happens to be on screen.
    app.toggle_group("api");
    assert!(app.rows.contains(&SidebarRow::Agent(1)));
    assert_eq!(app.jump_numbers, vec![Some(0), None, Some(1)]);
}

#[test]
fn the_host_agent_of_a_folded_group_answers_to_no_number() {
    let mut app = app();
    apply(
        &mut app,
        folding_snapshot(
            Some(SidebarGroupBy::Project),
            vec![
                active(agent("%1", "api", "alpha")),
                agent("%2", "api", "beta"),
                active(agent("%3", "mobile", "alpha")),
            ],
        ),
    );

    // This pane shows its own agent inside the folded group, but the
    // published pane list leaves it out, so no number may point at it.
    app.host_agent_idx = Some(1);
    app.rebuild_rows();

    assert!(app.rows.contains(&SidebarRow::Agent(1)));
    assert_eq!(app.jump_numbers, vec![Some(0), None, Some(1)]);
}

#[test]
fn a_collapsed_group_still_shows_the_host_agent() {
    let mut app = app();
    apply(
        &mut app,
        folding_snapshot(
            Some(SidebarGroupBy::Project),
            vec![active(agent("%1", "api", "alpha")), agent("%2", "api", "beta"), agent("%3", "api", "gamma")],
        ),
    );
    assert!(!app.rows.contains(&SidebarRow::Agent(1)));

    app.host_agent_idx = Some(1);
    app.rebuild_rows();

    // Only the host agent surfaces, and the toggle counts what is left.
    assert_eq!(
        app.rows,
        vec![
            header("api", 3),
            SidebarRow::Agent(0),
            SidebarRow::StaleTail { group: "api".to_string(), count: 1, expanded: false },
            SidebarRow::Agent(1),
        ]
    );
}

#[test]
fn a_list_with_no_live_work_at_all_needs_no_rule() {
    let mut app = app();
    apply(&mut app, folding_snapshot(Some(SidebarGroupBy::Project), grouped_agents()));

    assert!(!app.rows.iter().any(|row| matches!(row, SidebarRow::Rule { .. })));
}

#[test]
fn groups_keep_their_alphabetical_order_without_collapsing() {
    let mut app = app();
    apply(&mut app, snapshot(Some(SidebarGroupBy::Project), stale_mix()));

    assert_eq!(
        app.rows,
        vec![
            header("api", 1),
            SidebarRow::Agent(0),
            header("mobile", 2),
            SidebarRow::Agent(1),
            SidebarRow::Agent(2),
        ]
    );
}

#[test]
fn switching_presentation_reresolves_the_templates() {
    let mut app = app();
    let agents = vec![active(agent("%1", "api", "alpha"))];

    apply(&mut app, snapshot(None, agents.clone()));
    assert_eq!(app.current_templates.tiles, default_tile_templates());

    // Grouping is switched at runtime, without a config reload.
    apply(&mut app, snapshot(Some(SidebarGroupBy::Project), agents.clone()));
    assert_eq!(app.current_templates.tiles, default_grouped_tile_templates());

    apply(&mut app, snapshot(None, agents));
    assert_eq!(app.current_templates.tiles, default_tile_templates());
}

#[test]
fn an_override_of_one_template_keeps_the_defaults_for_the_rest() {
    let config = TemplatesConfig {
        grouped: Some(GroupedTemplatesConfig { header: Some("{group}".to_string()), ..no_grouped() }),
        ..no_templates()
    };
    let strings = resolved_template_strings(Some(&config), true);
    assert_eq!(strings.group_header, "{group}");
    assert_eq!(strings.compact, DEFAULT_COMPACT_TEMPLATE);
}

#[test]
fn grouped_rows_inherit_custom_templates_before_grouped_defaults() {
    // Nothing configured: each presentation gets its own default rows.
    assert_eq!(resolved_template_strings(None, false).tiles, default_tile_templates());
    assert_eq!(resolved_template_strings(None, true).tiles, default_grouped_tile_templates());

    // A sidebar customized before grouping existed keeps its own rows when
    // grouping is switched on.
    let custom = TemplatesConfig { tiles: Some(vec!["{primary}".to_string()]), ..no_templates() };
    assert_eq!(resolved_template_strings(Some(&custom), true).tiles, vec!["{primary}".to_string()]);

    // Until it says what the grouped rows should be.
    let both = TemplatesConfig {
        tiles: Some(vec!["{primary}".to_string()]),
        grouped: Some(GroupedTemplatesConfig { tiles: Some(vec!["{pane_title}".to_string()]), ..no_grouped() }),
        ..no_templates()
    };
    assert_eq!(resolved_template_strings(Some(&both), true).tiles, vec!["{pane_title}".to_string()]);
    assert_eq!(resolved_template_strings(Some(&both), false).tiles, vec!["{primary}".to_string()]);
}

// ── Filter ──────────────────────────────────────────────────────

#[test]
fn host_agent_index_prefers_active_pane() {
    let agents = vec![selection_agent("%1", "@1"), selection_agent("%2", "@1")];
    let mut active_panes = StrSet::new();
    active_panes.insert("%2".to_string());

    assert_eq!(host_agent_index(&agents, Some("@1"), &active_panes), Some(1));
}

#[test]
fn filter_mode_toggle() {
    assert_eq!(SidebarFilterMode::All.toggle(), SidebarFilterMode::Session);
    assert_eq!(SidebarFilterMode::Session.toggle(), SidebarFilterMode::All);
}

#[test]
fn filter_mode_roundtrip_strings() {
    for mode in [SidebarFilterMode::All, SidebarFilterMode::Session] {
        assert_eq!(SidebarFilterMode::from_str(mode.as_str()), mode);
    }
}

#[test]
fn invalid_filter_mode_maps_to_all() {
    assert_eq!(SidebarFilterMode::from_str(""), SidebarFilterMode::All);
    assert_eq!(SidebarFilterMode::from_str("unknown"), SidebarFilterMode::All);
}

#[test]
fn filter_mode_from_str_case_insensitive() {
    assert_eq!(SidebarFilterMode::from_str("Session"), SidebarFilterMode::Session);
    assert_eq!(SidebarFilterMode::from_str("SESSION"), SidebarFilterMode::Session);
    assert_eq!(SidebarFilterMode::from_str("project"), SidebarFilterMode::Session);
}

#[test]
fn filter_mode_default_shows_all_sessions() {
    assert_eq!(SidebarFilterMode::default(), SidebarFilterMode::All);
}

// ── Configuration ───────────────────────────────────────────────

#[test]
fn a_new_configuration_version_is_read_from_the_host_agents_directory() {
    let mut app = app();
    app.host_identity = Some(identity("s", "@host"));
    let mut snap = selection_snapshot(&[]);
    assert!(app.note_config_version(&snap).is_none());
    snap.config_version = 3;
    assert!(matches!(app.note_config_version(&snap), Some(ConfigSource::At(path)) if path == "/tmp/%host-agent"));
    assert!(app.note_config_version(&snap).is_none());
    snap.config_version = 4;
    app.host_identity = None;
    assert!(matches!(app.note_config_version(&snap), Some(ConfigSource::Global)));
}

// ── Sleeping and grouping ───────────────────────────────────────

#[test]
fn sleeping_is_toggled_in_the_stored_list() {
    let mut app = app();
    apply(&mut app, snapshot(None, grouped_agents()));
    app.select_index(1);
    assert_eq!(app.toggle_sleeping("%9"), Some(Some("%9 %2".to_string())));
    assert!(app.sleeping_pane_ids.contains("%2"));
    assert_eq!(app.toggle_sleeping(" %2 "), Some(None));
    assert!(!app.sleeping_pane_ids.contains("%2"));

    let mut empty = self::app();
    assert_eq!(empty.toggle_sleeping("%9"), None);
}

#[test]
fn grouping_toggles_to_the_configured_mode() {
    let mut app = app();
    assert_eq!(app.toggle_grouping(), Some(SidebarGroupBy::Project));
    app.configured_group_by = Some(SidebarGroupBy::Session);
    assert_eq!(app.toggle_grouping(), Some(SidebarGroupBy::Session));
    app.group_by = Some(SidebarGroupBy::Project);
    assert_eq!(app.toggle_grouping(), None);
}

#[test]
fn steps_are_undone_by_steps_back() {
    let mut app = app();
    apply(&mut app, snapshot(Some(SidebarGroupBy::Project), grouped_agents()));
    for start in 0..3 {
        app.select_index(start);
        let before = app.list_state;
        app.next();
        app.previous();
        assert_eq!(app.list_state, before);
    }
}

// ── The hint ────────────────────────────────────────────────────

#[test]
fn a_new_version_offers_the_hint_afresh() {
    let fresh = HintRecord { version: None, since: None, dismissed: false };
    let (pending, record) = claim_hint_for_this_version(&fresh, "1.2.3", 500);
    assert!(pending);
    let record = record.unwrap();
    assert_eq!(record.version.as_deref(), Some("1.2.3"));
    assert_eq!(record.since, Some(500));
    assert!(!record.dismissed);

    let (pending, again) = claim_hint_for_this_version(&record, "1.2.3", 500 + HINT_LIFETIME_SECS - 1);
    assert!(pending && again.is_none());
    let (pending, again) = claim_hint_for_this_version(&record, "1.2.3", 500 + HINT_LIFETIME_SECS);
    assert!(!pending && again.is_none());

    let answered = HintRecord { dismissed: true, ..record };
    assert!(!claim_hint_for_this_version(&answered, "1.2.3", 501).0);
    assert!(claim_hint_for_this_version(&answered, "1.2.4", 501).0);
}

// ── Resizing ────────────────────────────────────────────────────

fn quiet() -> ResizeState {
    ResizeState {
        last_window_width: Some(200),
        last_window_height: Some(50),
        pending_cols: None,
        pending_rows: None,
        deadline: None,
        suppress_once: false,
    }
}

#[test]
fn a_resize_by_the_user_settles_before_it_counts() {
    let mut state = quiet();
    state.on_resize_event(SidebarPosition::Left, 40, 50, 200, 1_000);
    assert_eq!(state.pending_cols, Some(40));
    assert!(!state.resize_is_due(false, 1_499));
    assert!(state.resize_is_due(false, 1_500));
    let facts = ResizeFacts { window: 200, pane: Some(41), expected: 30, configured: false, too_wide: false };
    assert_eq!(
        state.process_pending_resize(SidebarPosition::Left, Some("@1"), facts),
        ResizeAction::Adopt { size: 41, host_window: Some("@1".to_string()) }
    );
    assert_eq!(state, quiet());
}

#[test]
fn a_pane_without_extent_counts_as_untold() {
    let pending = ResizeState { pending_cols: Some(40), deadline: Some(1), ..quiet() };
    let facts = ResizeFacts { window: 200, pane: Some(0), expected: 30, configured: false, too_wide: false };
    let mut state = pending;
    assert_eq!(state.actual_size(SidebarPosition::Left, Some(0)), Some(40));
    assert_eq!(state.actual_size(SidebarPosition::Left, Some(41)), Some(41));
    assert_eq!(state.actual_size(SidebarPosition::Top, Some(41)), None);
    assert_eq!(
        state.process_pending_resize(SidebarPosition::Left, None, facts),
        ResizeAction::Adopt { size: 40, host_window: None }
    );
}

#[test]
fn a_window_resize_is_none_of_the_user() {
    let mut state = quiet();
    state.on_resize_event(SidebarPosition::Left, 40, 50, 210, 1_000);
    assert_eq!(state.deadline, None);
    assert_eq!(state.last_window_width, Some(210));

    let mut own = ResizeState { suppress_once: true, ..quiet() };
    own.on_resize_event(SidebarPosition::Top, 40, 5, 50, 1_000);
    assert_eq!(own, quiet());
}

#[test]
fn resizes_against_the_configuration_are_undone() {
    let pending = ResizeState { pending_cols: Some(90), deadline: Some(1), ..quiet() };
    let facts = ResizeFacts { window: 200, pane: None, expected: 30, configured: true, too_wide: false };
    let mut state = pending;
    assert_eq!(
        state.process_pending_resize(SidebarPosition::Left, Some("@1"), facts),
        ResizeAction::Reflow { window: "@1".to_string() }
    );
    assert!(state.suppress_once);
    let mut state = pending;
    assert_eq!(
        state.process_pending_resize(SidebarPosition::Left, Some("@1"), ResizeFacts { too_wide: true, ..facts }),
        ResizeAction::Restore { size: 30, window: "@1".to_string() }
    );
    let mut state = pending;
    assert_eq!(
        state.process_pending_resize(SidebarPosition::Left, Some("@1"), ResizeFacts { pane: Some(30), ..facts }),
        ResizeAction::Nothing
    );
    let mut starting = pending;
    assert!(!starting.resize_is_due(true, 9_999));
    assert_eq!(starting, quiet());
}

#[test]
fn a_selection_made_by_hand_follows_its_agent() {
    let mut app = app();
    let snap = |order: &[&str]| SidebarSnapshot {
        agents: order.iter().map(|pane| selection_agent(pane, "@w")).collect(),
        ..empty_snapshot()
    };
    apply(&mut app, snap(&["%1", "%2", "%3"]));
    app.next();
    app.next();
    assert_eq!(app.selection_mode, SelectionMode::Manual);
    assert_eq!(app.jump_to_selected().as_deref(), Some("%3"));

    apply(&mut app, snap(&["%3", "%1", "%2"]));
    assert_eq!(app.jump_to_selected().as_deref(), Some("%3"));
    assert_eq!(app.list_state.selected, Some(0));

    // Without its agent, it stays at its place.
    apply(&mut app, snap(&["%1", "%2"]));
    assert_eq!(app.jump_to_selected().as_deref(), Some("%1"));
}

fn live_and_stale() -> Vec<AgentPane> {
    vec![
        active(agent("%1", "api", "alpha")),
        agent("%2", "api", "beta"),
        active(agent("%3", "mobile", "alpha")),
    ]
}

#[test]
fn a_number_leads_to_the_agent_it_stands_beside() {
    let mut app = app();
    let snap = folding_snapshot(Some(SidebarGroupBy::Project), live_and_stale());
    let list = agent_list(&snap);
    apply(&mut app, snap);
    assert_eq!(app.jump_numbers, vec![Some(0), None, Some(1)]);
    assert_eq!(list, "%1 %3");
}

#[test]
fn toggling_a_group_twice_shows_its_rows_as_before() {
    let mut app = app();
    apply(&mut app, folding_snapshot(Some(SidebarGroupBy::Project), live_and_stale()));
    let folded = vec![
        header("api", 2),
        SidebarRow::Agent(0),
        SidebarRow::StaleTail { group: "api".to_string(), count: 1, expanded: false },
        header("mobile", 1),
        SidebarRow::Agent(2),
    ];
    assert_eq!(app.rows, folded);
    app.next();
    assert_eq!(app.selected_toggle().as_deref(), Some("api"));

    assert_eq!(app.toggle_group("api").as_deref(), Some("api"));
    assert_eq!(app.rows.len(), 6);
    assert_eq!(app.selected_toggle().as_deref(), Some("api"));
    assert_eq!(app.jump_numbers, vec![Some(0), None, Some(1)]);

    assert_eq!(app.toggle_group("api"), None);
    assert_eq!(app.rows, folded);
    assert_eq!(app.jump_numbers, vec![Some(0), None, Some(1)]);
}

#[test]
fn a_header_under_the_mouse_stands_for_no_agent() {
    let mut app = app();
    apply(&mut app, folding_snapshot(Some(SidebarGroupBy::Project), live_and_stale()));
    app.layout_mode = SidebarLayoutMode::Compact;
    app.list_area.y = 0;
    app.list_area.height = 5;
    assert_eq!(app.hit_test(0, 0), None);
    assert_eq!(app.hit_test_toggle(0, 0), None);
    assert_eq!(app.hit_test(0, 1), Some(0));
    assert_eq!(app.hit_test(0, 2), None);
    assert_eq!(app.hit_test_toggle(0, 2).as_deref(), Some("api"));
    assert_eq!(app.hit_test(0, 5), None);
}

#[test]
fn every_shown_agent_has_one_row_under_its_own_header() {
    let mut app = app();
    let mut agents = live_and_stale();
    agents.push(agent("%4", "web", "alpha"));
    agents.push(agent("%5", "web", "alpha"));
    let mut snap = folding_snapshot(Some(SidebarGroupBy::Project), agents);
    snap.expanded_groups = vec!["api".to_string()];
    apply(&mut app, snap);
    assert_eq!(
        app.rows,
        vec![
            header("api", 2),
            SidebarRow::Agent(0),
            SidebarRow::StaleTail { group: "api".to_string(), count: 1, expanded: true },
            SidebarRow::Agent(1),
            header("mobile", 1),
            SidebarRow::Agent(2),
            SidebarRow::Rule { label: STALE_RULE_LABEL.to_string() },
            SidebarRow::StaleGroup { label: "web".to_string(), count: 2, expanded: false },
        ]
    );
}

#[test]
fn a_snapshot_applied_again_leaves_the_selection_alone() {
    let mut app = app();
    apply(&mut app, snapshot(Some(SidebarGroupBy::Project), grouped_agents()));
    app.select_index(2);
    let fewer = || vec![agent("%1", "api", "alpha"), agent("%2", "api", "beta")];
    apply(&mut app, snapshot(Some(SidebarGroupBy::Project), fewer()));
    let settled = app.list_state.selected;
    assert_eq!(app.jump_to_selected().as_deref(), Some("%2"));
    apply(&mut app, snapshot(Some(SidebarGroupBy::Project), fewer()));
    assert_eq!(app.list_state.selected, settled);
}

#[test]
fn a_host_is_known_by_the_pane_that_was_asked_about() {
    let output = "main\t$1\t@42\t%94\n";
    assert_eq!(confirm_host_identity(output, "%94").unwrap().window_id, "@42");
    assert!(confirm_host_identity(output, "%95").is_none());
    assert!(confirm_host_identity("", "").is_none());
}

#[test]
fn steps_go_round_every_row_once() {
    let mut app = app();
    apply(&mut app, folding_snapshot(Some(SidebarGroupBy::Project), live_and_stale()));
    let start = app.list_state.selected;
    let mut visited: Vec<usize> = (0..3)
        .map(|_| {
            app.next();
            app.list_state.selected.unwrap()
        })
        .collect();
    assert_eq!(app.list_state.selected, start);
    visited.sort();
    assert_eq!(visited, vec![1, 2, 4]);
}
