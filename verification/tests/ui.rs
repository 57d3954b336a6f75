use ratatui::buffer::Buffer;
use ratatui::layout::Rect;
use ratatui::text::Line;
use ratatui::widgets::{Block, Clear, Paragraph, Widget, Wrap};
use sidebar::app::{Area, ResolvedAgentIcons, SidebarApp, SidebarFilterMode, SidebarLayoutMode};
use sidebar::bar::{bar_line_templates, bar_templates, remove_blank_status_prefix, BarTemplate};
use sidebar::chrome::{
    chevron, exit_confirmation, group_status_counts, header_context, header_width, help_entries, help_overlay,
    inner_area, no_agents_line, no_agents_row, stale_group_width, tile_divider, warning_areas, wrapped_line_count,
    CodedIcons,
};
use sidebar::client::ClientSetup;
use sidebar::collections::StrMap;
use sidebar::context::{agent_is_stale, RowContext, RowFacts};
use sidebar::lists::{
    compact_items, item_heights, more_line, pinned_compact, pinned_tile, status_icon_width, tile_body_width,
    tile_items,
};
use sidebar::model::{AgentPane, AgentStatus, GitStatus, SidebarGroupBy, SidebarPosition, StatusIcons};
use sidebar::row::TemplateRow;
use sidebar::rows::SidebarRow;
use sidebar::style::{display_width, truncate_to_width, Color, Palette, Span, Style};
use sidebar::templates::{ParsedTemplates, TemplateError, TemplateStrings, Token, TokenId};
use sidebar::ui::{
    compute_pane_suffixes, format_sidebar_check_status, format_sidebar_git_stats, pick_fitting_variant, Glyphs,
};
use sidebar::viewport::{compact_offset, tile_viewport};

const NOW: u64 = 1_000_000;

// ── Drawing ─────────────────────────────────────────────────────

fn term_color(color: Color) -> ratatui::style::Color {
    match color {
        Color::Indexed(n) => ratatui::style::Color::Indexed(n),
        Color::Rgb(r, g, b) => ratatui::style::Color::Rgb(r, g, b),
        _ => ratatui::style::Color::Reset,
    }
}

fn term_style(style: Style) -> ratatui::style::Style {
    let mut r = ratatui::style::Style::default();
    if let Some(fg) = style.fg {
        r = r.fg(term_color(fg));
    }
    if let Some(bg) = style.bg {
        r = r.bg(term_color(bg));
    }
    r
}

fn line(spans: &[Span]) -> Line<'static> {
    Line::from(
        spans
            .iter()
            .map(|s| ratatui::text::Span::styled(s.content.clone(), term_style(s.style)))
            .collect::<Vec<_>>(),
    )
}

fn rect(area: Area) -> Rect {
    Rect::new(area.x, area.y, area.width, area.height)
}

fn row_of(area: Area, row: u16) -> Rect {
    Rect::new(area.x, area.y + row, area.width, 1)
}

/// Fills a template in: fields get their spans, and a fill takes the columns that are left.
fn fill<R: TemplateRow>(row: &R, template: &[Token], width: usize, icon_width: usize) -> Vec<Span> {
    let mut parts: Vec<Option<Vec<Span>>> = Vec::new();
    for token in template {
        match token {
            Token::Fill => parts.push(None),
            Token::Literal(s) => parts.push(Some(vec![Span::new(s.clone(), Style::new())])),
            Token::Style(_) => {}
            Token::Field(id) => {
                let mut spans = match id {
                    TokenId::StatusIcon => row.status_icon_spans(),
                    TokenId::GroupStatus => row.group_status_spans(width).0,
                    TokenId::PrChecks => row.pr_check_spans(width).0,
                    _ => vec![Span::new(row.resolve(*id), row.intrinsic_style(*id))],
                };
                let used: usize = spans.iter().map(|s| display_width(&s.content)).sum();
                if *id == TokenId::StatusIcon && used < icon_width {
                    spans.push(Span::new(" ".repeat(icon_width - used), Style::new()));
                }
                parts.push(Some(spans));
            }
        }
    }
    let used: usize =
        parts.iter().flatten().flatten().map(|s| display_width(&s.content)).sum();
    let mut left = width.saturating_sub(used);
    let mut out = Vec::new();
    for part in parts {
        match part {
            Some(spans) => out.extend(spans),
            None => {
                out.push(Span::new(" ".repeat(left), Style::new()));
                left = 0;
            }
        }
    }
    out
}

fn is_blank(template: &[Token]) -> bool {
    template.iter().all(|t| matches!(t, Token::Literal(s) if s.trim().is_empty()))
}

/// The status icons, which hold no style codes.
fn coded() -> CodedIcons {
    let icon = |s: &str| vec![Span::new(s.to_string(), Style::new())];
    CodedIcons { working: vec![], waiting: icon("\u{1f4ac}"), done: icon("\u{2705}") }
}

fn contexts<'a>(app: &'a SidebarApp, suffixes: &Vec<String>, glyphs: &'a Glyphs) -> Vec<RowContext<'a>> {
    app.agents
        .iter()
        .enumerate()
        .map(|(i, agent)| {
            let facts = RowFacts {
                primary: agent.window_name.trim_start_matches("wm-").to_string(),
                secondary: agent.project.clone(),
                worktree: agent.window_name.clone(),
                title: agent.pane_title.clone(),
                hostname: None,
                kind: None,
                coded_icon: match agent.status {
                    Some(AgentStatus::Waiting) => coded().waiting,
                    Some(AgentStatus::Done) => coded().done,
                    _ => vec![],
                },
                shows_checks: false,
                pr_color: None,
            };
            RowContext::build(app, agent, i, suffixes, facts, glyphs, NOW, app.selected_agent_idx())
        })
        .collect()
}

fn header(app: &SidebarApp, glyphs: &Glyphs, label: &str, count: usize, width: usize) -> Vec<Span> {
    let coded = coded();
    fill(&header_context(app, label, count, glyphs, &coded), &app.templates.group_header, width, 0)
}

/// The header of the group that a row heads, filled in for the row's width.
fn head(app: &SidebarApp, glyphs: &Glyphs, row: &SidebarRow, width: usize) -> Vec<Span> {
    match row {
        SidebarRow::Header { label, count } => header(app, glyphs, label, *count, header_width(width)),
        SidebarRow::StaleGroup { label, count, expanded } => {
            header(app, glyphs, label, *count, stale_group_width(*expanded, width))
        }
        _ => vec![],
    }
}

fn draw_compact(app: &mut SidebarApp, area: Area, glyphs: &Glyphs, buf: &mut Buffer) {
    let width = area.width as usize;
    let suffixes = compute_pane_suffixes(&app.agents);
    let items = {
        let contexts = contexts(app, &suffixes, glyphs);
        let icon_width = status_icon_width(&contexts);
        let parts = app
            .rows
            .iter()
            .map(|row| match row {
                SidebarRow::Agent(i) => vec![fill(&contexts[*i], &app.templates.compact, width, icon_width)],
                _ => vec![head(app, glyphs, row, width)],
            })
            .collect();
        compact_items(app, &contexts, &parts, width)
    };
    let plan = app.plan_compact(area);
    if let Some(i) = plan.sticky {
        let top = head(app, glyphs, &app.rows[i], width);
        let pinned = pinned_compact(&app.palette, &app.rows[i], &top, width).unwrap();
        line(&pinned).render(row_of(area, 0), buf);
    }
    for (y, i) in (plan.start..app.rows.len()).take(app.list_area.height as usize).enumerate() {
        let target = row_of(app.list_area, y as u16);
        line(&items[i]).render(target, buf);
        if app.list_state.selected == Some(i) {
            let bg = term_color(app.palette.highlight_row_bg);
            buf.set_style(target, ratatui::style::Style::default().bg(bg));
        }
    }
}

fn draw_tiles(app: &mut SidebarApp, area: Area, glyphs: &Glyphs, buf: &mut Buffer) {
    let width = area.width as usize;
    let suffixes = compute_pane_suffixes(&app.agents);
    let items = {
        let contexts = contexts(app, &suffixes, glyphs);
        let blank: Vec<bool> = app.templates.tiles.iter().map(|t| is_blank(t)).collect();
        let parts = app
            .rows
            .iter()
            .map(|row| match row {
                SidebarRow::Agent(i) => app
                    .templates
                    .tiles
                    .iter()
                    .map(|t| fill(&contexts[*i], t, tile_body_width(width), 0))
                    .collect(),
                _ => vec![head(app, glyphs, row, width.saturating_sub(1))],
            })
            .collect();
        tile_items(app, &contexts, &parts, &blank, width)
    };
    let plan = app.plan_tiles(item_heights(&items), area);
    if let Some(i) = plan.sticky {
        let top = head(app, glyphs, &app.rows[i], width.saturating_sub(1));
        let pinned = pinned_tile(&app.palette, &app.rows[i], &top, width).unwrap();
        line(&pinned[0]).render(row_of(area, 0), buf);
    }
    if let Some(view) = &plan.viewport {
        let lines = items[view.start..view.end].iter().flatten();
        for (y, spans) in lines.enumerate() {
            line(spans).render(row_of(plan.filled, y as u16), buf);
        }
    }
    if let Some(hidden) = plan.hidden {
        line(&more_line(&app.palette, hidden, width)).render(row_of(area, area.height - 1), buf);
    }
}

fn draw(app: &mut SidebarApp, width: u16, height: u16) -> Buffer {
    let glyphs = glyphs();
    let screen = Area { x: 0, y: 0, width, height };
    let mut buf = Buffer::empty(rect(screen));
    let mut inner = inner_area(app.layout_mode, screen);
    if let (Some(error), true) = (&app.template_error, inner.height > 0) {
        let message = error.display_message();
        let (warning, rest) = warning_areas(inner, &message);
        Paragraph::new(message).wrap(Wrap { trim: false }).render(rect(warning), &mut buf);
        inner = rest;
    }
    let footer = app.plan_footer(inner);
    let area = app.list_area;
    if app.agents.is_empty() {
        line(&no_agents_line(app)).render(Rect::new(area.x, no_agents_row(area, false), area.width, 1), &mut buf);
    } else {
        match app.layout_mode {
            SidebarLayoutMode::Compact => draw_compact(app, area, &glyphs, &mut buf),
            SidebarLayoutMode::Tiles => draw_tiles(app, area, &glyphs, &mut buf),
        }
    }
    if let Some(footer) = footer {
        line(&footer.line).render(rect(footer.area), &mut buf);
    }
    if app.show_help {
        let (area, lines) = help_overlay(app.group_by.is_some(), screen, &app.palette);
        let lines: Vec<Line> = lines.iter().map(|l| line(l)).collect();
        Clear.render(rect(area), &mut buf);
        Paragraph::new(lines).block(Block::bordered()).render(rect(area), &mut buf);
    }
    if app.pending_exit {
        let (area, question) = exit_confirmation(screen, &app.palette);
        Clear.render(rect(area), &mut buf);
        Paragraph::new(line(&question)).block(Block::bordered()).render(rect(area), &mut buf);
    }
    buf
}

fn buffer_row(buffer: &Buffer, y: u16) -> String {
    (0..buffer.area.width).map(|x| buffer[(x, y)].symbol()).collect()
}

fn rendered(app: &mut SidebarApp, width: u16, height: u16) -> Vec<String> {
    let buffer = draw(app, width, height);
    (0..height).map(|y| buffer_row(&buffer, y).trim_end().to_string()).collect()
}

// ── Apps ────────────────────────────────────────────────────────

fn glyphs() -> Glyphs {
    Glyphs {
        nerd_font: false,
        diff: "*".to_string(),
        rebase: "R".to_string(),
        conflict: "!".to_string(),
        check_success: "+".to_string(),
        check_failure: "x".to_string(),
        spinner: vec!["-".to_string(), "|".to_string()],
    }
}

fn palette() -> Palette {
    Palette {
        text: Color::Indexed(1),
        dimmed: Color::Indexed(2),
        border: Color::Indexed(3),
        header: Color::Indexed(4),
        success: Color::Indexed(5),
        danger: Color::Indexed(6),
        warning: Color::Indexed(7),
        accent: Color::Indexed(8),
        info: Color::Indexed(9),
        current_worktree_fg: Color::Indexed(10),
        current_row_bg: Color::Indexed(11),
        highlight_row_bg: Color::Indexed(12),
        help_border: Color::Indexed(13),
        help_muted: Color::Indexed(14),
        group_band_bg: Color::Indexed(15),
    }
}

const FIELDS: [TokenId; 10] = [
    TokenId::Primary,
    TokenId::Secondary,
    TokenId::PaneTitle,
    TokenId::StatusIcon,
    TokenId::PaneSuffix,
    TokenId::Elapsed,
    TokenId::Group,
    TokenId::GroupCount,
    TokenId::GroupStatus,
    TokenId::PrChecks,
];

fn parse_line(s: &str) -> Vec<Token> {
    let mut tokens = Vec::new();
    let mut rest = s;
    while !rest.is_empty() {
        let len = if rest.starts_with('{') {
            let end = rest.find('}').unwrap();
            let name = &rest[1..end];
            tokens.push(match FIELDS.iter().find(|id| id.name() == name) {
                Some(id) => Token::Field(*id),
                None => Token::Fill,
            });
            end + 1
        } else {
            let end = rest.find('{').unwrap_or(rest.len());
            tokens.push(Token::Literal(rest[..end].to_string()));
            end
        };
        rest = &rest[len..];
    }
    tokens
}

fn empty_app() -> SidebarApp {
    let mut app = SidebarApp::new_client(ClientSetup {
        palette: palette(),
        status_icons: StatusIcons {
            working: None,
            waiting: "\u{1f4ac}".to_string(),
            custom_waiting: false,
            done: "\u{2705}".to_string(),
            custom_done: false,
        },
        agent_icons: ResolvedAgentIcons { icons: StrMap::new(), colors: StrMap::new() },
        window_prefix: "wm-".to_string(),
        group_by: None,
        dim_stale: true,
        position: SidebarPosition::Left,
        horizontal_item_width: 24,
        template_config: None,
        template_strings: TemplateStrings {
            compact: "{primary}".to_string(),
            tiles: vec!["{primary}".to_string()],
            horizontal: vec!["{primary}".to_string()],
            group_header: "{group} {fill} {group_count}".to_string(),
        },
        templates: ParsedTemplates {
            compact: parse_line("{primary}"),
            tiles: vec![parse_line("{primary}")],
            horizontal: vec![parse_line("{primary}")],
            group_header: parse_line("{group} {fill} {group_count}"),
        },
        template_error: None,
        host_identity: None,
        hint_pending: false,
        window_width: None,
        window_height: None,
    });
    app.has_loaded_snapshot = true;
    app.layout_mode = SidebarLayoutMode::Compact;
    app
}

fn tile_fixture() -> SidebarApp {
    let mut app = empty_app();
    app.dim_stale = false;
    app.templates.compact = parse_line("{status_icon} {primary} {pane_suffix} {fill} {elapsed}");
    for (idx, (project, name, status)) in [
        ("api", "auth-refresh", AgentStatus::Working),
        ("api", "rate-limit", AgentStatus::Waiting),
        ("api", "rate-limit", AgentStatus::Done),
        ("mobile", "ios-refactor-tests", AgentStatus::Working),
        ("mobile", "ios-refactor-ui", AgentStatus::Waiting),
        ("workmux", "sidebar-groups", AgentStatus::Working),
    ]
    .into_iter()
    .enumerate()
    {
        app.agents.push(AgentPane {
            session: project.to_string(),
            window_name: format!("wm-{name}"),
            pane_id: format!("%{idx}"),
            window_id: format!("@{idx}"),
            window_index: Some(idx as u32),
            path: format!("/example/{project}/{name}"),
            project: project.to_string(),
            pane_title: None,
            status: Some(status),
            status_ts: None,
            activity_ts: None,
            updated_ts: None,
            window_cmd: None,
            agent_command: None,
            agent_kind: None,
        });
    }
    app.rebuild_rows();
    app.list_state.select(Some(0));
    app.host_agent_idx = Some(5);
    app
}

fn tile_app() -> SidebarApp {
    let mut app = tile_fixture();
    app.layout_mode = SidebarLayoutMode::Tiles;
    app.templates.tiles = ["{primary}", "{secondary}", "{pane_title}"].into_iter().map(parse_line).collect();
    app
}

fn grouped_tile_app() -> SidebarApp {
    let mut app = tile_app();
    app.group_by = Some(SidebarGroupBy::Session);
    app.rebuild_rows();
    let row = app.row_of_agent(0);
    app.list_state.select(row);
    app
}

fn grouped_compact_app() -> SidebarApp {
    let mut app = tile_fixture();
    app.layout_mode = SidebarLayoutMode::Compact;
    app.group_by = Some(SidebarGroupBy::Session);
    app.rebuild_rows();
    let row = app.row_of_agent(0);
    app.list_state.select(row);
    app
}

fn refresh_stale_pane_ids(app: &mut SidebarApp) {
    for agent in &app.agents {
        if agent_is_stale(agent, NOW, app.stale_threshold_secs, false, false) {
            app.stale_pane_ids.insert(agent.pane_id.clone());
        }
    }
}

// ── Lists ───────────────────────────────────────────────────────

#[test]
fn compact_headers_label_each_group_and_are_not_selectable() {
    let mut app = grouped_compact_app();
    let lines = rendered(&mut app, 30, 9);

    assert_eq!(lines[0].trim(), "api                      3");
    assert!(lines[1].contains("auth-refresh"));
    assert_eq!(lines[4].trim(), "mobile                   2");
    assert_eq!(lines[7].trim(), "workmux                  1");

    // Headers hold no agent; the agents around them still resolve.
    assert_eq!(app.hit_test(1, 0), None);
    assert_eq!(app.hit_test(1, 1), Some(0));
    assert_eq!(app.hit_test(1, 4), None);
    assert_eq!(app.hit_test(1, 5), Some(3));
}

#[test]
fn stale_agents_fold_behind_a_toggle_and_expand_to_one_line_each() {
    let mut app = tile_app();
    app.group_by = Some(SidebarGroupBy::Session);
    app.collapse_stale = true;
    app.templates.tiles =
        ["{primary} {pane_suffix} {fill}", "{pane_title} {fill}"].into_iter().map(parse_line).collect();
    // Working and waiting agents are never stale. Clearing the status of
    // the rest leaves them with no activity at all, which is stale.
    for idx in [1, 2] {
        app.agents[idx].status = None;
    }
    refresh_stale_pane_ids(&mut app);
    app.rebuild_rows();
    let row = app.row_of_agent(0);
    app.list_state.select(row);

    let lines = rendered(&mut app, 34, 20);

    // The live agent keeps both of its tile lines; the stale ones are one
    // toggle row saying how many it stands for.
    assert_eq!(lines[0].trim(), "api                           3");
    assert!(lines[1].contains("auth-refresh"));
    assert!(lines[3].starts_with('─'));
    assert_eq!(lines[4].trim(), "▸ 2 stale");
    assert_eq!(lines[6].trim(), "mobile                        2");

    // Clicking the toggle shows them, one line each, with no divider
    // splitting the block they form.
    let group = app.hit_test_toggle(1, 4).expect("toggle under the cursor");
    assert_eq!(group, "api");
    app.expanded_groups.insert(group);
    app.rebuild_rows();
    let lines = rendered(&mut app, 34, 20);
    assert_eq!(lines[4].trim(), "▾ 2 stale");
    assert!(lines[5].contains("rate-limit (1)"));
    assert!(lines[6].contains("rate-limit (2)"));
    assert!(lines[7].starts_with('─'));
}

#[test]
fn a_selected_toggle_shows_it_is_selected_in_both_layouts() {
    let mut app = tile_app();
    app.group_by = Some(SidebarGroupBy::Session);
    app.collapse_stale = true;
    app.host_agent_idx = None;
    for idx in [1, 2] {
        app.agents[idx].status = None;
    }
    refresh_stale_pane_ids(&mut app);
    app.rebuild_rows();
    let toggle =
        app.rows.iter().position(|row| matches!(row, SidebarRow::StaleTail { .. })).expect("a toggle row");
    app.list_state.select(Some(toggle));

    for mode in [SidebarLayoutMode::Tiles, SidebarLayoutMode::Compact] {
        app.layout_mode = mode;
        let buffer = draw(&mut app, 34, 20);
        let y = (0..20).find(|y| buffer_row(&buffer, *y).contains("stale")).expect("the toggle is drawn");
        let cell = &buffer[(2, y)];
        assert_eq!(
            cell.bg,
            term_color(app.palette.highlight_row_bg),
            "{mode:?} draws the selected toggle with the selection background"
        );
        assert_eq!(cell.fg, term_color(app.palette.text), "{mode:?} brightens the selected toggle");
    }
}

#[test]
fn a_group_with_no_live_work_collapses_to_its_own_header() {
    let mut app = grouped_compact_app();
    app.collapse_stale = true;
    // The last group's only agent goes quiet, which is how the daemon
    // comes to sort that group last. It is not the sidebar's own window,
    // whose group never collapses.
    app.agents[5].status = None;
    app.host_agent_idx = None;
    refresh_stale_pane_ids(&mut app);
    app.rebuild_rows();
    let row = app.row_of_agent(0);
    app.list_state.select(row);

    let lines = rendered(&mut app, 30, 9);

    assert_eq!(lines[0].trim(), "api                      3");
    assert_eq!(lines[4].trim(), "mobile                   2");
    assert!(lines[7].contains(" STALE "));
    // One row for the whole group, header and toggle at once.
    assert_eq!(lines[8].trim(), "▸ workmux                  1");

    // It holds no agent, and toggling it names its own group.
    assert_eq!(app.hit_test(1, 8), None);
    assert_eq!(app.hit_test_toggle(1, 8).as_deref(), Some("workmux"));
}

#[test]
fn a_tile_header_is_one_line_above_its_first_agent() {
    let mut app = grouped_tile_app();
    let lines = rendered(&mut app, 24, 26);

    // The label sits directly above its first agent, with no rule between.
    assert_eq!(lines[0].trim(), "api                 3");
    assert!(lines[1].contains("auth-refresh"));
    assert_eq!(app.hit_test(1, 0), None);
    assert_eq!(app.hit_test(1, 1), Some(0));

    // A later group is opened by the divider that closes the previous one.
    let header = lines.iter().position(|line| line.trim().starts_with("mobile")).unwrap();
    assert_eq!(lines[header - 1], "─".repeat(24));
    assert!(lines[header + 1].contains("ios-refactor"));
    assert_eq!(app.hit_test(1, header as u16), None);
}

#[test]
fn a_group_header_renders_as_a_full_width_band() {
    let mut app = grouped_tile_app();
    let buffer = draw(&mut app, 24, 26);
    let band = term_color(app.palette.group_band_bg);

    // Every cell of the header row carries the band background, including
    // the padding past the label and count.
    for x in 0..24 {
        assert_eq!(buffer[(x, 0)].style().bg, Some(band), "column {x} of the header band");
    }
    // The agent row below it does not.
    assert_ne!(buffer[(0, 1)].style().bg, Some(band));
}

#[test]
fn tile_overflow_counts_hidden_agents_not_header_rows() {
    let mut app = grouped_tile_app();
    let lines = rendered(&mut app, 24, 10);
    assert_eq!(lines[9].trim(), "↓ 4 more");
}

#[test]
fn compact_sticky_header_pins_the_current_group() {
    let mut app = grouped_compact_app();
    app.select_index(2); // third api agent
    let lines = rendered(&mut app, 24, 3);

    // Viewport starts inside the api group, so its header is pinned.
    assert_eq!(lines[0].trim(), "api                3");
    assert!(lines[2].contains("rate-limit"));
    // The pinned band is not a row and resolves to no agent.
    assert_eq!(app.hit_test(1, 0), None);
    assert_eq!(app.hit_test(1, 1), Some(1));
}

#[test]
fn compact_sticky_header_is_not_duplicated_or_stale_at_a_boundary() {
    let mut app = grouped_compact_app();

    // Real header visible at the top: no pin, no duplicate.
    app.select_index(1);
    let lines = rendered(&mut app, 24, 5);
    assert_eq!(lines[0].trim(), "api                3");
    assert!(lines[1].contains("auth-refresh"));

    // Scrolling into the next group swaps the pinned header.
    app.select_index(4);
    let lines = rendered(&mut app, 24, 3);
    assert!(lines.iter().any(|line| line.trim().starts_with("mobile")));
    assert!(!lines.iter().any(|line| line.trim().starts_with("api")));
}

#[test]
fn tile_sticky_header_matches_an_inline_header_and_yields_to_the_selection() {
    let mut app = grouped_tile_app();
    app.select_index(2);
    let lines = rendered(&mut app, 24, 8);
    assert_eq!(lines[0].trim(), "api                 3");
    // One pinned line, then list content, never a second header line.
    assert!(lines[1] == "─".repeat(24) || lines[1].starts_with('▌'));
    assert_eq!(app.hit_test(1, 0), None);

    // Too short to hold the pin and the selected tile: the selection wins.
    let lines = rendered(&mut app, 24, 4);
    assert!(lines.iter().any(|line| line.contains("rate-limit")));
    assert!(!lines.iter().any(|line| line.trim() == "api                 3"));
}

#[test]
fn tile_footer_counts_hidden_agents_and_has_no_mouse_target() {
    let mut app = tile_app();
    let buffer = draw(&mut app, 36, 12);
    assert_eq!(buffer_row(&buffer, 11).trim(), "↓ 3 more");
    assert_eq!(app.hit_test(1, 0), Some(0));
    assert_eq!(app.hit_test(1, 4), Some(1));
    assert_eq!(app.hit_test(1, 8), Some(2));
    assert_eq!(app.hit_test(1, 11), None);
    let offset = app.list_state.offset;
    draw(&mut app, 36, 12);
    assert_eq!(app.list_state.offset, offset);

    app.select_last();
    let buffer = draw(&mut app, 36, 12);
    let text = (0..12).map(|y| buffer_row(&buffer, y)).collect::<String>();
    assert!(!text.contains("more"));
    assert!(text.contains("sidebar-groups"));
    assert!((0..12).any(|y| app.hit_test(1, y) == Some(5)));
    assert_eq!(app.hit_test(1, 11), None);
}

#[test]
fn tile_footer_uses_template_heights_and_respects_session_footer() {
    let mut app = tile_app();
    app.filter_mode = SidebarFilterMode::Session;
    // Blank template lines do not consume tile rows.
    app.templates.tiles[1].clear();
    app.templates.tiles[2].clear();
    app.agents.truncate(4);
    app.rebuild_rows();
    let buffer = draw(&mut app, 36, 6);
    assert_eq!(buffer_row(&buffer, 4).trim(), "↓ 2 more");
    assert_eq!(buffer_row(&buffer, 5).trim(), "[session]");
    assert_eq!(app.hit_test(1, 3), None);
    assert_eq!(app.hit_test(1, 4), None);
    assert_eq!(app.hit_test(1, 5), None);
}

#[test]
fn tile_viewport_preserves_selection_and_stays_stable() {
    for heights in [vec![3, 4, 4, 4, 5], vec![1, 2, 2, 3], vec![2, 6, 3, 1]] {
        for height in 0..24 {
            for selected in 0..heights.len() {
                for offset in 0..heights.len() + 2 {
                    let view = tile_viewport(&heights, offset, selected, height);
                    if heights[selected] > height {
                        assert!(view.is_none());
                        continue;
                    }
                    let view = view.unwrap();
                    assert!(view.start <= selected && selected < view.end);
                    let rows: usize = heights[view.start..view.end].iter().sum();
                    assert!(rows + usize::from(view.more) <= height);
                    assert_eq!(Some(&view), tile_viewport(&heights, view.start, selected, height).as_ref());
                    assert!(!view.more || view.end < heights.len());
                }
            }
        }
    }
    assert!(tile_viewport(&vec![], 0, 0, 10).is_none());
}

#[test]
fn tile_footer_disappears_when_agents_fit_and_never_hides_selection() {
    let mut app = tile_app();
    for height in 0..30 {
        app.list_state.select(Some(0));
        app.list_state.offset = 0;
        let buffer = draw(&mut app, 25, height);
        if height >= 3 {
            assert!((0..height).any(|y| app.hit_test(1, y) == Some(0)));
        }
        if height >= 24 {
            let text = (0..height).map(|y| buffer_row(&buffer, y)).collect::<String>();
            assert!(!text.contains("more"));
        }
    }
}

#[test]
fn compact_lists_move_no_more_than_they_have_to() {
    assert_eq!(compact_offset(3, 4, 5), 3);
    assert_eq!(compact_offset(3, 1, 5), 1);
    assert_eq!(compact_offset(3, 9, 5), 5);
    assert_eq!(compact_offset(5, 9, 5), 5);
    assert_eq!(compact_offset(3, 9, 0), 3);
}

#[test]
fn an_empty_sidebar_says_so_in_the_middle() {
    let mut app = empty_app();
    let lines = rendered(&mut app, 30, 9);
    assert_eq!(lines[4].trim(), "No agents running");
    app.has_loaded_snapshot = false;
    app.spinner_frame = 12;
    let lines = rendered(&mut app, 30, 9);
    assert_eq!(lines[4].trim(), "⠹ Loading");
    let area = Area { x: 0, y: 3, width: 30, height: 2 };
    assert_eq!(no_agents_row(area, true), 3);
    assert_eq!(no_agents_row(area, false), 4);
}

// ── Overlays and the footer ─────────────────────────────────────

#[test]
fn render_sidebar_shows_exit_confirmation() {
    let mut app = empty_app();
    app.pending_exit = true;
    let text = rendered(&mut app, 34, 5).concat();
    assert!(text.contains("Quit sidebar?"));
    assert!(text.contains("yes / no"));
}

#[test]
fn a_header_can_tally_what_its_group_holds() {
    let mut app = grouped_tile_app();
    app.templates.group_header = parse_line("{group} {fill} {group_status} {group_count}");
    refresh_stale_pane_ids(&mut app);

    let coded = coded();
    let counts = group_status_counts(&app, "api", &glyphs(), &coded);
    let tally: Vec<(String, usize)> = counts
        .iter()
        .map(|status| (status.icon.iter().map(|span| span.content.as_str()).collect(), status.count))
        .collect();
    // Waiting first, stale last: the order the header should be read in.
    // The working icon is an animation frame, so only its count is fixed.
    assert_eq!(tally.len(), 3);
    assert_eq!(tally[0], ("\u{1f4ac}".to_string(), 1));
    assert_eq!(tally[1].1, 1);
    assert_eq!(tally[2], ("\u{1f4a4}".to_string(), 1));

    // The tally reaches the drawn header, not just the helper.
    let lines = rendered(&mut app, 36, 26);
    assert!(lines[0].contains('1'), "header was {:?}", lines[0]);
}

#[test]
fn the_grouping_hint_waits_for_a_sidebar_it_would_change() {
    let mut app = grouped_tile_app();
    app.hint_pending = true;
    app.group_by = None;
    app.rebuild_rows();
    assert!(app.show_hint(), "flat list across projects offers the hint");

    // Grouped: the offer survives the switch it invited, so acting on it
    // rewords the line instead of removing the row under the list.
    app.group_by = Some(SidebarGroupBy::Project);
    assert!(app.show_hint());
    let lines = rendered(&mut app, 36, 12);
    assert!(lines.last().unwrap().contains("flat list"), "footer was {:?}", lines.last());
    app.group_by = None;

    // The top bar cannot spare a line, and a template error owns the same
    // one and matters more.
    app.position = SidebarPosition::Top;
    assert!(!app.show_hint());
    app.position = SidebarPosition::Left;
    app.template_error =
        Some(TemplateError { location: "tiles[0]".to_string(), message: "unknown token".to_string() });
    assert!(!app.show_hint());
    app.template_error = None;

    // One project: sections would only add a header.
    app.agents.retain(|agent| agent.path.starts_with("/demo/api"));
    app.rebuild_rows();
    assert!(!app.show_hint());
}

#[test]
fn worktrees_of_one_project_call_for_no_hint() {
    let mut app = grouped_tile_app();
    app.hint_pending = true;
    app.agents.truncate(2);
    for (agent, path) in app.agents.iter_mut().zip(["/code/api", "/code/api__worktrees/w1"]) {
        agent.path = path.to_string();
        agent.project = "api".to_string();
    }
    app.rebuild_rows();
    assert!(!app.show_hint());

    app.agents[1].project = "web".to_string();
    assert!(app.show_hint());
}

#[test]
fn the_grouping_hint_draws_on_the_footer_line() {
    let mut app = grouped_tile_app();
    app.hint_pending = true;
    app.group_by = None;
    app.filter_mode = SidebarFilterMode::All;
    app.rebuild_rows();

    let lines = rendered(&mut app, 36, 12);
    let footer = lines.last().unwrap();
    assert!(footer.contains("group by project"), "footer was {footer:?}");
    assert!(footer.contains('?'));
    // The hint takes the last row and nothing else: the list stops above it.
    assert!(app.list_area.y + app.list_area.height <= 11);
}

#[test]
fn render_sidebar_shows_the_keys_behind_question_mark() {
    let mut app = empty_app();
    app.show_help = true;

    let flat = rendered(&mut app, 34, 20).concat();
    assert!(flat.contains("grouping"));
    assert!(flat.contains("quit"));
    // Nothing is grouped, so the group keys would act on nothing.
    assert!(!flat.contains("fold"));

    app.group_by = Some(SidebarGroupBy::Project);
    let grouped = rendered(&mut app, 34, 20).concat();
    assert!(grouped.contains("fold group"));
    assert!(grouped.contains("fold unfold"));
}

#[test]
fn render_sidebar_shows_template_error_warning() {
    let mut app = empty_app();
    app.template_error = Some(TemplateError {
        location: "tiles[0]".to_string(),
        message: "unknown token 'pr_status' at column 1".to_string(),
    });
    app.filter_mode = SidebarFilterMode::All;

    let text = rendered(&mut app, 30, 6).concat();
    assert!(text.contains("template error:"));
    assert!(text.contains("unknown"));
    assert!(text.contains("token"));
    assert!(text.contains("pr_status"));
    assert!(text.contains("tiles[0]"));
    assert!(app.list_area.y > 1);
    assert_eq!(app.list_area.y + app.list_area.height, 6);
    assert_eq!(app.hit_test(0, 0), None);
    assert_eq!(app.hit_test(0, app.list_area.y - 1), None);
}

#[test]
fn warnings_wrap_at_words_and_inside_long_ones() {
    assert_eq!(wrapped_line_count("", 10), 1);
    assert_eq!(wrapped_line_count("one two", 10), 1);
    assert_eq!(wrapped_line_count("one two three", 8), 2);
    assert_eq!(wrapped_line_count("abcdefghij", 4), 3);
    assert_eq!(wrapped_line_count("anything", 0), 1);
}

#[test]
fn group_keys_are_listed_only_while_grouping_is_on() {
    let flat = help_entries(false);
    let grouped = help_entries(true);
    assert!(flat.iter().all(|entry| grouped.contains(entry)));
    assert!(flat.len() < grouped.len());
    assert_eq!((chevron(true), chevron(false)), ("▾", "▸"));
}

// ── Texts ───────────────────────────────────────────────────────

#[test]
fn widths_count_columns() {
    assert_eq!(display_width("abc"), 3);
    assert_eq!(display_width("日本"), 4);
    assert_eq!(display_width("e\u{301}"), 1);
    assert_eq!(display_width(""), 0);
}

#[test]
fn truncated_texts_fit() {
    assert_eq!(truncate_to_width("abcdef", 6), "abcdef");
    assert_eq!(truncate_to_width("abcdef", 4), "abcd");
    assert_eq!(truncate_to_width("日本語", 5), "日本");
    assert_eq!(truncate_to_width("abc", 0), "");
    let text: String = tile_divider(&palette(), 5).iter().map(|s| s.content.clone()).collect();
    assert_eq!(text, "─────");
}

#[test]
fn agents_of_one_window_are_told_apart() {
    let mut agents = tile_fixture().agents;
    assert_eq!(compute_pane_suffixes(&agents), vec!["", "(1)", "(2)", "", "", ""]);
    agents.truncate(2);
    assert_eq!(compute_pane_suffixes(&agents), vec!["", ""]);
}

fn text_of(spans: &[Span]) -> String {
    spans.iter().map(|s| s.content.as_str()).collect()
}

#[test]
fn the_widest_variant_that_fits_is_picked() {
    let variant = |words: &[&str]| words.iter().map(|w| Span::new(w.to_string(), Style::new())).collect::<Vec<_>>();
    let variants = || vec![variant(&["+123", "-45"]), variant(&["+123"])];
    let (spans, width) = pick_fitting_variant(variants(), 8);
    assert_eq!((text_of(&spans).as_str(), width), ("+123 -45", 8));
    let (spans, width) = pick_fitting_variant(variants(), 7);
    assert_eq!((text_of(&spans).as_str(), width), ("+123", 4));
    let (spans, width) = pick_fitting_variant(variants(), 3);
    assert_eq!((text_of(&spans).as_str(), width), ("", 0));
}

#[test]
fn git_stats_show_both_kinds_of_changes() {
    let status = GitStatus {
        lines_added: 10,
        lines_removed: 2,
        uncommitted_added: 3,
        uncommitted_removed: 0,
        is_dirty: true,
        ..Default::default()
    };
    let p = palette();
    let (spans, width) = format_sidebar_git_stats(Some(&status), &p, false, &glyphs(), 80);
    assert_eq!(text_of(&spans), "+10 -2 * +3");
    assert_eq!(width, 11);
    let (none, width) = format_sidebar_git_stats(None, &p, false, &glyphs(), 80);
    assert_eq!((text_of(&none).as_str(), width), ("", 0));
}

#[test]
fn checks_that_do_not_belong_are_not_shown() {
    let p = palette();
    let (spans, width) = format_sidebar_check_status(None, &p, false, &glyphs(), 0, 80);
    assert_eq!((text_of(&spans).as_str(), width), ("", 0));
}

// ── The top bar ─────────────────────────────────────────────────

#[test]
fn the_bar_hands_out_columns_from_the_first_visible_agent() {
    let mut app = tile_fixture();
    app.position = SidebarPosition::Top;
    app.horizontal_item_width = 10;
    let slots = app.plan_bar(Area { x: 1, y: 0, width: 30, height: 1 });
    let places: Vec<(usize, u16, u16, bool)> = slots.iter().map(|s| (s.idx, s.x, s.width, s.parted)).collect();
    assert_eq!(places, vec![(0, 1, 10, true), (1, 14, 10, true), (2, 27, 4, false)]);

    let item = |text: &str| vec![vec![Span::new(text.to_string(), Style::new())]];
    let items = vec![item("one"), item("two"), item("  ")];
    let rows = app.draw_bar(&slots, &items, 1);
    assert_eq!(text_of(&rows[0]), "one        │ two        │ ");
    // The item without content is not drawn, and takes no clicks.
    assert_eq!(app.hit_test(3, 0), Some(0));
    assert_eq!(app.hit_test(14, 0), Some(1));
    assert_eq!(app.hit_test(12, 0), None);
    assert_eq!(app.hit_test(28, 0), None);
}

#[test]
fn the_bar_scrolls_to_the_selected_agent() {
    let mut app = tile_fixture();
    app.position = SidebarPosition::Top;
    app.horizontal_item_width = 10;
    app.list_state.select(Some(5));
    let inner = Area { x: 0, y: 0, width: 30, height: 1 };
    let item = |text: &str| vec![vec![Span::new(text.to_string(), Style::new())]];
    let slots = app.plan_bar(inner);
    let items = slots.iter().map(|s| item(&format!("a{}", s.idx))).collect();
    app.draw_bar(&slots, &items, 1);
    let slots = app.plan_bar(inner);
    assert!(slots.iter().any(|s| s.idx == 5));
}

#[test]
fn blank_templates_are_left_out_of_the_bar() {
    assert_eq!(bar_templates(&vec![false, true, false, false], 2), vec![0, 2]);
    assert_eq!(bar_templates(&vec![true, true], 2), Vec::<usize>::new());
    assert_eq!(
        bar_line_templates(&vec![false, true, false, false], 2),
        vec![BarTemplate::Own(0), BarTemplate::Own(2)]
    );
    assert_eq!(bar_line_templates(&vec![true, true], 2), vec![BarTemplate::Compact]);
    let template = parse_line("{status_icon} {primary}");
    assert_eq!(remove_blank_status_prefix(&template), parse_line("{primary}"));
    assert_eq!(remove_blank_status_prefix(&parse_line("{primary} {status_icon}")), parse_line("{primary} "));
}
