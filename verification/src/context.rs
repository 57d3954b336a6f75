//! What a row shows of one agent.

use vstd::prelude::*;

use crate::app::{ResolvedAgentIcons, SidebarApp};
use crate::collections;
use crate::collections::StrMap;
use crate::model;
use crate::model::{AgentPane, AgentStatus, CheckSummary, GitStatus, PrSummary};
use crate::row;
use crate::row::TemplateRow;
use crate::style;
use crate::style::{Color, Palette, Span, SpanModel, Style};
use crate::templates::TokenId;
use crate::text;
use crate::ui;
use crate::ui::Glyphs;

verus! {

/// Whether an agent with the given last activity and status counts as stale.
pub open spec fn stale(
    activity: Option<u64>,
    status: Option<AgentStatus>,
    now: u64,
    threshold: u64,
    sleeping: bool,
    interrupted: bool,
) -> bool {
    if sleeping {
        true
    } else if !interrupted && (status == Some(AgentStatus::Working) || status == Some(AgentStatus::Waiting)) {
        false
    } else {
        match activity {
            Some(ts) => now - ts > threshold,
            None => true,
        }
    }
}

/// Whether an agent counts as stale: asleep, or not visibly progressing for longer than the
/// threshold.
pub fn agent_is_stale(
    agent: &AgentPane,
    now_secs: u64,
    stale_threshold_secs: u64,
    is_sleeping: bool,
    is_interrupted: bool,
) -> (r: bool)
    ensures
        r == stale(
            model::last_activity(*agent),
            agent.status,
            now_secs,
            stale_threshold_secs,
            is_sleeping,
            is_interrupted,
        ),
{
    is_agent_stale(
        agent.activity_ts(),
        agent.status,
        now_secs,
        stale_threshold_secs,
        is_sleeping,
        is_interrupted,
    )
}

pub fn is_agent_stale(
    activity_ts: Option<u64>,
    status: Option<AgentStatus>,
    now_secs: u64,
    stale_threshold_secs: u64,
    is_sleeping: bool,
    is_interrupted: bool,
) -> (r: bool)
    ensures
        r == stale(activity_ts, status, now_secs, stale_threshold_secs, is_sleeping, is_interrupted),
{
    if is_sleeping {
        return true;
    }
    if !is_interrupted && matches!(status, Some(AgentStatus::Working) | Some(AgentStatus::Waiting)) {
        return false;
    }
    match activity_ts {
        Some(ts) => now_secs.saturating_sub(ts) > stale_threshold_secs,
        None => true,
    }
}

/// Whether a row is dimmed: only stale agents are, and only where dimming is on.
pub fn should_dim_agent(dim_stale: bool, is_stale: bool) -> (r: bool)
    ensures
        r == (dim_stale && is_stale),
{
    dim_stale && is_stale
}

// ── Elapsed time ────────────────────────────────────────────────

/// `n` with at least two digits.
pub open spec fn two_digits(n: nat) -> Seq<char> {
    if n < 10 {
        seq!['0'] + text::numeral(n)
    } else {
        text::numeral(n)
    }
}

/// A time span in short: minutes and seconds, else whole hours, else whole days.
pub open spec fn compact_time(secs: nat) -> Seq<char> {
    if secs < 3600 {
        text::numeral(secs / 60) + seq![':'] + two_digits(secs % 60)
    } else if secs < 86400 {
        text::numeral(secs / 3600) + seq!['h']
    } else {
        text::numeral(secs / 86400) + seq!['d']
    }
}

pub fn format_compact_elapsed(secs: u64) -> (r: String)
    ensures
        r@ == compact_time(secs as nat),
{
    if secs < 3600 {
        let mut r = text::decimal(secs / 60);
        r.push(':');
        if secs % 60 < 10 {
            r.push('0');
        }
        text::push_decimal(&mut r, secs % 60);
        proof {
            assert(r@ =~= compact_time(secs as nat));
        }
        r
    } else if secs < 86400 {
        let mut r = text::decimal(secs / 3600);
        r.push('h');
        proof {
            assert(r@ =~= compact_time(secs as nat));
        }
        r
    } else {
        let mut r = text::decimal(secs / 86400);
        r.push('d');
        proof {
            assert(r@ =~= compact_time(secs as nat));
        }
        r
    }
}

// ── Agent kinds ─────────────────────────────────────────────────

/// A known kind of agent, with what it looks like unless the configuration says otherwise.
#[derive(Debug)]
pub struct AgentKind {
    pub name: String,
    pub label: String,
    pub icon: String,
    pub color: Option<Color>,
}

/// The kind of an agent: the recorded one, else the one that its command tells. A record that names
/// no known kind says nothing.
pub fn effective_agent_kind(recorded: Option<AgentKind>, from_command: Option<AgentKind>) -> (r: Option<AgentKind>)
    ensures
        r == (if recorded is Some {
            recorded
        } else {
            from_command
        }),
{
    match recorded {
        Some(kind) => Some(kind),
        None => from_command,
    }
}

/// The icon of a kind: the configured one, else its own.
pub open spec fn kind_icon(kind: Option<AgentKind>, icons: ResolvedAgentIcons) -> Seq<char> {
    match kind {
        Some(k) => if icons.icons@.dom().contains(k.name@) {
            icons.icons@[k.name@]@
        } else {
            k.icon@
        },
        None => seq![],
    }
}

pub fn resolve_agent_icon(kind: Option<&AgentKind>, icons: &ResolvedAgentIcons) -> (r: String)
    ensures
        r@ == kind_icon(ui::deref(kind), *icons),
{
    match kind {
        Some(k) => match icons.icons.get(k.name.as_str()) {
            Some(icon) => icon.clone(),
            None => k.icon.clone(),
        },
        None => String::new(),
    }
}

/// The colour of a kind's icon: the configured one, none where the configuration takes it away,
/// else its own.
pub open spec fn kind_color(kind: Option<AgentKind>, icons: ResolvedAgentIcons) -> Option<Color> {
    match kind {
        Some(k) => if icons.colors@.dom().contains(k.name@) {
            icons.colors@[k.name@]
        } else {
            k.color
        },
        None => None,
    }
}

pub fn resolve_agent_icon_color(kind: Option<&AgentKind>, icons: &ResolvedAgentIcons) -> (r: Option<Color>)
    ensures
        r == kind_color(ui::deref(kind), *icons),
{
    match kind {
        Some(k) => match icons.colors.get(k.name.as_str()) {
            Some(color) => *color,
            None => k.color,
        },
        None => None,
    }
}

/// The label of a kind.
pub open spec fn kind_label(kind: Option<AgentKind>) -> Seq<char> {
    match kind {
        Some(k) => k.label@,
        None => seq![],
    }
}

pub fn resolve_agent_label(kind: Option<&AgentKind>) -> (r: String)
    ensures
        r@ == kind_label(ui::deref(kind)),
{
    match kind {
        Some(k) => k.label.clone(),
        None => String::new(),
    }
}

// ── Pane titles ─────────────────────────────────────────────────

/// Whether a title is only the name of the machine.
pub open spec fn names_host(title: Seq<char>, hostname: Option<Seq<char>>) -> bool {
    hostname matches Some(h) && h.len() > 0 && title == h
}

pub fn is_hostname_title_with(title: &str, hostname: Option<&str>) -> (r: bool)
    ensures
        r == names_host(title@, text::view_of(hostname)),
{
    match hostname {
        Some(h) => !h.is_empty() && text::same(title, h),
        None => false,
    }
}

/// The title that a row shows: none that repeats a label or names the machine.
pub open spec fn telling_title(
    title: Option<Seq<char>>,
    primary: Seq<char>,
    secondary: Seq<char>,
    hostname: Option<Seq<char>>,
) -> Option<Seq<char>> {
    match title {
        Some(t) => if t != primary && t != secondary && !names_host(t, hostname) {
            Some(t)
        } else {
            None
        },
        None => None,
    }
}

/// Keeps a pane title that tells something.
pub fn build_pane_title(title: Option<&str>, primary: &str, secondary: &str, hostname: Option<&str>) -> (r: Option<
    String,
>)
    ensures
        text::optional(r) == telling_title(text::view_of(title), primary@, secondary@, text::view_of(hostname)),
{
    match title {
        Some(t) => if !text::same(t, primary) && !text::same(t, secondary) && !is_hostname_title_with(t, hostname) {
            Some(t.to_owned())
        } else {
            None
        },
        None => None,
    }
}

/// `s`, or nothing where it starts with the prefix that marks the program's own windows.
pub open spec fn unless_prefixed(s: Seq<char>, prefix: Seq<char>) -> Seq<char> {
    if text::has_prefix(s, prefix) {
        seq![]
    } else {
        s
    }
}

/// The session and window names that labels may use: those that were not made by the program.
pub fn label_names(agent: &AgentPane, prefix: &str) -> (r: (String, String))
    ensures
        r.0@ == unless_prefixed(agent.session@, prefix@),
        r.1@ == unless_prefixed(agent.window_name@, prefix@),
{
    let session = if text::starts_with(agent.session.as_str(), prefix) {
        String::new()
    } else {
        agent.session.clone()
    };
    let window = if text::starts_with(agent.window_name.as_str(), prefix) {
        String::new()
    } else {
        agent.window_name.clone()
    };
    (session, window)
}

// ── Rows ────────────────────────────────────────────────────────

/// What is known of an agent beside its pane.
#[derive(Debug)]
pub struct RowFacts {
    pub primary: String,
    pub secondary: String,
    /// The name of the worktree, from the window.
    pub worktree: String,
    /// The title of the pane, cleaned.
    pub title: Option<String>,
    /// The name of the machine.
    pub hostname: Option<String>,
    pub kind: Option<AgentKind>,
    /// The status icon with its style codes read.
    pub coded_icon: Vec<Span>,
    /// Whether the checks belong on the branch that is checked out.
    pub shows_checks: bool,
    /// The colour of the pull request's state.
    pub pr_color: Option<Color>,
}

/// Values of every field of one agent's row.
pub struct RowContext<'a> {
    pub agent: &'a AgentPane,
    pub primary: String,
    pub secondary: String,
    pub template_worktree: String,
    pub project: String,
    /// Tells agents of one window apart.
    pub pane_suffix: String,
    pub elapsed: String,
    pub status_icon_spans: Vec<Span>,
    pub status_color: Color,
    pub pane_title: Option<String>,
    pub git_status: Option<&'a GitStatus>,
    pub pr_summary: Option<&'a PrSummary>,
    /// The colour of the pull request's state.
    pub pr_color: Option<Color>,
    pub check_summary: Option<&'a CheckSummary>,
    /// Whether the checks belong on the branch that is checked out.
    pub shows_checks: bool,
    pub is_stale: bool,
    pub is_active: bool,
    pub is_selected: bool,
    pub palette: &'a Palette,
    pub glyphs: &'a Glyphs,
    pub agent_icon: String,
    pub agent_icon_color: Option<Color>,
    pub agent_label: String,
    /// The number of the agent, from 0. None for an agent that no number reaches.
    pub idx: Option<usize>,
    pub spinner_frame: u8,
}

fn find<'a, V>(m: &'a StrMap<V>, key: &str) -> (r: Option<&'a V>)
    ensures
        ui::deref(r) == collections::lookup(m@, key@),
{
    m.get(key)
}

/// Whether a row is drawn dimmed.
pub open spec fn dims(app: SidebarApp, agent: AgentPane, now: u64) -> bool {
    app.dim_stale && stale(
        model::last_activity(agent),
        agent.status,
        now,
        app.stale_threshold_secs,
        app.sleeping_pane_ids@.contains(agent.pane_id@),
        app.interrupted_pane_ids@.contains(agent.pane_id@),
    )
}

/// How long an agent has had its status.
pub open spec fn elapsed_since(ts: Option<u64>, now: u64) -> Seq<char> {
    match ts {
        Some(ts) => compact_time(
            if now >= ts {
                (now - ts) as nat
            } else {
                0
            },
        ),
        None => seq![],
    }
}

fn format_elapsed_since(ts: Option<u64>, now: u64) -> (r: String)
    ensures
        r@ == elapsed_since(ts, now),
{
    match ts {
        Some(ts) => format_compact_elapsed(now.saturating_sub(ts)),
        None => String::new(),
    }
}

/// The number at `idx`, none past the end.
pub open spec fn number_at(numbers: Seq<Option<usize>>, idx: int) -> Option<usize> {
    if 0 <= idx < numbers.len() {
        numbers[idx]
    } else {
        None
    }
}

/// A number from 0 as it is shown, from 1.
pub open spec fn shown_number(idx: usize) -> nat {
    if idx < usize::MAX {
        (idx + 1) as nat
    } else {
        idx as nat
    }
}

/// A count of commits behind an arrow, where there is an upstream to count against.
pub open spec fn commits(s: Option<GitStatus>, arrow: char, ahead: bool) -> Seq<char> {
    match s {
        Some(s) => {
            let n = if ahead {
                s.ahead
            } else {
                s.behind
            };
            if s.has_upstream && n > 0 {
                seq![arrow] + text::numeral(n as nat)
            } else {
                seq![]
            }
        },
        None => seq![],
    }
}

fn commit_count(status: Option<&GitStatus>, arrow: char, ahead: bool) -> (r: String)
    ensures
        r@ == commits(ui::deref(status), arrow, ahead),
{
    let mut r = String::new();
    match status {
        Some(s) => {
            let n: usize = if ahead {
                s.ahead
            } else {
                s.behind
            };
            if s.has_upstream && n > 0 {
                r.push(arrow);
                text::push_decimal(&mut r, n as u64);
                proof {
                    assert(r@ =~= seq![arrow] + text::numeral(n as nat));
                }
            }
        },
        None => {},
    }
    r
}

/// The name of a status.
pub open spec fn status_name(status: Option<AgentStatus>) -> Seq<char> {
    match status {
        Some(AgentStatus::Working) => "Working"@,
        Some(AgentStatus::Waiting) => "Waiting"@,
        Some(AgentStatus::Done) => "Done"@,
        None => seq![],
    }
}

fn status_label(status: Option<AgentStatus>) -> (r: String)
    ensures
        r@ == status_name(status),
{
    match status {
        Some(AgentStatus::Working) => "Working".to_owned(),
        Some(AgentStatus::Waiting) => "Waiting".to_owned(),
        Some(AgentStatus::Done) => "Done".to_owned(),
        None => String::new(),
    }
}

/// The contents of an optional string, nothing where there is none.
pub open spec fn text_or_empty(s: Option<String>) -> Seq<char> {
    match s {
        Some(s) => s@,
        None => seq![],
    }
}

fn or_empty(s: &Option<String>) -> (r: String)
    ensures
        r@ == text_or_empty(*s),
{
    match s {
        Some(s) => s.clone(),
        None => String::new(),
    }
}

/// The number that an agent answers to.
pub open spec fn index_text(idx: Option<usize>) -> Seq<char> {
    match idx {
        Some(i) => text::numeral(shown_number(i)),
        None => seq![],
    }
}

fn index_label(idx: Option<usize>) -> (r: String)
    ensures
        r@ == index_text(idx),
{
    match idx {
        Some(i) => text::decimal(i.saturating_add(1) as u64),
        None => String::new(),
    }
}

/// The key that jumps to an agent; only the first nine have one.
pub open spec fn jump_key(idx: Option<usize>) -> Seq<char> {
    match idx {
        Some(i) => if i < 9 {
            "M-"@ + text::numeral((i + 1) as nat)
        } else {
            seq![]
        },
        None => seq![],
    }
}

fn jump_key_label(idx: Option<usize>) -> (r: String)
    ensures
        r@ == jump_key(idx),
{
    match idx {
        Some(i) if i < 9 => {
            let mut r = "M-".to_owned();
            text::push_decimal(&mut r, (i + 1) as u64);
            r
        },
        _ => String::new(),
    }
}

/// What a field of an agent's row shows. The git segments and the checks are laid out by width
/// and show nothing here; groups are the headers' own.
pub open spec fn row_text(row: RowContext, token: TokenId) -> Seq<char> {
    match token {
        TokenId::Primary => row.primary@,
        TokenId::Secondary => row.secondary@,
        TokenId::Worktree => row.template_worktree@,
        TokenId::Project => row.project@,
        TokenId::Session => row.agent.session@,
        TokenId::Window => row.agent.window_name@,
        TokenId::WindowIndex => match row.agent.window_index {
            Some(i) => text::numeral(i as nat),
            None => seq![],
        },
        TokenId::PaneTitle => text_or_empty(row.pane_title),
        TokenId::AgentLabel => row.agent_label@,
        TokenId::StatusIcon => row::plain_text(style::models(row.status_icon_spans@)),
        TokenId::AgentIcon => row.agent_icon@,
        TokenId::PaneSuffix => row.pane_suffix@,
        TokenId::Elapsed => row.elapsed@,
        TokenId::GitStats => seq![],
        TokenId::GitCommitted => seq![],
        TokenId::GitUncommitted => seq![],
        TokenId::GitRebase => seq![],
        TokenId::PrChecks => seq![],
        TokenId::GitAhead => commits(ui::deref(row.git_status), '\u{2191}', true),
        TokenId::GitBehind => commits(ui::deref(row.git_status), '\u{2193}', false),
        TokenId::GitDirty => match row.git_status {
            Some(s) => if s.is_dirty {
                row.glyphs.diff@
            } else {
                seq![]
            },
            None => seq![],
        },
        TokenId::GitConflict => match row.git_status {
            Some(s) => if s.has_conflict {
                row.glyphs.conflict@
            } else {
                seq![]
            },
            None => seq![],
        },
        TokenId::GitBranch => match row.git_status {
            Some(s) => text_or_empty(s.branch),
            None => seq![],
        },
        TokenId::PrNumber => match row.pr_summary {
            Some(pr) => seq!['#'] + text::numeral(pr.number as nat),
            None => seq![],
        },
        TokenId::StatusLabel => status_name(row.agent.status),
        TokenId::Group => seq![],
        TokenId::GroupCount => seq![],
        TokenId::GroupStatus => seq![],
        TokenId::Idx => index_text(row.idx),
        TokenId::JumpKey => jump_key(row.idx),
    }
}

/// The style of a field of an agent's row: dimmed throughout where the agent is stale.
pub open spec fn row_style(row: RowContext, token: TokenId) -> Style {
    let p = *row.palette;
    if row.is_stale {
        Style { dim: true, ..Style::colored(p.dimmed) }
    } else {
        match token {
            TokenId::Primary => if row.is_active {
                Style { bold: true, ..Style::colored(p.current_worktree_fg) }
            } else {
                Style::colored(p.text)
            },
            TokenId::Secondary => Style { dim: true, ..Style::colored(p.text) },
            TokenId::PaneTitle => Style::colored(p.dimmed),
            TokenId::PaneSuffix => Style::colored(p.dimmed),
            TokenId::Elapsed => Style { dim: true, ..Style::colored(p.text) },
            TokenId::GitAhead => Style::colored(p.success),
            TokenId::GitBehind => Style::colored(p.danger),
            TokenId::GitDirty => Style::colored(p.warning),
            TokenId::GitConflict => Style::colored(p.danger),
            TokenId::PrNumber => Style::colored(
                match (row.pr_summary, row.pr_color) {
                    (Some(_), Some(c)) => c,
                    _ => p.text,
                },
            ),
            TokenId::StatusLabel => Style::colored(row.status_color),
            TokenId::Idx => Style::colored(p.dimmed),
            TokenId::JumpKey => Style::colored(p.dimmed),
            TokenId::WindowIndex => Style::colored(p.dimmed),
            TokenId::AgentIcon => Style::colored(
                match row.agent_icon_color {
                    Some(c) => c,
                    None => p.text,
                },
            ),
            _ => Style::colored(p.text),
        }
    }
}

/// A git field of an agent's row within a width.
pub open spec fn row_git(row: RowContext, token: TokenId, width: nat) -> (Seq<SpanModel>, nat) {
    let s = ui::deref(row.git_status);
    let p = *row.palette;
    match token {
        TokenId::GitStats => ui::git_stats(s, p, row.is_stale, *row.glyphs, width),
        TokenId::GitCommitted => ui::committed_segment(s, p, row.is_stale, width),
        TokenId::GitUncommitted => ui::uncommitted_segment(s, p, row.is_stale, row.glyphs.diff@, width),
        TokenId::GitRebase => ui::rebase_segment(s, p, row.is_stale, row.glyphs.rebase@, width),
        _ => (seq![], 0),
    }
}

/// The checks of an agent's row within a width: none that belong to another branch.
pub open spec fn row_checks(row: RowContext, width: nat) -> (Seq<SpanModel>, nat) {
    ui::check_segment(
        if branch_of(row) is None || row.shows_checks {
            ui::deref(row.check_summary)
        } else {
            None
        },
        *row.palette,
        row.is_stale,
        *row.glyphs,
        row.spinner_frame as int,
        width,
    )
}

/// The branch that is checked out.
pub open spec fn branch_of(row: RowContext) -> Option<Seq<char>> {
    match row.git_status {
        Some(s) => text::optional(s.branch),
        None => None,
    }
}

/// The columns of a field of an agent's row before anything is cut.
pub open spec fn row_width(row: RowContext, token: TokenId) -> usize {
    match token {
        TokenId::StatusIcon => style::capped(style::span_columns(style::models(row.status_icon_spans@))),
        TokenId::GitStats => row_git(row, token, usize::MAX as nat).1 as usize,
        TokenId::GitCommitted => row_git(row, token, usize::MAX as nat).1 as usize,
        TokenId::GitUncommitted => row_git(row, token, usize::MAX as nat).1 as usize,
        TokenId::GitRebase => row_git(row, token, usize::MAX as nat).1 as usize,
        TokenId::PrChecks => row_checks(row, usize::MAX as nat).1 as usize,
        _ => style::columns(row_text(row, token)) as usize,
    }
}

impl<'a> RowContext<'a> {
    /// Gathers what the row of agent `idx` shows.
    pub fn build(
        app: &'a SidebarApp,
        agent: &'a AgentPane,
        idx: usize,
        pane_suffixes: &Vec<String>,
        facts: RowFacts,
        glyphs: &'a Glyphs,
        now_secs: u64,
        selected_idx: Option<usize>,
    ) -> (r: Self)
        requires
            idx < pane_suffixes@.len(),
        ensures
            r.agent == agent,
            r.primary == facts.primary,
            r.secondary == facts.secondary,
            r.template_worktree == facts.worktree,
            r.project@ == agent.project@,
            r.pane_suffix@ == pane_suffixes@[idx as int]@,
            r.elapsed@ == elapsed_since(agent.status_ts, now_secs),
            r.is_stale == dims(*app, *agent, now_secs),
            style::models(r.status_icon_spans@) == ui::icon_spans(
                ui::status_look(
                    app.status_icons,
                    app.palette,
                    glyphs.nerd_font,
                    app.spinner_frame,
                    agent.status,
                    r.is_stale,
                ),
                style::models(facts.coded_icon@),
            ),
            Some(r.status_color) == ui::status_look(
                app.status_icons,
                app.palette,
                glyphs.nerd_font,
                app.spinner_frame,
                agent.status,
                r.is_stale,
            ).1.fg,
            text::optional(r.pane_title) == telling_title(
                text::optional(facts.title),
                facts.primary@,
                facts.secondary@,
                text::optional(facts.hostname),
            ),
            ui::deref(r.git_status) == collections::lookup(app.git_statuses@, agent.path@),
            ui::deref(r.pr_summary) == collections::lookup(app.pr_statuses@, agent.path@),
            r.pr_color == facts.pr_color,
            ui::deref(r.check_summary) == collections::lookup(app.check_statuses@, agent.path@),
            r.shows_checks == facts.shows_checks,
            r.is_active == (app.host_agent_idx == Some(idx)),
            r.is_selected == (selected_idx == Some(idx)),
            *r.palette == app.palette,
            r.glyphs == glyphs,
            r.agent_icon@ == kind_icon(facts.kind, app.agent_icons),
            r.agent_icon_color == kind_color(facts.kind, app.agent_icons),
            r.agent_label@ == kind_label(facts.kind),
            r.idx == number_at(app.jump_numbers@, idx as int),
            r.spinner_frame == app.spinner_frame,
    {
        let is_sleeping = app.sleeping_pane_ids.contains(agent.pane_id.as_str());
        let is_interrupted = app.interrupted_pane_ids.contains(agent.pane_id.as_str());
        let is_stale = should_dim_agent(
            app.dim_stale,
            agent_is_stale(agent, now_secs, app.stale_threshold_secs, is_sleeping, is_interrupted),
        );
        let (icon, base) = ui::status_icon_and_style(
            &app.status_icons,
            &app.palette,
            glyphs,
            app.spinner_frame,
            agent.status,
            is_stale,
        );
        let status_color = match base.fg {
            Some(c) => c,
            None => Color::Reset,
        };
        let status_icon_spans = ui::status_icon_spans(icon, base, &facts.coded_icon);
        let title = match &facts.title {
            Some(t) => Some(t.as_str()),
            None => None,
        };
        let hostname = match &facts.hostname {
            Some(h) => Some(h.as_str()),
            None => None,
        };
        let pane_title = build_pane_title(title, facts.primary.as_str(), facts.secondary.as_str(), hostname);
        let kind = facts.kind.as_ref();
        let jump_idx = if idx < app.jump_numbers.len() {
            app.jump_numbers[idx]
        } else {
            None
        };
        RowContext {
            agent,
            template_worktree: facts.worktree.clone(),
            project: agent.project.clone(),
            pane_suffix: pane_suffixes[idx].clone(),
            elapsed: format_elapsed_since(agent.status_ts, now_secs),
            status_icon_spans,
            status_color,
            pane_title,
            git_status: find(&app.git_statuses, agent.path.as_str()),
            pr_summary: find(&app.pr_statuses, agent.path.as_str()),
            pr_color: facts.pr_color,
            check_summary: find(&app.check_statuses, agent.path.as_str()),
            shows_checks: facts.shows_checks,
            is_stale,
            is_active: app.host_agent_idx == Some(idx),
            is_selected: selected_idx == Some(idx),
            palette: &app.palette,
            glyphs,
            agent_icon: resolve_agent_icon(kind, &app.agent_icons),
            agent_icon_color: resolve_agent_icon_color(kind, &app.agent_icons),
            agent_label: resolve_agent_label(kind),
            idx: jump_idx,
            spinner_frame: app.spinner_frame,
            primary: facts.primary,
            secondary: facts.secondary,
        }
    }

    /// What a field shows.
    pub fn resolve(&self, token: TokenId) -> (r: String)
        ensures
            r@ == row_text(*self, token),
    {
        match token {
            TokenId::Primary => self.primary.clone(),
            TokenId::Secondary => self.secondary.clone(),
            TokenId::Worktree => self.template_worktree.clone(),
            TokenId::Project => self.project.clone(),
            TokenId::Session => self.agent.session.clone(),
            TokenId::Window => self.agent.window_name.clone(),
            TokenId::WindowIndex => match self.agent.window_index {
                Some(i) => text::decimal(i as u64),
                None => String::new(),
            },
            TokenId::PaneTitle => or_empty(&self.pane_title),
            TokenId::AgentLabel => self.agent_label.clone(),
            TokenId::StatusIcon => {
                let mut r = String::new();
                row::push_text(&mut r, &self.status_icon_spans);
                proof {
                    assert(r@ =~= row::plain_text(style::models(self.status_icon_spans@)));
                }
                r
            },
            TokenId::AgentIcon => self.agent_icon.clone(),
            TokenId::PaneSuffix => self.pane_suffix.clone(),
            TokenId::Elapsed => self.elapsed.clone(),
            TokenId::GitAhead => commit_count(self.git_status, '\u{2191}', true),
            TokenId::GitBehind => commit_count(self.git_status, '\u{2193}', false),
            TokenId::GitDirty => match self.git_status {
                Some(s) if s.is_dirty => self.glyphs.diff.clone(),
                _ => String::new(),
            },
            TokenId::GitConflict => match self.git_status {
                Some(s) if s.has_conflict => self.glyphs.conflict.clone(),
                _ => String::new(),
            },
            TokenId::GitBranch => match self.git_status {
                Some(s) => or_empty(&s.branch),
                None => String::new(),
            },
            TokenId::PrNumber => match self.pr_summary {
                Some(pr) => {
                    let mut r = String::new();
                    r.push('#');
                    text::push_decimal(&mut r, pr.number as u64);
                    proof {
                        assert(r@ =~= seq!['#'] + text::numeral(pr.number as nat));
                    }
                    r
                },
                None => String::new(),
            },
            TokenId::StatusLabel => status_label(self.agent.status),
            TokenId::Idx => index_label(self.idx),
            TokenId::JumpKey => jump_key_label(self.idx),
            _ => String::new(),
        }
    }

    /// The columns of a field before anything is cut.
    pub fn natural_width(&self, token: TokenId) -> (r: usize)
        ensures
            r == row_width(*self, token),
    {
        match token {
            TokenId::StatusIcon => style::cap(style::spans_width(&self.status_icon_spans)),
            TokenId::GitStats | TokenId::GitCommitted | TokenId::GitUncommitted | TokenId::GitRebase => {
                let (_, width) = self.git_segment_spans(token, usize::MAX);
                width
            },
            TokenId::PrChecks => {
                let (_, width) = self.pr_check_spans(usize::MAX);
                width
            },
            other => {
                let s = self.resolve(other);
                style::display_width(s.as_str())
            },
        }
    }

    /// The git stats within a width, and the columns they take.
    pub fn git_stats_spans(&self, allocated_width: usize) -> (r: (Vec<Span>, usize))
        ensures
            (style::models(r.0@), r.1 as nat) == row_git(*self, TokenId::GitStats, allocated_width as nat),
            style::span_columns(style::models(r.0@)) == r.1,
    {
        ui::format_sidebar_git_stats(self.git_status, self.palette, self.is_stale, self.glyphs, allocated_width)
    }

    /// A git field within a width, and the columns it takes.
    pub fn git_segment_spans(&self, token: TokenId, allocated_width: usize) -> (r: (Vec<Span>, usize))
        ensures
            (style::models(r.0@), r.1 as nat) == row_git(*self, token, allocated_width as nat),
            style::span_columns(style::models(r.0@)) == r.1,
    {
        match token {
            TokenId::GitStats => self.git_stats_spans(allocated_width),
            TokenId::GitCommitted => ui::format_committed_spans(
                self.git_status,
                self.palette,
                self.is_stale,
                allocated_width,
            ),
            TokenId::GitUncommitted => ui::format_uncommitted_spans(
                self.git_status,
                self.palette,
                self.is_stale,
                self.glyphs,
                allocated_width,
            ),
            TokenId::GitRebase => ui::format_rebase_spans(
                self.git_status,
                self.palette,
                self.is_stale,
                self.glyphs,
                allocated_width,
            ),
            _ => {
                let none: Vec<Span> = Vec::new();
                proof {
                    assert(style::models(none@) =~= Seq::<SpanModel>::empty());
                }
                (none, 0)
            },
        }
    }

    /// The checks within a width, and the columns they take.
    pub fn pr_check_spans(&self, allocated_width: usize) -> (r: (Vec<Span>, usize))
        ensures
            (style::models(r.0@), r.1 as nat) == row_checks(*self, allocated_width as nat),
            style::span_columns(style::models(r.0@)) == r.1,
    {
        let on_branch = match self.git_status {
            Some(s) => s.branch.is_some(),
            None => false,
        };
        let summary = if !on_branch || self.shows_checks {
            self.check_summary
        } else {
            None
        };
        ui::format_sidebar_check_status(
            summary,
            self.palette,
            self.is_stale,
            self.glyphs,
            self.spinner_frame,
            allocated_width,
        )
    }

    /// The style of a field, unless the template sets one.
    pub fn intrinsic_style(&self, token: TokenId) -> (r: Style)
        ensures
            r == row_style(*self, token),
    {
        let p = self.palette;
        if self.is_stale {
            return Style::fg(p.dimmed).dim();
        }
        match token {
            TokenId::Primary => if self.is_active {
                Style::fg(p.current_worktree_fg).bold()
            } else {
                Style::fg(p.text)
            },
            TokenId::Secondary | TokenId::Elapsed => Style::fg(p.text).dim(),
            TokenId::PaneTitle | TokenId::PaneSuffix => Style::fg(p.dimmed),
            TokenId::GitAhead => Style::fg(p.success),
            TokenId::GitBehind | TokenId::GitConflict => Style::fg(p.danger),
            TokenId::GitDirty => Style::fg(p.warning),
            TokenId::PrNumber => match (self.pr_summary, self.pr_color) {
                (Some(_), Some(c)) => Style::fg(c),
                _ => Style::fg(p.text),
            },
            TokenId::StatusLabel => Style::fg(self.status_color),
            TokenId::Idx | TokenId::JumpKey | TokenId::WindowIndex => Style::fg(p.dimmed),
            TokenId::AgentIcon => match self.agent_icon_color {
                Some(c) => Style::fg(c),
                None => Style::fg(p.text),
            },
            _ => Style::fg(p.text),
        }
    }
}

impl<'a> TemplateRow for RowContext<'a> {
    open spec fn text_of(&self, token: TokenId) -> Seq<char> {
        row_text(*self, token)
    }

    open spec fn style_of(&self, token: TokenId) -> Style {
        row_style(*self, token)
    }

    open spec fn width_of(&self, token: TokenId) -> usize {
        row_width(*self, token)
    }

    open spec fn icon(&self) -> Seq<SpanModel> {
        style::models(self.status_icon_spans@)
    }

    open spec fn dimmed(&self) -> bool {
        self.is_stale
    }

    open spec fn git_segment(&self, token: TokenId, width: nat) -> (Seq<SpanModel>, nat) {
        row_git(*self, token, width)
    }

    open spec fn checks(&self, width: nat) -> (Seq<SpanModel>, nat) {
        row_checks(*self, width)
    }

    open spec fn statuses(&self, width: nat) -> (Seq<SpanModel>, nat) {
        (seq![], 0)
    }

    fn resolve(&self, token: TokenId) -> (r: String) {
        RowContext::resolve(self, token)
    }

    fn intrinsic_style(&self, token: TokenId) -> (r: Style) {
        RowContext::intrinsic_style(self, token)
    }

    fn natural_width(&self, token: TokenId) -> (r: usize) {
        RowContext::natural_width(self, token)
    }

    fn status_icon_spans(&self) -> (r: Vec<Span>) {
        style::copy_spans(&self.status_icon_spans)
    }

    fn is_stale(&self) -> (r: bool) {
        self.is_stale
    }

    fn git_segment_spans(&self, token: TokenId, width: usize) -> (r: (Vec<Span>, usize)) {
        RowContext::git_segment_spans(self, token, width)
    }

    fn pr_check_spans(&self, width: usize) -> (r: (Vec<Span>, usize)) {
        RowContext::pr_check_spans(self, width)
    }

    fn group_status_spans(&self, width: usize) -> (r: (Vec<Span>, usize)) {
        let none: Vec<Span> = Vec::new();
        proof {
            assert(style::models(none@) =~= Seq::<SpanModel>::empty());
        }
        (none, 0)
    }
}

// ── What a row is for ───────────────────────────────────────────

/// An agent that sleeps is stale. One that works or waits undisturbed is not, however long it takes.
/// Any other is stale once it was silent for longer than the threshold, and from the start where it was
/// never heard of. Time makes nobody less stale.
pub proof fn law_silence_makes_stale(
    ts: u64,
    status: Option<AgentStatus>,
    now: u64,
    later: u64,
    threshold: u64,
    sleeping: bool,
    interrupted: bool,
)
    requires
        now <= later,
    ensures
        stale(Some(ts), status, now, threshold, true, interrupted) && stale(None, status, now, threshold, true, interrupted),
        !stale(Some(ts), Some(AgentStatus::Working), now, threshold, false, false),
        !stale(None, Some(AgentStatus::Waiting), now, threshold, false, false),
        !stale(Some(ts), Some(AgentStatus::Waiting), now, threshold, false, false),
        status is None || status == Some(AgentStatus::Done) || interrupted ==> {
            &&& stale(None, status, now, threshold, false, interrupted)
            &&& stale(Some(ts), status, now, threshold, false, interrupted) <==> now > ts + threshold
        },
        stale(Some(ts), status, now, threshold, sleeping, interrupted) ==> stale(
            Some(ts),
            status,
            later,
            threshold,
            sleeping,
            interrupted,
        ),
{
}

/// Time is told in minutes and seconds below an hour, in whole hours below a day, in whole days from
/// then on; nothing is rounded up.
pub proof fn law_time_is_told_in_its_unit(secs: nat, minutes: nat, rest: nat)
    requires
        rest < 60,
    ensures
        minutes < 60 && rest < 10 ==> compact_time(60 * minutes + rest) == text::numeral(minutes) + seq![':', '0']
            + text::numeral(rest),
        minutes < 60 && rest >= 10 ==> compact_time(60 * minutes + rest) == text::numeral(minutes) + seq![':']
            + text::numeral(rest),
        1 <= minutes < 24 && secs < 3600 ==> compact_time(3600 * minutes + secs) == text::numeral(minutes) + seq!['h'],
        1 <= minutes && secs < 86400 ==> compact_time(86400 * minutes + secs) == text::numeral(minutes) + seq!['d'],
{
    assert((60 * minutes + rest) / 60 == minutes);
    assert((60 * minutes + rest) % 60 == rest);
    if secs < 3600 {
        assert((3600 * minutes + secs) / 3600 == minutes);
    }
    if secs < 86400 {
        assert((86400 * minutes + secs) / 86400 == minutes);
    }
    if minutes < 60 && rest < 10 {
        assert(compact_time(60 * minutes + rest) =~= text::numeral(minutes) + seq![':', '0'] + text::numeral(rest));
    }
}

/// A row tells how long its agent has had its status, none where that is not known, and no time at all
/// where the clock was set back.
pub proof fn law_time_runs_from_the_status(ts: u64, now: u64)
    ensures
        now >= ts ==> elapsed_since(Some(ts), now) == compact_time((now - ts) as nat),
        now < ts ==> elapsed_since(Some(ts), now) == elapsed_since(Some(now), now),
        elapsed_since(None, now).len() == 0,
{
}

/// What the configuration says of a kind of agent goes before what the kind itself brings along, and a
/// colour can be configured away. An agent of no known kind has neither icon, colour nor label.
pub proof fn law_kinds_are_configured(k: AgentKind, icons: ResolvedAgentIcons)
    ensures
        icons.icons@.dom().contains(k.name@) ==> kind_icon(Some(k), icons) == icons.icons@[k.name@]@,
        !icons.icons@.dom().contains(k.name@) ==> kind_icon(Some(k), icons) == k.icon@,
        icons.colors@.dom().contains(k.name@) ==> kind_color(Some(k), icons) == icons.colors@[k.name@],
        !icons.colors@.dom().contains(k.name@) ==> kind_color(Some(k), icons) == k.color,
        kind_label(Some(k)) == k.label@,
        kind_icon(None, icons).len() == 0 && kind_color(None, icons) is None && kind_label(None).len() == 0,
{
}

/// A pane title is shown unless the row says the same already or it is only the name of the machine;
/// it is never changed.
pub proof fn law_titles_tell_something(title: Seq<char>, primary: Seq<char>, secondary: Seq<char>, hostname: Option<Seq<char>>)
    ensures
        ({
            let shown = telling_title(Some(title), primary, secondary, hostname);
            let host = hostname is Some && hostname->0 == title && title.len() > 0;
            &&& shown is Some ==> shown->0 == title
            &&& shown is None <==> title == primary || title == secondary || host
        }),
        telling_title(None, primary, secondary, hostname) is None,
{
}

/// Names that the program gave carry its prefix and are left out of labels; all others are kept as they
/// are.
pub proof fn law_own_names_are_left_out(prefix: Seq<char>, rest: Seq<char>, other: Seq<char>)
    requires
        other.len() < prefix.len() || other.take(prefix.len() as int) != prefix,
    ensures
        unless_prefixed(prefix + rest, prefix).len() == 0,
        unless_prefixed(other, prefix) == other,
{
    assert((prefix + rest).take(prefix.len() as int) =~= prefix);
    assert forall|p: Seq<char>| text::has_prefix(other, p) implies other.take(p.len() as int) =~= p by {}
}

/// What the fields of an agent's row tell: each its own fact of the agent, its branch, its pull request
/// or its number, and nothing where that fact is not known.
pub proof fn law_fields_tell_their_fact(row: RowContext)
    ensures
        row_text(row, TokenId::Primary) == row.primary@,
        row_text(row, TokenId::Secondary) == row.secondary@,
        row_text(row, TokenId::Worktree) == row.template_worktree@,
        row_text(row, TokenId::Project) == row.project@,
        row_text(row, TokenId::Session) == row.agent.session@,
        row_text(row, TokenId::Window) == row.agent.window_name@,
        row_text(row, TokenId::AgentLabel) == row.agent_label@,
        row_text(row, TokenId::AgentIcon) == row.agent_icon@,
        row_text(row, TokenId::PaneSuffix) == row.pane_suffix@,
        row_text(row, TokenId::Elapsed) == row.elapsed@,
        row.agent.window_index is Some ==> row_text(row, TokenId::WindowIndex) == text::numeral(
            row.agent.window_index->0 as nat,
        ),
        row.pane_title is Some ==> row_text(row, TokenId::PaneTitle) == row.pane_title->0@,
        row.agent.status == Some(AgentStatus::Working) ==> row_text(row, TokenId::StatusLabel) == "Working"@,
        row.agent.status == Some(AgentStatus::Waiting) ==> row_text(row, TokenId::StatusLabel) == "Waiting"@,
        row.agent.status == Some(AgentStatus::Done) ==> row_text(row, TokenId::StatusLabel) == "Done"@,
        row.pr_summary is Some ==> row_text(row, TokenId::PrNumber) == seq!['#'] + text::numeral(
            row.pr_summary->0.number as nat,
        ),
        row.agent.window_index is None ==> row_text(row, TokenId::WindowIndex).len() == 0,
        row.pane_title is None ==> row_text(row, TokenId::PaneTitle).len() == 0,
        row.agent.status is None ==> row_text(row, TokenId::StatusLabel).len() == 0,
        row.pr_summary is None ==> row_text(row, TokenId::PrNumber).len() == 0,
{
}

/// What the git fields of a row tell: how far the branch is ahead of its upstream and behind it, where
/// it has one and is not level with it; whether the worktree is dirty or in conflict; the branch.
pub proof fn law_git_fields_tell_the_branch(row: RowContext)
    ensures
        match row.git_status {
            Some(s) => {
                &&& s.has_upstream && s.ahead > 0 ==> row_text(row, TokenId::GitAhead) == seq!['↑'] + text::numeral(
                    s.ahead as nat,
                )
                &&& s.has_upstream && s.behind > 0 ==> row_text(row, TokenId::GitBehind) == seq!['↓'] + text::numeral(
                    s.behind as nat,
                )
                &&& !s.has_upstream || s.ahead == 0 ==> row_text(row, TokenId::GitAhead).len() == 0
                &&& !s.has_upstream || s.behind == 0 ==> row_text(row, TokenId::GitBehind).len() == 0
                &&& s.is_dirty ==> row_text(row, TokenId::GitDirty) == row.glyphs.diff@
                &&& !s.is_dirty ==> row_text(row, TokenId::GitDirty).len() == 0
                &&& s.has_conflict ==> row_text(row, TokenId::GitConflict) == row.glyphs.conflict@
                &&& !s.has_conflict ==> row_text(row, TokenId::GitConflict).len() == 0
                &&& s.branch is Some ==> row_text(row, TokenId::GitBranch) == s.branch->0@
                &&& s.branch is None ==> row_text(row, TokenId::GitBranch).len() == 0
            },
            None => {
                &&& row_text(row, TokenId::GitAhead).len() == 0
                &&& row_text(row, TokenId::GitBehind).len() == 0
                &&& row_text(row, TokenId::GitDirty).len() == 0
                &&& row_text(row, TokenId::GitConflict).len() == 0
                &&& row_text(row, TokenId::GitBranch).len() == 0
            },
        },
{
}

/// Agents are numbered from 1. The first nine have a key that jumps to them, which names their number;
/// the others, and those without a number, have none.
pub proof fn law_jump_keys_name_the_number(row: RowContext)
    ensures
        row.idx is None ==> row_text(row, TokenId::Idx).len() == 0 && row_text(row, TokenId::JumpKey).len() == 0,
        row.idx is Some && row.idx->0 < usize::MAX ==> row_text(row, TokenId::Idx) == text::numeral(
            (row.idx->0 + 1) as nat,
        ),
        row.idx is Some && row.idx->0 < 9 ==> row_text(row, TokenId::JumpKey) == seq!['M', '-'] + row_text(
            row,
            TokenId::Idx,
        ),
        row.idx is Some && row.idx->0 >= 9 ==> row_text(row, TokenId::JumpKey).len() == 0,
{
    reveal_strlit("M-");
    assert("M-"@ =~= seq!['M', '-']);
}

/// A stale agent's row is dim in every field. In any other, the primary field stands out, bold, where
/// the agent is the host's; what a field warns of has the colour of danger or warning, what is well
/// that of success; and what helps to read the row is dimmed.
pub proof fn law_fields_have_their_colours(row: RowContext, token: TokenId)
    ensures
        row.is_stale ==> row_style(row, token) == ui::drawn(seq![], row.palette.dimmed, true).style,
        !row.is_stale ==> {
            let p = *row.palette;
            let plain = |c: Color| ui::drawn(seq![], c, false).style;
            let dim = |c: Color| ui::drawn(seq![], c, true).style;
            &&& token is Primary && row.is_active ==> row_style(row, token) == (Style {
                bold: true,
                ..plain(p.current_worktree_fg)
            })
            &&& token is Primary && !row.is_active ==> row_style(row, token) == plain(p.text)
            &&& token is Secondary || token is Elapsed ==> row_style(row, token) == dim(p.text)
            &&& token is PaneTitle || token is PaneSuffix || token is Idx || token is JumpKey || token is WindowIndex
                ==> row_style(row, token) == plain(p.dimmed)
            &&& token is GitAhead ==> row_style(row, token) == plain(p.success)
            &&& token is GitBehind || token is GitConflict ==> row_style(row, token) == plain(p.danger)
            &&& token is GitDirty ==> row_style(row, token) == plain(p.warning)
            &&& token is StatusLabel ==> row_style(row, token) == plain(row.status_color)
            &&& token is PrNumber && row.pr_summary is Some && row.pr_color is Some ==> row_style(row, token) == plain(
                row.pr_color->0,
            )
            &&& token is AgentIcon && row.agent_icon_color is Some ==> row_style(row, token) == plain(
                row.agent_icon_color->0,
            )
            &&& token is AgentIcon && row.agent_icon_color is None ==> row_style(row, token) == plain(p.text)
            &&& token is Worktree || token is Project || token is Session || token is Window || token is AgentLabel
                || token is GitBranch ==> row_style(row, token) == plain(p.text)
        },
{
}

/// Checks are shown unless they belong to another branch than the one that is checked out.
pub proof fn law_checks_belong_to_the_branch(row: RowContext, width: nat)
    ensures
        row.git_status is Some && row.git_status->0.branch is Some && !row.shows_checks ==> row_checks(row, width).0.len()
            == 0,
        row.git_status is None || row.git_status->0.branch is None || row.shows_checks ==> row_checks(row, width)
            == ui::check_segment(
            ui::deref(row.check_summary),
            *row.palette,
            row.is_stale,
            *row.glyphs,
            row.spinner_frame as int,
            width,
        ),
{
}

/// Rows are dimmed only where the sidebar dims at all, and exactly for agents that are stale.
pub proof fn law_stale_rows_are_dimmed(app: SidebarApp, agent: AgentPane, now: u64)
    ensures
        !app.dim_stale ==> !dims(app, agent, now),
        app.dim_stale && app.sleeping_pane_ids@.contains(agent.pane_id@) ==> dims(app, agent, now),
        !app.sleeping_pane_ids@.contains(agent.pane_id@) && !app.interrupted_pane_ids@.contains(agent.pane_id@) && (
        agent.status == Some(AgentStatus::Working) || agent.status == Some(AgentStatus::Waiting)) ==> !dims(app, agent, now),
        app.dim_stale && agent.activity_ts is Some && agent.status is None && now > agent.activity_ts->0
            + app.stale_threshold_secs ==> dims(app, agent, now),
        agent.activity_ts is Some && agent.status is None && !app.sleeping_pane_ids@.contains(agent.pane_id@) && now
            <= agent.activity_ts->0 + app.stale_threshold_secs ==> !dims(app, agent, now),
{
}

/// An agent's number is the one at its place, and there is none past the end.
pub proof fn law_numbers_stand_at_their_place(numbers: Seq<Option<usize>>, idx: int)
    requires
        idx >= 0,
    ensures
        idx < numbers.len() ==> number_at(numbers, idx) == numbers[idx],
        idx >= numbers.len() ==> number_at(numbers, idx) is None,
{
}

} // verus!
