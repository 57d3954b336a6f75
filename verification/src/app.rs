//! The state of one sidebar: rows, selection, toggles and resizing.

use vstd::prelude::*;

use crate::collections::{StrMap, StrSet};
use crate::model::{AgentPane, CheckSummary, GitStatus, PrSummary, SidebarGroupBy, SidebarPosition, StatusIcons};
use crate::resize::ResizeState;
use crate::rows;
use crate::rows::{RowInputs, RowModel, SidebarRow};
use crate::selection;
use crate::selection::ListState;
use crate::snapshot;
use crate::style;
use crate::style::{Color, Palette};
use crate::templates;
use crate::templates::{ParsedTemplates, TemplateError, TemplateStrings, TemplatesConfig};
use crate::text;

verus! {

/// Sidebar layout mode.
#[derive(Debug, Clone, Copy, PartialEq, Eq, Structural)]
pub enum SidebarLayoutMode {
    Compact,
    Tiles,
}

/// The name of a layout mode.
pub open spec fn layout_mode_name(mode: SidebarLayoutMode) -> Seq<char> {
    match mode {
        SidebarLayoutMode::Compact => "compact"@,
        SidebarLayoutMode::Tiles => "tiles"@,
    }
}

impl SidebarLayoutMode {
    pub fn as_str(self) -> (r: &'static str)
        ensures
            r@ == layout_mode_name(self),
    {
        match self {
            SidebarLayoutMode::Compact => "compact",
            SidebarLayoutMode::Tiles => "tiles",
        }
    }
}

impl Default for SidebarLayoutMode {
    fn default() -> (r: Self)
        ensures
            r == SidebarLayoutMode::Tiles,
    {
        SidebarLayoutMode::Tiles
    }
}

/// Sidebar filter mode: show all agents, or only those in the host tmux session.
#[derive(Debug, Clone, Copy, PartialEq, Eq, Structural)]
pub enum SidebarFilterMode {
    All,
    Session,
}

/// The name of a filter mode.
pub open spec fn filter_mode_name(mode: SidebarFilterMode) -> Seq<char> {
    match mode {
        SidebarFilterMode::All => "none"@,
        SidebarFilterMode::Session => "session"@,
    }
}

/// The filter mode that a lower-case name stands for; an unknown name filters nothing.
pub open spec fn filter_mode_of(name: Seq<char>) -> SidebarFilterMode {
    if name == "session"@ || name == "project"@ {
        SidebarFilterMode::Session
    } else {
        SidebarFilterMode::All
    }
}

impl SidebarFilterMode {
    pub fn toggle(self) -> (r: Self)
        ensures
            r == (if self == SidebarFilterMode::All {
                SidebarFilterMode::Session
            } else {
                SidebarFilterMode::All
            }),
    {
        match self {
            SidebarFilterMode::All => SidebarFilterMode::Session,
            SidebarFilterMode::Session => SidebarFilterMode::All,
        }
    }

    pub fn as_str(self) -> (r: &'static str)
        ensures
            r@ == filter_mode_name(self),
    {
        match self {
            SidebarFilterMode::All => "none",
            SidebarFilterMode::Session => "session",
        }
    }

    /// Reads a filter mode, whatever the case of its letters and the white space around it.
    pub fn from_str(s: &str) -> (r: Self)
        ensures
            r == filter_mode_of(text::lowercase(text::trimmed(s@))),
            text::plain_lower(s@) ==> r == filter_mode_of(s@),
    {
        proof {
            if text::plain_lower(s@) {
                text::lemma_plain_is_trimmed(s@);
            }
        }
        let name = text::to_lowercase(text::trim(s));
        SidebarFilterMode::from_lowercase(name.as_str())
    }

    /// Reads a filter mode from a name in lower case.
    pub fn from_lowercase(name: &str) -> (r: Self)
        ensures
            r == filter_mode_of(name@),
    {
        if text::same(name, "session") || text::same(name, "project") {
            SidebarFilterMode::Session
        } else {
            SidebarFilterMode::All
        }
    }
}

impl Default for SidebarFilterMode {
    fn default() -> (r: Self)
        ensures
            r == SidebarFilterMode::All,
    {
        SidebarFilterMode::All
    }
}

/// The name of a filter mode is read back as that mode: it is plain, so that letter case and white
/// space make no difference to it, and it stands for the mode.
pub proof fn law_filter_names_are_read_back(mode: SidebarFilterMode)
    ensures
        text::plain_lower(filter_mode_name(mode)),
        filter_mode_of(filter_mode_name(mode)) == mode,
{
    reveal_strlit("none");
    reveal_strlit("session");
    reveal_strlit("project");
    if mode == SidebarFilterMode::All {
        assert("none"@.len() != "session"@.len());
        assert("none"@.len() != "project"@.len());
    }
}

// ── Host ────────────────────────────────────────────────────────

/// The tmux pane that a sidebar runs in.
#[derive(Debug, PartialEq, Eq)]
pub struct HostIdentity {
    pub session_name: String,
    pub session_id: String,
    pub window_id: String,
    pub pane_id: String,
}

/// The four fields of a host identity: parted by tabs, none of them empty.
pub open spec fn identity_fields(output: Seq<char>) -> Option<Seq<Seq<char>>> {
    let parts = text::pieces(text::trimmed(output), '\t');
    if parts.len() == 4 && parts[0].len() > 0 && parts[1].len() > 0 && parts[2].len() > 0 && parts[3].len() > 0 {
        Some(parts)
    } else {
        None
    }
}

/// Reads what tmux reports of the sidebar's pane: session name, session id, window id, pane id.
pub fn parse_host_identity(output: &str) -> (r: Option<HostIdentity>)
    ensures
        match r {
            Some(id) => identity_fields(output@) == Some(
                seq![id.session_name@, id.session_id@, id.window_id@, id.pane_id@],
            ),
            None => identity_fields(output@) is None,
        },
{
    let mut parts = text::split(text::trim(output), '\t');
    let ghost ps = text::texts(parts@);
    if parts.len() != 4 {
        return None;
    }
    let pane_id = parts.remove(3);
    let window_id = parts.remove(2);
    let session_id = parts.remove(1);
    let session_name = parts.remove(0);
    proof {
        assert(ps =~= seq![session_name@, session_id@, window_id@, pane_id@]);
    }
    if session_name.as_str().is_empty() || session_id.as_str().is_empty() || window_id.as_str().is_empty()
        || pane_id.as_str().is_empty() {
        return None;
    }
    Some(HostIdentity { session_name, session_id, window_id, pane_id })
}

/// Reads what tmux reports of the sidebar's pane, where it reports of the very pane that was asked
/// about.
pub fn confirm_host_identity(output: &str, pane_id: &str) -> (r: Option<HostIdentity>)
    ensures
        match r {
            Some(id) => identity_fields(output@) == Some(
                seq![id.session_name@, id.session_id@, id.window_id@, id.pane_id@],
            ) && id.pane_id@ == pane_id@,
            None => identity_fields(output@) matches Some(parts) ==> parts[3] != pane_id@,
        },
{
    match parse_host_identity(output) {
        Some(id) => if text::same(id.pane_id.as_str(), pane_id) {
            Some(id)
        } else {
            None
        },
        None => None,
    }
}

/// The first agent from `i` on that sits in the window `w` and, where `active` is given, in one of
/// those panes.
pub open spec fn agent_in_window(
    agents: Seq<AgentPane>,
    w: Seq<char>,
    active: Option<Set<Seq<char>>>,
    i: int,
) -> Option<usize>
    decreases agents.len() - i,
{
    if i < 0 || i >= agents.len() {
        None
    } else if agents[i].window_id@ == w && (active matches Some(panes) ==> panes.contains(agents[i].pane_id@)) {
        Some(i as usize)
    } else {
        agent_in_window(agents, w, active, i + 1)
    }
}

/// The agent of the window `w`: one in an active pane if there is one, else the first.
pub open spec fn host_index(agents: Seq<AgentPane>, w: Option<Seq<char>>, active: Set<Seq<char>>) -> Option<usize> {
    match w {
        Some(w) => templates::or(
            agent_in_window(agents, w, Some(active), 0),
            agent_in_window(agents, w, None, 0),
        ),
        None => None,
    }
}

proof fn lemma_agent_in_window(agents: Seq<AgentPane>, w: Seq<char>, active: Option<Set<Seq<char>>>, i: int, k: int)
    requires
        0 <= i <= k <= agents.len(),
        forall|j: int|
            i <= j < k ==> !((#[trigger] agents[j]).window_id@ == w && (active matches Some(panes) ==> panes.contains(
                agents[j].pane_id@,
            ))),
    ensures
        agent_in_window(agents, w, active, i) == agent_in_window(agents, w, active, k),
    decreases k - i,
{
    if i < k {
        lemma_agent_in_window(agents, w, active, i + 1, k);
    }
}

proof fn lemma_agent_in_window_is(agents: Seq<AgentPane>, w: Seq<char>, active: Option<Set<Seq<char>>>, i: int)
    requires
        0 <= i <= agents.len() <= usize::MAX,
    ensures
        agent_in_window(agents, w, active, i) matches Some(k) ==> k < agents.len() && agents[k as int].window_id@ == w,
    decreases agents.len() - i,
{
    if i < agents.len() {
        lemma_agent_in_window_is(agents, w, active, i + 1);
    }
}

pub proof fn lemma_host_index(agents: Seq<AgentPane>, w: Option<Seq<char>>, active: Set<Seq<char>>)
    requires
        agents.len() <= usize::MAX,
    ensures
        host_index(agents, w, active) matches Some(h) ==> h < agents.len() && w == Some(agents[h as int].window_id@),
{
    if let Some(w) = w {
        lemma_agent_in_window_is(agents, w, Some(active), 0);
        lemma_agent_in_window_is(agents, w, None, 0);
    }
}

/// Finds the agent of the sidebar's own window.
pub fn host_agent_index(agents: &Vec<AgentPane>, host_window_id: Option<&str>, active_pane_ids: &StrSet) -> (r: Option<
    usize,
>)
    ensures
        r == host_index(
            agents@,
            match host_window_id {
                Some(w) => Some(w@),
                None => None,
            },
            active_pane_ids@,
        ),
{
    let w = match host_window_id {
        Some(w) => w,
        None => return None,
    };
    let n: usize = agents.len();
    let mut first: Option<usize> = None;
    let mut i: usize = 0;
    while i < n
        invariant
            n == agents@.len(),
            i <= n,
            host_window_id matches Some(x) && x@ == w@,
            agent_in_window(agents@, w@, Some(active_pane_ids@), 0) == agent_in_window(
                agents@,
                w@,
                Some(active_pane_ids@),
                i as int,
            ),
            match first {
                Some(k) => agent_in_window(agents@, w@, None, 0) == Some(k),
                None => agent_in_window(agents@, w@, None, 0) == agent_in_window(agents@, w@, None, i as int),
            },
        decreases n - i,
    {
        if text::same(agents[i].window_id.as_str(), w) {
            if active_pane_ids.contains(agents[i].pane_id.as_str()) {
                return Some(i);
            }
            if first.is_none() {
                first = Some(i);
            }
        }
        i += 1;
    }
    first
}

// ── Icons ───────────────────────────────────────────────────────

/// A configured icon of an agent kind.
#[derive(Debug)]
pub struct AgentIconConfig {
    pub kind: String,
    pub icon: Option<String>,
    pub color: Option<String>,
}

/// Icons and colours of agent kinds, read once when the configuration is loaded.
///
/// A kind with a colour of its own shows it; one with an empty entry shows none; one without an
/// entry falls back to the default of its kind.
pub struct ResolvedAgentIcons {
    pub icons: StrMap<String>,
    pub colors: StrMap<Option<Color>>,
}

/// What a configured colour resolves to: nothing where it is invalid, no colour where it is blank.
pub open spec fn resolved_color(raw: Seq<char>) -> Option<Option<Color>> {
    let t = text::trimmed(raw);
    if t.len() == 0 {
        Some(None)
    } else {
        match style::named_color(t) {
            Some(c) => Some(Some(c)),
            None => None,
        }
    }
}

/// The icons of the first `k` entries.
pub open spec fn icons_of(entries: Seq<AgentIconConfig>, k: int) -> Map<Seq<char>, Seq<char>>
    decreases k,
{
    if k <= 0 {
        Map::empty()
    } else {
        let e = entries[k - 1];
        match e.icon {
            Some(icon) => icons_of(entries, k - 1).insert(e.kind@, icon@),
            None => icons_of(entries, k - 1),
        }
    }
}

/// The colours of the first `k` entries.
pub open spec fn colors_of(entries: Seq<AgentIconConfig>, k: int) -> Map<Seq<char>, Option<Color>>
    decreases k,
{
    if k <= 0 {
        Map::empty()
    } else {
        let e = entries[k - 1];
        match e.color {
            Some(raw) => match resolved_color(raw@) {
                Some(c) => colors_of(entries, k - 1).insert(e.kind@, c),
                None => colors_of(entries, k - 1),
            },
            None => colors_of(entries, k - 1),
        }
    }
}

/// A map of strings, by their contents.
pub open spec fn text_map(m: Map<Seq<char>, String>) -> Map<Seq<char>, Seq<char>> {
    m.map_values(|s: String| s@)
}

impl ResolvedAgentIcons {
    /// Reads a configured colour.
    pub fn resolve_color(raw: &str) -> (r: Option<Option<Color>>)
        ensures
            r == resolved_color(raw@),
    {
        let trimmed = text::trim(raw);
        if trimmed.is_empty() {
            Some(None)
        } else {
            ResolvedAgentIcons::kept_color(style::parse_color(trimmed))
        }
    }

    /// What a colour that was read amounts to: an invalid one is ignored.
    pub fn kept_color(read: Option<Color>) -> (r: Option<Option<Color>>)
        ensures
            r == (match read {
                Some(c) => Some(Some(c)),
                None => None,
            }),
    {
        match read {
            Some(c) => Some(Some(c)),
            None => None,
        }
    }

    pub fn from_config(entries: &Vec<AgentIconConfig>) -> (r: Self)
        ensures
            text_map(r.icons@) == icons_of(entries@, entries@.len() as int),
            r.colors@ == colors_of(entries@, entries@.len() as int),
    {
        let mut icons: StrMap<String> = StrMap::new();
        let mut colors: StrMap<Option<Color>> = StrMap::new();
        let mut i: usize = 0;
        proof {
            assert(text_map(icons@) =~= icons_of(entries@, 0));
        }
        while i < entries.len()
            invariant
                i <= entries.len(),
                text_map(icons@) == icons_of(entries@, i as int),
                colors@ == colors_of(entries@, i as int),
            decreases entries.len() - i,
        {
            let e = &entries[i];
            match &e.icon {
                Some(icon) => {
                    let ghost before = icons@;
                    icons.insert(e.kind.clone(), icon.clone());
                    proof {
                        assert(text_map(icons@) =~= text_map(before).insert(e.kind@, icon@));
                    }
                },
                None => {},
            }
            match &e.color {
                Some(raw) => match ResolvedAgentIcons::resolve_color(raw.as_str()) {
                    Some(c) => {
                        colors.insert(e.kind.clone(), c);
                    },
                    None => {},
                },
                None => {},
            }
            i += 1;
        }
        ResolvedAgentIcons { icons, colors }
    }
}

// ── State ───────────────────────────────────────────────────────

/// Whether the sidebar follows its host window or the user navigates.
#[derive(Debug, Clone, Copy, PartialEq, Eq, Structural)]
pub enum SelectionMode {
    FollowHost,
    Manual,
}

/// A part of the screen.
#[derive(Debug, Clone, Copy, PartialEq, Eq, Structural)]
pub struct Area {
    pub x: u16,
    pub y: u16,
    pub width: u16,
    pub height: u16,
}

/// The columns of an item in the top bar.
#[derive(Debug, Clone, Copy, PartialEq, Eq, Structural)]
pub struct HitBox {
    pub idx: usize,
    pub x_start: u16,
    pub x_end: u16,
}

/// The state of one sidebar.
pub struct SidebarApp {
    pub agents: Vec<AgentPane>,
    /// Presentation rows over `agents`. Without grouping, one row per agent in order.
    pub rows: Vec<SidebarRow>,
    /// The grouping that the agents are ordered by.
    pub group_by: Option<SidebarGroupBy>,
    /// The grouping that the configuration asks for, which the toggle restores.
    pub configured_group_by: Option<SidebarGroupBy>,
    /// Groups whose stale agents are shown.
    pub expanded_groups: StrSet,
    /// Panes of the agents that count as stale.
    pub stale_pane_ids: StrSet,
    /// The number that each agent answers to, by agent.
    pub jump_numbers: Vec<Option<usize>>,
    pub has_loaded_snapshot: bool,
    pub list_state: ListState,
    pub should_quit: bool,
    pub pending_exit: bool,
    /// Whether the key overlay is open.
    pub show_help: bool,
    /// Whether this sidebar still offers the grouping hint.
    pub hint_pending: bool,
    /// Quit without shutting the other sidebars down.
    pub quit_silent: bool,
    pub quit_reason: Option<String>,
    pub palette: Palette,
    pub status_icons: StatusIcons,
    pub spinner_frame: u8,
    pub stale_threshold_secs: u64,
    /// Whether stale agents are dimmed.
    pub dim_stale: bool,
    /// Whether stale agents fold, as the daemon publishes it.
    pub collapse_stale: bool,
    pub position: SidebarPosition,
    pub layout_mode: SidebarLayoutMode,
    /// Where the list was last drawn.
    pub list_area: Area,
    pub window_prefix: String,
    /// The sidebar's own pane.
    pub host_identity: Option<HostIdentity>,
    /// The agent of the sidebar's own window.
    pub host_agent_idx: Option<usize>,
    /// Whether the sidebar's window is the active one of its session.
    pub host_window_active: bool,
    pub selection_mode: SelectionMode,
    pub git_statuses: StrMap<GitStatus>,
    pub pr_statuses: StrMap<PrSummary>,
    pub check_statuses: StrMap<CheckSummary>,
    pub interrupted_pane_ids: StrSet,
    pub sleeping_pane_ids: StrSet,
    pub templates: ParsedTemplates,
    /// The latest template failure, shown until it is fixed.
    pub template_error: Option<TemplateError>,
    pub agent_icons: ResolvedAgentIcons,
    /// Heights of the tile rows when they were last drawn.
    pub tile_heights: Vec<usize>,
    /// Columns of the top bar's items when they were last drawn.
    pub horizontal_hitboxes: Vec<HitBox>,
    /// The first agent drawn in the top bar.
    pub first_visible_agent_idx: usize,
    /// The greatest width of an item in the top bar.
    pub horizontal_item_width: usize,
    /// The configuration version of the last snapshot.
    pub last_config_version: u64,
    /// The strings that `templates` were parsed from.
    pub current_templates: TemplateStrings,
    /// Templates as configured.
    pub template_config: Option<TemplatesConfig>,
    /// What is known of resizes.
    pub resize: ResizeState,
    pub filter_mode: SidebarFilterMode,
}

/// Whether the list is drawn in sections: in a vertical sidebar with grouping on.
pub open spec fn sectioned(app: SidebarApp) -> Option<SidebarGroupBy> {
    match app.group_by {
        Some(mode) => if app.position != SidebarPosition::Top {
            Some(mode)
        } else {
            None
        },
        None => None,
    }
}

/// Which agents fold.
pub open spec fn folds(app: SidebarApp) -> Seq<bool> {
    Seq::new(
        app.agents@.len(),
        |i: int| app.collapse_stale && app.stale_pane_ids@.contains(app.agents@[i].pane_id@),
    )
}

/// The group labels of the agents.
pub open spec fn labels(agents: Seq<AgentPane>, mode: SidebarGroupBy) -> Seq<Seq<char>> {
    Seq::new(agents.len(), |i: int| snapshot::label(agents[i], mode))
}

/// What the rows of an app are made from, where it groups its agents.
pub open spec fn row_inputs(app: SidebarApp, mode: SidebarGroupBy) -> RowInputs {
    RowInputs {
        labels: labels(app.agents@, mode),
        folds: folds(app),
        expanded: app.expanded_groups@,
        host: app.host_agent_idx,
    }
}

/// The rows that an app should show.
pub open spec fn presented(app: SidebarApp) -> Seq<RowModel> {
    match sectioned(app) {
        Some(mode) => rows::grouped_rows(row_inputs(app, mode), app.collapse_stale),
        None => rows::all_agent_rows(0, app.agents@.len() as int),
    }
}

/// Which agents answer to a number.
pub open spec fn numbered(app: SidebarApp) -> Seq<bool> {
    Seq::new(
        app.agents@.len(),
        |i: int| snapshot::jumpable(app.group_by, app.stale_pane_ids@, app.agents@[i].pane_id@),
    )
}

/// Whether the rows and the numbers are those of the agents.
pub open spec fn in_step(app: SidebarApp) -> bool {
    &&& rows::models(app.rows@) == presented(app)
    &&& app.jump_numbers@ == rows::closed_up(numbered(app))
}

/// In a grouped list, each agent that does not fold, whose group is expanded, or that is the
/// sidebar's own, has exactly one row, under the header of its group, and no other agent has one. A
/// flat list has one row for each agent, in order.
pub proof fn law_agents_have_one_row(app: SidebarApp)
    requires
        in_step(app),
    ensures
        match sectioned(app) {
            Some(mode) => {
                let inputs = row_inputs(app, mode);
                &&& rows::well_headed(rows::models(app.rows@), inputs)
                &&& forall|i: int|
                    0 <= i < app.agents@.len() ==> #[trigger] rows::shows_agent(rows::models(app.rows@), i)
                        == rows::in_view(inputs, i)
            },
            None => rows::models(app.rows@) == rows::all_agent_rows(0, app.agents@.len() as int),
        },
        rows::no_agent_twice(rows::models(app.rows@)),
        rows::within(rows::models(app.rows@), app.agents@.len()),
{
    match sectioned(app) {
        Some(mode) => {
            let inputs = row_inputs(app, mode);
            rows::law_agents_have_one_row_in_their_group(inputs, app.collapse_stale);
        },
        None => {},
    }
}

/// A sidebar always shows the agent of its own window.
pub proof fn law_the_host_is_shown(app: SidebarApp, host: usize)
    requires
        in_step(app),
        app.host_agent_idx == Some(host),
        host < app.agents@.len(),
    ensures
        rows::shows_agent(rows::models(app.rows@), host as int),
{
    law_agents_have_one_row(app);
    match sectioned(app) {
        Some(mode) => {
            assert(rows::in_view(row_inputs(app, mode), host as int));
        },
        None => {
            assert(rows::models(app.rows@)[host as int] == RowModel::Agent(host as int));
        },
    }
}

impl SidebarApp {
    /// Whether an agent folds, and gives up its extra tile lines while it is shown.
    pub fn renders_collapsed(&self, agent: &AgentPane) -> (r: bool)
        ensures
            r == (self.collapse_stale && self.stale_pane_ids@.contains(agent.pane_id@)),
    {
        self.collapse_stale && self.stale_pane_ids.contains(agent.pane_id.as_str())
    }

    fn stale_agents(&self) -> (r: Vec<bool>)
        ensures
            r@ == folds(*self),
    {
        let mut r: Vec<bool> = Vec::new();
        let mut i: usize = 0;
        while i < self.agents.len()
            invariant
                i <= self.agents.len(),
                r@ =~= folds(*self).take(i as int),
            decreases self.agents.len() - i,
        {
            r.push(self.renders_collapsed(&self.agents[i]));
            i += 1;
        }
        r
    }

    fn numbered_agents(&self) -> (r: Vec<bool>)
        ensures
            r@ == numbered(*self),
    {
        let mut r: Vec<bool> = Vec::new();
        let mut i: usize = 0;
        while i < self.agents.len()
            invariant
                i <= self.agents.len(),
                r@ =~= numbered(*self).take(i as int),
            decreases self.agents.len() - i,
        {
            r.push(self.group_by.is_none() || !self.stale_pane_ids.contains(self.agents[i].pane_id.as_str()));
            i += 1;
        }
        r
    }

    fn group_labels(&self, mode: SidebarGroupBy) -> (r: Vec<String>)
        ensures
            text::texts(r@) == labels(self.agents@, mode),
    {
        let mut r: Vec<String> = Vec::new();
        let mut i: usize = 0;
        while i < self.agents.len()
            invariant
                i <= self.agents.len(),
                r@.len() == i,
                forall|j: int| 0 <= j < i ==> (#[trigger] r@[j])@ == snapshot::label(self.agents@[j], mode),
            decreases self.agents.len() - i,
        {
            r.push(snapshot::group_label(&self.agents[i], mode));
            i += 1;
        }
        proof {
            assert(text::texts(r@) =~= labels(self.agents@, mode));
        }
        r
    }

    /// Rebuilds the rows and numbers from the agents.
    ///
    /// Headers and folds appear in vertical sidebars with grouping on only; the top bar and the
    /// flat list keep one row per agent. Numbers go to the agents that can be jumped to, in row
    /// order: what `1` means does not depend on how many idle agents sit above it.
    pub fn rebuild_rows(&mut self)
        ensures
            in_step(*final(self)),
            *final(self) == (SidebarApp {
                rows: final(self).rows,
                jump_numbers: final(self).jump_numbers,
                ..*old(self)
            }),
    {
        let n: usize = self.agents.len();
        let wanted = self.numbered_agents();
        let new_rows = match self.group_by {
            Some(mode) => {
                if matches!(self.position, SidebarPosition::Top) {
                    rows::flat_rows(n)
                } else {
                    let names = self.group_labels(mode);
                    let stale = self.stale_agents();
                    proof {
                        assert(names@.len() == text::texts(names@).len());
                    }
                    rows::build_rows(&names, &stale, &self.expanded_groups, self.host_agent_idx, self.collapse_stale)
                }
            },
            None => rows::flat_rows(n),
        };
        proof {
            let ms = rows::models(new_rows@);
            assert(ms == presented(*self));
            match sectioned(*self) {
                Some(mode) => {
                    let inputs = RowInputs {
                        labels: labels(self.agents@, mode),
                        folds: folds(*self),
                        expanded: self.expanded_groups@,
                        host: self.host_agent_idx,
                    };
                    rows::law_rows_never_hide_the_host(inputs, self.collapse_stale);
                    rows::law_live_agents_keep_their_order(inputs, self.collapse_stale, wanted@);
                },
                None => {
                    rows::lemma_flat_agents(wanted@, n as int);
                },
            }
            rows::law_jump_numbers_close_up(ms, wanted@);
        }
        let numbers = rows::jump_numbers(&new_rows, &wanted);
        self.rows = new_rows;
        self.jump_numbers = numbers;
    }

    // ── Selection ───────────────────────────────────────────────

    pub fn agent_of_row(&self, row: usize) -> (r: Option<usize>)
        ensures
            r == selection::agent_at(rows::models(self.rows@), row as int),
    {
        selection::agent_of_row(&self.rows, row)
    }

    pub fn row_of_agent(&self, agent_idx: usize) -> (r: Option<usize>)
        ensures
            r == selection::row_with(rows::models(self.rows@), agent_idx),
    {
        selection::row_of_agent(&self.rows, agent_idx)
    }

    /// The agent that the selection rests on.
    pub open spec fn selected_agent(&self) -> Option<usize> {
        match self.list_state.selected {
            Some(row) => selection::agent_at(rows::models(self.rows@), row as int),
            None => None,
        }
    }

    /// The selected agent, ignoring headers.
    pub fn selected_agent_idx(&self) -> (r: Option<usize>)
        ensures
            r == self.selected_agent(),
    {
        match self.list_state.selected {
            Some(row) => self.agent_of_row(row),
            None => None,
        }
    }

    /// The group of the toggle that the selection rests on.
    pub open spec fn resting_toggle(&self) -> Option<Seq<char>> {
        match self.list_state.selected {
            Some(row) => selection::toggle_at(rows::models(self.rows@), row as int),
            None => None,
        }
    }

    pub fn selected_toggle(&self) -> (r: Option<String>)
        ensures
            text::optional(r) == self.resting_toggle(),
    {
        match self.list_state.selected {
            Some(row) => selection::toggle_of_row(&self.rows, row),
            None => None,
        }
    }

    /// The group of the selected agent.
    pub open spec fn agent_group(&self) -> Option<Seq<char>> {
        match (self.selected_agent(), self.group_by) {
            (Some(i), Some(mode)) => if i < self.agents@.len() {
                Some(snapshot::label(self.agents@[i as int], mode))
            } else {
                None
            },
            _ => None,
        }
    }

    pub fn selected_group(&self) -> (r: Option<String>)
        ensures
            text::optional(r) == self.agent_group(),
    {
        match self.selected_agent_idx() {
            Some(i) => match self.group_by {
                Some(mode) => if i < self.agents.len() {
                    Some(snapshot::group_label(&self.agents[i], mode))
                } else {
                    None
                },
                None => None,
            },
            None => None,
        }
    }

    fn select_agent(&mut self, agent_idx: Option<usize>)
        ensures
            *final(self) == (SidebarApp {
                list_state: selection::selecting(
                    old(self).list_state,
                    selection::resting_row(rows::models(old(self).rows@), agent_idx),
                ),
                ..*old(self)
            }),
    {
        let row = selection::row_for(&self.rows, agent_idx);
        self.list_state.select(row);
    }

    /// Selects the agent of the sidebar's own window, while the sidebar follows it.
    pub fn sync_selection(&mut self)
        ensures
            *final(self) == (SidebarApp {
                list_state: synced(
                    rows::models(old(self).rows@),
                    old(self).list_state,
                    old(self).selection_mode,
                    old(self).host_agent_idx,
                ),
                ..*old(self)
            }),
    {
        if !matches!(self.selection_mode, SelectionMode::FollowHost) {
            return;
        }
        match self.host_agent_idx {
            Some(idx) => self.select_agent(Some(idx)),
            None => {},
        }
    }

    pub fn next(&mut self)
        ensures
            *final(self) == old(self).stepped(true, true),
    {
        self.selection_mode = SelectionMode::Manual;
        selection::step_selection(&self.rows, &mut self.list_state, true, true);
    }

    pub fn previous(&mut self)
        ensures
            *final(self) == old(self).stepped(false, true),
    {
        self.selection_mode = SelectionMode::Manual;
        selection::step_selection(&self.rows, &mut self.list_state, false, true);
    }

    pub fn scroll_up(&mut self)
        ensures
            *final(self) == old(self).stepped(false, false),
    {
        self.selection_mode = SelectionMode::Manual;
        selection::step_selection(&self.rows, &mut self.list_state, false, false);
    }

    pub fn scroll_down(&mut self)
        ensures
            *final(self) == old(self).stepped(true, false),
    {
        self.selection_mode = SelectionMode::Manual;
        selection::step_selection(&self.rows, &mut self.list_state, true, false);
    }

    /// The state after the user stepped the selection.
    pub open spec fn stepped(&self, down: bool, wrap: bool) -> SidebarApp {
        SidebarApp {
            selection_mode: SelectionMode::Manual,
            list_state: ListState {
                selected: selection::step_from(rows::models(self.rows@), self.list_state.selected, down, wrap),
                ..self.list_state
            },
            ..*self
        }
    }

    /// Selects the first agent.
    pub fn select_first(&mut self)
        ensures
            *final(self) == (SidebarApp {
                selection_mode: SelectionMode::Manual,
                list_state: ListState {
                    selected: templates::or(
                        selection::first_agent_row(rows::models(old(self).rows@)),
                        old(self).list_state.selected,
                    ),
                    ..old(self).list_state
                },
                ..*old(self)
            }),
    {
        self.selection_mode = SelectionMode::Manual;
        match selection::first_agent(&self.rows) {
            Some(row) => self.list_state.select(Some(row)),
            None => {},
        }
    }

    /// Selects the last row that can be selected.
    pub fn select_last(&mut self)
        ensures
            *final(self) == (SidebarApp {
                selection_mode: SelectionMode::Manual,
                list_state: ListState {
                    selected: ({
                        let list = selection::resting_rows(rows::models(old(self).rows@));
                        if list.len() > 0 {
                            Some(list.last())
                        } else {
                            old(self).list_state.selected
                        }
                    }),
                    ..old(self).list_state
                },
                ..*old(self)
            }),
    {
        self.selection_mode = SelectionMode::Manual;
        let list = selection::selectable_rows(&self.rows);
        if list.len() > 0 {
            self.list_state.select(Some(list[list.len() - 1]));
        }
    }

    /// Selects an agent by its index, the last one where the index is too large.
    pub fn select_index(&mut self, idx: usize)
        ensures
            *final(self) == (SidebarApp {
                selection_mode: SelectionMode::Manual,
                list_state: ({
                    let n = old(self).agents@.len();
                    if n == 0 {
                        old(self).list_state
                    } else {
                        let i = if idx < n {
                            idx
                        } else {
                            (n - 1) as usize
                        };
                        selection::selecting(
                            old(self).list_state,
                            selection::resting_row(rows::models(old(self).rows@), Some(i)),
                        )
                    }
                }),
                ..*old(self)
            }),
    {
        self.selection_mode = SelectionMode::Manual;
        if self.agents.len() > 0 {
            let last: usize = self.agents.len() - 1;
            let i: usize = if idx < last {
                idx
            } else {
                last
            };
            self.select_agent(Some(i));
        }
    }

    /// The pane of the selected agent.
    pub open spec fn target_pane(&self) -> Option<Seq<char>> {
        match self.selected_agent() {
            Some(i) => if i < self.agents@.len() {
                Some(self.agents@[i as int].pane_id@)
            } else {
                None
            },
            None => None,
        }
    }

    /// The pane to switch to: that of the selected agent.
    pub fn jump_to_selected(&self) -> (r: Option<String>)
        ensures
            text::optional(r) == self.target_pane(),
    {
        match self.selected_agent_idx() {
            Some(i) => if i < self.agents.len() {
                Some(self.agents[i].pane_id.clone())
            } else {
                None
            },
            None => None,
        }
    }
}

/// A list after the selection was brought back to the host window's agent.
pub open spec fn synced(ms: Seq<RowModel>, state: ListState, mode: SelectionMode, host: Option<usize>) -> ListState {
    if mode == SelectionMode::FollowHost && host is Some {
        selection::selecting(state, selection::resting_row(ms, host))
    } else {
        state
    }
}

// ── What a sidebar shows of its host ────────────────────────────

proof fn lemma_first_in_window(agents: Seq<AgentPane>, w: Seq<char>, active: Option<Set<Seq<char>>>, i: int)
    requires
        0 <= i <= agents.len() <= usize::MAX,
    ensures
        match agent_in_window(agents, w, active, i) {
            Some(k) => {
                &&& i <= k < agents.len()
                &&& agents[k as int].window_id@ == w
                &&& active matches Some(panes) ==> panes.contains(agents[k as int].pane_id@)
                &&& forall|j: int|
                    i <= j < k ==> (#[trigger] agents[j]).window_id@ != w || (active is Some
                        && !active->0.contains(agents[j].pane_id@))
            },
            None => forall|j: int|
                i <= j < agents.len() ==> (#[trigger] agents[j]).window_id@ != w || (active is Some
                    && !active->0.contains(agents[j].pane_id@)),
        },
    decreases agents.len() - i,
{
    if i < agents.len() {
        lemma_first_in_window(agents, w, active, i + 1);
    }
}

/// The host's agent is one in the sidebar's own window: the first in an active pane, where any of them
/// is, else the first. Where the window holds an agent, there is one; a sidebar that does not know its
/// window has none.
pub proof fn law_the_host_has_the_focus(agents: Seq<AgentPane>, w: Seq<char>, active: Set<Seq<char>>)
    requires
        agents.len() <= usize::MAX,
    ensures
        ({
            let host = host_index(agents, Some(w), active);
            let h = host->0 as int;
            let some_active = exists|j: int|
                0 <= j < agents.len() && (#[trigger] agents[j]).window_id@ == w && active.contains(agents[j].pane_id@);
            &&& host is None <==> forall|j: int| 0 <= j < agents.len() ==> (#[trigger] agents[j]).window_id@ != w
            &&& host is Some ==> h < agents.len() && agents[h].window_id@ == w
            &&& some_active ==> active.contains(agents[h].pane_id@) && forall|j: int|
                0 <= j < h && (#[trigger] agents[j]).window_id@ == w ==> !active.contains(agents[j].pane_id@)
            &&& host is Some && !some_active ==> forall|j: int| 0 <= j < h ==> (#[trigger] agents[j]).window_id@ != w
        }),
        host_index(agents, None, active) is None,
{
    lemma_first_in_window(agents, w, Some(active), 0);
    lemma_first_in_window(agents, w, None, 0);
}

/// A host is told by four fields, parted by tabs, none of them empty: session name, session id, window
/// id and pane id.
pub proof fn law_hosts_are_told_in_four_fields(fields: Seq<Seq<char>>)
    requires
        fields.len() > 0,
        forall|i: int, j: int| 0 <= i < fields.len() && 0 <= j < fields[i].len() ==> #[trigger] fields[i][j] != '\t',
        text::trimmed(text::joined(fields, seq!['\t'])) == text::joined(fields, seq!['\t']),
    ensures
        ({
            let told = identity_fields(text::joined(fields, seq!['\t']));
            let whole = fields.len() == 4 && forall|i: int| 0 <= i < 4 ==> (#[trigger] fields[i]).len() > 0;
            &&& whole ==> told == Some(fields)
            &&& !whole ==> told is None
        }),
{
    text::lemma_pieces_joined(fields, '\t');
    if fields.len() == 4 && fields[0].len() > 0 && fields[1].len() > 0 && fields[2].len() > 0 && fields[3].len() > 0 {
        assert forall|i: int| 0 <= i < 4 implies (#[trigger] fields[i]).len() > 0 by {}
    }
}

/// A blank colour takes a kind's colour away, one with a name sets it, and one with no known name says
/// nothing.
pub proof fn law_colours_are_resolved(raw: Seq<char>)
    ensures
        text::trimmed(raw).len() == 0 ==> resolved_color(raw) == Some(None::<Color>),
        text::trimmed(raw).len() > 0 && style::named_color(text::trimmed(raw)) is Some ==> resolved_color(raw) == Some(
            Some(style::named_color(text::trimmed(raw))->0),
        ),
        text::trimmed(raw).len() > 0 && style::named_color(text::trimmed(raw)) is None ==> resolved_color(raw) is None,
{
}

proof fn lemma_last_entry(entries: Seq<AgentIconConfig>, k: int, i: int)
    requires
        0 <= i < k <= entries.len(),
    ensures
        (forall|j: int| i < j < k ==> (#[trigger] entries[j]).kind@ != entries[i].kind@ || entries[j].icon is None)
            && entries[i].icon is Some ==> icons_of(entries, k).dom().contains(entries[i].kind@) && icons_of(
            entries,
            k,
        )[entries[i].kind@] == entries[i].icon->0@,
        (forall|j: int|
            i < j < k ==> (#[trigger] entries[j]).kind@ != entries[i].kind@ || entries[j].color is None
                || resolved_color(entries[j].color->0@) is None) && entries[i].color is Some && resolved_color(
            entries[i].color->0@,
        ) is Some ==> colors_of(entries, k).dom().contains(entries[i].kind@) && Some(
            colors_of(entries, k)[entries[i].kind@],
        ) == resolved_color(entries[i].color->0@),
    decreases k,
{
    if i < k - 1 {
        lemma_last_entry(entries, k - 1, i);
        assert(entries[k - 1] == entries[k - 1]);
    }
}

/// The last entry of a kind decides on its icon, and on its colour; an entry that sets neither, or whose
/// colour is not known, takes nothing away from an earlier one.
pub proof fn law_the_last_entry_of_a_kind_decides(entries: Seq<AgentIconConfig>, i: int)
    requires
        0 <= i < entries.len(),
    ensures
        (forall|j: int|
            i < j < entries.len() ==> (#[trigger] entries[j]).kind@ != entries[i].kind@ || entries[j].icon is None)
            && entries[i].icon is Some ==> icons_of(entries, entries.len() as int).dom().contains(entries[i].kind@)
            && icons_of(entries, entries.len() as int)[entries[i].kind@] == entries[i].icon->0@,
        (forall|j: int|
            i < j < entries.len() ==> (#[trigger] entries[j]).kind@ != entries[i].kind@ || entries[j].color is None
                || resolved_color(entries[j].color->0@) is None) && entries[i].color is Some && resolved_color(
            entries[i].color->0@,
        ) is Some ==> colors_of(entries, entries.len() as int).dom().contains(entries[i].kind@) && Some(
            colors_of(entries, entries.len() as int)[entries[i].kind@],
        ) == resolved_color(entries[i].color->0@),
{
    lemma_last_entry(entries, entries.len() as int, i);
}

/// A sidebar that follows its host selects the host's agent; any other, and one without a host, keeps
/// what it selects.
pub proof fn law_followers_select_the_host(ms: Seq<RowModel>, state: ListState, host: usize)
    ensures
        synced(ms, state, SelectionMode::FollowHost, Some(host)).selected == selection::resting_row(ms, Some(host)),
        synced(ms, state, SelectionMode::FollowHost, None) == state,
        synced(ms, state, SelectionMode::Manual, Some(host)) == state,
{
}

/// The layouts are stored under their names, which tell them apart.
pub proof fn law_layouts_have_names()
    ensures
        layout_mode_name(SidebarLayoutMode::Compact) == "compact"@,
        layout_mode_name(SidebarLayoutMode::Tiles) == "tiles"@,
        filter_mode_name(SidebarFilterMode::Session) == "session"@,
        filter_mode_name(SidebarFilterMode::All) == "none"@,
{
}

/// The rows of a sidebar on the left are grouped as the sidebar is; on top there are no groups.
pub proof fn law_top_sidebars_have_no_groups(app: SidebarApp)
    ensures
        app.position is Top ==> sectioned(app) is None,
        app.position is Left ==> sectioned(app) == app.group_by,
{
}

/// Which agents answer to a number: every one of a flat list, and of a grouped one those that are not
/// stale. They are numbered from zero without a gap, in the order of the agents.
pub proof fn law_numbers_reach_live_agents(app: SidebarApp, i: int)
    requires
        in_step(app),
        0 <= i < app.agents@.len(),
    ensures
        app.jump_numbers@.len() == app.agents@.len(),
        app.jump_numbers@[i] is Some <==> app.group_by is None || !app.stale_pane_ids@.contains(
            app.agents@[i].pane_id@,
        ),
        i == 0 && app.jump_numbers@[i] is Some ==> app.jump_numbers@[i] == Some(0usize),
        i > 0 && app.jump_numbers@[i] is Some && app.jump_numbers@[i - 1] is Some ==> app.jump_numbers@[i]->0
            == app.jump_numbers@[i - 1]->0 + 1,
{
    let wanted = numbered(app);
    assert(app.agents.len() == app.agents@.len());
    assert(wanted[i] == snapshot::jumpable(app.group_by, app.stale_pane_ids@, app.agents@[i].pane_id@));
    if i > 0 {
        assert(wanted[i - 1] == snapshot::jumpable(app.group_by, app.stale_pane_ids@, app.agents@[i - 1].pane_id@));
        if wanted[i] {
            rows::law_numbers_count_up(wanted, i - 1, i);
        }
    } else {
        assert(rows::wanted_below(wanted, 0).len() == 0);
    }
}

} // verus!
