//! What changes the state of a sidebar: snapshots, configuration, toggles.

use vstd::prelude::*;

use crate::app;
use crate::app::{HostIdentity, ResolvedAgentIcons, SelectionMode, SidebarApp, SidebarFilterMode, SidebarLayoutMode};
use crate::collections::{PairSet, StrMap, StrSet};
use crate::model::{AgentPane, CheckSummary, GitStatus, PrSummary, SidebarGroupBy, SidebarPosition};
use crate::rows;
use crate::rows::{RowInputs, RowModel};
use crate::selection;
use crate::selection::ListState;
use crate::snapshot;
use crate::snapshot::SidebarSnapshot;
use crate::style::Palette;
use crate::templates;
use crate::templates::{TemplateParses, TemplateStrings, TemplatesConfig};
use crate::text;

verus! {

// ── Snapshots ───────────────────────────────────────────────────

/// Where a changed configuration is to be read from.
#[derive(Debug, PartialEq, Eq)]
pub enum ConfigSource {
    /// The user's own configuration.
    Global,
    /// The configuration as seen from a directory.
    At(String),
}

/// The path that a configuration is read for: that of the host window's agent.
pub open spec fn source_path(source: ConfigSource) -> Option<Seq<char>> {
    match source {
        ConfigSource::Global => None,
        ConfigSource::At(path) => Some(path@),
    }
}

/// The window id of a host.
pub open spec fn window_of(host: Option<HostIdentity>) -> Option<Seq<char>> {
    match host {
        Some(id) => Some(id.window_id@),
        None => None,
    }
}

/// Whether the host window is active. Without a known host, it counts as active.
pub open spec fn window_active(host: Option<HostIdentity>, active: Set<(Seq<char>, Seq<char>)>) -> bool {
    host matches Some(id) ==> active.contains((id.session_name@, id.window_id@))
}

/// The selection mode after a snapshot. Manual selection belongs to direct use of the sidebar:
/// when another pane of the active host window has the focus, the selection follows the host.
pub open spec fn mode_after(
    mode: SelectionMode,
    host: Option<HostIdentity>,
    active_windows: Set<(Seq<char>, Seq<char>)>,
    active_panes: Set<Seq<char>>,
) -> SelectionMode {
    if window_active(host, active_windows) && (host matches Some(id) && !active_panes.contains(id.pane_id@)) {
        SelectionMode::FollowHost
    } else {
        mode
    }
}

/// The agents of one session.
pub open spec fn of_session(agents: Seq<AgentPane>, session: Seq<char>) -> Seq<AgentPane> {
    agents.filter(|a: AgentPane| a.session@ == session)
}

/// The agents that a client shows of those that were published.
pub open spec fn shown(agents: Seq<AgentPane>, mode: SidebarFilterMode, host: Option<HostIdentity>) -> Seq<AgentPane> {
    match host {
        Some(id) => if mode == SidebarFilterMode::Session {
            of_session(agents, id.session_name@)
        } else {
            agents
        },
        None => agents,
    }
}

/// The first agent in the pane `pane`.
pub open spec fn agent_with_pane(agents: Seq<AgentPane>, pane: Seq<char>, i: int) -> Option<usize>
    decreases agents.len() - i,
{
    if i < 0 || i >= agents.len() {
        None
    } else if agents[i].pane_id@ == pane {
        Some(i as usize)
    } else {
        agent_with_pane(agents, pane, i + 1)
    }
}

/// The agent to select after the agents changed: the one that was selected, wherever it is now; if
/// it is gone, the one at its place; if none was, the first.
pub open spec fn restored_agent(agents: Seq<AgentPane>, pane: Option<Seq<char>>, previous: Option<usize>) -> Option<
    usize,
> {
    if agents.len() == 0 {
        None
    } else {
        match pane {
            Some(p) => match agent_with_pane(agents, p, 0) {
                Some(i) => Some(i),
                None => {
                    let at = templates::or_else(previous, 0);
                    Some(
                        if at < agents.len() {
                            at
                        } else {
                            (agents.len() - 1) as usize
                        },
                    )
                },
            },
            None => Some(0),
        }
    }
}

/// The selection after the rows changed. One that rested on a toggle follows its group; any other
/// follows its agent. Then the sidebar goes back to its host, if it follows it.
pub open spec fn restored_selection(
    ms: Seq<RowModel>,
    agents: Seq<AgentPane>,
    state: ListState,
    toggle: Option<Seq<char>>,
    pane: Option<Seq<char>>,
    previous: Option<usize>,
    mode: SelectionMode,
    host: Option<usize>,
) -> ListState {
    let row = match toggle {
        Some(group) => selection::toggle_row(ms, group),
        None => None,
    };
    let kept = match row {
        Some(r) => selection::selecting(state, Some(r)),
        None => selection::selecting(
            state,
            selection::resting_row(ms, restored_agent(agents, pane, previous)),
        ),
    };
    app::synced(ms, kept, mode, host)
}

proof fn lemma_filter_step(agents: Seq<AgentPane>, session: Seq<char>, k: int)
    requires
        0 <= k < agents.len(),
    ensures
        of_session(agents.take(k + 1), session) == (if agents[k].session@ == session {
            of_session(agents.take(k), session).push(agents[k])
        } else {
            of_session(agents.take(k), session)
        }),
{
    reveal(Seq::filter);
    assert(agents.take(k + 1).drop_last() =~= agents.take(k));
    assert(agents.take(k + 1).last() == agents[k]);
}

/// Keeps the agents of one session.
pub fn retain_session(agents: Vec<AgentPane>, session: &str) -> (r: Vec<AgentPane>)
    ensures
        r@ == of_session(agents@, session@),
{
    let ghost all = agents@;
    let n: usize = agents.len();
    let mut rest = agents;
    let mut kept: Vec<AgentPane> = Vec::new();
    let mut i: usize = 0;
    proof {
        reveal(Seq::filter);
        assert(all.skip(0) =~= all);
        assert(of_session(all.take(0), session@) =~= Seq::<AgentPane>::empty());
    }
    while rest.len() > 0
        invariant
            n == all.len(),
            i + rest@.len() == n,
            rest@ =~= all.skip(i as int),
            kept@ == of_session(all.take(i as int), session@),
        decreases rest.len(),
    {
        let agent = rest.remove(0);
        proof {
            assert(agent == all[i as int]);
            lemma_filter_step(all, session@, i as int);
        }
        if text::same(agent.session.as_str(), session) {
            kept.push(agent);
        }
        i += 1;
    }
    proof {
        assert(all.take(i as int) =~= all);
    }
    kept
}

fn find_pane(agents: &Vec<AgentPane>, pane: &str) -> (r: Option<usize>)
    ensures
        r == agent_with_pane(agents@, pane@, 0),
{
    let mut i: usize = 0;
    while i < agents.len()
        invariant
            i <= agents.len(),
            agent_with_pane(agents@, pane@, 0) == agent_with_pane(agents@, pane@, i as int),
        decreases agents.len() - i,
    {
        if text::same(agents[i].pane_id.as_str(), pane) {
            return Some(i);
        }
        i += 1;
    }
    None
}

/// What a snapshot makes of a sidebar: it shows the agents of the snapshot that it does not filter
/// out, and keeps its selection where it can.
pub open spec fn applied(before: SidebarApp, snap: SidebarSnapshot, after: SidebarApp) -> bool {
    &&& app::in_step(after)
    &&& after.agents@ == shown(snap.agents@, snap.filter_mode, before.host_identity)
    &&& after.host_agent_idx == app::host_index(
        after.agents@,
        window_of(before.host_identity),
        snap.active_pane_ids@,
    )
    &&& (forall|k: Seq<char>| #[trigger]
        after.expanded_groups@.contains(k) <==> exists|i: int|
            0 <= i < snap.expanded_groups@.len() && snap.expanded_groups@[i]@ == k)
    &&& after.list_state == restored_selection(
        rows::models(after.rows@),
        after.agents@,
        before.list_state,
        before.resting_toggle(),
        before.target_pane(),
        before.selected_agent(),
        after.selection_mode,
        after.host_agent_idx,
    )
    &&& after == (SidebarApp {
        has_loaded_snapshot: true,
        position: snap.position,
        layout_mode: snap.layout_mode,
        filter_mode: snap.filter_mode,
        git_statuses: snap.git_statuses,
        pr_statuses: snap.pr_statuses,
        check_statuses: snap.check_statuses,
        interrupted_pane_ids: snap.interrupted_pane_ids,
        sleeping_pane_ids: snap.sleeping_pane_ids,
        host_window_active: window_active(before.host_identity, snap.active_windows@),
        selection_mode: mode_after(
            before.selection_mode,
            before.host_identity,
            snap.active_windows@,
            snap.active_pane_ids@,
        ),
        group_by: snap.group_by,
        collapse_stale: snap.collapse_stale,
        stale_pane_ids: snap.stale_pane_ids,
        agents: after.agents,
        host_agent_idx: after.host_agent_idx,
        expanded_groups: after.expanded_groups,
        rows: after.rows,
        jump_numbers: after.jump_numbers,
        list_state: after.list_state,
        ..before
    })
}

proof fn lemma_agent_with_pane(agents: Seq<AgentPane>, pane: Seq<char>, i: int)
    requires
        0 <= i <= agents.len() <= usize::MAX,
    ensures
        match agent_with_pane(agents, pane, i) {
            Some(k) => i <= k < agents.len() && agents[k as int].pane_id@ == pane,
            None => forall|j: int| i <= j < agents.len() ==> (#[trigger] agents[j]).pane_id@ != pane,
        },
    decreases agents.len() - i,
{
    if i < agents.len() {
        lemma_agent_with_pane(agents, pane, i + 1);
    }
}

/// A selection that is not brought back to the sidebar's own agent follows its agent, wherever a
/// snapshot puts it: while an agent in the selected pane is shown, the selection rests on one.
pub proof fn law_selection_follows_its_agent(before: SidebarApp, snap: SidebarSnapshot, after: SidebarApp, pane: Seq<char>)
    requires
        applied(before, snap, after),
        after.selection_mode == SelectionMode::Manual || after.host_agent_idx is None,
        before.resting_toggle() is None,
        before.target_pane() == Some(pane),
        exists|i: int| 0 <= i < after.agents@.len() && (#[trigger] after.agents@[i]).pane_id@ == pane,
        forall|i: int|
            0 <= i < after.agents@.len() && (#[trigger] after.agents@[i]).pane_id@ == pane ==> rows::shows_agent(
                rows::models(after.rows@),
                i,
            ),
    ensures
        after.target_pane() == Some(pane),
{
    let ms = rows::models(after.rows@);
    assert(after.rows.len() == after.rows@.len());
    assert(after.agents.len() == after.agents@.len());
    lemma_agent_with_pane(after.agents@, pane, 0);
    let i = agent_with_pane(after.agents@, pane, 0)->0;
    selection::law_selection_rests_on_an_agent(ms, i);
    let row = selection::resting_row(ms, Some(i))->0;
    assert(after.list_state.selected == Some(row));
    assert(ms[row as int] == RowModel::Agent(i as int));
}

/// A snapshot never leaves the selection on a header while an agent is shown: unless it rested on a
/// toggle, it rests on an agent, also where its own is gone.
pub proof fn law_selections_stay_on_agents(before: SidebarApp, snap: SidebarSnapshot, after: SidebarApp, i: int)
    requires
        applied(before, snap, after),
        before.resting_toggle() is None,
        rows::shows_agent(rows::models(after.rows@), i),
    ensures
        after.selected_agent() matches Some(k) && k < after.agents@.len(),
{
    let ms = rows::models(after.rows@);
    assert(after.rows.len() == after.rows@.len());
    assert(after.agents.len() == after.agents@.len());
    app::law_agents_have_one_row(after);
    let r = choose|r: int| 0 <= r < ms.len() && #[trigger] ms[r] == RowModel::Agent(i);
    assert(ms[r] is Agent);
    assert(after.agents@.len() > 0);
    let kept = restored_agent(after.agents@, before.target_pane(), before.selected_agent());
    selection::law_selection_rests_on_an_agent(ms, kept->0);
    if after.host_agent_idx is Some {
        selection::law_selection_rests_on_an_agent(ms, after.host_agent_idx->0);
    }
    let row = after.list_state.selected->0;
    assert(ms[row as int] is Agent);
}

proof fn lemma_same_rows(a: SidebarApp, b: SidebarApp)
    requires
        a.agents@ == b.agents@,
        a.group_by == b.group_by,
        a.position == b.position,
        a.collapse_stale == b.collapse_stale,
        a.stale_pane_ids == b.stale_pane_ids,
        a.expanded_groups@ == b.expanded_groups@,
        a.host_agent_idx == b.host_agent_idx,
    ensures
        app::presented(a) == app::presented(b),
{
    assert(app::folds(a) =~= app::folds(b));
}

proof fn lemma_settled(ms: Seq<RowModel>, agents: Seq<AgentPane>, row: usize)
    requires
        agents.len() <= usize::MAX,
        row < ms.len() <= usize::MAX,
        ms[row as int] is Agent,
        rows::no_agent_twice(ms),
        rows::within(ms, agents.len()),
        forall|i: int|
            0 <= i < ms[row as int]->Agent_0 ==> (#[trigger] agents[i]).pane_id@ != agents[ms[row as int]->Agent_0].pane_id@,
    ensures
        selection::agent_at(ms, row as int) matches Some(k) && k < agents.len() && selection::resting_row(
            ms,
            restored_agent(agents, Some(agents[k as int].pane_id@), Some(k)),
        ) == Some(row),
{
    let k = (ms[row as int]->Agent_0) as usize;
    assert(ms[row as int] == RowModel::Agent(k as int));
    let pane = agents[k as int].pane_id@;
    lemma_agent_with_pane(agents, pane, 0);
    let found = agent_with_pane(agents, pane, 0)->0;
    if found < k {
        assert(agents[found as int].pane_id@ != agents[k as int].pane_id@);
    } else {
        lemma_agent_with_pane_first(agents, pane, 0, k as int);
    }
    assert(rows::shows_agent(ms, k as int));
    selection::law_selection_rests_on_an_agent(ms, k);
    let r = selection::resting_row(ms, Some(k))->0;
    assert(ms[r as int] == ms[row as int]);
}

proof fn lemma_agent_with_pane_first(agents: Seq<AgentPane>, pane: Seq<char>, i: int, k: int)
    requires
        0 <= i <= k < agents.len() <= usize::MAX,
        agents[k].pane_id@ == pane,
    ensures
        agent_with_pane(agents, pane, i) matches Some(found) && found <= k,
    decreases k - i,
{
    if agents[i].pane_id@ != pane {
        lemma_agent_with_pane_first(agents, pane, i + 1, k);
    }
}

/// A snapshot settles the selection: applied once more, it leaves it where the first application
/// put it. Agents are told apart by their panes; a selection made by hand on the second agent of one
/// pane would move to the first.
pub proof fn law_snapshots_settle_the_selection(
    before: SidebarApp,
    snap: SidebarSnapshot,
    once: SidebarApp,
    twice: SidebarApp,
)
    requires
        applied(before, snap, once),
        applied(once, snap, twice),
        once.selection_mode == SelectionMode::FollowHost && once.host_agent_idx is Some || (once.selected_agent() matches Some(k)
            ==> forall|i: int|
            0 <= i < k ==> (#[trigger] once.agents@[i]).pane_id@ != once.agents@[k as int].pane_id@),
    ensures
        twice.list_state == once.list_state,
        rows::models(twice.rows@) == rows::models(once.rows@),
        twice.selected_agent() == once.selected_agent(),
        twice.target_pane() == once.target_pane(),
{
    let ms = rows::models(once.rows@);
    let agents = once.agents@;
    assert(once.rows.len() == once.rows@.len());
    assert(once.agents.len() == once.agents@.len());
    assert(once.expanded_groups@ =~= twice.expanded_groups@);
    lemma_same_rows(once, twice);
    app::law_agents_have_one_row(once);
    if once.selection_mode == SelectionMode::FollowHost && once.host_agent_idx is Some {
        selection::law_selection_rests_on_an_agent(ms, once.host_agent_idx->0);
        let again = restored_agent(agents, once.target_pane(), once.selected_agent());
        selection::law_selection_rests_on_an_agent(ms, again->0);
    } else {
        let row = match before.resting_toggle() {
            Some(group) => selection::toggle_row(ms, group),
            None => None,
        };
        match row {
            Some(r) => {
                let group = before.resting_toggle()->0;
                selection::lemma_toggle_row_is(ms, group);
            },
            None => {
                let kept = restored_agent(agents, before.target_pane(), before.selected_agent());
                if agents.len() > 0 {
                    selection::law_selection_rests_on_an_agent(ms, kept->0);
                    match once.list_state.selected {
                        Some(r) => lemma_settled(ms, agents, r),
                        None => selection::law_selection_rests_on_an_agent(ms, 0),
                    }
                }
            },
        }
    }
}

/// While the sidebar follows its host, every snapshot brings the selection back to the agent of its
/// own window, where there is one.
pub proof fn law_selection_follows_the_host(before: SidebarApp, snap: SidebarSnapshot, after: SidebarApp, host: usize)
    requires
        applied(before, snap, after),
        after.selection_mode == SelectionMode::FollowHost,
        after.host_agent_idx == Some(host),
    ensures
        after.selected_agent() == Some(host),
        host < after.agents@.len(),
        window_of(before.host_identity) == Some(after.agents@[host as int].window_id@),
{
    let ms = rows::models(after.rows@);
    assert(after.rows.len() == after.rows@.len());
    assert(after.agents.len() == after.agents@.len());
    app::lemma_host_index(after.agents@, window_of(before.host_identity), snap.active_pane_ids@);
    app::law_the_host_is_shown(after, host);
    selection::law_selection_rests_on_an_agent(ms, host);
    let row = selection::resting_row(ms, Some(host))->0;
    assert(after.list_state.selected == Some(row));
    assert(ms[row as int] == RowModel::Agent(host as int));
}

/// What a sidebar takes over from a snapshot as it is.
struct Published {
    position: SidebarPosition,
    layout_mode: SidebarLayoutMode,
    filter_mode: SidebarFilterMode,
    git_statuses: StrMap<GitStatus>,
    pr_statuses: StrMap<PrSummary>,
    check_statuses: StrMap<CheckSummary>,
    interrupted_pane_ids: StrSet,
    sleeping_pane_ids: StrSet,
    stale_pane_ids: StrSet,
    collapse_stale: bool,
    group_by: Option<SidebarGroupBy>,
    expanded_groups: StrSet,
}

/// What a sidebar takes over from its configuration when it changes.
pub struct ReloadedConfig {
    pub templates: Option<TemplatesConfig>,
    pub palette: Palette,
    pub agent_icons: ResolvedAgentIcons,
    pub horizontal_item_width: usize,
    pub dim_stale: bool,
    pub group_by: Option<SidebarGroupBy>,
}

impl SidebarApp {
    pub fn host_window_id(&self) -> (r: Option<&str>)
        ensures
            match r {
                Some(w) => window_of(self.host_identity) == Some(w@),
                None => window_of(self.host_identity) is None,
            },
    {
        match &self.host_identity {
            Some(id) => Some(id.window_id.as_str()),
            None => None,
        }
    }

    pub fn host_session(&self) -> (r: Option<&str>)
        ensures
            match r {
                Some(s) => self.host_identity matches Some(id) && id.session_name@ == s@,
                None => self.host_identity is None,
            },
    {
        match &self.host_identity {
            Some(id) => Some(id.session_name.as_str()),
            None => None,
        }
    }

    pub fn host_window_active(&self) -> (r: bool)
        ensures
            r == self.host_window_active,
    {
        self.host_window_active
    }

    pub fn window_prefix(&self) -> (r: &str)
        ensures
            r@ == self.window_prefix@,
    {
        self.window_prefix.as_str()
    }

    /// Takes note of a snapshot's configuration version. Where it is new, the configuration is to
    /// be read again, as seen from the agent of the host window in that snapshot.
    pub fn note_config_version(&mut self, snap: &SidebarSnapshot) -> (r: Option<ConfigSource>)
        ensures
            *final(self) == (SidebarApp {
                last_config_version: snap.config_version,
                host_agent_idx: final(self).host_agent_idx,
                ..*old(self)
            }),
            final(self).host_agent_idx == app::host_index(
                snap.agents@,
                window_of(old(self).host_identity),
                snap.active_pane_ids@,
            ),
            r is Some == (snap.config_version != old(self).last_config_version),
            r matches Some(source) ==> source_path(source) == (match final(self).host_agent_idx {
                Some(i) if i < snap.agents@.len() => Some(snap.agents@[i as int].path@),
                _ => None,
            }),
    {
        let idx = app::host_agent_index(&snap.agents, self.host_window_id(), &snap.active_pane_ids);
        self.host_agent_idx = idx;
        if snap.config_version == self.last_config_version {
            return None;
        }
        self.last_config_version = snap.config_version;
        match idx {
            Some(i) => if i < snap.agents.len() {
                Some(ConfigSource::At(snap.agents[i].path.clone()))
            } else {
                Some(ConfigSource::Global)
            },
            None => Some(ConfigSource::Global),
        }
    }

    /// Takes over a changed configuration. The templates are parsed afterwards, where they differ.
    pub fn reload_config(&mut self, config: ReloadedConfig)
        ensures
            *final(self) == (SidebarApp {
                template_config: config.templates,
                palette: config.palette,
                agent_icons: config.agent_icons,
                horizontal_item_width: config.horizontal_item_width,
                dim_stale: config.dim_stale,
                configured_group_by: config.group_by,
                ..*old(self)
            }),
    {
        self.template_config = config.templates;
        self.palette = config.palette;
        self.agent_icons = config.agent_icons;
        self.horizontal_item_width = config.horizontal_item_width;
        self.dim_stale = config.dim_stale;
        self.configured_group_by = config.group_by;
    }

    /// The template strings of the presentation now on screen.
    pub open spec fn wanted_templates(&self) -> templates::StringsModel {
        templates::resolved(self.template_config, self.group_by is Some)
    }

    /// The template strings to parse: those of the presentation now on screen, where they differ
    /// from the ones that were parsed last.
    pub fn templates_to_parse(&self) -> (r: Option<TemplateStrings>)
        ensures
            match r {
                Some(strings) => strings@ == self.wanted_templates() && strings@ != self.current_templates@,
                None => self.wanted_templates() == self.current_templates@,
            },
    {
        let new = templates::resolved_template_strings(self.template_config.as_ref(), self.group_by.is_some());
        if templates::same_strings(&new, &self.current_templates) {
            None
        } else {
            Some(new)
        }
    }

    /// Takes over the outcomes of parsing changed templates.
    pub fn refresh_templates(&mut self, new: TemplateStrings, parses: TemplateParses)
        ensures
            templates::taken_or_kept(parses, old(self).templates, final(self).templates),
            templates::error_model(final(self).template_error) == templates::first_error(parses),
            *final(self) == (SidebarApp {
                templates: final(self).templates,
                template_error: final(self).template_error,
                current_templates: new,
                ..*old(self)
            }),
    {
        let error = templates::try_reparse_templates(&mut self.templates, &mut self.current_templates, new, parses);
        self.template_error = error;
    }

    /// Applies a snapshot received from the daemon.
    pub fn apply_snapshot(&mut self, snap: SidebarSnapshot)
        ensures
            applied(*old(self), snap, *final(self)),
    {
        let pane = self.jump_to_selected();
        let toggle = self.selected_toggle();
        let previous = self.selected_agent_idx();
        self.take_published(
            Published {
                position: snap.position,
                layout_mode: snap.layout_mode,
                filter_mode: snap.filter_mode,
                git_statuses: snap.git_statuses,
                pr_statuses: snap.pr_statuses,
                check_statuses: snap.check_statuses,
                interrupted_pane_ids: snap.interrupted_pane_ids,
                sleeping_pane_ids: snap.sleeping_pane_ids,
                stale_pane_ids: snap.stale_pane_ids,
                collapse_stale: snap.collapse_stale,
                group_by: snap.group_by,
                expanded_groups: StrSet::of(&snap.expanded_groups),
            },
        );
        self.take_focus(&snap.active_windows, &snap.active_pane_ids);
        self.take_agents(snap.agents, &snap.active_pane_ids);
        self.restore_selection(toggle, pane, previous);
    }

    fn take_published(&mut self, published: Published)
        ensures
            *final(self) == (SidebarApp {
                has_loaded_snapshot: true,
                position: published.position,
                layout_mode: published.layout_mode,
                filter_mode: published.filter_mode,
                git_statuses: published.git_statuses,
                pr_statuses: published.pr_statuses,
                check_statuses: published.check_statuses,
                interrupted_pane_ids: published.interrupted_pane_ids,
                sleeping_pane_ids: published.sleeping_pane_ids,
                stale_pane_ids: published.stale_pane_ids,
                collapse_stale: published.collapse_stale,
                group_by: published.group_by,
                expanded_groups: published.expanded_groups,
                ..*old(self)
            }),
    {
        self.has_loaded_snapshot = true;
        self.position = published.position;
        self.layout_mode = published.layout_mode;
        self.filter_mode = published.filter_mode;
        self.git_statuses = published.git_statuses;
        self.pr_statuses = published.pr_statuses;
        self.check_statuses = published.check_statuses;
        self.interrupted_pane_ids = published.interrupted_pane_ids;
        self.sleeping_pane_ids = published.sleeping_pane_ids;
        self.stale_pane_ids = published.stale_pane_ids;
        self.collapse_stale = published.collapse_stale;
        self.group_by = published.group_by;
        self.expanded_groups = published.expanded_groups;
    }

    fn take_focus(&mut self, active_windows: &PairSet, active_pane_ids: &StrSet)
        ensures
            *final(self) == (SidebarApp {
                host_window_active: window_active(old(self).host_identity, active_windows@),
                selection_mode: mode_after(
                    old(self).selection_mode,
                    old(self).host_identity,
                    active_windows@,
                    active_pane_ids@,
                ),
                ..*old(self)
            }),
    {
        let (window_is_active, elsewhere) = match &self.host_identity {
            Some(id) => (
                active_windows.contains(id.session_name.as_str(), id.window_id.as_str()),
                !active_pane_ids.contains(id.pane_id.as_str()),
            ),
            None => (true, false),
        };
        self.host_window_active = window_is_active;
        if window_is_active && elsewhere {
            self.selection_mode = SelectionMode::FollowHost;
        }
    }

    fn take_agents(&mut self, published: Vec<AgentPane>, active_pane_ids: &StrSet)
        ensures
            app::in_step(*final(self)),
            final(self).agents@ == shown(published@, old(self).filter_mode, old(self).host_identity),
            final(self).host_agent_idx == app::host_index(
                final(self).agents@,
                window_of(old(self).host_identity),
                active_pane_ids@,
            ),
            *final(self) == (SidebarApp {
                agents: final(self).agents,
                host_agent_idx: final(self).host_agent_idx,
                rows: final(self).rows,
                jump_numbers: final(self).jump_numbers,
                ..*old(self)
            }),
    {
        let agents = match self.filter_mode {
            SidebarFilterMode::Session => match &self.host_identity {
                Some(id) => retain_session(published, id.session_name.as_str()),
                None => published,
            },
            SidebarFilterMode::All => published,
        };
        let idx = app::host_agent_index(&agents, self.host_window_id(), active_pane_ids);
        self.agents = agents;
        self.host_agent_idx = idx;
        self.rebuild_rows();
    }

    fn restore_selection(&mut self, toggle: Option<String>, pane: Option<String>, previous: Option<usize>)
        ensures
            *final(self) == (SidebarApp {
                list_state: restored_selection(
                    rows::models(old(self).rows@),
                    old(self).agents@,
                    old(self).list_state,
                    text::optional(toggle),
                    text::optional(pane),
                    previous,
                    old(self).selection_mode,
                    old(self).host_agent_idx,
                ),
                ..*old(self)
            }),
    {
        let row = match &toggle {
            Some(group) => selection::toggle_row_of(&self.rows, group.as_str()),
            None => None,
        };
        match row {
            Some(r) => self.list_state.select(Some(r)),
            None => {
                let agent: Option<usize> = if self.agents.len() == 0 {
                    None
                } else {
                    match &pane {
                        Some(p) => match find_pane(&self.agents, p.as_str()) {
                            Some(i) => Some(i),
                            None => {
                                let at: usize = match previous {
                                    Some(i) => i,
                                    None => 0,
                                };
                                let last: usize = self.agents.len() - 1;
                                if at < last {
                                    Some(at)
                                } else {
                                    Some(last)
                                }
                            },
                        },
                        None => Some(0),
                    }
                };
                let target = selection::row_for(&self.rows, agent);
                self.list_state.select(target);
            },
        }
        self.sync_selection();
    }
}

// ── Toggles ─────────────────────────────────────────────────────

/// Whether `ls` lists the members of `set`, in strict order.
pub open spec fn lists(ls: Seq<Seq<char>>, set: Set<Seq<char>>) -> bool {
    &&& forall|k: Seq<char>| ls.contains(k) <==> set.contains(k)
    &&& forall|i: int, j: int| 0 <= i < j < ls.len() ==> text::order(#[trigger] ls[i], #[trigger] ls[j]) < 0
}

/// Whether `value` is how a set of labels is stored: sorted, parted by tabs; nothing for none.
pub open spec fn stored_labels(value: Option<Seq<char>>, set: Set<Seq<char>>) -> bool {
    exists|ls: Seq<Seq<char>>| #[trigger]
        lists(ls, set) && value == (if text::joined(ls, "\t"@).len() == 0 {
            None::<Seq<char>>
        } else {
            Some(text::joined(ls, "\t"@))
        })
}

/// The members of a set in order.
pub fn sorted_labels(set: &StrSet) -> (r: Vec<String>)
    ensures
        lists(text::texts(r@), set@),
{
    let mut r: Vec<String> = Vec::new();
    let n: usize = set.len();
    let mut i: usize = 0;
    while i < n
        invariant
            n == set.items().len(),
            i <= n,
            forall|k: Seq<char>| text::texts(r@).contains(k) <==> exists|j: int| 0 <= j < i && set.items()[j] == k,
            forall|a: int, b: int|
                0 <= a < b < r@.len() ==> text::order((#[trigger] r@[a])@, (#[trigger] r@[b])@) < 0,
        decreases n - i,
    {
        let key = set.get(i).clone();
        let ghost before = r@;
        insert_sorted(&mut r, key);
        proof {
            assert forall|k: Seq<char>| text::texts(r@).contains(k) <==> exists|j: int|
                0 <= j < i + 1 && set.items()[j] == k by {
                if text::texts(before).contains(k) {
                    let j = choose|j: int| 0 <= j < i && set.items()[j] == k;
                    assert(set.items()[j] == k);
                }
                if k == key@ {
                    assert(set.items()[i as int] == k);
                }
            }
        }
        i += 1;
    }
    proof {
        set.lemma_items();
        let ls = text::texts(r@);
        assert forall|k: Seq<char>| ls.contains(k) <==> set@.contains(k) by {
            if set@.contains(k) {
                assert(set.items().contains(k));
                let j = choose|j: int| 0 <= j < set.items().len() && set.items()[j] == k;
                assert(set.items()[j] == k);
            }
        }
        assert forall|a: int, b: int| 0 <= a < b < ls.len() implies text::order(#[trigger] ls[a], #[trigger] ls[b])
            < 0 by {
            assert(ls[a] == r@[a]@ && ls[b] == r@[b]@);
        }
    }
    r
}

/// Puts a string in its place among strings in strict order, unless it is there.
fn insert_sorted(r: &mut Vec<String>, key: String)
    requires
        forall|a: int, b: int|
            0 <= a < b < old(r)@.len() ==> text::order((#[trigger] old(r)@[a])@, (#[trigger] old(r)@[b])@) < 0,
    ensures
        forall|a: int, b: int|
            0 <= a < b < final(r)@.len() ==> text::order((#[trigger] final(r)@[a])@, (#[trigger] final(r)@[b])@) < 0,
        forall|k: Seq<char>| text::texts(final(r)@).contains(k) <==> text::texts(old(r)@).contains(k) || k == key@,
{
    let ghost before = r@;
    let mut at: usize = 0;
    while at < r.len() && text::ordered(r[at].as_str(), key.as_str()) < 0
        invariant
            r@ == before,
            at <= r@.len(),
            forall|j: int| 0 <= j < at ==> text::order((#[trigger] before[j])@, key@) < 0,
        decreases r@.len() - at,
    {
        at += 1;
    }
    if at < r.len() && text::same(r[at].as_str(), key.as_str()) {
        proof {
            assert(text::texts(before)[at as int] == key@);
        }
        return;
    }
    let ghost word = key@;
    r.insert(at, key);
    proof {
        let now = r@;
        assert forall|a: int, b: int| 0 <= a < b < now.len() implies text::order(
            (#[trigger] now[a])@,
            (#[trigger] now[b])@,
        ) < 0 by {
            if b == at {
                assert(now[a] == before[a]);
            } else if a == at {
                assert(now[b] == before[b - 1]);
                text::lemma_order_total(before[at as int]@, word);
                if b - 1 > at {
                    text::lemma_order_transitive(word, before[at as int]@, before[b - 1]@);
                    assert(text::order(before[at as int]@, before[b - 1]@) < 0);
                }
            } else {
                let a0 = if a < at {
                    a
                } else {
                    a - 1
                };
                let b0 = if b < at {
                    b
                } else {
                    b - 1
                };
                assert(now[a] == before[a0] && now[b] == before[b0]);
            }
        }
        let ts = text::texts(before);
        let ns = text::texts(now);
        assert forall|k: Seq<char>| ns.contains(k) <==> ts.contains(k) || k == word by {
            if ts.contains(k) {
                let j = choose|j: int| 0 <= j < ts.len() && ts[j] == k;
                if j < at {
                    assert(ns[j] == k);
                } else {
                    assert(ns[j + 1] == k);
                }
            }
            if k == word {
                assert(ns[at as int] == k);
            }
            if ns.contains(k) {
                let j = choose|j: int| 0 <= j < ns.len() && ns[j] == k;
                if j < at {
                    assert(ts[j] == k);
                } else if j > at {
                    assert(ts[j - 1] == k);
                }
            }
        }
    }
}

/// A set with a member taken out, or put in where it was not there.
pub open spec fn toggled(set: Set<Seq<char>>, member: Seq<char>) -> Set<Seq<char>> {
    if set.contains(member) {
        set.remove(member)
    } else {
        set.insert(member)
    }
}

/// Unfolding keeps the selection on the toggle that was used, so that it can be used again.
pub proof fn law_unfolding_keeps_the_selection(before: SidebarApp, now: SidebarApp, expanded: Set<Seq<char>>, group: Seq<char>)
    requires
        app::in_step(before),
        before.resting_toggle() == Some(group),
        before.expanded_groups@.subset_of(expanded),
        SidebarApp::regrouped(before, now, expanded),
    ensures
        now.resting_toggle() == Some(group),
{
    let ms = rows::models(now.rows@);
    assert(now.rows.len() == now.rows@.len());
    assert(app::folds(before) =~= app::folds(now));
    let row = before.list_state.selected->0;
    assert(selection::toggled_group(rows::models(before.rows@)[row as int]) == Some(group));
    match app::sectioned(before) {
        Some(mode) => {
            let inputs = app::row_inputs(before, mode);
            let wider = RowInputs { expanded, ..inputs };
            rows::law_unfolding_keeps_the_toggles(inputs, wider, before.collapse_stale, group);
            selection::lemma_toggle_row(ms, group);
        },
        None => {},
    }
}

/// Folding and unfolding shift no jump number: hidden agents keep theirs.
pub proof fn law_folding_keeps_the_numbers(before: SidebarApp, now: SidebarApp, expanded: Set<Seq<char>>)
    requires
        app::in_step(before),
        SidebarApp::regrouped(before, now, expanded),
    ensures
        now.jump_numbers@ == before.jump_numbers@,
{
    assert(app::numbered(now) =~= app::numbered(before));
}

/// Folding and unfolding undo each other: a group that is toggled twice shows its rows as before.
pub proof fn law_toggling_is_undone(before: SidebarApp, between: SidebarApp, after: SidebarApp, group: Seq<char>)
    requires
        app::in_step(before),
        SidebarApp::regrouped(before, between, toggled(before.expanded_groups@, group)),
        SidebarApp::regrouped(between, after, toggled(between.expanded_groups@, group)),
    ensures
        after.expanded_groups@ == before.expanded_groups@,
        rows::models(after.rows@) == rows::models(before.rows@),
        after.jump_numbers@ == before.jump_numbers@,
{
    assert(after.expanded_groups@ =~= before.expanded_groups@);
    assert(app::folds(after) =~= app::folds(before));
    assert(app::numbered(after) =~= app::numbered(before));
}

impl SidebarApp {
    /// The state after the expanded groups changed to those of `now`, with the rows rebuilt. The
    /// selection stays on the toggle that was used, so that it can be used again.
    pub open spec fn regrouped(before: SidebarApp, now: SidebarApp, expanded: Set<Seq<char>>) -> bool {
        &&& now.expanded_groups@ == expanded
        &&& app::in_step(now)
        &&& now.list_state == ({
            let ms = rows::models(now.rows@);
            let row = match before.resting_toggle() {
                Some(group) => selection::toggle_row(ms, group),
                None => None,
            };
            match row {
                Some(r) => selection::selecting(before.list_state, Some(r)),
                None => selection::selecting(
                    before.list_state,
                    selection::resting_row(ms, before.selected_agent()),
                ),
            }
        })
        &&& now == (SidebarApp {
            expanded_groups: now.expanded_groups,
            rows: now.rows,
            jump_numbers: now.jump_numbers,
            list_state: now.list_state,
            ..before
        })
    }

    /// Sets the expanded groups and returns the value that they are stored as, for every sidebar
    /// to read. Rebuilds the rows at once, so that the pane that was used answers before the next
    /// snapshot.
    fn publish_expanded_groups(&mut self, expanded: StrSet) -> (r: Option<String>)
        ensures
            stored_labels(text::optional(r), expanded@),
            SidebarApp::regrouped(*old(self), *final(self), expanded@),
    {
        let labels = sorted_labels(&expanded);
        let value = text::join(&labels, "\t");
        let agent = self.selected_agent_idx();
        let toggle = self.selected_toggle();
        proof {
            assert(lists(text::texts(labels@), expanded@));
        }
        self.expanded_groups = expanded;
        self.rebuild_rows();
        let row = match &toggle {
            Some(group) => selection::toggle_row_of(&self.rows, group.as_str()),
            None => None,
        };
        let target = match row {
            Some(r) => Some(r),
            None => selection::row_for(&self.rows, agent),
        };
        self.list_state.select(target);
        if value.as_str().is_empty() {
            None
        } else {
            Some(value)
        }
    }

    /// Shows or hides the stale agents of one group. Returns the value to store for every sidebar,
    /// `None` to store none.
    pub fn toggle_group(&mut self, group: &str) -> (r: Option<String>)
        ensures
            ({
                let now = toggled(old(self).expanded_groups@, group@);
                &&& stored_labels(text::optional(r), now)
                &&& SidebarApp::regrouped(*old(self), *final(self), now)
            }),
    {
        let mut now = self.expanded_groups.copy();
        if !now.remove(group) {
            now.insert(group.to_owned());
            proof {
                let was = old(self).expanded_groups@;
                assert(was.remove(group@) =~= was);
            }
        }
        self.publish_expanded_groups(now)
    }

    /// The labels of the groups that hold stale agents which fold.
    pub open spec fn folding_groups(&self, mode: SidebarGroupBy) -> Set<Seq<char>> {
        Set::new(
            |k: Seq<char>|
                exists|i: int|
                    0 <= i < self.agents@.len() && app::folds(*self)[i] && snapshot::label(
                        #[trigger] self.agents@[i],
                        mode,
                    ) == k,
        )
    }

    fn groups_to_fold(&self, mode: SidebarGroupBy) -> (r: StrSet)
        ensures
            r@ == self.folding_groups(mode),
    {
        let mut r = StrSet::new();
        let mut i: usize = 0;
        while i < self.agents.len()
            invariant
                i <= self.agents.len(),
                forall|k: Seq<char>| #[trigger]
                    r@.contains(k) <==> exists|j: int|
                        0 <= j < i && app::folds(*self)[j] && snapshot::label(#[trigger] self.agents@[j], mode) == k,
            decreases self.agents.len() - i,
        {
            let ghost before = r@;
            if self.renders_collapsed(&self.agents[i]) {
                r.insert(snapshot::group_label(&self.agents[i], mode));
            }
            proof {
                assert forall|k: Seq<char>| #[trigger]
                    r@.contains(k) <==> exists|j: int|
                        0 <= j < i + 1 && app::folds(*self)[j] && snapshot::label(#[trigger] self.agents@[j], mode) == k by {
                    if before.contains(k) {
                        let j = choose|j: int|
                            0 <= j < i && app::folds(*self)[j] && snapshot::label(#[trigger] self.agents@[j], mode) == k;
                        assert(snapshot::label(self.agents@[j], mode) == k);
                    }
                    if snapshot::label(self.agents@[i as int], mode) == k && app::folds(*self)[i as int] {
                        assert(r@.contains(k));
                    }
                }
            }
            i += 1;
        }
        proof {
            assert(r@ =~= self.folding_groups(mode));
        }
        r
    }

    /// Expands every group that holds stale agents, or folds them all where one is expanded.
    /// Without grouping there is nothing to do.
    pub fn toggle_all_groups(&mut self) -> (r: Option<Option<String>>)
        ensures
            match (old(self).group_by, r) {
                (Some(mode), Some(value)) => {
                    let now = if old(self).expanded_groups@ == Set::<Seq<char>>::empty() {
                        old(self).folding_groups(mode)
                    } else {
                        Set::<Seq<char>>::empty()
                    };
                    &&& stored_labels(text::optional(value), now)
                    &&& SidebarApp::regrouped(*old(self), *final(self), now)
                },
                (None, None) => *final(self) == *old(self),
                _ => false,
            },
    {
        let mode = match self.group_by {
            Some(mode) => mode,
            None => return None,
        };
        let now = if self.expanded_groups.is_empty() {
            self.groups_to_fold(mode)
        } else {
            StrSet::new()
        };
        Some(self.publish_expanded_groups(now))
    }

    /// The group that the selection is in: that of a toggle it rests on, else that of its agent.
    pub open spec fn current_group(&self) -> Option<Seq<char>> {
        templates::or(self.resting_toggle(), self.agent_group())
    }

    fn group_in_use(&self) -> (r: Option<String>)
        ensures
            text::optional(r) == self.current_group(),
    {
        match self.selected_toggle() {
            Some(group) => Some(group),
            None => self.selected_group(),
        }
    }

    /// Folds or unfolds the group that the selection is in. Returns what to store, if anything
    /// changed.
    pub fn toggle_selected_group(&mut self) -> (r: Option<Option<String>>)
        ensures
            match (old(self).current_group(), r) {
                (Some(group), Some(value)) => {
                    let now = toggled(old(self).expanded_groups@, group);
                    &&& stored_labels(text::optional(value), now)
                    &&& SidebarApp::regrouped(*old(self), *final(self), now)
                },
                (None, None) => *final(self) == *old(self),
                _ => false,
            },
    {
        match self.group_in_use() {
            Some(group) => Some(self.toggle_group(group.as_str())),
            None => None,
        }
    }

    /// Folds or unfolds the group that the selection is in, for keys that mean one direction.
    pub fn set_selected_group_expanded(&mut self, expand: bool) -> (r: Option<Option<String>>)
        ensures
            match old(self).current_group() {
                Some(group) => {
                    let was = old(self).expanded_groups@;
                    if was.contains(group) == expand {
                        r is None && *final(self) == *old(self)
                    } else {
                        let now = if expand {
                            was.insert(group)
                        } else {
                            was.remove(group)
                        };
                        &&& r matches Some(value)
                        &&& stored_labels(text::optional(value), now)
                        &&& SidebarApp::regrouped(*old(self), *final(self), now)
                    }
                },
                None => r is None && *final(self) == *old(self),
            },
    {
        match self.group_in_use() {
            Some(group) => if self.expanded_groups.contains(group.as_str()) != expand {
                Some(self.toggle_group(group.as_str()))
            } else {
                None
            },
            None => None,
        }
    }

    /// Switches between compact rows and tiles. The top bar has but one layout.
    pub fn toggle_layout_mode(&mut self) -> (r: Option<SidebarLayoutMode>)
        ensures
            if old(self).position == SidebarPosition::Top {
                r is None && *final(self) == *old(self)
            } else {
                let mode = if old(self).layout_mode == SidebarLayoutMode::Compact {
                    SidebarLayoutMode::Tiles
                } else {
                    SidebarLayoutMode::Compact
                };
                r == Some(mode) && *final(self) == (SidebarApp { layout_mode: mode, ..*old(self) })
            },
    {
        if matches!(self.position, SidebarPosition::Top) {
            return None;
        }
        self.layout_mode = match self.layout_mode {
            SidebarLayoutMode::Compact => SidebarLayoutMode::Tiles,
            SidebarLayoutMode::Tiles => SidebarLayoutMode::Compact,
        };
        Some(self.layout_mode)
    }

    /// Puts the selected agent to sleep, or wakes it. `listed` is the stored list of sleeping
    /// panes, which other sidebars may have changed. Returns the list to store, `None` for an
    /// empty one; nothing happens where no agent is selected.
    pub fn toggle_sleeping(&mut self, listed: &str) -> (r: Option<Option<String>>)
        ensures
            match (old(self).target_pane(), r) {
                (Some(pane), Some(value)) => {
                    let was = Set::new(|k: Seq<char>| text::words(listed@).contains(k));
                    let now = toggled(was, pane);
                    let stored = text::joined(final(self).sleeping_pane_ids.items(), " "@);
                    &&& final(self).sleeping_pane_ids@ == now
                    &&& text::optional(value) == (if stored.len() == 0 {
                        None::<Seq<char>>
                    } else {
                        Some(stored)
                    })
                    &&& *final(self) == (SidebarApp {
                        sleeping_pane_ids: final(self).sleeping_pane_ids,
                        ..*old(self)
                    })
                },
                (None, None) => *final(self) == *old(self),
                _ => false,
            },
    {
        let pane = match self.jump_to_selected() {
            Some(pane) => pane,
            None => return None,
        };
        let words = text::split_whitespace(listed);
        let mut current = StrSet::of(&words);
        proof {
            let was = Set::new(|k: Seq<char>| text::words(listed@).contains(k));
            assert(current@ =~= was) by {
                assert forall|k: Seq<char>| current@.contains(k) == was.contains(k) by {
                    if was.contains(k) {
                        let j = choose|j: int| 0 <= j < text::words(listed@).len() && text::words(listed@)[j] == k;
                        assert(words@[j]@ == k);
                    }
                    if current@.contains(k) {
                        let j = choose|j: int| 0 <= j < words@.len() && words@[j]@ == k;
                        assert(text::words(listed@)[j] == k);
                    }
                }
            }
        }
        let ghost was = current@;
        if !current.insert(pane.clone()) {
            current.remove(pane.as_str());
            proof {
                assert(was.insert(pane@) =~= was);
            }
        }
        let value = joined_items(&current);
        self.sleeping_pane_ids = current;
        if value.as_str().is_empty() {
            Some(None)
        } else {
            Some(Some(value))
        }
    }

    /// Switches between all agents and those of the sidebar's session.
    pub fn toggle_filter_mode(&mut self) -> (r: SidebarFilterMode)
        ensures
            r == (if old(self).filter_mode == SidebarFilterMode::All {
                SidebarFilterMode::Session
            } else {
                SidebarFilterMode::All
            }),
            *final(self) == (SidebarApp { filter_mode: r, ..*old(self) }),
    {
        self.filter_mode = self.filter_mode.toggle();
        self.filter_mode
    }

    /// The grouping to switch to: none where there is one, else the configured one, by project
    /// where none is configured.
    pub fn toggle_grouping(&self) -> (r: Option<SidebarGroupBy>)
        ensures
            r == (match self.group_by {
                Some(_) => None,
                None => Some(templates::or_else(self.configured_group_by, SidebarGroupBy::Project)),
            }),
    {
        match self.group_by {
            Some(_) => None,
            None => match self.configured_group_by {
                Some(mode) => Some(mode),
                None => Some(SidebarGroupBy::Project),
            },
        }
    }
}

fn joined_items(set: &StrSet) -> (r: String)
    ensures
        r@ == text::joined(set.items(), " "@),
{
    let mut items: Vec<String> = Vec::new();
    let n: usize = set.len();
    let mut i: usize = 0;
    while i < n
        invariant
            n == set.items().len(),
            i <= n,
            items@.len() == i,
            forall|j: int| 0 <= j < i ==> (#[trigger] items@[j])@ == set.items()[j],
        decreases n - i,
    {
        items.push(set.get(i).clone());
        i += 1;
    }
    proof {
        assert(text::texts(items@) =~= set.items());
    }
    text::join(&items, " ")
}

// ── What a snapshot changes ─────────────────────────────────────

/// A sidebar shows every published agent, in the published order; filtered by session, exactly those of
/// its own session. A sidebar that does not know its session filters nothing.
pub proof fn law_filters_keep_the_session(agents: Seq<AgentPane>, host: HostIdentity, i: int)
    requires
        0 <= i < agents.len(),
    ensures
        shown(agents, SidebarFilterMode::All, Some(host)) == agents,
        shown(agents, SidebarFilterMode::Session, None) == agents,
        shown(agents, SidebarFilterMode::Session, Some(host)).contains(agents[i]) <==> agents[i].session@
            == host.session_name@,
        forall|k: int|
            0 <= k < shown(agents, SidebarFilterMode::Session, Some(host)).len() ==> (#[trigger] shown(
                agents,
                SidebarFilterMode::Session,
                Some(host),
            )[k]).session@ == host.session_name@,
{
    let f = |a: AgentPane| a.session@ == host.session_name@;
    broadcast use vstd::seq_lib::group_filter_ensures;

    if f(agents[i]) {
        agents.lemma_filter_contains(f, i);
    }
}

/// While another pane of the window on show has the focus, the selection follows the host. While the
/// sidebar itself has it, or its window is not on show, the mode stays. The window of a sidebar that
/// does not know its own counts as on show.
pub proof fn law_leaving_the_sidebar_ends_a_manual_selection(
    mode: SelectionMode,
    host: HostIdentity,
    windows: Set<(Seq<char>, Seq<char>)>,
    panes: Set<Seq<char>>,
)
    ensures
        ({
            let on_show = windows.contains((host.session_name@, host.window_id@));
            let focused = panes.contains(host.pane_id@);
            &&& on_show && !focused ==> mode_after(mode, Some(host), windows, panes) is FollowHost
            &&& !on_show || focused ==> mode_after(mode, Some(host), windows, panes) == mode
            &&& window_active(Some(host), windows) == on_show
        }),
        mode_after(mode, None, windows, panes) == mode,
        window_active(None, windows),
{
}

proof fn lemma_first_with_pane(agents: Seq<AgentPane>, pane: Seq<char>, i: int)
    requires
        0 <= i <= agents.len() <= usize::MAX,
    ensures
        agent_with_pane(agents, pane, i) matches Some(k) ==> forall|j: int|
            i <= j < k ==> (#[trigger] agents[j]).pane_id@ != pane,
    decreases agents.len() - i,
{
    if i < agents.len() {
        lemma_first_with_pane(agents, pane, i + 1);
    }
}

/// When the agents changed, the selection follows the pane that was selected. Where that is gone, the
/// agent that took its place is selected, the last one where none did. Where none was selected, it is
/// the first; where there are no agents, none.
pub proof fn law_gone_agents_are_replaced(agents: Seq<AgentPane>, pane: Seq<char>, at: usize)
    requires
        agents.len() <= usize::MAX,
    ensures
        ({
            let here = exists|i: int| 0 <= i < agents.len() && (#[trigger] agents[i]).pane_id@ == pane;
            let r = restored_agent(agents, Some(pane), Some(at));
            &&& agents.len() == 0 ==> r is None
            &&& here ==> r is Some && r->0 < agents.len() && agents[r->0 as int].pane_id@ == pane && forall|j: int|
                0 <= j < r->0 ==> (#[trigger] agents[j]).pane_id@ != pane
            &&& !here && at < agents.len() ==> r == Some(at)
            &&& !here && at >= agents.len() > 0 ==> r is Some && r->0 == agents.len() - 1
        }),
        agents.len() > 0 ==> restored_agent(agents, None, Some(at)) == Some(0usize),
{
    lemma_agent_with_pane(agents, pane, 0);
    lemma_first_with_pane(agents, pane, 0);
}

/// What a snapshot carries is what the sidebar shows from then on; what is the sidebar's own it keeps.
pub proof fn law_snapshots_are_taken_over(before: SidebarApp, snap: SidebarSnapshot, after: SidebarApp)
    requires
        applied(before, snap, after),
    ensures
        after.has_loaded_snapshot,
        after.position == snap.position,
        after.layout_mode == snap.layout_mode,
        after.filter_mode == snap.filter_mode,
        after.group_by == snap.group_by,
        after.collapse_stale == snap.collapse_stale,
        after.git_statuses == snap.git_statuses,
        after.pr_statuses == snap.pr_statuses,
        after.check_statuses == snap.check_statuses,
        after.stale_pane_ids == snap.stale_pane_ids,
        after.sleeping_pane_ids == snap.sleeping_pane_ids,
        after.interrupted_pane_ids == snap.interrupted_pane_ids,
        snap.filter_mode is All ==> after.agents@ == snap.agents@,
        after.pending_exit == before.pending_exit && after.show_help == before.show_help,
        after.palette == before.palette && after.host_identity == before.host_identity,
        forall|i: int| 0 <= i < snap.expanded_groups@.len() ==> after.expanded_groups@.contains((#[trigger] snap.expanded_groups@[i])@),
        snap.expanded_groups@.len() == 0 ==> forall|g: Seq<char>| !#[trigger] after.expanded_groups@.contains(g),
{
    assert forall|i: int| 0 <= i < snap.expanded_groups@.len() implies after.expanded_groups@.contains(
        (#[trigger] snap.expanded_groups@[i])@,
    ) by {
        let k = snap.expanded_groups@[i]@;
        assert(snap.expanded_groups@[i]@ == k);
    }
}

/// A toggle turns one member over and leaves all others as they are.
pub proof fn law_toggles_turn_one_member_over(set: Set<Seq<char>>, member: Seq<char>, other: Seq<char>)
    requires
        other != member,
    ensures
        toggled(set, member).contains(member) == !set.contains(member),
        toggled(set, member).contains(other) == set.contains(other),
{
}

} // verus!
