//! How a sidebar begins.

use vstd::prelude::*;

use crate::app;
use crate::app::{Area, HostIdentity, ResolvedAgentIcons, SelectionMode, SidebarApp, SidebarFilterMode, SidebarLayoutMode};
use crate::collections::{StrMap, StrSet};
use crate::model::{AgentPane, CheckSummary, GitStatus, PrSummary, SidebarGroupBy, SidebarPosition, StatusIcons};
use crate::resize::ResizeState;
use crate::rows;
use crate::selection::ListState;
use crate::snapshot::STALE_THRESHOLD_SECS;
use crate::style::Palette;
use crate::templates::{ParsedTemplates, TemplateError, TemplateStrings, TemplatesConfig};

verus! {

/// What a sidebar begins with: its configuration, and what tmux tells of its pane.
pub struct ClientSetup {
    pub palette: Palette,
    pub status_icons: StatusIcons,
    pub agent_icons: ResolvedAgentIcons,
    pub window_prefix: String,
    pub group_by: Option<SidebarGroupBy>,
    pub dim_stale: bool,
    pub position: SidebarPosition,
    pub horizontal_item_width: usize,
    pub template_config: Option<TemplatesConfig>,
    pub template_strings: TemplateStrings,
    pub templates: ParsedTemplates,
    pub template_error: Option<TemplateError>,
    pub host_identity: Option<HostIdentity>,
    pub hint_pending: bool,
    /// The size of the window. It is known from the start, so that the first resize can be told from
    /// one of the window.
    pub window_width: Option<u16>,
    pub window_height: Option<u16>,
}

/// Whether a sidebar shows nothing yet, and takes all else from how it begins.
pub open spec fn begins(setup: ClientSetup, r: SidebarApp) -> bool {
    &&& r.agents@ == Seq::<AgentPane>::empty()
    &&& r.rows@.len() == 0
    &&& r.jump_numbers@.len() == 0
    &&& r.tile_heights@.len() == 0
    &&& r.horizontal_hitboxes@.len() == 0
    &&& r.expanded_groups@ == Set::<Seq<char>>::empty()
    &&& r.stale_pane_ids@ == Set::<Seq<char>>::empty()
    &&& r.interrupted_pane_ids@ == Set::<Seq<char>>::empty()
    &&& r.sleeping_pane_ids@ == Set::<Seq<char>>::empty()
    &&& r.git_statuses@ == Map::<Seq<char>, GitStatus>::empty()
    &&& r.pr_statuses@ == Map::<Seq<char>, PrSummary>::empty()
    &&& r.check_statuses@ == Map::<Seq<char>, CheckSummary>::empty()
    &&& r == (SidebarApp {
        agents: r.agents,
        rows: r.rows,
        group_by: None,
        configured_group_by: setup.group_by,
        expanded_groups: r.expanded_groups,
        stale_pane_ids: r.stale_pane_ids,
        jump_numbers: r.jump_numbers,
        has_loaded_snapshot: false,
        list_state: ListState { selected: None, offset: 0 },
        should_quit: false,
        pending_exit: false,
        show_help: false,
        hint_pending: setup.hint_pending,
        quit_silent: false,
        quit_reason: None,
        palette: setup.palette,
        status_icons: setup.status_icons,
        spinner_frame: 0,
        stale_threshold_secs: STALE_THRESHOLD_SECS,
        dim_stale: setup.dim_stale,
        collapse_stale: false,
        position: setup.position,
        layout_mode: SidebarLayoutMode::Tiles,
        list_area: Area { x: 0, y: 0, width: 0, height: 0 },
        window_prefix: setup.window_prefix,
        host_identity: setup.host_identity,
        host_agent_idx: None,
        host_window_active: true,
        selection_mode: SelectionMode::FollowHost,
        git_statuses: r.git_statuses,
        pr_statuses: r.pr_statuses,
        check_statuses: r.check_statuses,
        interrupted_pane_ids: r.interrupted_pane_ids,
        sleeping_pane_ids: r.sleeping_pane_ids,
        templates: setup.templates,
        template_error: setup.template_error,
        agent_icons: setup.agent_icons,
        tile_heights: r.tile_heights,
        horizontal_hitboxes: r.horizontal_hitboxes,
        first_visible_agent_idx: 0,
        horizontal_item_width: setup.horizontal_item_width,
        last_config_version: 0,
        current_templates: setup.template_strings,
        template_config: setup.template_config,
        resize: ResizeState {
            last_window_width: setup.window_width,
            last_window_height: setup.window_height,
            pending_cols: None,
            pending_rows: None,
            deadline: None,
            suppress_once: false,
        },
        filter_mode: SidebarFilterMode::All,
    })
}

impl SidebarApp {
    /// A sidebar without agents, which come with the first snapshot.
    pub fn new_client(setup: ClientSetup) -> (r: Self)
        ensures
            begins(setup, r),
            app::in_step(r),
    {
        let r = SidebarApp {
            agents: Vec::new(),
            rows: Vec::new(),
            group_by: None,
            configured_group_by: setup.group_by,
            expanded_groups: StrSet::new(),
            stale_pane_ids: StrSet::new(),
            jump_numbers: Vec::new(),
            has_loaded_snapshot: false,
            list_state: ListState::new(),
            should_quit: false,
            pending_exit: false,
            show_help: false,
            hint_pending: setup.hint_pending,
            quit_silent: false,
            quit_reason: None,
            palette: setup.palette,
            status_icons: setup.status_icons,
            spinner_frame: 0,
            stale_threshold_secs: STALE_THRESHOLD_SECS,
            dim_stale: setup.dim_stale,
            collapse_stale: false,
            position: setup.position,
            layout_mode: SidebarLayoutMode::Tiles,
            list_area: Area { x: 0, y: 0, width: 0, height: 0 },
            window_prefix: setup.window_prefix,
            host_identity: setup.host_identity,
            host_agent_idx: None,
            host_window_active: true,
            selection_mode: SelectionMode::FollowHost,
            git_statuses: StrMap::new(),
            pr_statuses: StrMap::new(),
            check_statuses: StrMap::new(),
            interrupted_pane_ids: StrSet::new(),
            sleeping_pane_ids: StrSet::new(),
            templates: setup.templates,
            template_error: setup.template_error,
            agent_icons: setup.agent_icons,
            tile_heights: Vec::new(),
            horizontal_hitboxes: Vec::new(),
            first_visible_agent_idx: 0,
            horizontal_item_width: setup.horizontal_item_width,
            last_config_version: 0,
            current_templates: setup.template_strings,
            template_config: setup.template_config,
            resize: ResizeState {
                last_window_width: setup.window_width,
                last_window_height: setup.window_height,
                pending_cols: None,
                pending_rows: None,
                deadline: None,
                suppress_once: false,
            },
            filter_mode: SidebarFilterMode::All,
        };
        proof {
            assert(rows::models(r.rows@) =~= app::presented(r));
            assert(r.jump_numbers@ =~= rows::closed_up(app::numbered(r)));
        }
        r
    }

    pub fn host_identity(&self) -> (r: Option<&HostIdentity>)
        ensures
            match r {
                Some(id) => self.host_identity == Some(*id),
                None => self.host_identity is None,
            },
    {
        match &self.host_identity {
            Some(id) => Some(id),
            None => None,
        }
    }
}

/// A sidebar begins empty, as tiles without groups or filter, and follows its host; it dims after an
/// hour, has no question or overlay up, and is not about to close.
pub proof fn law_sidebars_begin_empty(setup: ClientSetup, r: SidebarApp)
    requires
        begins(setup, r),
    ensures
        r.agents@.len() == 0 && r.rows@.len() == 0 && r.list_state.selected is None,
        !r.has_loaded_snapshot && !r.should_quit && !r.pending_exit && !r.show_help && !r.quit_silent,
        r.layout_mode is Tiles && r.filter_mode is All && r.group_by is None && r.selection_mode is FollowHost,
        r.stale_threshold_secs == 3600 && !r.collapse_stale && r.host_window_active,
        r.configured_group_by == setup.group_by && r.position == setup.position && r.dim_stale == setup.dim_stale,
        r.palette == setup.palette && r.host_identity == setup.host_identity && r.hint_pending == setup.hint_pending,
        r.resize.last_window_width == setup.window_width && r.resize.last_window_height == setup.window_height,
        r.resize.deadline is None && !r.resize.suppress_once,
        r.templates == setup.templates && r.template_error == setup.template_error,
{
}

} // verus!
