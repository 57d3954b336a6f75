//! Plain values that the rest of the library works on.

use vstd::prelude::*;

use crate::text;

verus! {

/// Where the sidebar sits in a window.
#[derive(Debug, Clone, Copy, PartialEq, Eq, Structural)]
pub enum SidebarPosition {
    Left,
    Top,
}

/// What the sections of a sidebar stand for.
#[derive(Debug, Clone, Copy, PartialEq, Eq, Structural)]
pub enum SidebarGroupBy {
    Nothing,
    Project,
    Session,
}

/// How agents are ordered within a section.
#[derive(Debug, Clone, Copy, PartialEq, Eq, Structural)]
pub enum SidebarSort {
    Recency,
    Priority,
    Window,
}

/// What an agent reports of itself.
#[derive(Debug, Clone, Copy, PartialEq, Eq, Structural)]
pub enum AgentStatus {
    Working,
    Waiting,
    Done,
}

/// An agent and the tmux pane that it runs in.
#[derive(Debug)]
pub struct AgentPane {
    pub session: String,
    pub window_name: String,
    pub pane_id: String,
    pub window_id: String,
    pub window_index: Option<u32>,
    /// The directory that the agent works in, in normal form.
    pub path: String,
    /// The name of the project that `path` belongs to.
    pub project: String,
    pub pane_title: Option<String>,
    pub status: Option<AgentStatus>,
    pub status_ts: Option<u64>,
    pub activity_ts: Option<u64>,
    pub updated_ts: Option<u64>,
    pub window_cmd: Option<String>,
    pub agent_command: Option<String>,
    pub agent_kind: Option<String>,
}

/// When the agent last did something: its recorded activity, else its last change of status, else
/// the last write of its record.
pub open spec fn last_activity(agent: AgentPane) -> Option<u64> {
    match agent.activity_ts {
        Some(ts) => Some(ts),
        None => match agent.status_ts {
            Some(ts) => Some(ts),
            None => agent.updated_ts,
        },
    }
}

impl AgentPane {
    pub fn activity_ts(&self) -> (r: Option<u64>)
        ensures
            r == last_activity(*self),
    {
        match self.activity_ts {
            Some(ts) => Some(ts),
            None => match self.status_ts {
                Some(ts) => Some(ts),
                None => self.updated_ts,
            },
        }
    }
}

impl Clone for AgentPane {
    fn clone(&self) -> (r: Self)
        ensures
            r == *self,
    {
        AgentPane {
            session: self.session.clone(),
            window_name: self.window_name.clone(),
            pane_id: self.pane_id.clone(),
            window_id: self.window_id.clone(),
            window_index: self.window_index,
            path: self.path.clone(),
            project: self.project.clone(),
            pane_title: text::copy_optional(&self.pane_title),
            status: self.status,
            status_ts: self.status_ts,
            activity_ts: self.activity_ts,
            updated_ts: self.updated_ts,
            window_cmd: text::copy_optional(&self.window_cmd),
            agent_command: text::copy_optional(&self.agent_command),
            agent_kind: text::copy_optional(&self.agent_kind),
        }
    }
}

/// The icons that stand for agent statuses.
#[derive(Debug)]
pub struct StatusIcons {
    /// A custom icon for working agents; without one, they show a spinner.
    pub working: Option<String>,
    /// The icon of waiting agents, and whether it was configured.
    pub waiting: String,
    pub custom_waiting: bool,
    /// The icon of agents that are done, and whether it was configured.
    pub done: String,
    pub custom_done: bool,
}

/// The state of a worktree.
#[derive(Debug)]
pub struct GitStatus {
    pub ahead: usize,
    pub behind: usize,
    pub has_conflict: bool,
    pub is_dirty: bool,
    pub lines_added: usize,
    pub lines_removed: usize,
    pub uncommitted_added: usize,
    pub uncommitted_removed: usize,
    /// When the status was computed.
    pub cached_at: Option<u64>,
    pub base_branch: String,
    pub branch: Option<String>,
    pub has_upstream: bool,
    pub is_rebasing: bool,
}

impl Clone for GitStatus {
    fn clone(&self) -> (r: Self)
        ensures
            r == *self,
    {
        GitStatus {
            ahead: self.ahead,
            behind: self.behind,
            has_conflict: self.has_conflict,
            is_dirty: self.is_dirty,
            lines_added: self.lines_added,
            lines_removed: self.lines_removed,
            uncommitted_added: self.uncommitted_added,
            uncommitted_removed: self.uncommitted_removed,
            cached_at: self.cached_at,
            base_branch: self.base_branch.clone(),
            branch: text::copy_optional(&self.branch),
            has_upstream: self.has_upstream,
            is_rebasing: self.is_rebasing,
        }
    }
}

impl Default for GitStatus {
    fn default() -> (r: Self)
        ensures
            r.ahead == 0,
            r.behind == 0,
            !r.has_conflict,
            !r.is_dirty,
            r.lines_added == 0,
            r.lines_removed == 0,
            r.uncommitted_added == 0,
            r.uncommitted_removed == 0,
            r.cached_at is None,
            r.base_branch@ == Seq::<char>::empty(),
            r.branch is None,
            !r.has_upstream,
            !r.is_rebasing,
    {
        GitStatus {
            ahead: 0,
            behind: 0,
            has_conflict: false,
            is_dirty: false,
            lines_added: 0,
            lines_removed: 0,
            uncommitted_added: 0,
            uncommitted_removed: 0,
            cached_at: None,
            base_branch: String::new(),
            branch: None,
            has_upstream: false,
            is_rebasing: false,
        }
    }
}

/// How the checks of a branch stand.
#[derive(Debug, Clone, Copy, PartialEq, Eq, Structural)]
pub enum CheckState {
    Success,
    Failure { passed: u32, total: u32 },
    Pending { passed: u32, total: u32 },
}

/// The checks of a branch.
#[derive(Debug)]
pub struct CheckSummary {
    pub state: CheckState,
    /// Further details, carried along unread.
    pub meta: Option<String>,
}

impl Clone for CheckSummary {
    fn clone(&self) -> (r: Self)
        ensures
            r == *self,
    {
        CheckSummary { state: self.state, meta: text::copy_optional(&self.meta) }
    }
}

/// A pull request.
#[derive(Debug)]
pub struct PrSummary {
    pub number: u32,
    pub title: String,
    pub state: String,
    pub is_draft: bool,
    pub checks: Option<CheckState>,
    /// Further details of the checks, carried along unread.
    pub check_meta: Option<String>,
    pub url: Option<String>,
}

impl Clone for PrSummary {
    fn clone(&self) -> (r: Self)
        ensures
            r == *self,
    {
        PrSummary {
            number: self.number,
            title: self.title.clone(),
            state: self.state.clone(),
            is_draft: self.is_draft,
            checks: self.checks,
            check_meta: text::copy_optional(&self.check_meta),
            url: text::copy_optional(&self.url),
        }
    }
}

} // verus!
