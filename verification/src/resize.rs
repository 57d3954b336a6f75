//! Resizing: telling a pane that the user resized from a window that was.

use vstd::prelude::*;

use crate::app::SidebarApp;
use crate::model::SidebarPosition;
use crate::text;
use crate::updates;

verus! {

/// What a sidebar knows of resizes.
#[derive(Debug, Clone, Copy, PartialEq, Eq, Structural)]
pub struct ResizeState {
    /// Width and height of the window when they were last seen.
    pub last_window_width: Option<u16>,
    pub last_window_height: Option<u16>,
    /// A resize that waits to settle.
    pub pending_cols: Option<u16>,
    pub pending_rows: Option<u16>,
    /// When it has settled, in milliseconds.
    pub deadline: Option<u64>,
    /// Whether the next resize is one that the sidebar causes.
    pub suppress_once: bool,
}

/// How long a resize has to rest before it is looked at, in milliseconds.
pub const RESIZE_DEBOUNCE_MS: u64 = 500;

/// The state with no resize pending.
pub open spec fn settled(state: ResizeState) -> ResizeState {
    ResizeState { pending_cols: None, pending_rows: None, deadline: None, ..state }
}

/// What the extent of the window was when it was last seen, along the sidebar's axis.
pub open spec fn last_window(state: ResizeState, at: SidebarPosition) -> Option<u16> {
    match at {
        SidebarPosition::Left => state.last_window_width,
        SidebarPosition::Top => state.last_window_height,
    }
}

/// The state with another extent of the window.
pub open spec fn seen_window(state: ResizeState, at: SidebarPosition, extent: u16) -> ResizeState {
    match at {
        SidebarPosition::Left => ResizeState { last_window_width: Some(extent), ..state },
        SidebarPosition::Top => ResizeState { last_window_height: Some(extent), ..state },
    }
}

/// The state after a resize event. An event that the sidebar caused itself, or that came with a
/// resize of the window, is no resize by the user; any other waits until it has settled.
pub open spec fn after_resize(state: ResizeState, at: SidebarPosition, cols: u16, rows: u16, window: u16, now: u64) -> ResizeState {
    if state.suppress_once {
        ResizeState { suppress_once: false, ..settled(state) }
    } else if last_window(state, at) matches Some(prev) && prev != window {
        seen_window(settled(state), at, window)
    } else {
        let deadline = Some((now + RESIZE_DEBOUNCE_MS) as u64);
        match at {
            SidebarPosition::Left => ResizeState { pending_cols: Some(cols), deadline: deadline, ..state },
            SidebarPosition::Top => ResizeState { pending_rows: Some(rows), deadline: deadline, ..state },
        }
    }
}

/// What is known when a resize has settled.
#[derive(Debug, Clone, Copy)]
pub struct ResizeFacts {
    /// The extent of the window along the sidebar's axis.
    pub window: u16,
    /// The extent of the pane, where tmux tells it; zero counts as untold.
    pub pane: Option<u16>,
    /// The extent that the configuration asks for.
    pub expected: u16,
    /// Whether the configuration sets the extent.
    pub configured: bool,
    /// Whether the pane is wider than a sidebar may ever be.
    pub too_wide: bool,
}

/// What to do about a resize by the user.
#[derive(Debug, PartialEq, Eq)]
pub enum ResizeAction {
    Nothing,
    /// Go back to the expected size, and lay out the window again.
    Restore { size: u16, window: String },
    /// Keep the size the user chose, and lay out the other windows.
    Adopt { size: u16, host_window: Option<String> },
    /// Lay out the window again.
    Reflow { window: String },
}

/// An action, by its contents.
pub enum ActionModel {
    Nothing,
    Restore { size: u16, window: Seq<char> },
    Adopt { size: u16, host_window: Option<Seq<char>> },
    Reflow { window: Seq<char> },
}

impl View for ResizeAction {
    type V = ActionModel;

    open spec fn view(&self) -> ActionModel {
        match *self {
            ResizeAction::Nothing => ActionModel::Nothing,
            ResizeAction::Restore { size, window } => ActionModel::Restore { size, window: window@ },
            ResizeAction::Adopt { size, host_window } => ActionModel::Adopt {
                size,
                host_window: text::optional(host_window),
            },
            ResizeAction::Reflow { window } => ActionModel::Reflow { window: window@ },
        }
    }
}

/// The characters of an optional text.
pub open spec fn text_of(s: Option<&str>) -> Option<Seq<char>> {
    match s {
        Some(t) => Some(t@),
        None => None,
    }
}

/// The size that waits to settle.
pub open spec fn pending_size(state: ResizeState, at: SidebarPosition) -> Option<u16> {
    match at {
        SidebarPosition::Left => state.pending_cols,
        SidebarPosition::Top => state.pending_rows,
    }
}

/// The extent of the pane: what tmux tells, unless that is nothing, else what waits to settle.
pub open spec fn actual_extent(pane: Option<u16>, pending: u16) -> u16 {
    match pane {
        Some(n) => if n > 0 {
            n
        } else {
            pending
        },
        None => pending,
    }
}

/// The action on a settled resize: none unless the window kept its size and the pane is not as
/// expected.
pub open spec fn settled_action(state: ResizeState, at: SidebarPosition, host: Option<Seq<char>>, facts: ResizeFacts) -> ActionModel {
    match pending_size(state, at) {
        Some(pending) => {
            let actual = actual_extent(facts.pane, pending);
            if last_window(state, at) != Some(facts.window) || actual == facts.expected {
                ActionModel::Nothing
            } else if at == SidebarPosition::Left && facts.too_wide {
                match host {
                    Some(window) => ActionModel::Restore { size: facts.expected, window },
                    None => ActionModel::Nothing,
                }
            } else if !facts.configured {
                ActionModel::Adopt { size: actual, host_window: host }
            } else {
                match host {
                    Some(window) => ActionModel::Reflow { window },
                    None => ActionModel::Nothing,
                }
            }
        },
        None => ActionModel::Nothing,
    }
}

/// The state once a resize was looked at. The layout that the action brings about is no resize by
/// the user.
pub open spec fn after_settling(state: ResizeState, at: SidebarPosition, host: Option<Seq<char>>, facts: ResizeFacts) -> ResizeState {
    match pending_size(state, at) {
        Some(_) => {
            let action = settled_action(state, at, host, facts);
            ResizeState {
                suppress_once: state.suppress_once || action is Restore || action is Reflow,
                ..seen_window(settled(state), at, facts.window)
            }
        },
        None => ResizeState { deadline: None, ..state },
    }
}

fn told_extent(pane: Option<u16>, pending: u16) -> (r: u16)
    ensures
        r == actual_extent(pane, pending),
{
    match pane {
        Some(n) => if n > 0 {
            n
        } else {
            pending
        },
        None => pending,
    }
}

impl ResizeState {
    /// The extent of the pane while a resize waits to settle. `pane` is what tmux tells of it.
    pub fn actual_size(&self, at: SidebarPosition, pane: Option<u16>) -> (r: Option<u16>)
        ensures
            r == (match pending_size(*self, at) {
                Some(pending) => Some(actual_extent(pane, pending)),
                None => None,
            }),
    {
        let pending = match at {
            SidebarPosition::Left => self.pending_cols,
            SidebarPosition::Top => self.pending_rows,
        };
        match pending {
            Some(size) => Some(told_extent(pane, size)),
            None => None,
        }
    }

    fn drop_pending_resize(&mut self)
        ensures
            *final(self) == settled(*old(self)),
    {
        self.pending_cols = None;
        self.pending_rows = None;
        self.deadline = None;
    }

    fn see_window(&mut self, at: SidebarPosition, extent: u16)
        ensures
            *final(self) == seen_window(*old(self), at, extent),
    {
        match at {
            SidebarPosition::Left => {
                self.last_window_width = Some(extent);
            },
            SidebarPosition::Top => {
                self.last_window_height = Some(extent);
            },
        }
    }

    /// Records a resize event at `now` milliseconds. `window` is the extent of the window along the
    /// sidebar's axis, zero where tmux does not tell it.
    pub fn on_resize_event(&mut self, at: SidebarPosition, cols: u16, rows: u16, window: u16, now: u64)
        requires
            now + RESIZE_DEBOUNCE_MS <= u64::MAX,
        ensures
            *final(self) == after_resize(*old(self), at, cols, rows, window, now),
    {
        if self.suppress_once {
            self.suppress_once = false;
            self.drop_pending_resize();
            return;
        }
        let last = match at {
            SidebarPosition::Left => self.last_window_width,
            SidebarPosition::Top => self.last_window_height,
        };
        match last {
            Some(prev) => {
                if prev != window {
                    self.drop_pending_resize();
                    self.see_window(at, window);
                    return;
                }
            },
            None => {},
        }
        match at {
            SidebarPosition::Left => {
                self.pending_cols = Some(cols);
            },
            SidebarPosition::Top => {
                self.pending_rows = Some(rows);
            },
        }
        self.deadline = Some(now + RESIZE_DEBOUNCE_MS);
    }

    /// Whether a pending resize has settled at `now` milliseconds. While the sidebar starts up,
    /// resizes are dropped: they come from its own creation.
    pub fn resize_is_due(&mut self, starting_up: bool, now: u64) -> (r: bool)
        ensures
            r == (!starting_up && (old(self).deadline matches Some(deadline) && now >= deadline)),
            *final(self) == (if starting_up {
                settled(*old(self))
            } else {
                *old(self)
            }),
    {
        if starting_up {
            self.drop_pending_resize();
            return false;
        }
        match self.deadline {
            Some(deadline) => now >= deadline,
            None => false,
        }
    }

    /// Decides what a settled resize asks for.
    pub fn process_pending_resize(&mut self, at: SidebarPosition, host_window: Option<&str>, facts: ResizeFacts) -> (r:
        ResizeAction)
        ensures
            r@ == settled_action(*old(self), at, text_of(host_window), facts),
            *final(self) == after_settling(*old(self), at, text_of(host_window), facts),
    {
        let pending = match at {
            SidebarPosition::Left => self.pending_cols,
            SidebarPosition::Top => self.pending_rows,
        };
        let size: u16 = match pending {
            Some(n) => n,
            None => {
                self.deadline = None;
                return ResizeAction::Nothing;
            },
        };
        let last = match at {
            SidebarPosition::Left => self.last_window_width,
            SidebarPosition::Top => self.last_window_height,
        };
        let same_window = match last {
            Some(prev) => prev == facts.window,
            None => false,
        };
        self.drop_pending_resize();
        self.see_window(at, facts.window);
        let actual: u16 = told_extent(facts.pane, size);
        if !same_window || actual == facts.expected {
            return ResizeAction::Nothing;
        }
        let host = match host_window {
            Some(w) => Some(w.to_owned()),
            None => None,
        };
        if matches!(at, SidebarPosition::Left) && facts.too_wide {
            match host {
                Some(window) => {
                    self.suppress_once = true;
                    ResizeAction::Restore { size: facts.expected, window }
                },
                None => ResizeAction::Nothing,
            }
        } else if !facts.configured {
            ResizeAction::Adopt { size: actual, host_window: host }
        } else {
            match host {
                Some(window) => {
                    self.suppress_once = true;
                    ResizeAction::Reflow { window }
                },
                None => ResizeAction::Nothing,
            }
        }
    }
}

impl SidebarApp {
    /// Records a resize event at `now` milliseconds. `window` is the extent of the window along the
    /// sidebar's axis, zero where tmux does not tell it.
    pub fn on_resize_event(&mut self, cols: u16, rows: u16, window: u16, now: u64)
        requires
            now + RESIZE_DEBOUNCE_MS <= u64::MAX,
        ensures
            *final(self) == (SidebarApp {
                resize: after_resize(old(self).resize, old(self).position, cols, rows, window, now),
                ..*old(self)
            }),
    {
        self.resize.on_resize_event(self.position, cols, rows, window, now);
    }

    /// Decides what a settled resize asks for.
    pub fn process_pending_resize(&mut self, facts: ResizeFacts) -> (r: ResizeAction)
        ensures
            r@ == settled_action(
                old(self).resize,
                old(self).position,
                updates::window_of(old(self).host_identity),
                facts,
            ),
            *final(self) == (SidebarApp {
                resize: after_settling(
                    old(self).resize,
                    old(self).position,
                    updates::window_of(old(self).host_identity),
                    facts,
                ),
                ..*old(self)
            }),
    {
        let mut state = self.resize;
        let action = state.process_pending_resize(self.position, self.host_window_id(), facts);
        self.resize = state;
        action
    }
}

/// A resize that comes with a resize of the window, or that the sidebar caused, is never taken
/// for one by the user.
pub proof fn law_window_resizes_are_ignored(state: ResizeState, at: SidebarPosition, cols: u16, rows: u16, window: u16, now: u64)
    requires
        state.suppress_once || (last_window(state, at) matches Some(prev) && prev != window),
    ensures
        after_resize(state, at, cols, rows, window, now).deadline is None,
        pending_size(after_resize(state, at, cols, rows, window, now), at) is None,
{
}

/// A pane that was resized while its window stayed as it is waits half a second, from the last event
/// on, for its new extent to settle: its width on the left, its height on top.
pub proof fn law_resizes_by_hand_wait(state: ResizeState, at: SidebarPosition, cols: u16, rows: u16, window: u16, now: u64)
    requires
        !state.suppress_once,
        at is Left ==> state.last_window_width is None || state.last_window_width == Some(window),
        at is Top ==> state.last_window_height is None || state.last_window_height == Some(window),
        now + 500 <= u64::MAX,
    ensures
        ({
            let next = after_resize(state, at, cols, rows, window, now);
            &&& next.deadline is Some && next.deadline->0 == now + 500
            &&& at is Left ==> next.pending_cols == Some(cols) && next.pending_rows == state.pending_rows
            &&& at is Top ==> next.pending_rows == Some(rows) && next.pending_cols == state.pending_cols
            &&& next.last_window_width == state.last_window_width
            &&& next.last_window_height == state.last_window_height
            &&& !next.suppress_once
        }),
{
}

/// A resize that the sidebar caused is swallowed once; one that came with the window's is not, and has
/// the window's new extent remembered.
pub proof fn law_own_resizes_are_swallowed_once(state: ResizeState, at: SidebarPosition, cols: u16, rows: u16, window: u16, now: u64)
    ensures
        ({
            let next = after_resize(state, at, cols, rows, window, now);
            &&& !next.suppress_once
            &&& state.suppress_once ==> next.last_window_width == state.last_window_width && next.last_window_height
                == state.last_window_height
            &&& !state.suppress_once && at is Left && state.last_window_width is Some && state.last_window_width->0
                != window ==> next.last_window_width == Some(window) && next.last_window_height
                == state.last_window_height
            &&& !state.suppress_once && at is Top && state.last_window_height is Some && state.last_window_height->0
                != window ==> next.last_window_height == Some(window) && next.last_window_width
                == state.last_window_width
        }),
{
}

/// What a settled resize asks for. Nothing, where none waits, where the window was resized meanwhile, or
/// where the pane is as expected. On the left, a pane that is too wide goes back to the expected size.
/// Otherwise the user's size is adopted, unless the configuration sets one: the window is laid out
/// again to it.
pub proof fn law_settled_resizes_are_answered(state: ResizeState, at: SidebarPosition, host: Option<Seq<char>>, facts: ResizeFacts)
    ensures
        ({
            let pending = if at is Left {
                state.pending_cols
            } else {
                state.pending_rows
            };
            let window = if at is Left {
                state.last_window_width
            } else {
                state.last_window_height
            };
            let actual = if facts.pane is Some && facts.pane->0 > 0 {
                facts.pane->0
            } else {
                pending->0
            };
            let open = pending is Some && window == Some(facts.window) && actual != facts.expected;
            let wide = at is Left && facts.too_wide;
            let action = settled_action(state, at, host, facts);
            &&& !open ==> action is Nothing
            &&& open && wide && host is Some ==> action == (ActionModel::Restore {
                size: facts.expected,
                window: host->0,
            })
            &&& open && !wide && !facts.configured ==> action == (ActionModel::Adopt { size: actual, host_window: host })
            &&& open && !wide && facts.configured && host is Some ==> action == (ActionModel::Reflow { window: host->0 })
            &&& open && host is None && (wide || facts.configured) ==> action is Nothing
        }),
{
}

/// Once a resize was looked at, nothing waits, the window's extent is remembered, and the layout that
/// the answer brings about is expected; an adopted size brings none about here.
pub proof fn law_settling_leaves_nothing_waiting(state: ResizeState, at: SidebarPosition, host: Option<Seq<char>>, facts: ResizeFacts)
    ensures
        ({
            let next = after_settling(state, at, host, facts);
            let action = settled_action(state, at, host, facts);
            let pending = if at is Left {
                state.pending_cols
            } else {
                state.pending_rows
            };
            &&& next.deadline is None
            &&& at is Left ==> next.pending_cols is None
            &&& at is Top ==> next.pending_rows is None
            &&& pending is Some && at is Left ==> next.last_window_width == Some(facts.window) && next.last_window_height
                == state.last_window_height
            &&& pending is Some && at is Top ==> next.last_window_height == Some(facts.window) && next.last_window_width
                == state.last_window_width
            &&& pending is None ==> next == (ResizeState { deadline: None, ..state })
            &&& action is Restore || action is Reflow ==> next.suppress_once
            &&& action is Nothing || action is Adopt ==> next.suppress_once == state.suppress_once
        }),
{
}

} // verus!
