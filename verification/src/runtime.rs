//! The event loop of a sidebar: keys, mouse, resizes, and when to stop. Times are milliseconds on a
//! clock that never goes back.

use vstd::prelude::*;

use crate::app;
use crate::app::{HostIdentity, SidebarApp, SidebarFilterMode, SidebarLayoutMode};
use crate::collections;
use crate::gitloop;
use crate::model::SidebarGroupBy;
use crate::pointer;
use crate::resize;
use crate::resize::RESIZE_DEBOUNCE_MS;
use crate::rows;
use crate::selection;
use crate::selection::ListState;
use crate::snapshot::SidebarSnapshot;
use crate::templates;
use crate::text;
use crate::ui;
use crate::updates;

verus! {

/// How long the loop waits where nothing changes by itself.
pub const LONGEST_WAIT_MS: u64 = 3_600_000;

/// How long a sidebar is starting up.
pub const STARTUP_GRACE_MS: u64 = 3_000;

// ── What is asked of the outside ────────────────────────────────

/// What the user's input asks to be done outside of the sidebar.
#[derive(Debug)]
pub enum Effect {
    Nothing,
    /// Switch to a pane.
    Jump(String),
    /// Store the expanded groups for every sidebar, none where there are none.
    StoreGroups(Option<String>),
    /// Store the layout for every sidebar.
    StoreLayout(SidebarLayoutMode),
    /// Store the filter for every sidebar.
    StoreFilter(SidebarFilterMode),
    /// Store the grouping for every sidebar.
    StoreGrouping(Option<SidebarGroupBy>),
    /// Read which panes sleep, and put the selected agent to sleep or wake it.
    ToggleSleeping,
    /// Record that the hint was answered.
    RecordHint,
}

/// Whether nothing happened.
pub open spec fn untouched(before: SidebarApp, after: SidebarApp, effect: Effect) -> bool {
    after == before && effect is Nothing
}

/// Whether the selected agent's pane is switched to, if there is one.
pub open spec fn jumps(app: SidebarApp, effect: Effect) -> bool {
    match effect {
        Effect::Jump(pane) => app.target_pane() == Some(pane@),
        Effect::Nothing => app.target_pane() is None,
        _ => false,
    }
}

/// Whether the expanded groups became `now`, for every sidebar.
pub open spec fn regroups(before: SidebarApp, after: SidebarApp, effect: Effect, now: Set<Seq<char>>) -> bool {
    match effect {
        Effect::StoreGroups(value) => updates::stored_labels(text::optional(value), now) && SidebarApp::regrouped(
            before,
            after,
            now,
        ),
        _ => false,
    }
}

// ── Keys ────────────────────────────────────────────────────────

/// A key.
#[derive(Debug, Clone, Copy, PartialEq, Eq, Structural)]
pub enum Key {
    Char(char),
    Esc,
    Enter,
    Up,
    Down,
    Left,
    Right,
    Other,
}

/// What a key means to the list.
#[derive(Debug, Clone, Copy, PartialEq, Eq, Structural)]
pub enum Command {
    AskExit,
    Next,
    Previous,
    Enter,
    Fold,
    Unfold,
    Last,
    First,
    Layout,
    Sleep,
    Filter,
    Grouping,
    ToggleGroup,
    ToggleAll,
    Help,
    Ignore,
}

/// What a key means. `control` says that the control key, and no other modifier, is held.
pub open spec fn meaning(code: Key, control: bool) -> Command {
    match code {
        Key::Esc => Command::AskExit,
        Key::Enter => Command::Enter,
        Key::Down => Command::Next,
        Key::Up => Command::Previous,
        Key::Left => Command::Fold,
        Key::Right => Command::Unfold,
        Key::Other => Command::Ignore,
        Key::Char(c) => if c == 'q' || (c == 'c' && control) {
            Command::AskExit
        } else if c == 'j' {
            Command::Next
        } else if c == 'k' {
            Command::Previous
        } else if c == 'h' {
            Command::Fold
        } else if c == 'l' {
            Command::Unfold
        } else if c == 'G' {
            Command::Last
        } else if c == 'g' {
            Command::First
        } else if c == 'v' {
            Command::Layout
        } else if c == 'z' {
            Command::Sleep
        } else if c == 'f' {
            Command::Filter
        } else if c == 't' {
            Command::Grouping
        } else if c == 's' {
            Command::ToggleGroup
        } else if c == 'S' {
            Command::ToggleAll
        } else if c == '?' {
            Command::Help
        } else {
            Command::Ignore
        },
    }
}

fn command_of(code: Key, control: bool) -> (r: Command)
    ensures
        r == meaning(code, control),
{
    match code {
        Key::Esc => Command::AskExit,
        Key::Enter => Command::Enter,
        Key::Down => Command::Next,
        Key::Up => Command::Previous,
        Key::Left => Command::Fold,
        Key::Right => Command::Unfold,
        Key::Other => Command::Ignore,
        Key::Char(c) => if c == 'q' || (c == 'c' && control) {
            Command::AskExit
        } else if c == 'j' {
            Command::Next
        } else if c == 'k' {
            Command::Previous
        } else if c == 'h' {
            Command::Fold
        } else if c == 'l' {
            Command::Unfold
        } else if c == 'G' {
            Command::Last
        } else if c == 'g' {
            Command::First
        } else if c == 'v' {
            Command::Layout
        } else if c == 'z' {
            Command::Sleep
        } else if c == 'f' {
            Command::Filter
        } else if c == 't' {
            Command::Grouping
        } else if c == 's' {
            Command::ToggleGroup
        } else if c == 'S' {
            Command::ToggleAll
        } else if c == '?' {
            Command::Help
        } else {
            Command::Ignore
        },
    }
}

/// The row that the last step leads to.
pub open spec fn last_resting(app: SidebarApp) -> Option<usize> {
    let list = selection::resting_rows(rows::models(app.rows@));
    if list.len() > 0 {
        Some(list.last())
    } else {
        app.list_state.selected
    }
}

/// What a command does to the groups.
pub open spec fn groups_commanded(before: SidebarApp, command: Command, after: SidebarApp, effect: Effect) -> bool {
    match before.current_group() {
        Some(group) => {
            let was = before.expanded_groups@;
            match command {
                Command::Fold => if was.contains(group) {
                    regroups(before, after, effect, was.remove(group))
                } else {
                    untouched(before, after, effect)
                },
                Command::Unfold => if was.contains(group) {
                    untouched(before, after, effect)
                } else {
                    regroups(before, after, effect, was.insert(group))
                },
                _ => regroups(before, after, effect, updates::toggled(was, group)),
            }
        },
        None => untouched(before, after, effect),
    }
}

/// What a command does.
pub open spec fn commanded(before: SidebarApp, command: Command, after: SidebarApp, effect: Effect) -> bool {
    match command {
        Command::AskExit => after == (SidebarApp { pending_exit: true, ..before }) && effect is Nothing,
        Command::Next => after == before.stepped(true, true) && effect is Nothing,
        Command::Previous => after == before.stepped(false, true) && effect is Nothing,
        Command::First => after == (SidebarApp {
            selection_mode: after.selection_mode,
            list_state: ListState {
                selected: templates::or(
                    selection::first_agent_row(rows::models(before.rows@)),
                    before.list_state.selected,
                ),
                ..before.list_state
            },
            ..before
        }) && after.selection_mode is Manual && effect is Nothing,
        Command::Last => after == (SidebarApp {
            selection_mode: after.selection_mode,
            list_state: ListState { selected: last_resting(before), ..before.list_state },
            ..before
        }) && after.selection_mode is Manual && effect is Nothing,
        Command::Enter => if before.resting_toggle() is Some {
            groups_commanded(before, Command::ToggleGroup, after, effect)
        } else {
            after == before && jumps(before, effect)
        },
        Command::Fold | Command::Unfold | Command::ToggleGroup => groups_commanded(before, command, after, effect),
        Command::ToggleAll => match before.group_by {
            Some(mode) => regroups(
                before,
                after,
                effect,
                if before.expanded_groups@ == Set::<Seq<char>>::empty() {
                    before.folding_groups(mode)
                } else {
                    Set::empty()
                },
            ),
            None => untouched(before, after, effect),
        },
        Command::Layout => if before.position is Top {
            untouched(before, after, effect)
        } else {
            &&& after == (SidebarApp { layout_mode: after.layout_mode, ..before })
            &&& after.layout_mode != before.layout_mode
            &&& effect == Effect::StoreLayout(after.layout_mode)
        },
        Command::Sleep => after == before && effect is ToggleSleeping,
        Command::Filter => {
            &&& after == (SidebarApp { filter_mode: after.filter_mode, ..before })
            &&& after.filter_mode != before.filter_mode
            &&& effect == Effect::StoreFilter(after.filter_mode)
        },
        Command::Grouping => after == before && effect == Effect::StoreGrouping(
            match before.group_by {
                Some(_) => None,
                None => Some(templates::or_else(before.configured_group_by, SidebarGroupBy::Project)),
            },
        ),
        Command::Help => {
            &&& after == (SidebarApp { show_help: true, hint_pending: false, ..before })
            &&& effect == (if before.hint_pending {
                Effect::RecordHint
            } else {
                Effect::Nothing
            })
        },
        Command::Ignore => untouched(before, after, effect),
    }
}

fn stored(value: Option<Option<String>>) -> (r: Effect)
    ensures
        r == (match value {
            Some(value) => Effect::StoreGroups(value),
            None => Effect::Nothing,
        }),
{
    match value {
        Some(value) => Effect::StoreGroups(value),
        None => Effect::Nothing,
    }
}

fn jump(app: &SidebarApp) -> (r: Effect)
    ensures
        jumps(*app, r),
{
    match app.jump_to_selected() {
        Some(pane) => Effect::Jump(pane),
        None => Effect::Nothing,
    }
}

fn run_group_command(app: &mut SidebarApp, command: Command) -> (r: Effect)
    ensures
        groups_commanded(*old(app), command, *final(app), r),
{
    match command {
        Command::Fold => stored(app.set_selected_group_expanded(false)),
        Command::Unfold => stored(app.set_selected_group_expanded(true)),
        _ => stored(app.toggle_selected_group()),
    }
}

fn go_next(app: &mut SidebarApp) -> (r: Effect)
    ensures
        commanded(*old(app), Command::Next, *final(app), r),
{
    app.next();
    Effect::Nothing
}

fn go_back(app: &mut SidebarApp) -> (r: Effect)
    ensures
        commanded(*old(app), Command::Previous, *final(app), r),
{
    app.previous();
    Effect::Nothing
}

fn go_first(app: &mut SidebarApp) -> (r: Effect)
    ensures
        commanded(*old(app), Command::First, *final(app), r),
{
    app.select_first();
    Effect::Nothing
}

fn go_last(app: &mut SidebarApp) -> (r: Effect)
    ensures
        commanded(*old(app), Command::Last, *final(app), r),
{
    app.select_last();
    Effect::Nothing
}

fn enter(app: &mut SidebarApp) -> (r: Effect)
    ensures
        commanded(*old(app), Command::Enter, *final(app), r),
{
    if app.selected_toggle().is_some() {
        run_group_command(app, Command::ToggleGroup)
    } else {
        jump(&*app)
    }
}

fn toggle_all(app: &mut SidebarApp) -> (r: Effect)
    ensures
        commanded(*old(app), Command::ToggleAll, *final(app), r),
{
    stored(app.toggle_all_groups())
}

fn switch_layout(app: &mut SidebarApp) -> (r: Effect)
    ensures
        commanded(*old(app), Command::Layout, *final(app), r),
{
    match app.toggle_layout_mode() {
        Some(mode) => Effect::StoreLayout(mode),
        None => Effect::Nothing,
    }
}

fn switch_filter(app: &mut SidebarApp) -> (r: Effect)
    ensures
        commanded(*old(app), Command::Filter, *final(app), r),
{
    Effect::StoreFilter(app.toggle_filter_mode())
}

fn switch_grouping(app: &mut SidebarApp) -> (r: Effect)
    ensures
        commanded(*old(app), Command::Grouping, *final(app), r),
{
    Effect::StoreGrouping(app.toggle_grouping())
}

fn open_help(app: &mut SidebarApp) -> (r: Effect)
    ensures
        commanded(*old(app), Command::Help, *final(app), r),
{
    app.show_help = true;
    if app.dismiss_hint() {
        Effect::RecordHint
    } else {
        Effect::Nothing
    }
}

fn run_command(app: &mut SidebarApp, command: Command) -> (r: Effect)
    ensures
        commanded(*old(app), command, *final(app), r),
{
    match command {
        Command::AskExit => {
            app.pending_exit = true;
            Effect::Nothing
        },
        Command::Next => go_next(app),
        Command::Previous => go_back(app),
        Command::First => go_first(app),
        Command::Last => go_last(app),
        Command::Enter => enter(app),
        Command::Fold => run_group_command(app, Command::Fold),
        Command::Unfold => run_group_command(app, Command::Unfold),
        Command::ToggleGroup => run_group_command(app, Command::ToggleGroup),
        Command::ToggleAll => toggle_all(app),
        Command::Layout => switch_layout(app),
        Command::Sleep => Effect::ToggleSleeping,
        Command::Filter => switch_filter(app),
        Command::Grouping => switch_grouping(app),
        Command::Help => open_help(app),
        Command::Ignore => Effect::Nothing,
    }
}

/// The state once the user confirmed that the sidebars close.
pub open spec fn confirmed_exit(before: SidebarApp, after: SidebarApp) -> bool {
    &&& text::optional(after.quit_reason) == Some("confirmed user exit"@)
    &&& after == (SidebarApp { quit_reason: after.quit_reason, should_quit: true, ..before })
}

/// What a key does. While the sidebar asks whether to close, `y` confirms and any other key declines;
/// while the key overlay covers the list, any key takes it down.
pub open spec fn pressed(before: SidebarApp, code: Key, control: bool, after: SidebarApp, effect: Effect) -> bool {
    if before.pending_exit {
        &&& effect is Nothing
        &&& if code == Key::Char('y') {
            confirmed_exit(before, after)
        } else {
            after == (SidebarApp { pending_exit: false, ..before })
        }
    } else if before.show_help {
        after == (SidebarApp { show_help: false, ..before }) && effect is Nothing
    } else {
        commanded(before, meaning(code, control), after, effect)
    }
}

/// Handles a key.
pub fn handle_key_press(app: &mut SidebarApp, code: Key, control: bool) -> (r: Effect)
    ensures
        pressed(*old(app), code, control, *final(app), r),
{
    if app.pending_exit {
        if matches!(code, Key::Char('y')) {
            app.quit_reason = Some("confirmed user exit".to_owned());
            app.should_quit = true;
        } else {
            app.pending_exit = false;
        }
        return Effect::Nothing;
    }
    if app.show_help {
        app.show_help = false;
        return Effect::Nothing;
    }
    run_command(app, command_of(code, control))
}

/// No key closes the sidebars unless it confirms the question whether to.
pub proof fn law_exits_are_confirmed(before: SidebarApp, code: Key, control: bool, after: SidebarApp, effect: Effect)
    requires
        pressed(before, code, control, after, effect),
        !before.should_quit,
    ensures
        after.should_quit <==> before.pending_exit && code == Key::Char('y'),
{
}

/// While the overlay covers the list, or the sidebar asks whether to close, no key acts on the list.
pub proof fn law_covered_lists_stay(before: SidebarApp, code: Key, control: bool, after: SidebarApp, effect: Effect)
    requires
        pressed(before, code, control, after, effect),
        before.pending_exit || before.show_help,
    ensures
        effect is Nothing,
        after.list_state == before.list_state,
        after.rows == before.rows,
        after.expanded_groups == before.expanded_groups,
        after.filter_mode == before.filter_mode,
        after.layout_mode == before.layout_mode,
{
}

// ── Mouse and resizes ───────────────────────────────────────────

/// What the mouse did.
#[derive(Debug, Clone, Copy, PartialEq, Eq, Structural)]
pub enum Mouse {
    Click { column: u16, row: u16 },
    ScrollUp,
    ScrollDown,
    Other,
}

/// What comes from the terminal.
#[derive(Debug, Clone, Copy, PartialEq, Eq, Structural)]
pub enum Input {
    /// A key that went down.
    Press { code: Key, control: bool },
    Mouse(Mouse),
    /// The pane was resized. `window` is the extent of the window along the sidebar's axis, zero where
    /// tmux does not tell it.
    Resize { cols: u16, rows: u16, window: u16 },
    Other,
}

/// What is to be drawn.
#[derive(Debug, Clone, Copy, PartialEq, Eq, Structural)]
pub struct Redraw {
    pub needs_render: bool,
    pub needs_clear: bool,
}

/// The group whose toggle lies under the mouse.
pub open spec fn toggle_under(app: SidebarApp, column: u16, row: u16) -> Option<Seq<char>> {
    match app.row_at(column, row) {
        Some(at) => selection::toggle_at(rows::models(app.rows@), at as int),
        None => None,
    }
}

/// The agent under the mouse.
pub open spec fn agent_under(app: SidebarApp, column: u16, row: u16) -> Option<usize> {
    match app.row_at(column, row) {
        Some(at) => selection::agent_at(rows::models(app.rows@), at as int),
        None => None,
    }
}

/// The state once an agent was picked by its index.
pub open spec fn picked(before: SidebarApp, idx: usize, after: SidebarApp) -> bool {
    &&& after.selection_mode is Manual
    &&& after == (SidebarApp {
        selection_mode: after.selection_mode,
        list_state: ({
            let n = before.agents@.len();
            if n == 0 {
                before.list_state
            } else {
                let i = if idx < n {
                    idx
                } else {
                    (n - 1) as usize
                };
                selection::selecting(before.list_state, selection::resting_row(rows::models(before.rows@), Some(i)))
            }
        }),
        ..before
    })
}

/// What a click does: it folds or unfolds the group whose toggle it hits, or selects the agent it
/// hits and switches to it.
pub open spec fn clicked(before: SidebarApp, column: u16, row: u16, after: SidebarApp, effect: Effect) -> bool {
    match (toggle_under(before, column, row), agent_under(before, column, row)) {
        (Some(group), _) => regroups(before, after, effect, updates::toggled(before.expanded_groups@, group)),
        (None, Some(idx)) => picked(before, idx, after) && jumps(after, effect),
        (None, None) => untouched(before, after, effect),
    }
}

fn click(app: &mut SidebarApp, column: u16, row: u16) -> (r: Effect)
    ensures
        clicked(*old(app), column, row, *final(app), r),
{
    match app.hit_test_toggle(column, row) {
        Some(group) => Effect::StoreGroups(app.toggle_group(group.as_str())),
        None => match app.hit_test(column, row) {
            Some(idx) => {
                app.select_index(idx);
                jump(&*app)
            },
            None => Effect::Nothing,
        },
    }
}

/// Handles a resize: everything is drawn anew.
pub fn handle_resize_event(
    app: &mut SidebarApp,
    cols: u16,
    rows: u16,
    window: u16,
    now: u64,
    redraw: &mut Redraw,
)
    requires
        now + RESIZE_DEBOUNCE_MS <= u64::MAX,
    ensures
        *final(app) == (SidebarApp {
            resize: resize::after_resize(old(app).resize, old(app).position, cols, rows, window, now),
            ..*old(app)
        }),
        *final(redraw) == (Redraw { needs_render: true, needs_clear: true }),
{
    app.on_resize_event(cols, rows, window, now);
    redraw.needs_render = true;
    redraw.needs_clear = true;
}

/// What input does. While the sidebar asks whether to close, the mouse does nothing.
pub open spec fn handled(before: SidebarApp, input: Input, now: u64, after: SidebarApp, effect: Effect) -> bool {
    match input {
        Input::Press { code, control } => pressed(before, code, control, after, effect),
        Input::Mouse(mouse) => if before.pending_exit {
            untouched(before, after, effect)
        } else {
            match mouse {
                Mouse::Click { column, row } => clicked(before, column, row, after, effect),
                Mouse::ScrollUp => after == before.stepped(false, false) && effect is Nothing,
                Mouse::ScrollDown => after == before.stepped(true, false) && effect is Nothing,
                Mouse::Other => untouched(before, after, effect),
            }
        },
        Input::Resize { cols, rows, window } => {
            &&& after == (SidebarApp {
                resize: resize::after_resize(before.resize, before.position, cols, rows, window, now),
                ..before
            })
            &&& effect is Nothing
        },
        Input::Other => untouched(before, after, effect),
    }
}

/// What has to be drawn after input.
pub open spec fn redrawn(before: SidebarApp, input: Input, redraw: Redraw) -> Redraw {
    match input {
        Input::Press { .. } => Redraw { needs_render: true, ..redraw },
        Input::Mouse(_) => if before.pending_exit {
            redraw
        } else {
            Redraw { needs_render: true, ..redraw }
        },
        Input::Resize { .. } => Redraw { needs_render: true, needs_clear: true },
        Input::Other => redraw,
    }
}

/// Handles input.
pub fn process_event(app: &mut SidebarApp, input: Input, now: u64, redraw: &mut Redraw) -> (r: Effect)
    requires
        now + RESIZE_DEBOUNCE_MS <= u64::MAX,
    ensures
        handled(*old(app), input, now, *final(app), r),
        *final(redraw) == redrawn(*old(app), input, *old(redraw)),
{
    match input {
        Input::Press { code, control } => {
            redraw.needs_render = true;
            handle_key_press(app, code, control)
        },
        Input::Mouse(mouse) => {
            if app.pending_exit {
                return Effect::Nothing;
            }
            redraw.needs_render = true;
            match mouse {
                Mouse::Click { column, row } => click(app, column, row),
                Mouse::ScrollUp => {
                    app.scroll_up();
                    Effect::Nothing
                },
                Mouse::ScrollDown => {
                    app.scroll_down();
                    Effect::Nothing
                },
                Mouse::Other => Effect::Nothing,
            }
        },
        Input::Resize { cols, rows, window } => {
            handle_resize_event(app, cols, rows, window, now, redraw);
            Effect::Nothing
        },
        Input::Other => Effect::Nothing,
    }
}

proof fn lemma_same_list(a: SidebarApp, b: SidebarApp)
    requires
        app::in_step(a),
        b.agents == a.agents,
        b.rows == a.rows,
        b.jump_numbers == a.jump_numbers,
        b.group_by == a.group_by,
        b.position == a.position,
        b.collapse_stale == a.collapse_stale,
        b.stale_pane_ids == a.stale_pane_ids,
        b.expanded_groups == a.expanded_groups,
        b.host_agent_idx == a.host_agent_idx,
    ensures
        app::in_step(b),
{
    assert(app::folds(a) =~= app::folds(b));
    assert(app::numbered(a) =~= app::numbered(b));
}

/// Whatever the user does, the rows and the numbers stay those of the agents.
pub proof fn law_input_keeps_rows_in_step(before: SidebarApp, input: Input, now: u64, after: SidebarApp, effect: Effect)
    requires
        app::in_step(before),
        handled(before, input, now, after, effect),
    ensures
        app::in_step(after),
{
    match effect {
        Effect::StoreGroups(_) => {},
        _ => {
            lemma_same_list(before, after);
        },
    }
}

// ── The last pane of a window ───────────────────────────────────

/// Whether a sidebar is alone in its window.
#[derive(Debug, Clone, Copy, PartialEq, Eq, Structural)]
pub struct LastPaneCheck {
    /// Until when the sidebar starts up. Its window may still get its panes.
    pub grace_deadline: Option<u64>,
    /// The number of panes in the window, as last told by the daemon.
    pub pane_count: Option<usize>,
}

impl LastPaneCheck {
    pub fn new(grace_deadline: u64) -> (r: Self)
        ensures
            r == (LastPaneCheck { grace_deadline: Some(grace_deadline), pane_count: None }),
    {
        LastPaneCheck { grace_deadline: Some(grace_deadline), pane_count: None }
    }

    /// How long the sidebar still starts up.
    pub fn timeout(&self, now: u64) -> (r: Option<u64>)
        ensures
            match (self.grace_deadline, r) {
                (Some(deadline), Some(left)) => left == gitloop::since(now, deadline),
                (None, None) => true,
                _ => false,
            },
    {
        match self.grace_deadline {
            Some(deadline) => Some(deadline.saturating_sub(now)),
            None => None,
        }
    }

    /// Whether the sidebar has just started up. That is so once.
    pub fn grace_expired(&mut self, now: u64) -> (r: bool)
        ensures
            r == (old(self).grace_deadline matches Some(deadline) && now >= deadline),
            *final(self) == (LastPaneCheck {
                grace_deadline: if r {
                    None
                } else {
                    old(self).grace_deadline
                },
                ..*old(self)
            }),
    {
        match self.grace_deadline {
            Some(deadline) => if now >= deadline {
                self.grace_deadline = None;
                true
            } else {
                false
            },
            None => false,
        }
    }

    /// Whether the sidebar seems to be alone, so that it is worth asking tmux.
    pub open spec fn suspects(&self, identity: Option<HostIdentity>) -> bool {
        self.grace_deadline is None && (self.pane_count matches Some(count) && count <= 1) && identity is Some
    }

    /// Whether the sidebar is alone: it seems so, and tmux confirms it. `verify_live_panes` asks tmux
    /// about a window and a pane, and is called in no other case.
    pub fn should_exit<F: FnOnce(&str, &str) -> bool>(&self, identity: Option<&HostIdentity>, verify_live_panes: F) -> (r:
        bool)
        requires
            forall|w: &str, p: &str| #[trigger] verify_live_panes.requires((w, p)),
        ensures
            !self.suspects(ui::deref(identity)) ==> !r,
            self.suspects(ui::deref(identity)) ==> exists|w: &str, p: &str|
                {
                    &&& #[trigger] verify_live_panes.ensures((w, p), r)
                    &&& (identity matches Some(id) && id.window_id@ == w@ && id.pane_id@ == p@)
                },
    {
        if self.grace_deadline.is_some() {
            return false;
        }
        match self.pane_count {
            Some(count) => {
                if count > 1 {
                    return false;
                }
            },
            None => return false,
        }
        match identity {
            Some(id) => verify_live_panes(id.window_id.as_str(), id.pane_id.as_str()),
            None => false,
        }
    }

    /// The check once a snapshot told the number of panes in the sidebar's window.
    pub open spec fn counting(&self, app: SidebarApp, snap: SidebarSnapshot) -> LastPaneCheck {
        LastPaneCheck {
            pane_count: match updates::window_of(app.host_identity) {
                Some(window) => collections::lookup(snap.window_pane_counts@, window),
                None => None,
            },
            ..*self
        }
    }

    /// Takes over the number of panes in the sidebar's window.
    pub fn count_panes(&mut self, app: &SidebarApp, snap: &SidebarSnapshot)
        ensures
            *final(self) == old(self).counting(*app, *snap),
    {
        self.pane_count = match app.host_window_id() {
            Some(window) => match snap.window_pane_counts.get(window) {
                Some(n) => Some(*n),
                None => None,
            },
            None => None,
        };
    }
}

/// A sidebar that starts up does not ask whether it is alone.
pub proof fn law_startup_is_undisturbed(check: LastPaneCheck, identity: Option<HostIdentity>)
    requires
        check.grace_deadline is Some,
    ensures
        !check.suspects(identity),
{
}

/// Why a sidebar that is alone in its window closes.
pub open spec fn last_pane_reason(window: Option<Seq<char>>) -> Seq<char> {
    "last-pane: sidebar is sole pane in window "@ + (match window {
        Some(w) => w,
        None => "unknown"@,
    })
}

/// The state once a sidebar closes because it is alone.
pub open spec fn left_alone(before: SidebarApp, after: SidebarApp) -> bool {
    &&& text::optional(after.quit_reason) == Some(last_pane_reason(updates::window_of(before.host_identity)))
    &&& after == (SidebarApp { quit_reason: after.quit_reason, quit_silent: true, should_quit: true, ..before })
}

/// Closes a sidebar that is alone in its window, and no other.
pub fn quit_for_last_pane(app: &mut SidebarApp)
    ensures
        left_alone(*old(app), *final(app)),
{
    let mut reason = "last-pane: sidebar is sole pane in window ".to_owned();
    match app.host_window_id() {
        Some(window) => reason.append(window),
        None => reason.append("unknown"),
    }
    app.quit_reason = Some(reason);
    app.quit_silent = true;
    app.should_quit = true;
}

/// Closes a sidebar that is alone in its window. `verify_live_panes` asks tmux whether it is, and is
/// called only where that seems so.
pub fn quit_if_alone<F: FnOnce(&str, &str) -> bool>(app: &mut SidebarApp, check: &LastPaneCheck, verify_live_panes: F) -> (r:
    bool)
    requires
        forall|w: &str, p: &str| #[trigger] verify_live_panes.requires((w, p)),
    ensures
        !check.suspects(old(app).host_identity) ==> !r,
        check.suspects(old(app).host_identity) ==> exists|w: &str, p: &str|
            {
                &&& #[trigger] verify_live_panes.ensures((w, p), r)
                &&& (old(app).host_identity matches Some(id) && id.window_id@ == w@ && id.pane_id@ == p@)
            },
        r ==> left_alone(*old(app), *final(app)),
        !r ==> *final(app) == *old(app),
{
    let alone = check.should_exit(app.host_identity(), verify_live_panes);
    if alone {
        quit_for_last_pane(app);
    }
    alone
}

/// Heeds how many panes a snapshot counts, before the snapshot is applied: a sidebar that is alone in
/// its window closes.
pub fn heed_panes<F: FnOnce(&str, &str) -> bool>(
    app: &mut SidebarApp,
    check: &mut LastPaneCheck,
    snap: &SidebarSnapshot,
    verify_live_panes: F,
) -> (r: bool)
    requires
        forall|w: &str, p: &str| #[trigger] verify_live_panes.requires((w, p)),
    ensures
        *final(check) == old(check).counting(*old(app), *snap),
        !final(check).suspects(old(app).host_identity) ==> !r,
        final(check).suspects(old(app).host_identity) ==> exists|w: &str, p: &str|
            {
                &&& #[trigger] verify_live_panes.ensures((w, p), r)
                &&& (old(app).host_identity matches Some(id) && id.window_id@ == w@ && id.pane_id@ == p@)
            },
        r ==> left_alone(*old(app), *final(app)),
        !r ==> *final(app) == *old(app),
{
    check.count_panes(app, snap);
    quit_if_alone(app, check, verify_live_panes)
}

/// Checks once, when the sidebar has started up, whether it is alone in its window. Snapshots that
/// came earlier did not close it.
pub fn heed_startup<F: FnOnce(&str, &str) -> bool>(
    app: &mut SidebarApp,
    check: &mut LastPaneCheck,
    now: u64,
    verify_live_panes: F,
) -> (r: bool)
    requires
        forall|w: &str, p: &str| #[trigger] verify_live_panes.requires((w, p)),
    ensures
        ({
            let started = old(check).grace_deadline matches Some(deadline) && now >= deadline;
            &&& *final(check) == (LastPaneCheck {
                grace_deadline: if started {
                    None
                } else {
                    old(check).grace_deadline
                },
                ..*old(check)
            })
            &&& !(started && final(check).suspects(old(app).host_identity)) ==> !r
            &&& started && final(check).suspects(old(app).host_identity) ==> exists|w: &str, p: &str|
                {
                    &&& #[trigger] verify_live_panes.ensures((w, p), r)
                    &&& (old(app).host_identity matches Some(id) && id.window_id@ == w@ && id.pane_id@ == p@)
                }
        }),
        r ==> left_alone(*old(app), *final(app)),
        !r ==> *final(app) == *old(app),
{
    if check.grace_expired(now) {
        quit_if_alone(app, check, verify_live_panes)
    } else {
        false
    }
}

/// The first `k` lines, trimmed, without blank ones.
pub open spec fn told(lines: Seq<Seq<char>>, k: int) -> Seq<Seq<char>>
    decreases k,
{
    if k <= 0 {
        seq![]
    } else if text::trimmed(lines[k - 1]).len() == 0 {
        told(lines, k - 1)
    } else {
        told(lines, k - 1).push(text::trimmed(lines[k - 1]))
    }
}

/// Whether a list of panes, one on each line, names the sidebar's pane alone.
pub fn sole_pane_is_sidebar(output: &str, pane_id: &str) -> (r: bool)
    ensures
        ({
            let lines = text::pieces(output@, '\n');
            r == (told(lines, lines.len() as int) == seq![pane_id@])
        }),
{
    let lines = text::split(output, '\n');
    let ghost ls = text::pieces(output@, '\n');
    let mut panes: Vec<String> = Vec::new();
    let mut i: usize = 0;
    proof {
        assert(text::texts(panes@) =~= Seq::<Seq<char>>::empty());
    }
    while i < lines.len()
        invariant
            text::texts(lines@) == ls,
            i <= lines@.len(),
            text::texts(panes@) == told(ls, i as int),
        decreases lines.len() - i,
    {
        let line = text::trim(lines[i].as_str());
        let ghost before = text::texts(panes@);
        proof {
            assert(ls[i as int] == lines@[i as int]@);
        }
        if line.unicode_len() > 0 {
            panes.push(line.to_owned());
            proof {
                assert(text::texts(panes@) =~= before.push(line@));
            }
        }
        i += 1;
    }
    proof {
        assert(text::texts(lines@).len() == lines@.len());
        let all = text::texts(panes@);
        if panes@.len() == 1 {
            assert(all[0] == panes@[0]@);
            if panes@[0]@ == pane_id@ {
                assert(all =~= seq![pane_id@]);
            }
        }
        if all == seq![pane_id@] {
            assert(all.len() == 1);
            assert(all[0] == pane_id@);
        }
    }
    panes.len() == 1 && text::same(panes[0].as_str(), pane_id)
}

// ── Closing ─────────────────────────────────────────────────────

/// A character as it stands between single quotes.
pub open spec fn quoted_char(c: char) -> Seq<char> {
    if c == '\'' {
        seq!['\'', '\\', '\'', '\'']
    } else {
        seq![c]
    }
}

/// The characters of a word as they stand between single quotes.
pub open spec fn quoted_chars(s: Seq<char>) -> Seq<char>
    decreases s.len(),
{
    if s.len() == 0 {
        seq![]
    } else {
        quoted_chars(s.drop_last()) + quoted_char(s.last())
    }
}

/// A word, quoted for a shell.
pub open spec fn quoted(s: Seq<char>) -> Seq<char> {
    seq!['\''] + quoted_chars(s) + seq!['\'']
}

/// What a shell reads where a word is written with single quotes and with backslashes outside of
/// them.
pub open spec fn shell_reads(s: Seq<char>, inside: bool) -> Seq<char>
    decreases s.len(),
{
    if s.len() == 0 {
        seq![]
    } else if s[0] == '\'' {
        shell_reads(s.skip(1), !inside)
    } else if inside {
        seq![s[0]] + shell_reads(s.skip(1), true)
    } else if s[0] == '\\' && s.len() > 1 {
        seq![s[1]] + shell_reads(s.skip(2), false)
    } else {
        seq![s[0]] + shell_reads(s.skip(1), false)
    }
}

proof fn lemma_shell_reads(s: Seq<char>, rest: Seq<char>)
    ensures
        shell_reads(quoted_chars(s) + rest, true) == s + shell_reads(rest, true),
    decreases s.len(),
{
    if s.len() == 0 {
        assert(quoted_chars(s) + rest =~= rest);
        assert(s + shell_reads(rest, true) =~= shell_reads(rest, true));
    } else {
        let c = s.last();
        let tail = quoted_char(c) + rest;
        assert(quoted_chars(s) + rest =~= quoted_chars(s.drop_last()) + tail);
        lemma_shell_reads(s.drop_last(), tail);
        if c == '\'' {
            let a = tail.skip(1);
            assert(tail[0] == '\'');
            assert(a[0] == '\\' && a[1] == '\'' && a.len() > 1);
            let b = a.skip(2);
            assert(b[0] == '\'');
            assert(b.skip(1) =~= rest);
            assert(shell_reads(b, false) == shell_reads(rest, true));
            assert(shell_reads(a, false) == seq!['\''] + shell_reads(b, false));
            assert(shell_reads(tail, true) == shell_reads(a, false));
        } else {
            assert(tail.skip(1) =~= rest);
            assert(shell_reads(tail, true) == seq![c] + shell_reads(rest, true));
        }
        assert(s.drop_last() + (seq![c] + shell_reads(rest, true)) =~= s + shell_reads(rest, true));
    }
}

/// A shell reads back the word that was quoted, whatever it holds.
pub proof fn law_quoted_words_are_read_back(s: Seq<char>)
    ensures
        shell_reads(quoted(s), false) == s,
{
    let q = quoted(s);
    assert(q.skip(1) =~= quoted_chars(s) + seq!['\'']);
    lemma_shell_reads(s, seq!['\'']);
    let end: Seq<char> = seq!['\''];
    assert(end.skip(1) =~= Seq::<char>::empty());
    assert(shell_reads(end.skip(1), false) =~= Seq::<char>::empty());
    assert(shell_reads(end, true) =~= Seq::<char>::empty());
    assert(s + Seq::<char>::empty() =~= s);
}

fn shell_quote(s: &str) -> (r: String)
    ensures
        r@ == quoted(s@),
{
    let chars = text::to_chars(s);
    let mut r = String::new();
    r.push('\'');
    let mut i: usize = 0;
    proof {
        assert(s@.take(0) =~= Seq::<char>::empty());
        assert(r@ =~= seq!['\''] + quoted_chars(s@.take(0)));
    }
    while i < chars.len()
        invariant
            chars@ == s@,
            i <= chars@.len(),
            r@ == seq!['\''] + quoted_chars(s@.take(i as int)),
        decreases chars.len() - i,
    {
        let ghost before = r@;
        proof {
            assert(s@.take(i + 1).drop_last() =~= s@.take(i as int));
            assert(s@.take(i + 1).last() == chars@[i as int]);
        }
        if chars[i] == '\'' {
            r.push('\'');
            r.push('\\');
            r.push('\'');
            r.push('\'');
        } else {
            r.push(chars[i]);
        }
        proof {
            assert(r@ =~= before + quoted_char(chars@[i as int]));
            assert(r@ =~= seq!['\''] + quoted_chars(s@.take(i + 1)));
        }
        i += 1;
    }
    r.push('\'');
    proof {
        assert(s@.take(i as int) =~= s@);
        assert(r@ =~= quoted(s@));
    }
    r
}

/// The command that closes a pane once the sidebar in it is gone.
pub fn pane_kill_command(pane_id: &str) -> (r: String)
    ensures
        r@ == "sleep 0.05; tmux kill-pane -t "@ + quoted(pane_id@) + " 2>/dev/null || true"@,
{
    let mut r = "sleep 0.05; tmux kill-pane -t ".to_owned();
    r.append(shell_quote(pane_id).as_str());
    r.append(" 2>/dev/null || true");
    r
}

/// How a sidebar closes.
#[derive(Debug, Clone, Copy, PartialEq, Eq, Structural)]
pub enum Closing {
    /// It goes on.
    Not,
    /// It closes its own pane.
    Alone,
    /// It shuts all sidebars down.
    All,
}

/// Whether and how the sidebar closes.
pub fn closing(app: &SidebarApp) -> (r: Closing)
    ensures
        r == (if !app.should_quit {
            Closing::Not
        } else if app.quit_silent {
            Closing::Alone
        } else {
            Closing::All
        }),
{
    if !app.should_quit {
        Closing::Not
    } else if app.quit_silent {
        Closing::Alone
    } else {
        Closing::All
    }
}

// ── Time ────────────────────────────────────────────────────────

/// How often a sidebar is drawn by itself: where its window is on show and something on it changes.
pub open spec fn refreshes(app: SidebarApp) -> Option<u64> {
    if !app.host_window_active {
        None
    } else if pointer::animated(app) {
        Some(pointer::ANIMATION_INTERVAL_MS)
    } else if pointer::shows_time(app.agents@) {
        Some(pointer::ELAPSED_INTERVAL_MS)
    } else {
        None
    }
}

pub fn refresh_interval(app: &SidebarApp) -> (r: Option<u64>)
    ensures
        r == refreshes(*app),
{
    if app.host_window_active() {
        app.refresh_interval()
    } else {
        None
    }
}

/// The earlier of two waits.
pub open spec fn sooner(a: int, b: Option<int>) -> int {
    match b {
        Some(b) => if b < a {
            b
        } else {
            a
        },
        None => a,
    }
}

/// How long until an optional deadline.
pub open spec fn until(deadline: Option<u64>, now: u64) -> Option<int> {
    match deadline {
        Some(at) => Some(gitloop::since(now, at)),
        None => None,
    }
}

/// How long until the next frame.
pub open spec fn until_frame(refresh: Option<u64>, last_refresh: u64, now: u64) -> Option<int> {
    match refresh {
        Some(interval) => {
            let gone = gitloop::since(last_refresh, now);
            Some(if interval >= gone {
                interval - gone
            } else {
                0
            })
        },
        None => None,
    }
}

/// How long the loop waits, given when a resize has settled, how often frames are due, when the last
/// one was drawn, and when the sidebar has started up.
pub open spec fn waits(
    settled: Option<u64>,
    refresh: Option<u64>,
    last_refresh: u64,
    started: Option<u64>,
    now: u64,
) -> int {
    let work = match (until(settled, now), until_frame(refresh, last_refresh, now)) {
        (Some(a), b) => sooner(a, b),
        (None, Some(b)) => b,
        (None, None) => LONGEST_WAIT_MS as int,
    };
    sooner(work, until(started, now))
}

/// How long the loop waits for an event: no longer than until a resize has settled, the next frame
/// is due, or the sidebar has started up.
pub fn wait(app: &SidebarApp, refresh: Option<u64>, last_refresh: u64, check: &LastPaneCheck, now: u64) -> (r: u64)
    ensures
        r == waits(app.resize.deadline, refresh, last_refresh, check.grace_deadline, now),
{
    let resize = match app.resize.deadline {
        Some(at) => Some(at.saturating_sub(now)),
        None => None,
    };
    let gone: u64 = now.saturating_sub(last_refresh);
    let frame = match refresh {
        Some(interval) => Some(interval.saturating_sub(gone)),
        None => None,
    };
    let work: u64 = match (resize, frame) {
        (Some(a), Some(b)) => if b < a {
            b
        } else {
            a
        },
        (Some(a), None) => a,
        (None, Some(b)) => b,
        (None, None) => LONGEST_WAIT_MS,
    };
    match check.timeout(now) {
        Some(left) => if left < work {
            left
        } else {
            work
        },
        None => work,
    }
}

/// Draws the next frame where it is due. Without anything that changes by itself, the time of the
/// next frame starts over.
pub fn advance_refresh_if_due(
    app: &mut SidebarApp,
    last_refresh: &mut u64,
    refresh: Option<u64>,
    now: u64,
    redraw: &mut Redraw,
)
    ensures
        ({
            let due = refresh matches Some(interval) && gitloop::since(*old(last_refresh), now) >= interval;
            &&& *final(last_refresh) == (if due || refresh is None {
                now
            } else {
                *old(last_refresh)
            })
            &&& *final(redraw) == (Redraw { needs_render: old(redraw).needs_render || due, ..*old(redraw) })
            &&& *final(app) == (if due {
                SidebarApp {
                    spinner_frame: ((if old(app).spinner_frame == 255 {
                        0
                    } else {
                        old(app).spinner_frame + 1
                    }) % 10) as u8,
                    ..*old(app)
                }
            } else {
                *old(app)
            })
        }),
{
    match refresh {
        Some(interval) => {
            if now.saturating_sub(*last_refresh) >= interval {
                *last_refresh = now;
                app.tick();
                redraw.needs_render = true;
            }
        },
        None => {
            *last_refresh = now;
        },
    }
}

/// The loop wakes by the time that a frame is due.
pub proof fn law_frames_are_drawn_in_time(refresh: u64, last_refresh: u64, now: u64, waited: int)
    requires
        now >= last_refresh,
        waited == until_frame(Some(refresh), last_refresh, now)->0,
        now + waited <= u64::MAX,
    ensures
        gitloop::since(last_refresh, (now + waited) as u64) >= refresh,
{
}

// ── What input is for ───────────────────────────────────────────

/// The wheel moves the selection the way it turns, to the nearest row that there is to stop at, and
/// never past the ends. Nothing but the selection changes, which no longer follows the host.
pub proof fn law_the_wheel_moves_the_way_it_turns(
    before: SidebarApp,
    down: bool,
    now: u64,
    after: SidebarApp,
    effect: Effect,
    r: usize,
)
    requires
        handled(
            before,
            Input::Mouse(
                if down {
                    Mouse::ScrollDown
                } else {
                    Mouse::ScrollUp
                },
            ),
            now,
            after,
            effect,
        ),
        !before.pending_exit,
        before.list_state.selected == Some(r),
        selection::stops(rows::models(before.rows@), r as int),
    ensures
        effect is Nothing,
        after.selection_mode is Manual,
        after == (SidebarApp {
            selection_mode: after.selection_mode,
            list_state: ListState { selected: after.list_state.selected, ..before.list_state },
            ..before
        }),
        ({
            let ms = rows::models(before.rows@);
            let t = after.list_state.selected->0;
            let above = exists|k: int| k < r && #[trigger] selection::stops(ms, k);
            let below = exists|k: int| k > r && #[trigger] selection::stops(ms, k);
            &&& after.list_state.selected is Some
            &&& selection::stops(ms, t as int)
            &&& down ==> r <= t && (r < t <==> below) && forall|k: int| r < k < t ==> !#[trigger] selection::stops(ms, k)
            &&& !down ==> t <= r && (t < r <==> above) && forall|k: int| t < k < r ==> !#[trigger] selection::stops(ms, k)
        }),
{
    let ms = rows::models(before.rows@);
    assert(before.rows.len() == before.rows@.len());
    selection::law_steps_lead_to_the_neighbour(ms, r, down, false);
}

/// The arrows, `j` and `k` move the selection to the nearest row there is to stop at, down and up, and
/// round at the ends.
pub proof fn law_arrows_move_the_selection(
    before: SidebarApp,
    code: Key,
    control: bool,
    down: bool,
    after: SidebarApp,
    effect: Effect,
    r: usize,
)
    requires
        pressed(before, code, control, after, effect),
        !before.pending_exit,
        !before.show_help,
        down ==> code == Key::Down || code == Key::Char('j'),
        !down ==> code == Key::Up || code == Key::Char('k'),
        before.list_state.selected == Some(r),
        selection::stops(rows::models(before.rows@), r as int),
    ensures
        effect is Nothing,
        after.selection_mode is Manual,
        after == (SidebarApp {
            selection_mode: after.selection_mode,
            list_state: ListState { selected: after.list_state.selected, ..before.list_state },
            ..before
        }),
        ({
            let ms = rows::models(before.rows@);
            let t = after.list_state.selected->0;
            let above = exists|k: int| k < r && #[trigger] selection::stops(ms, k);
            let below = exists|k: int| k > r && #[trigger] selection::stops(ms, k);
            &&& after.list_state.selected is Some
            &&& selection::stops(ms, t as int)
            &&& down && below ==> r < t && forall|k: int| r < k < t ==> !#[trigger] selection::stops(ms, k)
            &&& down && !below ==> forall|k: int| k < t ==> !#[trigger] selection::stops(ms, k)
            &&& !down && above ==> t < r && forall|k: int| t < k < r ==> !#[trigger] selection::stops(ms, k)
            &&& !down && !above ==> forall|k: int| k > t ==> !#[trigger] selection::stops(ms, k)
        }),
{
    let ms = rows::models(before.rows@);
    assert(before.rows.len() == before.rows@.len());
    selection::law_steps_lead_to_the_neighbour(ms, r, down, true);
}

/// `g` selects the first agent, and `G` the last row there is to stop at.
pub proof fn law_ends_are_reached_by_key(before: SidebarApp, control: bool, after: SidebarApp, effect: Effect, last: bool)
    requires
        pressed(
            before,
            Key::Char(
                if last {
                    'G'
                } else {
                    'g'
                },
            ),
            control,
            after,
            effect,
        ),
        !before.pending_exit,
        !before.show_help,
    ensures
        effect is Nothing,
        after.rows == before.rows && after.agents == before.agents && after.expanded_groups == before.expanded_groups,
        ({
            let ms = rows::models(before.rows@);
            let t = after.list_state.selected->0;
            &&& !last && (exists|k: int| 0 <= k < ms.len() && (#[trigger] ms[k]) is Agent)
                ==> after.list_state.selected is Some && t < ms.len() && ms[t as int] is Agent && forall|k: int|
                0 <= k < t ==> !((#[trigger] ms[k]) is Agent)
            &&& last && (exists|k: int| #[trigger] selection::stops(ms, k)) ==> after.list_state.selected is Some
                && selection::stops(ms, t as int) && forall|k: int| k > t ==> !#[trigger] selection::stops(ms, k)
            &&& last && (forall|k: int| !#[trigger] selection::stops(ms, k)) ==> after.list_state.selected
                == before.list_state.selected
        }),
{
    let ms = rows::models(before.rows@);
    assert(before.rows.len() == before.rows@.len());
    selection::law_the_first_agent_is_first(ms);
    selection::law_the_last_stop_is_last(ms);
}

/// `q`, escape and control with `c` ask whether to close the sidebars, and do nothing else. A bare `c`
/// means nothing.
pub proof fn law_closing_is_asked_for(before: SidebarApp, code: Key, control: bool, after: SidebarApp, effect: Effect)
    requires
        pressed(before, code, control, after, effect),
        !before.pending_exit,
        !before.show_help,
    ensures
        after.pending_exit <==> code == Key::Esc || code == Key::Char('q') || (code == Key::Char('c') && control),
        after.pending_exit ==> effect is Nothing && after == (SidebarApp { pending_exit: true, ..before }),
        code == Key::Char('c') && !control ==> effect is Nothing && after == before,
        !after.should_quit || before.should_quit,
{
    match effect {
        Effect::StoreGroups(_) => {},
        _ => {},
    }
}

/// While the sidebar asks whether to close, `y` closes all sidebars, not this one alone and silently;
/// every other key takes the question back.
pub proof fn law_the_question_is_answered(before: SidebarApp, code: Key, control: bool, after: SidebarApp, effect: Effect)
    requires
        pressed(before, code, control, after, effect),
        before.pending_exit,
        !before.should_quit,
    ensures
        effect is Nothing,
        code == Key::Char('y') ==> after.should_quit && after.quit_silent == before.quit_silent,
        code != Key::Char('y') ==> !after.should_quit && !after.pending_exit,
        after.list_state == before.list_state,
{
}

/// The group that the selection is in: that of the toggle it rests on, or the one that its agent is
/// grouped under.
pub proof fn law_the_selection_is_in_a_group(app: SidebarApp, row: usize)
    requires
        app.list_state.selected == Some(row),
        row < app.rows@.len(),
    ensures
        match rows::models(app.rows@)[row as int] {
            rows::RowModel::StaleTail { group, .. } => app.current_group() == Some(group),
            rows::RowModel::StaleGroup { label, .. } => app.current_group() == Some(label),
            rows::RowModel::Agent(i) => 0 <= i < app.agents@.len() <= usize::MAX && app.group_by is Some
                ==> app.current_group() == Some(crate::snapshot::label(app.agents@[i], app.group_by->0)),
            _ => app.current_group() is None,
        },
{
}

/// `h` and the left arrow fold the group that the selection is in, `l` and the right arrow unfold it,
/// and `s` does the one or the other. No other group changes, and where that group is as asked for
/// already, nothing does. What is stored for every sidebar is what this one shows.
pub proof fn law_group_keys_fold_and_unfold(
    before: SidebarApp,
    code: Key,
    control: bool,
    after: SidebarApp,
    effect: Effect,
    group: Seq<char>,
)
    requires
        pressed(before, code, control, after, effect),
        !before.pending_exit,
        !before.show_help,
        before.current_group() == Some(group),
    ensures
        ({
            let fold = code == Key::Left || code == Key::Char('h');
            let unfold = code == Key::Right || code == Key::Char('l');
            let toggle = code == Key::Char('s');
            let was = before.expanded_groups@.contains(group);
            &&& fold ==> !after.expanded_groups@.contains(group)
            &&& unfold ==> after.expanded_groups@.contains(group)
            &&& toggle ==> after.expanded_groups@.contains(group) == !was
            &&& fold || unfold || toggle ==> {
                &&& forall|g: Seq<char>| #![trigger after.expanded_groups@.contains(g)]
                    g != group ==> after.expanded_groups@.contains(g) == before.expanded_groups@.contains(g)
                &&& after.agents == before.agents && after.selection_mode == before.selection_mode
                &&& effect matches Effect::StoreGroups(v) ==> updates::stored_labels(
                    text::optional(v),
                    after.expanded_groups@,
                )
            }
            &&& (fold && !was) || (unfold && was) ==> effect is Nothing && after == before
            &&& (fold && was) || (unfold && !was) || toggle ==> effect is StoreGroups
        }),
{
    match effect {
        Effect::StoreGroups(_) => {},
        _ => {},
    }
}

/// `S` folds every group where one is unfolded; where none is, it unfolds those, and only those, that
/// hold an agent which would fold.
pub proof fn law_all_groups_fold_at_once(before: SidebarApp, control: bool, after: SidebarApp, effect: Effect, mode: SidebarGroupBy)
    requires
        pressed(before, Key::Char('S'), control, after, effect),
        !before.pending_exit,
        !before.show_help,
        before.group_by == Some(mode),
    ensures
        effect is StoreGroups,
        (exists|g: Seq<char>| before.expanded_groups@.contains(g)) ==> forall|g: Seq<char>|
            !#[trigger] after.expanded_groups@.contains(g),
        (forall|g: Seq<char>| !before.expanded_groups@.contains(g)) ==> forall|g: Seq<char>| #[trigger]
            after.expanded_groups@.contains(g) <==> exists|i: int|
                0 <= i < before.agents@.len() && app::folds(before)[i] && crate::snapshot::label(
                    #[trigger] before.agents@[i],
                    mode,
                ) == g,
{
    if forall|g: Seq<char>| !before.expanded_groups@.contains(g) {
        assert(before.expanded_groups@ =~= Set::<Seq<char>>::empty());
    }
}

/// Enter on a toggle does what `s` does; on an agent it switches to that agent's pane and changes
/// nothing here.
pub proof fn law_enter_goes_to_the_agent(before: SidebarApp, control: bool, after: SidebarApp, effect: Effect, row: usize)
    requires
        pressed(before, Key::Enter, control, after, effect),
        !before.pending_exit,
        !before.show_help,
        before.list_state.selected == Some(row),
        row < before.rows@.len(),
    ensures
        match rows::models(before.rows@)[row as int] {
            rows::RowModel::Agent(i) => 0 <= i < before.agents@.len() <= usize::MAX ==> after == before && (
            effect matches Effect::Jump(pane) && pane@ == before.agents@[i].pane_id@),
            rows::RowModel::StaleTail { .. } | rows::RowModel::StaleGroup { .. } => pressed(
                before,
                Key::Char('s'),
                control,
                after,
                effect,
            ),
            _ => after == before && effect is Nothing,
        },
{
}

/// The keys that switch a view: `v` takes the other layout, unless the sidebar lies on top; `f` takes
/// the other filter; `t` ends grouping, or begins the configured one; `z` has the selected agent put to
/// sleep or woken; `?` shows the keys, and answers a pending hint. Each tells every sidebar what it
/// chose, and leaves the rest alone.
pub proof fn law_view_keys_switch(before: SidebarApp, c: char, control: bool, after: SidebarApp, effect: Effect)
    requires
        pressed(before, Key::Char(c), control, after, effect),
        !before.pending_exit,
        !before.show_help,
    ensures
        c == 'v' ==> {
            let other = if before.layout_mode is Tiles {
                SidebarLayoutMode::Compact
            } else {
                SidebarLayoutMode::Tiles
            };
            &&& before.position is Top ==> after == before && effect is Nothing
            &&& before.position is Left ==> after == (SidebarApp { layout_mode: other, ..before })
                && effect == Effect::StoreLayout(other)
        },
        c == 'f' ==> {
            let other = if before.filter_mode is All {
                SidebarFilterMode::Session
            } else {
                SidebarFilterMode::All
            };
            after == (SidebarApp { filter_mode: other, ..before }) && effect == Effect::StoreFilter(other)
        },
        c == 't' ==> {
            &&& after == before
            &&& before.group_by is Some ==> effect == Effect::StoreGrouping(None)
            &&& before.group_by is None && before.configured_group_by is Some ==> effect == Effect::StoreGrouping(
                before.configured_group_by,
            )
            &&& before.group_by is None && before.configured_group_by is None ==> effect == Effect::StoreGrouping(
                Some(SidebarGroupBy::Project),
            )
        },
        c == 'z' ==> after == before && effect is ToggleSleeping,
        c == '?' ==> {
            &&& after == (SidebarApp { show_help: true, hint_pending: false, ..before })
            &&& before.hint_pending ==> effect is RecordHint
            &&& !before.hint_pending ==> effect is Nothing
        },
        !(c == 'q' || c == 'c' || c == 'j' || c == 'k' || c == 'h' || c == 'l' || c == 'g' || c == 'G' || c == 'v' || c
            == 'z' || c == 'f' || c == 't' || c == 's' || c == 'S' || c == '?') ==> after == before && effect is Nothing,
{
}

/// A click on an agent selects it and switches to its pane; a click on a toggle folds or unfolds its
/// group and no other; a click beside the rows, or on a header, does nothing. While the sidebar asks
/// whether to close, no click does anything.
pub proof fn law_clicks_act_on_what_they_hit(
    before: SidebarApp,
    column: u16,
    row: u16,
    now: u64,
    after: SidebarApp,
    effect: Effect,
)
    requires
        handled(before, Input::Mouse(Mouse::Click { column, row }), now, after, effect),
    ensures
        before.pending_exit || before.row_at(column, row) is None ==> after == before && effect is Nothing,
        !before.pending_exit && before.row_at(column, row) is Some && before.row_at(column, row)->0 < before.rows@.len()
            ==> ({
            let ms = rows::models(before.rows@);
            let hit = before.row_at(column, row)->0;
            match ms[hit as int] {
                rows::RowModel::Agent(i) => 0 <= i < before.agents@.len() <= usize::MAX ==> {
                    &&& after.rows == before.rows && after.agents == before.agents
                    &&& after.selection_mode is Manual
                    &&& after.list_state.offset == before.list_state.offset
                    &&& after.list_state.selected is Some && ms[after.list_state.selected->0 as int]
                        == rows::RowModel::Agent(i)
                    &&& effect matches Effect::Jump(pane) && pane@ == before.agents@[i].pane_id@
                },
                rows::RowModel::StaleTail { group, .. } => {
                    &&& after.expanded_groups@.contains(group) == !before.expanded_groups@.contains(group)
                    &&& forall|g: Seq<char>| #![trigger after.expanded_groups@.contains(g)]
                        g != group ==> after.expanded_groups@.contains(g) == before.expanded_groups@.contains(g)
                    &&& effect is StoreGroups
                },
                rows::RowModel::StaleGroup { label, .. } => {
                    &&& after.expanded_groups@.contains(label) == !before.expanded_groups@.contains(label)
                    &&& forall|g: Seq<char>| #![trigger after.expanded_groups@.contains(g)]
                        g != label ==> after.expanded_groups@.contains(g) == before.expanded_groups@.contains(g)
                    &&& effect is StoreGroups
                },
                _ => after == before && effect is Nothing,
            }
        }),
{
    let ms = rows::models(before.rows@);
    assert(before.rows.len() == before.rows@.len());
    if let Some(hit) = before.row_at(column, row) {
        if hit < ms.len() {
            if let rows::RowModel::Agent(i) = ms[hit as int] {
                if 0 <= i < before.agents@.len() <= usize::MAX {
                    assert(ms[hit as int] == rows::RowModel::Agent(i));
                    selection::law_selections_rest_close_by(ms, i as usize);
                }
            }
        }
    }
}

/// Keys and the mouse have the sidebar drawn anew; a resize has the screen wiped first; nothing else
/// asks for either, and what was asked for already stays so.
pub proof fn law_input_is_drawn(before: SidebarApp, input: Input, redraw: Redraw)
    ensures
        ({
            let now = redrawn(before, input, redraw);
            &&& redraw.needs_render ==> now.needs_render
            &&& redraw.needs_clear ==> now.needs_clear
            &&& input is Press ==> now.needs_render && now.needs_clear == redraw.needs_clear
            &&& input is Mouse && !before.pending_exit ==> now.needs_render && now.needs_clear == redraw.needs_clear
            &&& input is Mouse && before.pending_exit ==> now == redraw
            &&& input is Resize ==> now.needs_render && now.needs_clear
            &&& input is Other ==> now == redraw
        }),
{
}

/// A sidebar is drawn by itself only while its window is on show.
pub proof fn law_hidden_sidebars_rest(app: SidebarApp)
    ensures
        !app.host_window_active ==> refreshes(app) is None,
        app.host_window_active && pointer::animated(app) ==> refreshes(app) == Some(250u64),
        refreshes(app) is Some ==> refreshes(app)->0 > 0,
{
}

/// A sidebar that is alone closes by itself: silently, with a reason that names its window, and
/// without closing the others.
pub proof fn law_lonely_sidebars_close_silently(before: SidebarApp, after: SidebarApp)
    requires
        left_alone(before, after),
    ensures
        after.should_quit,
        after.quit_silent,
        after.agents == before.agents,
        before.host_identity matches Some(id) ==> {
            let front = "last-pane: sidebar is sole pane in window "@;
            after.quit_reason is Some && after.quit_reason->0@ == front + id.window_id@
        },
{
}

/// A sidebar seems to be alone exactly where it has started up, knows its window, and the last snapshot
/// counted no second pane there.
pub proof fn law_company_is_noticed(check: LastPaneCheck, identity: Option<HostIdentity>, app: SidebarApp, snap: SidebarSnapshot)
    ensures
        check.pane_count is None ==> !check.suspects(identity),
        check.pane_count matches Some(n) && n >= 2 ==> !check.suspects(identity),
        identity is None ==> !check.suspects(identity),
        check.pane_count matches Some(n) && n <= 1 && identity is Some && check.grace_deadline is None ==> check.suspects(
            identity,
        ),
        check.counting(app, snap).grace_deadline == check.grace_deadline,
        app.host_identity is None ==> check.counting(app, snap).pane_count is None,
        app.host_identity matches Some(id) ==> {
            let known = snap.window_pane_counts@.dom().contains(id.window_id@);
            &&& known ==> check.counting(app, snap).pane_count == Some(snap.window_pane_counts@[id.window_id@])
            &&& !known ==> check.counting(app, snap).pane_count is None
        },
{
}

/// The loop sleeps past nothing that is due: not past the end of a resize, the next frame or the end of
/// the start. It sleeps no shorter than to the first of them, and for an hour without any.
pub proof fn law_the_loop_wakes_in_time(
    settled: Option<u64>,
    refresh: Option<u64>,
    last_refresh: u64,
    started: Option<u64>,
    now: u64,
)
    requires
        last_refresh <= now,
    ensures
        ({
            let r = waits(settled, refresh, last_refresh, started, now);
            &&& 0 <= r
            &&& settled matches Some(at) ==> now + r <= at || r == 0
            &&& started matches Some(at) ==> now + r <= at || r == 0
            &&& refresh matches Some(every) ==> now + r <= last_refresh + every || r == 0
            &&& r > 0 && (settled is Some || refresh is Some) ==> settled == Some((now + r) as u64) || started == Some(
                (now + r) as u64,
            ) || (refresh matches Some(every) && now + r == last_refresh + every)
            &&& settled is None && refresh is None && started is None ==> r == 3_600_000
        }),
{
}

} // verus!
