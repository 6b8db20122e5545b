//! The single things that a restore asks of the compositor.
use vstd::prelude::*;

use crate::ipc::hypr_commands;
use crate::ipc::hypr_commands::{
    exec_on_workspace, focus_window, focus_workspace, move_window_pixel,
    move_window_to_workspace_target, resize_window_pixel, set_group_on_movetoworkspace,
    toggle_floating, toggle_group, Hyprctl,
};

verus! {

/// One thing to ask of the compositor. Windows are given by address, workspaces by selector.
#[derive(Debug)]
pub enum Action {
    /// Move a window to a workspace.
    MoveToWorkspace(String, String),
    /// Make a floating window tiled, or a tiled one floating.
    ToggleFloating(String),
    /// Move a window to a pixel coordinate.
    MovePixel(String, i32, i32),
    /// Resize a window.
    ResizePixel(String, i32, i32),
    /// Focus a window.
    FocusWindow(String),
    /// Make the focused window a group of one, or dissolve its group.
    ToggleGroup,
    /// Switch `group:group_on_movetoworkspace` on or off.
    SetMerging(bool),
    /// Show a workspace, by id.
    FocusWorkspace(i32),
    /// Launch a command line onto a workspace.
    Exec(String, String),
}

/// An action by the texts in it.
pub enum ActionView {
    MoveToWorkspace(Seq<char>, Seq<char>),
    ToggleFloating(Seq<char>),
    MovePixel(Seq<char>, int, int),
    ResizePixel(Seq<char>, int, int),
    FocusWindow(Seq<char>),
    ToggleGroup,
    SetMerging(bool),
    FocusWorkspace(int),
    Exec(Seq<char>, Seq<char>),
}

impl View for Action {
    type V = ActionView;

    open spec fn view(&self) -> ActionView {
        match self {
            Action::MoveToWorkspace(window, target) => ActionView::MoveToWorkspace(
                window@,
                target@,
            ),
            Action::ToggleFloating(window) => ActionView::ToggleFloating(window@),
            Action::MovePixel(window, x, y) => ActionView::MovePixel(window@, *x as int, *y as int),
            Action::ResizePixel(window, w, h) => ActionView::ResizePixel(
                window@,
                *w as int,
                *h as int,
            ),
            Action::FocusWindow(window) => ActionView::FocusWindow(window@),
            Action::ToggleGroup => ActionView::ToggleGroup,
            Action::SetMerging(enabled) => ActionView::SetMerging(*enabled),
            Action::FocusWorkspace(id) => ActionView::FocusWorkspace(*id as int),
            Action::Exec(line, target) => ActionView::Exec(line@, target@),
        }
    }
}

/// The actions that a list holds.
pub open spec fn actions(list: Seq<Action>) -> Seq<ActionView> {
    list.map_values(|a: Action| a@)
}

impl ActionView {
    /// What merging is switched to, where that is what the action does.
    pub open spec fn switches(self) -> Option<bool> {
        match self {
            ActionView::SetMerging(enabled) => Some(enabled),
            _ => None,
        }
    }

    /// The call of `hyprctl` that an action takes.
    pub open spec fn call(self, lua: bool) -> hypr_commands::HyprctlView {
        match self {
            ActionView::MoveToWorkspace(window, target) => hypr_commands::HyprctlView::Dispatch(
                hypr_commands::move_to_workspace_command(window, target, lua),
            ),
            ActionView::ToggleFloating(window) => hypr_commands::HyprctlView::Dispatch(
                hypr_commands::toggle_floating_command(window, lua),
            ),
            ActionView::MovePixel(window, x, y) => hypr_commands::HyprctlView::Dispatch(
                hypr_commands::move_pixel_command(window, x, y, lua),
            ),
            ActionView::ResizePixel(window, w, h) => hypr_commands::HyprctlView::Dispatch(
                hypr_commands::resize_pixel_command(window, w, h, lua),
            ),
            ActionView::FocusWindow(window) => hypr_commands::HyprctlView::Dispatch(
                hypr_commands::focus_window_command(window, lua),
            ),
            ActionView::ToggleGroup => hypr_commands::HyprctlView::Dispatch(
                hypr_commands::toggle_group_command(lua),
            ),
            ActionView::SetMerging(enabled) => hypr_commands::group_on_movetoworkspace_call(
                enabled,
                lua,
            ),
            ActionView::FocusWorkspace(id) => hypr_commands::HyprctlView::Dispatch(
                hypr_commands::focus_workspace_command(id, lua),
            ),
            ActionView::Exec(line, target) => hypr_commands::HyprctlView::Dispatch(
                hypr_commands::exec_command(line, target, lua),
            ),
        }
    }
}

impl Action {
    /// What merging is switched to, where that is what the action does.
    pub fn switches(&self) -> (enabled: Option<bool>)
        ensures
            enabled == self@.switches(),
    {
        match self {
            Action::SetMerging(enabled) => Some(*enabled),
            _ => None,
        }
    }

    /// The call of `hyprctl` that the action takes.
    pub fn call(&self, lua: bool) -> (call: Hyprctl)
        ensures
            call@ == self@.call(lua),
    {
        match self {
            Action::MoveToWorkspace(window, target) => move_window_to_workspace_target(
                window.as_str(),
                target.as_str(),
                lua,
            ),
            Action::ToggleFloating(window) => toggle_floating(window.as_str(), lua),
            Action::MovePixel(window, x, y) => move_window_pixel(window.as_str(), *x, *y, lua),
            Action::ResizePixel(window, w, h) => resize_window_pixel(window.as_str(), *w, *h, lua),
            Action::FocusWindow(window) => focus_window(window.as_str(), lua),
            Action::ToggleGroup => toggle_group(lua),
            Action::SetMerging(enabled) => set_group_on_movetoworkspace(*enabled, lua),
            Action::FocusWorkspace(id) => focus_workspace(*id, lua),
            Action::Exec(line, target) => exec_on_workspace(line.as_str(), target.as_str(), lua),
        }
    }
}

/// An action shows its texts and numbers as they are.
pub proof fn law_action_is_shown(a: String, b: String, x: i32, y: i32, enabled: bool)
    ensures
        Action::MoveToWorkspace(a, b)@ == ActionView::MoveToWorkspace(a@, b@),
        Action::ToggleFloating(a)@ == ActionView::ToggleFloating(a@),
        Action::MovePixel(a, x, y)@ == ActionView::MovePixel(a@, x as int, y as int),
        Action::ResizePixel(a, x, y)@ == ActionView::ResizePixel(a@, x as int, y as int),
        Action::FocusWindow(a)@ == ActionView::FocusWindow(a@),
        Action::ToggleGroup@ == ActionView::ToggleGroup,
        Action::SetMerging(enabled)@ == ActionView::SetMerging(enabled),
        Action::FocusWorkspace(x)@ == ActionView::FocusWorkspace(x as int),
        Action::Exec(a, b)@ == ActionView::Exec(a@, b@),
{
}

/// The actions of a list are those that it holds, one by one.
pub proof fn law_actions_are_shown(list: Seq<Action>, i: int)
    ensures
        actions(list).len() == list.len(),
        0 <= i < list.len() ==> actions(list)[i] == list[i]@,
{
}

/// Each action takes the command that is for it.
pub proof fn law_actions_take_their_commands(
    a: Seq<char>,
    b: Seq<char>,
    x: int,
    y: int,
    enabled: bool,
    lua: bool,
)
    ensures
        ActionView::MoveToWorkspace(a, b).call(lua) == hypr_commands::HyprctlView::Dispatch(
            hypr_commands::move_to_workspace_command(a, b, lua),
        ),
        ActionView::ToggleFloating(a).call(lua) == hypr_commands::HyprctlView::Dispatch(
            hypr_commands::toggle_floating_command(a, lua),
        ),
        ActionView::MovePixel(a, x, y).call(lua) == hypr_commands::HyprctlView::Dispatch(
            hypr_commands::move_pixel_command(a, x, y, lua),
        ),
        ActionView::ResizePixel(a, x, y).call(lua) == hypr_commands::HyprctlView::Dispatch(
            hypr_commands::resize_pixel_command(a, x, y, lua),
        ),
        ActionView::FocusWindow(a).call(lua) == hypr_commands::HyprctlView::Dispatch(
            hypr_commands::focus_window_command(a, lua),
        ),
        ActionView::ToggleGroup.call(lua) == hypr_commands::HyprctlView::Dispatch(
            hypr_commands::toggle_group_command(lua),
        ),
        ActionView::SetMerging(enabled).call(lua) == hypr_commands::group_on_movetoworkspace_call(
            enabled,
            lua,
        ),
        ActionView::FocusWorkspace(x).call(lua) == hypr_commands::HyprctlView::Dispatch(
            hypr_commands::focus_workspace_command(x, lua),
        ),
        ActionView::Exec(a, b).call(lua) == hypr_commands::HyprctlView::Dispatch(
            hypr_commands::exec_command(a, b, lua),
        ),
        ActionView::SetMerging(enabled).switches() == Some(enabled),
        forall|action: ActionView|
            !(action is SetMerging) ==> (#[trigger] action.switches()) is None,
{
}

} // verus!
