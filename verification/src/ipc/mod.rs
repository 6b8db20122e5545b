//! Talking to Hyprland through `hyprctl`.
pub mod hypr_commands;
pub mod model;
pub mod process;
pub mod reply;

pub use hypr_commands::{
    dispatch, exec_on_workspace, focus_window, focus_workspace, lua_workspace, move_window_pixel,
    move_window_to_workspace_target, resize_window_pixel, set_group_on_movetoworkspace,
    toggle_floating, toggle_group, Hyprctl,
};
pub use model::{HyprActiveWorkspace, HyprClient, HyprWorkspace, HyprWorkspaceRef};
pub use process::{parse_cmdline, parse_flatpak_app_id, record_exe_path, record_process};
pub use reply::{
    call_outcome, dispatch_arg, get_group_on_movetoworkspace, lua_parser, run_hyprctl, HyprctlError,
};
