//! Windows and workspaces as Hyprland reports them.
use vstd::prelude::*;

verus! {

/// The workspace that a window is on.
#[derive(Debug, Clone)]
pub struct HyprWorkspaceRef {
    pub id: i32,
    pub name: String,
}

/// The workspace that is shown on the focused monitor.
#[derive(Debug, Clone)]
pub struct HyprActiveWorkspace {
    pub id: i32,
    pub name: String,
}

/// A window.
#[derive(Debug, Clone)]
pub struct HyprClient {
    pub address: String,
    pub at: [i32; 2],
    pub size: [i32; 2],
    pub workspace: HyprWorkspaceRef,
    pub class: String,
    pub title: String,
    pub initial_class: String,
    pub initial_title: String,
    pub floating: bool,
    pub pinned: bool,
    pub monitor: i64,
    /// 0: none, 1: maximized, 2: fullscreen.
    pub fullscreen: i32,
    pub xwayland: bool,
    pub pid: i32,
    /// The argv that the application was started with. Web apps, Electron apps and
    /// browser-based runtimes cannot be brought back without it.
    pub command: Option<Vec<String>>,
    /// The executable behind `/proc/<pid>/exe`, for when there is no argv.
    pub exe_path: Option<String>,
    /// The addresses of all windows in this window's tabbed group, itself included, in tab
    /// order. Empty when the window is in no group.
    pub grouped: Vec<String>,
    /// The Flatpak application id, such as `com.spotify.Client`, when the window belongs to a
    /// Flatpak sandbox. The argv and the executable of such a window lie inside the sandbox
    /// and cannot be run from the host.
    pub flatpak: Option<String>,
}

/// A workspace.
#[derive(Debug, Clone)]
pub struct HyprWorkspace {
    pub id: i32,
    pub name: String,
    pub monitor: String,
    pub windows: i32,
    pub hasfullscreen: bool,
    pub lastwindow: String,
    pub lastwindowtitle: String,
}

} // verus!
