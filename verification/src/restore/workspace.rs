//! Naming workspaces.
use vstd::prelude::*;

use crate::ipc::HyprWorkspaceRef;
use crate::numbers;
use crate::numbers::i32_text;

verus! {

/// The selector of a workspace: its name where it is a special workspace, which has a negative
/// id, and otherwise its id.
pub open spec fn selector(ws: HyprWorkspaceRef) -> Seq<char> {
    if ws.id < 0 {
        ws.name@
    } else {
        numbers::decimal(ws.id as int)
    }
}

/// Human-readable label for a workspace (uses the name for special workspaces).
pub fn workspace_label(ws: &HyprWorkspaceRef) -> (label: String)
    ensures
        label@ == "workspace "@ + selector(*ws),
{
    let mut label = "workspace ".to_owned();
    label.append(workspace_target(ws).as_str());
    label
}

/// The target string accepted by `movetoworkspacesilent` and `[workspace ...]`. Special
/// workspaces (negative id) must be addressed by name, e.g. `special:magic`.
pub fn workspace_target(ws: &HyprWorkspaceRef) -> (target: String)
    ensures
        target@ == selector(*ws),
{
    if ws.id < 0 {
        ws.name.clone()
    } else {
        i32_text(ws.id)
    }
}

/// A special workspace, which has a negative id, is selected by its name, and any other by its
/// id, whatever its name.
pub proof fn law_workspace_is_selected(ws: HyprWorkspaceRef)
    ensures
        ws.id < 0 ==> selector(ws) == ws.name@,
        ws.id >= 0 ==> selector(ws) == numbers::decimal(ws.id as int),
{
}

} // verus!
