//! Putting one window where it was.
use vstd::prelude::*;

use super::action;
use super::action::{Action, ActionView};
use super::workspace;
use super::workspace::workspace_target;
use crate::ipc::HyprClient;

verus! {

/// What brings an open window to the place of a saved one: a move where they are on different
/// workspaces, a toggle where one floats and the other does not, and for a window that was
/// floating its coordinate and its size. A tiled window gets no pixel position.
pub open spec fn placement_actions(current: HyprClient, saved: HyprClient) -> Seq<ActionView> {
    (if current.workspace.id != saved.workspace.id {
        seq![ActionView::MoveToWorkspace(current.address@, workspace::selector(saved.workspace))]
    } else {
        Seq::empty()
    }) + (if current.floating != saved.floating {
        seq![ActionView::ToggleFloating(current.address@)]
    } else {
        Seq::empty()
    }) + (if saved.floating {
        seq![
            ActionView::MovePixel(current.address@, saved.at@[0] as int, saved.at@[1] as int),
            ActionView::ResizePixel(current.address@, saved.size@[0] as int, saved.size@[1] as int),
        ]
    } else {
        Seq::empty()
    })
}

/// Restores the position and workspace of a single window, by these actions in this order.
pub fn restore_window_position(current_client: &HyprClient, saved_client: &HyprClient) -> (list:
    Vec<Action>)
    ensures
        action::actions(list@) == placement_actions(*current_client, *saved_client),
{
    let mut list: Vec<Action> = Vec::new();
    if current_client.workspace.id != saved_client.workspace.id {
        list.push(
            Action::MoveToWorkspace(
                current_client.address.clone(),
                workspace_target(&saved_client.workspace),
            ),
        );
    }
    if saved_client.floating {
        if !current_client.floating {
            list.push(Action::ToggleFloating(current_client.address.clone()));
        }
        list.push(
            Action::MovePixel(
                current_client.address.clone(),
                saved_client.at[0],
                saved_client.at[1],
            ),
        );
        list.push(
            Action::ResizePixel(
                current_client.address.clone(),
                saved_client.size[0],
                saved_client.size[1],
            ),
        );
    } else {
        if current_client.floating {
            list.push(Action::ToggleFloating(current_client.address.clone()));
        }
    }
    proof {
        assert(action::actions(list@) =~= placement_actions(*current_client, *saved_client));
    }
    list
}

/// Where a window is and how it is shown.
pub struct Placement {
    pub workspace: Seq<char>,
    pub floating: bool,
    pub at: (int, int),
    pub size: (int, int),
}

/// The placement of a window.
pub open spec fn placement(client: HyprClient) -> Placement {
    Placement {
        workspace: workspace::selector(client.workspace),
        floating: client.floating,
        at: (client.at@[0] as int, client.at@[1] as int),
        size: (client.size@[0] as int, client.size@[1] as int),
    }
}

/// What an action on a window does to its placement.
pub open spec fn placed(p: Placement, action: ActionView) -> Placement {
    match action {
        ActionView::MoveToWorkspace(_, target) => Placement { workspace: target, ..p },
        ActionView::ToggleFloating(_) => Placement { floating: !p.floating, ..p },
        ActionView::MovePixel(_, x, y) => Placement { at: (x, y), ..p },
        ActionView::ResizePixel(_, w, h) => Placement { size: (w, h), ..p },
        _ => p,
    }
}

/// What a row of actions on a window does to its placement.
pub open spec fn placed_all(p: Placement, list: Seq<ActionView>) -> Placement
    decreases list.len(),
{
    if list.len() == 0 {
        p
    } else {
        placed(placed_all(p, list.drop_last()), list.last())
    }
}

proof fn lemma_placed_all_push(p: Placement, list: Seq<ActionView>, action: ActionView)
    ensures
        placed_all(p, list.push(action)) == placed(placed_all(p, list), action),
{
    assert(list.push(action).drop_last() =~= list);
}

/// Once the actions are done the window floats exactly if the saved one did; if it floats it
/// has the saved coordinate and size; and it is on the saved workspace. A special workspace is
/// left alone where the ids are the same, whatever its name.
pub proof fn law_position_is_restored(current: HyprClient, saved: HyprClient)
    ensures
        ({
            let after = placed_all(placement(current), placement_actions(current, saved));
            &&& after.floating == saved.floating
            &&& saved.floating ==> after.at == placement(saved).at && after.size == placement(
                saved,
            ).size
            &&& current.workspace.id != saved.workspace.id || saved.workspace.id >= 0
                ==> after.workspace == placement(saved).workspace
        }),
{
    let p = placement(current);
    let none = Seq::<ActionView>::empty();
    let list = placement_actions(current, saved);
    let move_to = ActionView::MoveToWorkspace(
        current.address@,
        workspace::selector(saved.workspace),
    );
    let toggle = ActionView::ToggleFloating(current.address@);
    let one = if current.workspace.id != saved.workspace.id {
        none.push(move_to)
    } else {
        none
    };
    lemma_placed_all_push(p, none, move_to);
    let two = if current.floating != saved.floating {
        one.push(toggle)
    } else {
        one
    };
    lemma_placed_all_push(p, one, toggle);
    if saved.floating {
        let at = ActionView::MovePixel(
            current.address@,
            saved.at@[0] as int,
            saved.at@[1] as int,
        );
        let size = ActionView::ResizePixel(
            current.address@,
            saved.size@[0] as int,
            saved.size@[1] as int,
        );
        lemma_placed_all_push(p, two, at);
        lemma_placed_all_push(p, two.push(at), size);
        assert(list =~= two.push(at).push(size));
    } else {
        assert(list =~= two);
    }
}

/// Only the open window is touched.
pub proof fn law_position_touches_one_window(current: HyprClient, saved: HyprClient, i: int)
    requires
        0 <= i < placement_actions(current, saved).len(),
    ensures
        match placement_actions(current, saved)[i] {
            ActionView::MoveToWorkspace(window, _) => window == current.address@,
            ActionView::ToggleFloating(window) => window == current.address@,
            ActionView::MovePixel(window, _, _) => window == current.address@,
            ActionView::ResizePixel(window, _, _) => window == current.address@,
            _ => false,
        },
{
}

/// Each thing that is done to a window has its reason: it is moved to the saved workspace only
/// where the workspace ids differ, made floating or tiled only where the saved one was the other,
/// and moved and resized by pixels only where the saved one was floating. Nothing else is done.
pub proof fn law_every_action_has_its_reason(current: HyprClient, saved: HyprClient, i: int)
    requires
        0 <= i < placement_actions(current, saved).len(),
    ensures
        match placement_actions(current, saved)[i] {
            ActionView::MoveToWorkspace(window, target) => {
                &&& current.workspace.id != saved.workspace.id
                &&& window == current.address@
                &&& saved.workspace.id < 0 ==> target == saved.workspace.name@
                &&& saved.workspace.id >= 0 ==> target == crate::numbers::decimal(
                    saved.workspace.id as int,
                )
            },
            ActionView::ToggleFloating(window) => {
                &&& current.floating != saved.floating
                &&& window == current.address@
            },
            ActionView::MovePixel(window, x, y) => {
                &&& saved.floating
                &&& window == current.address@
                &&& x == saved.at@[0]
                &&& y == saved.at@[1]
            },
            ActionView::ResizePixel(window, width, height) => {
                &&& saved.floating
                &&& window == current.address@
                &&& width == saved.size@[0]
                &&& height == saved.size@[1]
            },
            _ => false,
        },
{
}

/// Whatever has its reason is done, once, and in this order: the move to a workspace, the toggle,
/// the move by pixels, the resize.
pub proof fn law_nothing_is_left_out(current: HyprClient, saved: HyprClient)
    ensures
        ({
            let list = placement_actions(current, saved);
            let moves = if current.workspace.id != saved.workspace.id {
                1int
            } else {
                0int
            };
            let toggles = if current.floating != saved.floating {
                1int
            } else {
                0int
            };
            &&& list.len() == moves + toggles + if saved.floating {
                2int
            } else {
                0int
            }
            &&& moves == 1 ==> list[0] is MoveToWorkspace
            &&& toggles == 1 ==> list[moves] is ToggleFloating
            &&& saved.floating ==> list[moves + toggles] is MovePixel && list[moves + toggles
                + 1] is ResizePixel
        }),
{
}

} // verus!
