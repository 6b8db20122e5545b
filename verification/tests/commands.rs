use hypr_session::ipc::hypr_commands::lua_escape;
use hypr_session::ipc::{
    dispatch, exec_on_workspace, focus_window, focus_workspace, lua_workspace, move_window_pixel,
    move_window_to_workspace_target, resize_window_pixel, set_group_on_movetoworkspace,
    toggle_floating, toggle_group, Hyprctl,
};
use hypr_session::restore::Action;

fn command(call: Hyprctl) -> String {
    match call {
        Hyprctl::Dispatch(command) => command,
        other => panic!("{:?}", other),
    }
}

#[test]
fn workspace_values_in_lua() {
    assert_eq!(lua_workspace("3"), "3");
    assert_eq!(lua_workspace("-1"), "-1");
    assert_eq!(lua_workspace("special:magic"), "\"special:magic\"");
    assert_eq!(lua_workspace(""), "\"\"");
    assert_eq!(lua_workspace("2147483648"), "\"2147483648\"");
}

#[test]
fn raw_dispatch_is_one_argument() {
    let call = dispatch("workspace 3 and more");
    assert_eq!(call.args(), vec!["dispatch", "workspace 3 and more"]);
}

#[test]
fn move_to_workspace_commands() {
    assert_eq!(
        command(move_window_to_workspace_target("0xab", "3", false)),
        "movetoworkspacesilent 3,address:0xab"
    );
    assert_eq!(
        command(move_window_to_workspace_target("0xab", "3", true)),
        "hl.dsp.window.move({ workspace = 3, window = \"address:0xab\" })"
    );
    assert_eq!(
        command(move_window_to_workspace_target("0xab", "special:magic", true)),
        "hl.dsp.window.move({ workspace = \"special:magic\", window = \"address:0xab\" })"
    );
}

#[test]
fn floating_commands() {
    assert_eq!(command(toggle_floating("0xab", false)), "togglefloating address:0xab");
    assert_eq!(
        command(toggle_floating("0xab", true)),
        "hl.dsp.window.float({ action = \"toggle\", window = \"address:0xab\" })"
    );
}

#[test]
fn pixel_commands() {
    assert_eq!(
        command(move_window_pixel("0xab", -10, 20, false)),
        "movewindowpixel exact -10 20,address:0xab"
    );
    assert_eq!(
        command(move_window_pixel("0xab", -10, 20, true)),
        "hl.dsp.window.move({ x = -10, y = 20, window = \"address:0xab\" })"
    );
    assert_eq!(
        command(resize_window_pixel("0xab", 800, 600, false)),
        "resizewindowpixel exact 800 600,address:0xab"
    );
    assert_eq!(
        command(resize_window_pixel("0xab", 800, 600, true)),
        "hl.dsp.window.resize({ x = 800, y = 600, window = \"address:0xab\" })"
    );
}

#[test]
fn focus_commands() {
    assert_eq!(command(focus_window("0xab", false)), "focuswindow address:0xab");
    assert_eq!(
        command(focus_window("0xab", true)),
        "hl.dsp.focus({ window = \"address:0xab\" })"
    );
    assert_eq!(command(focus_workspace(4, false)), "workspace 4");
    assert_eq!(command(focus_workspace(4, true)), "hl.dsp.focus({ workspace = 4 })");
}

#[test]
fn group_commands() {
    assert_eq!(command(toggle_group(false)), "togglegroup");
    assert_eq!(command(toggle_group(true)), "hl.dsp.group.toggle()");
    assert_eq!(
        command(set_group_on_movetoworkspace(true, true)),
        "hl.config({ group = { group_on_movetoworkspace = true } }) or hl.dsp.no_op()"
    );
    assert_eq!(
        command(set_group_on_movetoworkspace(false, true)),
        "hl.config({ group = { group_on_movetoworkspace = false } }) or hl.dsp.no_op()"
    );
    assert_eq!(
        set_group_on_movetoworkspace(true, false).args(),
        vec!["keyword", "group:group_on_movetoworkspace", "true"]
    );
    assert_eq!(
        set_group_on_movetoworkspace(false, false).args(),
        vec!["keyword", "group:group_on_movetoworkspace", "false"]
    );
}

#[test]
fn launch_commands() {
    assert_eq!(
        command(exec_on_workspace("foot -e \"vi\"", "3", false)),
        "exec [workspace 3 silent] foot -e \"vi\""
    );
    assert_eq!(
        command(exec_on_workspace("foot -e \"vi\" a\\b", "3", true)),
        "hl.dsp.exec_cmd(\"foot -e \\\"vi\\\" a\\\\b\")"
    );
}

#[test]
fn escaping_agrees_with_two_replacements() {
    for s in ["", "plain", "\\", "\"", "\\\"", "a\"b\\c", "\\\\\"\"", "größe\n"] {
        assert_eq!(lua_escape(s), s.replace('\\', "\\\\").replace('"', "\\\""));
    }
}

#[test]
fn actions_take_the_commands() {
    for lua in [false, true] {
        let w = || "0xab".to_string();
        let t = || "3".to_string();
        let pairs = [
            (Action::MoveToWorkspace(w(), t()), move_window_to_workspace_target("0xab", "3", lua)),
            (Action::ToggleFloating(w()), toggle_floating("0xab", lua)),
            (Action::MovePixel(w(), 1, -2), move_window_pixel("0xab", 1, -2, lua)),
            (Action::ResizePixel(w(), 3, 4), resize_window_pixel("0xab", 3, 4, lua)),
            (Action::FocusWindow(w()), focus_window("0xab", lua)),
            (Action::ToggleGroup, toggle_group(lua)),
            (Action::SetMerging(true), set_group_on_movetoworkspace(true, lua)),
            (Action::FocusWorkspace(9), focus_workspace(9, lua)),
            (Action::Exec("foot".into(), t()), exec_on_workspace("foot", "3", lua)),
        ];
        for (action, call) in pairs {
            assert_eq!(action.call(lua).args(), call.args());
        }
    }
}
