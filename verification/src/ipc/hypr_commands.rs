//! The commands given to `hyprctl`.
//!
//! Under the `hyprland-lua` plugin, `hyprctl dispatch` takes a Lua expression in place of a
//! native dispatcher. Each command here is written for the one or the other, by `lua`.
use vstd::prelude::*;

use crate::numbers;
use crate::numbers::{i32_text, is_i32};
use crate::text;
use crate::text::chars_of;

verus! {

/// One call of `hyprctl`.
#[derive(Debug)]
pub enum Hyprctl {
    /// `hyprctl dispatch`, with the whole command as one argument.
    Dispatch(String),
    /// `hyprctl keyword`, with an option and its value.
    Keyword(String, String),
}

/// A call of `hyprctl` by the texts in it.
pub enum HyprctlView {
    Dispatch(Seq<char>),
    Keyword(Seq<char>, Seq<char>),
}

impl View for Hyprctl {
    type V = HyprctlView;

    open spec fn view(&self) -> HyprctlView {
        match self {
            Hyprctl::Dispatch(command) => HyprctlView::Dispatch(command@),
            Hyprctl::Keyword(option, value) => HyprctlView::Keyword(option@, value@),
        }
    }
}

impl HyprctlView {
    /// The command-line arguments of the call.
    pub open spec fn args(self) -> Seq<Seq<char>> {
        match self {
            HyprctlView::Dispatch(command) => seq!["dispatch"@, command],
            HyprctlView::Keyword(option, value) => seq!["keyword"@, option, value],
        }
    }
}

impl Hyprctl {
    /// The command-line arguments of the call.
    pub fn args(&self) -> (args: Vec<String>)
        ensures
            text::texts(args@) == self@.args(),
    {
        let mut args: Vec<String> = Vec::new();
        match self {
            Hyprctl::Dispatch(command) => {
                args.push("dispatch".to_owned());
                args.push(command.clone());
                proof {
                    assert(text::texts(args@) =~= self@.args());
                }
            },
            Hyprctl::Keyword(option, value) => {
                args.push("keyword".to_owned());
                args.push(option.clone());
                args.push(value.clone());
                proof {
                    assert(text::texts(args@) =~= self@.args());
                }
            },
        }
        args
    }
}

/// A workspace selector as a Lua value: the bare number where it spells one, else a quoted
/// string.
pub open spec fn lua_workspace_value(target: Seq<char>) -> Seq<char> {
    if numbers::spells_i32(target) {
        target
    } else {
        "\""@ + target + "\""@
    }
}

/// Renders a workspace selector as a Lua value: a bare number for numeric ids, or a quoted
/// string for names like `special:magic`.
pub fn lua_workspace(target: &str) -> (value: String)
    ensures
        value@ == lua_workspace_value(target@),
{
    if is_i32(target) {
        target.to_owned()
    } else {
        let mut value = "\"".to_owned();
        value.append(target);
        value.append("\"");
        value
    }
}

/// Executes a raw dispatch command.
pub fn dispatch(command: &str) -> (call: Hyprctl)
    ensures
        call@ == HyprctlView::Dispatch(command@),
{
    Hyprctl::Dispatch(command.to_owned())
}

/// The command that moves a window to a workspace.
pub open spec fn move_to_workspace_command(
    address: Seq<char>,
    target: Seq<char>,
    lua: bool,
) -> Seq<char> {
    if lua {
        "hl.dsp.window.move({ workspace = "@ + lua_workspace_value(target)
            + ", window = \"address:"@ + address + "\" })"@
    } else {
        "movetoworkspacesilent "@ + target + ",address:"@ + address
    }
}

/// Moves a specific window to a workspace. `target` is a workspace selector: a numeric id
/// such as `3`, or a name such as `special:magic` for special workspaces.
pub fn move_window_to_workspace_target(address: &str, target: &str, lua: bool) -> (call: Hyprctl)
    ensures
        call@ == HyprctlView::Dispatch(move_to_workspace_command(address@, target@, lua)),
{
    if lua {
        let mut command = "hl.dsp.window.move({ workspace = ".to_owned();
        command.append(lua_workspace(target).as_str());
        command.append(", window = \"address:");
        command.append(address);
        command.append("\" })");
        Hyprctl::Dispatch(command)
    } else {
        let mut command = "movetoworkspacesilent ".to_owned();
        command.append(target);
        command.append(",address:");
        command.append(address);
        Hyprctl::Dispatch(command)
    }
}

/// The command that makes a floating window tiled and a tiled window floating.
pub open spec fn toggle_floating_command(address: Seq<char>, lua: bool) -> Seq<char> {
    if lua {
        "hl.dsp.window.float({ action = \"toggle\", window = \"address:"@ + address + "\" })"@
    } else {
        "togglefloating address:"@ + address
    }
}

/// Toggles the floating state of a specific window.
pub fn toggle_floating(address: &str, lua: bool) -> (call: Hyprctl)
    ensures
        call@ == HyprctlView::Dispatch(toggle_floating_command(address@, lua)),
{
    if lua {
        let mut command = "hl.dsp.window.float({ action = \"toggle\", window = \"address:".to_owned();
        command.append(address);
        command.append("\" })");
        Hyprctl::Dispatch(command)
    } else {
        let mut command = "togglefloating address:".to_owned();
        command.append(address);
        Hyprctl::Dispatch(command)
    }
}

/// The command that moves a window to a pixel coordinate.
pub open spec fn move_pixel_command(address: Seq<char>, x: int, y: int, lua: bool) -> Seq<char> {
    if lua {
        "hl.dsp.window.move({ x = "@ + numbers::decimal(x) + ", y = "@ + numbers::decimal(y)
            + ", window = \"address:"@ + address + "\" })"@
    } else {
        "movewindowpixel exact "@ + numbers::decimal(x) + " "@ + numbers::decimal(y)
            + ",address:"@ + address
    }
}

/// Moves a window to an exact pixel coordinate, for floating windows.
pub fn move_window_pixel(address: &str, x: i32, y: i32, lua: bool) -> (call: Hyprctl)
    ensures
        call@ == HyprctlView::Dispatch(move_pixel_command(address@, x as int, y as int, lua)),
{
    if lua {
        let mut command = "hl.dsp.window.move({ x = ".to_owned();
        command.append(i32_text(x).as_str());
        command.append(", y = ");
        command.append(i32_text(y).as_str());
        command.append(", window = \"address:");
        command.append(address);
        command.append("\" })");
        Hyprctl::Dispatch(command)
    } else {
        let mut command = "movewindowpixel exact ".to_owned();
        command.append(i32_text(x).as_str());
        command.append(" ");
        command.append(i32_text(y).as_str());
        command.append(",address:");
        command.append(address);
        Hyprctl::Dispatch(command)
    }
}

/// The command that resizes a window.
pub open spec fn resize_pixel_command(
    address: Seq<char>,
    width: int,
    height: int,
    lua: bool,
) -> Seq<char> {
    if lua {
        "hl.dsp.window.resize({ x = "@ + numbers::decimal(width) + ", y = "@ + numbers::decimal(
            height,
        ) + ", window = \"address:"@ + address + "\" })"@
    } else {
        "resizewindowpixel exact "@ + numbers::decimal(width) + " "@ + numbers::decimal(height)
            + ",address:"@ + address
    }
}

/// Resizes a window to exact dimensions.
pub fn resize_window_pixel(address: &str, width: i32, height: i32, lua: bool) -> (call: Hyprctl)
    ensures
        call@ == HyprctlView::Dispatch(
            resize_pixel_command(address@, width as int, height as int, lua),
        ),
{
    if lua {
        let mut command = "hl.dsp.window.resize({ x = ".to_owned();
        command.append(i32_text(width).as_str());
        command.append(", y = ");
        command.append(i32_text(height).as_str());
        command.append(", window = \"address:");
        command.append(address);
        command.append("\" })");
        Hyprctl::Dispatch(command)
    } else {
        let mut command = "resizewindowpixel exact ".to_owned();
        command.append(i32_text(width).as_str());
        command.append(" ");
        command.append(i32_text(height).as_str());
        command.append(",address:");
        command.append(address);
        Hyprctl::Dispatch(command)
    }
}

/// The command that focuses a window.
pub open spec fn focus_window_command(address: Seq<char>, lua: bool) -> Seq<char> {
    if lua {
        "hl.dsp.focus({ window = \"address:"@ + address + "\" })"@
    } else {
        "focuswindow address:"@ + address
    }
}

/// Focuses a specific window by address.
pub fn focus_window(address: &str, lua: bool) -> (call: Hyprctl)
    ensures
        call@ == HyprctlView::Dispatch(focus_window_command(address@, lua)),
{
    if lua {
        let mut command = "hl.dsp.focus({ window = \"address:".to_owned();
        command.append(address);
        command.append("\" })");
        Hyprctl::Dispatch(command)
    } else {
        let mut command = "focuswindow address:".to_owned();
        command.append(address);
        Hyprctl::Dispatch(command)
    }
}

/// The command that makes the focused window a group of one, or dissolves its group.
pub open spec fn toggle_group_command(lua: bool) -> Seq<char> {
    if lua {
        "hl.dsp.group.toggle()"@
    } else {
        "togglegroup"@
    }
}

/// Toggles the group state of the focused window: creates or dissolves a group.
pub fn toggle_group(lua: bool) -> (call: Hyprctl)
    ensures
        call@ == HyprctlView::Dispatch(toggle_group_command(lua)),
{
    if lua {
        Hyprctl::Dispatch("hl.dsp.group.toggle()".to_owned())
    } else {
        Hyprctl::Dispatch("togglegroup".to_owned())
    }
}

/// The call that switches merging into groups on or off.
pub open spec fn group_on_movetoworkspace_call(enabled: bool, lua: bool) -> HyprctlView {
    let value = if enabled {
        "true"@
    } else {
        "false"@
    };
    if lua {
        HyprctlView::Dispatch(
            "hl.config({ group = { group_on_movetoworkspace = "@ + value
                + " } }) or hl.dsp.no_op()"@,
        )
    } else {
        HyprctlView::Keyword("group:group_on_movetoworkspace"@, value)
    }
}

/// Sets `group:group_on_movetoworkspace`. When it is on, moving a window into a workspace that
/// holds a group merges it into that group, which is the only way to add a window that is
/// already open to a group where there is no `moveintogroup`.
pub fn set_group_on_movetoworkspace(enabled: bool, lua: bool) -> (call: Hyprctl)
    ensures
        call@ == group_on_movetoworkspace_call(enabled, lua),
{
    let value = if enabled {
        "true"
    } else {
        "false"
    };
    if lua {
        let mut command = "hl.config({ group = { group_on_movetoworkspace = ".to_owned();
        command.append(value);
        command.append(" } }) or hl.dsp.no_op()");
        Hyprctl::Dispatch(command)
    } else {
        Hyprctl::Keyword("group:group_on_movetoworkspace".to_owned(), value.to_owned())
    }
}

/// The command that shows a workspace.
pub open spec fn focus_workspace_command(id: int, lua: bool) -> Seq<char> {
    if lua {
        "hl.dsp.focus({ workspace = "@ + numbers::decimal(id) + " })"@
    } else {
        "workspace "@ + numbers::decimal(id)
    }
}

/// Switches the focused monitor to a workspace, by numeric id.
pub fn focus_workspace(id: i32, lua: bool) -> (call: Hyprctl)
    ensures
        call@ == HyprctlView::Dispatch(focus_workspace_command(id as int, lua)),
{
    if lua {
        let mut command = "hl.dsp.focus({ workspace = ".to_owned();
        command.append(i32_text(id).as_str());
        command.append(" })");
        Hyprctl::Dispatch(command)
    } else {
        let mut command = "workspace ".to_owned();
        command.append(i32_text(id).as_str());
        Hyprctl::Dispatch(command)
    }
}

/// A text with a backslash put before each backslash and each double quote.
pub open spec fn lua_escaped(s: Seq<char>) -> Seq<char>
    decreases s.len(),
{
    if s.len() == 0 {
        Seq::empty()
    } else if s.last() == '\\' || s.last() == '"' {
        lua_escaped(s.drop_last()).push('\\').push(s.last())
    } else {
        lua_escaped(s.drop_last()).push(s.last())
    }
}

/// Escapes a text for use between double quotes in Lua.
pub fn lua_escape(s: &str) -> (escaped: String)
    ensures
        escaped@ == lua_escaped(s@),
{
    let chars = chars_of(s);
    let mut escaped = String::new();
    let mut i: usize = 0;
    while i < chars.len()
        invariant
            i <= chars@.len(),
            escaped@ == lua_escaped(chars@.take(i as int)),
        decreases chars@.len() - i,
    {
        if chars[i] == '\\' || chars[i] == '"' {
            escaped.push('\\');
        }
        escaped.push(chars[i]);
        proof {
            assert(chars@.take(i + 1).drop_last() =~= chars@.take(i as int));
            assert(chars@.take(i + 1).last() == chars@[i as int]);
        }
        i = i + 1;
    }
    proof {
        assert(chars@.take(i as int) =~= s@);
    }
    escaped
}

/// The command that launches a program.
pub open spec fn exec_command(cmd: Seq<char>, target: Seq<char>, lua: bool) -> Seq<char> {
    if lua {
        "hl.dsp.exec_cmd(\""@ + lua_escaped(cmd) + "\")"@
    } else {
        "exec [workspace "@ + target + " silent] "@ + cmd
    }
}

/// Launches a command onto a target workspace. `target` is a workspace selector: a numeric id
/// or a name. Under Lua a workspace rule does not place the window reliably and none is given;
/// the window is moved once it has appeared.
pub fn exec_on_workspace(cmd: &str, target: &str, lua: bool) -> (call: Hyprctl)
    ensures
        call@ == HyprctlView::Dispatch(exec_command(cmd@, target@, lua)),
{
    if lua {
        let mut command = "hl.dsp.exec_cmd(\"".to_owned();
        command.append(lua_escape(cmd).as_str());
        command.append("\")");
        Hyprctl::Dispatch(command)
    } else {
        let mut command = "exec [workspace ".to_owned();
        command.append(target);
        command.append(" silent] ");
        command.append(cmd);
        Hyprctl::Dispatch(command)
    }
}

/// What Lua reads between double quotes, as far as backslashes and quotes go: a backslash
/// stands for the backslash or quote behind it, and a bare double quote ends the text.
pub open spec fn lua_read(s: Seq<char>) -> Seq<char>
    decreases s.len(),
{
    if s.len() == 0 || s[0] == '"' {
        Seq::empty()
    } else if s[0] == '\\' && s.len() > 1 {
        seq![s[1]] + lua_read(s.skip(2))
    } else {
        seq![s[0]] + lua_read(s.drop_first())
    }
}

proof fn lemma_escaped_step(s: Seq<char>)
    requires
        s.len() > 0,
    ensures
        lua_escaped(s) == (if s[0] == '\\' || s[0] == '"' {
            seq!['\\', s[0]]
        } else {
            seq![s[0]]
        }) + lua_escaped(s.drop_first()),
    decreases s.len(),
{
    let head = if s[0] == '\\' || s[0] == '"' {
        seq!['\\', s[0]]
    } else {
        seq![s[0]]
    };
    if s.len() == 1 {
        assert(s.drop_last() =~= Seq::<char>::empty());
        assert(s.drop_first() =~= Seq::<char>::empty());
        assert(lua_escaped(Seq::<char>::empty()) =~= Seq::<char>::empty());
        assert(lua_escaped(s) =~= head + lua_escaped(s.drop_first()));
    } else {
        lemma_escaped_step(s.drop_last());
        assert(s.drop_last().drop_first() =~= s.drop_first().drop_last());
        assert(s.drop_first().last() == s.last());
        assert(lua_escaped(s) =~= head + lua_escaped(s.drop_first()));
    }
}

/// Lua reads an escaped text as the text itself: no backslash or quote in it is lost, and the
/// string ends at the quote behind it and nowhere before.
pub proof fn law_lua_reads_escaped_back(s: Seq<char>, rest: Seq<char>)
    ensures
        lua_read(lua_escaped(s) + seq!['"'] + rest) == s,
    decreases s.len(),
{
    let e = lua_escaped(s) + seq!['"'] + rest;
    if s.len() == 0 {
        assert(e[0] == '"');
        assert(lua_read(e) =~= s);
    } else {
        lemma_escaped_step(s);
        law_lua_reads_escaped_back(s.drop_first(), rest);
        let less = lua_escaped(s.drop_first()) + seq!['"'] + rest;
        if s[0] == '\\' || s[0] == '"' {
            assert(e[0] == '\\' && e[1] == s[0]);
            assert(e.skip(2) =~= less);
        } else {
            assert(e[0] == s[0]);
            assert(e.drop_first() =~= less);
        }
        assert(seq![s[0]] + s.drop_first() =~= s);
    }
}

/// A numeric workspace id stands as a bare number in Lua.
pub proof fn law_numeric_workspace_is_bare(id: i32)
    ensures
        lua_workspace_value(numbers::decimal(id as int)) == numbers::decimal(id as int),
{
    numbers::law_decimal_round_trip(id as int);
}

/// A call shows its texts as they are.
pub proof fn law_call_is_shown(command: String, option: String, value: String)
    ensures
        Hyprctl::Dispatch(command)@ == HyprctlView::Dispatch(command@),
        Hyprctl::Keyword(option, value)@ == HyprctlView::Keyword(option@, value@),
{
}

/// A dispatch is passed as one argument, whatever it holds, and an option and its value as one
/// each.
pub proof fn law_call_arguments(command: Seq<char>, option: Seq<char>, value: Seq<char>)
    ensures
        HyprctlView::Dispatch(command).args() == seq!["dispatch"@, command],
        HyprctlView::Keyword(option, value).args() == seq!["keyword"@, option, value],
{
}

/// A selector is a bare number in Lua where it spells an `i32`, and stands between quotes
/// otherwise.
pub proof fn law_lua_workspace(target: Seq<char>)
    ensures
        numbers::spells_i32(target) ==> lua_workspace_value(target) == target,
        !numbers::spells_i32(target) ==> lua_workspace_value(target) == "\""@ + target + "\""@,
{
}

/// How a native command names its window, its workspace and its numbers.
pub proof fn law_native_commands(
    address: Seq<char>,
    target: Seq<char>,
    cmd: Seq<char>,
    x: int,
    y: int,
)
    ensures
        move_to_workspace_command(address, target, false) == "movetoworkspacesilent "@ + target
            + ",address:"@ + address,
        toggle_floating_command(address, false) == "togglefloating address:"@ + address,
        move_pixel_command(address, x, y, false) == "movewindowpixel exact "@ + numbers::decimal(x)
            + " "@ + numbers::decimal(y) + ",address:"@ + address,
        resize_pixel_command(address, x, y, false) == "resizewindowpixel exact "@
            + numbers::decimal(x) + " "@ + numbers::decimal(y) + ",address:"@ + address,
        focus_window_command(address, false) == "focuswindow address:"@ + address,
        toggle_group_command(false) == "togglegroup"@,
        group_on_movetoworkspace_call(true, false) == HyprctlView::Keyword(
            "group:group_on_movetoworkspace"@,
            "true"@,
        ),
        group_on_movetoworkspace_call(false, false) == HyprctlView::Keyword(
            "group:group_on_movetoworkspace"@,
            "false"@,
        ),
        focus_workspace_command(x, false) == "workspace "@ + numbers::decimal(x),
        exec_command(cmd, target, false) == "exec [workspace "@ + target + " silent] "@ + cmd,
{
}

/// How a Lua command names its window, its workspace and its numbers.
pub proof fn law_lua_commands(
    address: Seq<char>,
    target: Seq<char>,
    cmd: Seq<char>,
    x: int,
    y: int,
)
    ensures
        move_to_workspace_command(address, target, true) == "hl.dsp.window.move({ workspace = "@
            + lua_workspace_value(target) + ", window = \"address:"@ + address + "\" })"@,
        toggle_floating_command(address, true)
            == "hl.dsp.window.float({ action = \"toggle\", window = \"address:"@ + address
            + "\" })"@,
        move_pixel_command(address, x, y, true) == "hl.dsp.window.move({ x = "@ + numbers::decimal(
            x,
        ) + ", y = "@ + numbers::decimal(y) + ", window = \"address:"@ + address + "\" })"@,
        resize_pixel_command(address, x, y, true) == "hl.dsp.window.resize({ x = "@
            + numbers::decimal(x) + ", y = "@ + numbers::decimal(y) + ", window = \"address:"@
            + address + "\" })"@,
        focus_window_command(address, true) == "hl.dsp.focus({ window = \"address:"@ + address
            + "\" })"@,
        toggle_group_command(true) == "hl.dsp.group.toggle()"@,
        group_on_movetoworkspace_call(true, true) == HyprctlView::Dispatch(
            "hl.config({ group = { group_on_movetoworkspace = "@ + "true"@
                + " } }) or hl.dsp.no_op()"@,
        ),
        group_on_movetoworkspace_call(false, true) == HyprctlView::Dispatch(
            "hl.config({ group = { group_on_movetoworkspace = "@ + "false"@
                + " } }) or hl.dsp.no_op()"@,
        ),
        focus_workspace_command(x, true) == "hl.dsp.focus({ workspace = "@ + numbers::decimal(x)
            + " })"@,
        exec_command(cmd, target, true) == "hl.dsp.exec_cmd(\""@ + lua_escaped(cmd) + "\")"@,
{
}

/// Escaping goes character by character: a backslash and a double quote get a backslash in
/// front, and all others stay.
pub proof fn law_escaping(a: Seq<char>, b: Seq<char>, c: char)
    ensures
        lua_escaped(a + b) == lua_escaped(a) + lua_escaped(b),
        lua_escaped(Seq::empty()).len() == 0,
        c == '\\' || c == '"' ==> lua_escaped(seq![c]) == seq!['\\', c],
        c != '\\' && c != '"' ==> lua_escaped(seq![c]) == seq![c],
    decreases b.len(),
{
    assert(seq![c].drop_last() =~= Seq::<char>::empty());
    assert(lua_escaped(Seq::<char>::empty()) =~= Seq::<char>::empty());
    assert(seq![c].last() == c);
    if c == '\\' || c == '"' {
        assert(lua_escaped(seq![c]) =~= seq!['\\', c]);
    } else {
        assert(lua_escaped(seq![c]) =~= seq![c]);
    }
    if b.len() == 0 {
        assert(a + b =~= a);
        assert(lua_escaped(a) + lua_escaped(b) =~= lua_escaped(a));
    } else {
        law_escaping(a, b.drop_last(), c);
        assert((a + b).drop_last() =~= a + b.drop_last());
        assert((a + b).last() == b.last());
        assert(lua_escaped(a + b) =~= lua_escaped(a) + lua_escaped(b));
    }
}

} // verus!
