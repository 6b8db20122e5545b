//! How a saved window is launched again.
use vstd::prelude::*;

use super::matching;
use super::matching::parse_pwa_class;
use crate::ipc::HyprClient;
use crate::text;
use crate::text::{join, same_text, split_words};
use crate::unicode;
use crate::unicode::to_lowercase;

verus! {

/// A path, where there is one and it is not empty.
pub open spec fn known_path(path: Option<String>) -> Option<Seq<char>> {
    match path {
        Some(path) => if path@.len() > 0 {
            Some(path@)
        } else {
            None
        },
        None => None,
    }
}

/// The words of the first argument of a recorded command.
pub open spec fn first_argument_words(command: Option<Vec<String>>) -> Seq<Seq<char>> {
    if command is Some && command->0@.len() > 0 {
        text::words(command->0@[0]@)
    } else {
        Seq::empty()
    }
}

/// The browser behind a web app: the first word of the recorded command, else the executable.
pub open spec fn browser_of(saved: HyprClient) -> Option<Seq<char>> {
    if first_argument_words(saved.command).len() > 0 {
        Some(first_argument_words(saved.command)[0])
    } else {
        known_path(saved.exe_path)
    }
}

/// The browser binary to relaunch a PWA with: the captured argv[0], else the kernel exe path.
///
/// Older sessions can hold the whole Chromium command line as one element; only its first
/// token is the binary.
pub fn browser_binary(saved: &HyprClient) -> (binary: Option<String>)
    ensures
        text::opt_text(binary) == browser_of(*saved),
{
    match &saved.command {
        Some(command) => {
            if command.len() > 0 {
                let list = split_words(command[0].as_str());
                if list.len() > 0 {
                    proof {
                        assert(text::texts(list@)[0] == list@[0]@);
                    }
                    return Some(list[0].clone());
                }
            }
        },
        None => {},
    }
    match &saved.exe_path {
        Some(path) => if path.as_str().is_empty() {
            None
        } else {
            Some(path.clone())
        },
        None => None,
    }
}

/// The program that a window class in lowercase stands for.
pub open spec fn program_of(lower: Seq<char>) -> Seq<char> {
    if lower == "brave-browser"@ {
        "brave"@
    } else if lower == "google-chrome"@ {
        "google-chrome-stable"@
    } else if lower == "com.mitchellh.ghostty"@ {
        "ghostty"@
    } else {
        lower
    }
}

/// The program that a window class in lowercase stands for.
pub fn command_for_class(lower: String) -> (command: String)
    ensures
        command@ == program_of(lower@),
{
    if same_text(lower.as_str(), "brave-browser") {
        "brave".to_owned()
    } else if same_text(lower.as_str(), "google-chrome") {
        "google-chrome-stable".to_owned()
    } else if same_text(lower.as_str(), "com.mitchellh.ghostty") {
        "ghostty".to_owned()
    } else {
        lower
    }
}

/// Class-based command heuristic, used only when no real command is recorded.
pub fn resolve_command(class: &str) -> (command: String)
    ensures
        command@ == program_of(unicode::lowered(class@)),
{
    command_for_class(to_lowercase(class))
}

/// The class that a program is guessed from.
pub open spec fn guessing_class(saved: HyprClient) -> Seq<char> {
    if saved.initial_class@.len() > 0 {
        saved.initial_class@
    } else {
        saved.class@
    }
}

/// The command line that launches a saved window again.
pub open spec fn launch_argv(saved: HyprClient) -> Seq<Seq<char>> {
    if matching::pwa_parts(saved.class@) is Some && browser_of(saved) is Some {
        let (app_id, profile) = matching::pwa_parts(saved.class@)->0;
        seq![browser_of(saved)->0, "--profile-directory="@ + profile, "--app-id="@ + app_id]
    } else if known_path(saved.flatpak) is Some {
        seq!["flatpak"@, "run"@, known_path(saved.flatpak)->0]
    } else if saved.command is Some && saved.command->0@.len() > 0 {
        text::texts(saved.command->0@)
    } else if known_path(saved.exe_path) is Some {
        seq![known_path(saved.exe_path)->0]
    } else {
        seq![program_of(unicode::lowered(guessing_class(saved)))]
    }
}

/// Best command line to relaunch a saved window.
///
/// Order of preference:
/// 1. Chromium/Edge PWAs: `--profile-directory=<p> --app-id=<id>` from the app id encoded in
///    the window class. The captured command line only holds the base browser binary, so
///    without this a PWA reopens as a plain browser window.
/// 2. Flatpak apps: `flatpak run <id>`. Their captured command and executable point inside the
///    sandbox and cannot be run from the host.
/// 3. The captured argv, required for Electron apps and normal apps.
/// 4. The kernel exe path.
/// 5. A class-based heuristic as a last resort.
pub fn resolve_launch(saved: &HyprClient) -> (argv: Vec<String>)
    ensures
        text::texts(argv@) == launch_argv(*saved),
        argv@.len() > 0,
{
    match parse_pwa_class(saved.class.as_str()) {
        Some((app_id, profile)) => {
            match browser_binary(saved) {
                Some(base) => {
                    let mut argv: Vec<String> = Vec::new();
                    argv.push(base);
                    let mut directory = "--profile-directory=".to_owned();
                    directory.append(profile.as_str());
                    argv.push(directory);
                    let mut id = "--app-id=".to_owned();
                    id.append(app_id.as_str());
                    argv.push(id);
                    proof {
                        assert(text::texts(argv@) =~= launch_argv(*saved));
                    }
                    return argv;
                },
                None => {},
            }
        },
        None => {},
    }
    match &saved.flatpak {
        Some(app_id) => {
            if !app_id.as_str().is_empty() {
                let mut argv: Vec<String> = Vec::new();
                argv.push("flatpak".to_owned());
                argv.push("run".to_owned());
                argv.push(app_id.clone());
                proof {
                    assert(text::texts(argv@) =~= launch_argv(*saved));
                }
                return argv;
            }
        },
        None => {},
    }
    match &saved.command {
        Some(command) => {
            if command.len() > 0 {
                let argv = command.clone();
                proof {
                    assert(text::texts(argv@) =~= text::texts(command@));
                }
                return argv;
            }
        },
        None => {},
    }
    let mut argv: Vec<String> = Vec::new();
    match &saved.exe_path {
        Some(path) => {
            if !path.as_str().is_empty() {
                argv.push(path.clone());
                proof {
                    assert(text::texts(argv@) =~= launch_argv(*saved));
                }
                return argv;
            }
        },
        None => {},
    }
    if !saved.initial_class.as_str().is_empty() {
        argv.push(resolve_command(saved.initial_class.as_str()));
    } else {
        argv.push(resolve_command(saved.class.as_str()));
    }
    proof {
        assert(text::texts(argv@) =~= launch_argv(*saved));
    }
    argv
}

/// The command line of a saved window as one text.
pub open spec fn launch_line(saved: HyprClient) -> Seq<char> {
    text::joined(launch_argv(saved), " "@)
}

/// The command line that relaunches a saved window, its arguments joined by spaces.
pub fn launch_command(saved: &HyprClient) -> (line: String)
    ensures
        line@ == launch_line(*saved),
{
    join(&resolve_launch(saved), " ")
}

/// A web app is launched with the first word of its recorded command, or its executable where
/// there is no such word, and with its profile and its application id.
pub proof fn law_web_app_is_launched(saved: HyprClient, app_id: Seq<char>, profile: Seq<char>)
    requires
        matching::pwa_parts(saved.class@) == Some((app_id, profile)),
    ensures
        saved.command is Some && saved.command->0@.len() > 0 && text::words(
            saved.command->0@[0]@,
        ).len() > 0 ==> launch_argv(saved) == seq![
            text::words(saved.command->0@[0]@)[0],
            "--profile-directory="@ + profile,
            "--app-id="@ + app_id,
        ],
        (saved.command is None || saved.command->0@.len() == 0 || text::words(
            saved.command->0@[0]@,
        ).len() == 0) && saved.exe_path is Some && saved.exe_path->0@.len() > 0 ==> launch_argv(
            saved,
        ) == seq![
            saved.exe_path->0@,
            "--profile-directory="@ + profile,
            "--app-id="@ + app_id,
        ],
{
}

/// The recorded command and executable name no browser.
pub open spec fn names_no_browser(saved: HyprClient) -> bool {
    &&& saved.command is None || saved.command->0@.len() == 0 || text::words(
        saved.command->0@[0]@,
    ).len() == 0
    &&& saved.exe_path is None || saved.exe_path->0@.len() == 0
}

/// A window that is not a web app's, and whose Flatpak id is known and not empty, is launched with
/// exactly `flatpak`, `run` and that id, whatever else is recorded of it. So is a web app's of
/// which no browser is known.
pub proof fn law_flatpak_is_launched(saved: HyprClient, id: String)
    requires
        saved.flatpak == Some(id),
        id@.len() > 0,
    ensures
        matching::pwa_parts(saved.class@) is None ==> launch_argv(saved) == seq![
            "flatpak"@,
            "run"@,
            id@,
        ],
        names_no_browser(saved) ==> launch_argv(saved) == seq!["flatpak"@, "run"@, id@],
{
}

/// Of a window that is neither a web app's nor a Flatpak's, a recorded command that is not empty
/// is launched again as it is, argument by argument.
pub proof fn law_recorded_command_is_launched(saved: HyprClient, command: Vec<String>, i: int)
    requires
        matching::pwa_parts(saved.class@) is None,
        saved.flatpak is None || saved.flatpak->0@.len() == 0,
        saved.command == Some(command),
        command@.len() > 0,
    ensures
        launch_argv(saved).len() == command@.len(),
        0 <= i < command@.len() ==> launch_argv(saved)[i] == command@[i]@,
{
}

/// A web app's window of which no browser is known is launched by its recorded command too, where
/// that is not empty and it is no Flatpak.
pub proof fn law_command_without_browser_is_launched(
    saved: HyprClient,
    command: Vec<String>,
    i: int,
)
    requires
        names_no_browser(saved),
        saved.flatpak is None || saved.flatpak->0@.len() == 0,
        saved.command == Some(command),
        command@.len() > 0,
    ensures
        launch_argv(saved).len() == command@.len(),
        0 <= i < command@.len() ==> launch_argv(saved)[i] == command@[i]@,
{
}

/// Without a Flatpak id and a command, a window that is not a web app's is launched by its
/// executable, where that is known and not empty.
pub proof fn law_executable_is_launched(saved: HyprClient, path: String)
    requires
        matching::pwa_parts(saved.class@) is None,
        saved.flatpak is None || saved.flatpak->0@.len() == 0,
        saved.command is None || saved.command->0@.len() == 0,
        saved.exe_path == Some(path),
        path@.len() > 0,
    ensures
        launch_argv(saved) == seq![path@],
{
}

/// Where nothing is recorded, the program is guessed from the initial class, or from the class
/// where that is empty.
pub proof fn law_program_is_guessed(saved: HyprClient)
    requires
        saved.flatpak is None || saved.flatpak->0@.len() == 0,
        saved.command is None || saved.command->0@.len() == 0,
        saved.exe_path is None || saved.exe_path->0@.len() == 0,
    ensures
        saved.initial_class@.len() > 0 ==> launch_argv(saved) == seq![
            program_of(unicode::lowered(saved.initial_class@)),
        ],
        saved.initial_class@.len() == 0 ==> launch_argv(saved) == seq![
            program_of(unicode::lowered(saved.class@)),
        ],
{
}

/// A class in lowercase is the name of its program, but for three classes.
pub proof fn law_programs(lower: Seq<char>)
    ensures
        program_of("brave-browser"@) == "brave"@,
        program_of("google-chrome"@) == "google-chrome-stable"@,
        program_of("com.mitchellh.ghostty"@) == "ghostty"@,
        lower != "brave-browser"@ && lower != "google-chrome"@ && lower
            != "com.mitchellh.ghostty"@ ==> program_of(lower) == lower,
{
    reveal_strlit("brave-browser");
    reveal_strlit("google-chrome");
    reveal_strlit("com.mitchellh.ghostty");
    assert("brave-browser"@[0] == 'b');
    assert("google-chrome"@[0] == 'g');
    assert("com.mitchellh.ghostty"@[0] == 'c');
}

/// The browser behind a web app is the first word of its recorded command, and its executable
/// where there is no such word and that is known and not empty.
pub proof fn law_browser(saved: HyprClient)
    ensures
        saved.command is Some && saved.command->0@.len() > 0 && text::words(
            saved.command->0@[0]@,
        ).len() > 0 ==> browser_of(saved) == Some(text::words(saved.command->0@[0]@)[0]),
        names_no_browser(saved) ==> browser_of(saved) is None,
        (saved.command is None || saved.command->0@.len() == 0 || text::words(
            saved.command->0@[0]@,
        ).len() == 0) && saved.exe_path is Some && saved.exe_path->0@.len() > 0 ==> browser_of(
            saved,
        ) == Some(saved.exe_path->0@),
{
}

/// A command line is its arguments with a space between neighbours.
pub proof fn law_launch_line(saved: HyprClient)
    ensures
        launch_line(saved) == text::joined(launch_argv(saved), " "@),
        launch_argv(saved).len() > 0,
{
}

} // verus!
