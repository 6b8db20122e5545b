use hypr_session::ipc::{HyprClient, HyprWorkspaceRef};
use hypr_session::restore::launch::{command_for_class, launch_command};
use hypr_session::restore::matching::keys_match;
use hypr_session::restore::{
    browser_binary, class_key, launch_app, launched_window_matches, match_launched,
    parse_pwa_class, reconcile, resolve_command, resolve_launch, workspace_label, workspace_target,
    Step,
};
use vstd::hash_set::StringHashSet;

const ID: &str = "abcdefghijklmnopabcdefghijklmnop";

fn window(address: &str, class: &str) -> HyprClient {
    HyprClient {
        address: address.into(),
        at: [0, 0],
        size: [1, 1],
        workspace: HyprWorkspaceRef { id: 2, name: "2".into() },
        class: class.into(),
        title: String::new(),
        initial_class: String::new(),
        initial_title: String::new(),
        floating: false,
        pinned: false,
        monitor: 0,
        fullscreen: 0,
        xwayland: false,
        pid: 1,
        command: None,
        exe_path: None,
        grouped: vec![],
        flatpak: None,
    }
}

fn owned(list: &[&str]) -> Vec<String> {
    list.iter().map(|s| s.to_string()).collect()
}

#[test]
fn pwa_class_needs_an_app_id() {
    assert_eq!(
        parse_pwa_class(&format!("brave-{}-Profile 1-x", ID)),
        Some((ID.to_string(), "Profile 1-x".to_string()))
    );
    assert_eq!(parse_pwa_class(&format!("brave-{}", ID)), None);
    assert_eq!(parse_pwa_class(&format!("brave-q{}-x", &ID[1..])), None);
    assert_eq!(parse_pwa_class(&format!("brave-a{}-x", ID)), None);
    assert_eq!(parse_pwa_class(&format!("brave-{}-x", &ID[1..])), None);
    assert_eq!(parse_pwa_class(&format!("brave-__{}-x", ID)), None);
    assert_eq!(parse_pwa_class(&format!("{}-x", ID)), None);
    assert_eq!(
        parse_pwa_class(&format!("-{}-x", ID)),
        Some((ID.to_string(), "x".to_string()))
    );
    assert_eq!(parse_pwa_class(""), None);
    assert_eq!(parse_pwa_class("-"), None);
}

#[test]
fn class_keys() {
    assert_eq!(class_key("Foot"), "foot");
    assert_eq!(class_key("GRÖSSE"), "grösse");
    assert_eq!(class_key(""), "");
    assert_eq!(class_key(&format!("msedge-{}-Default", ID)), format!("pwa:{}:Default", ID));
    assert_eq!(class_key(&format!("msedge-_{}-Default", ID)), format!("pwa:{}:Default", ID));
    assert_ne!(
        class_key(&format!("msedge-{}-Default", ID)),
        class_key(&format!("msedge-{}-Work", ID))
    );
}

#[test]
fn class_key_agreement() {
    let s = |t: &str| t.to_string();
    assert!(keys_match(&s("a"), &s("b"), &s("a"), &s("")));
    assert!(keys_match(&s("a"), &s("b"), &s("b"), &s("")));
    assert!(keys_match(&s("a"), &s("b"), &s("x"), &s("a")));
    assert!(keys_match(&s("a"), &s("b"), &s(""), &s("b")));
    assert!(!keys_match(&s("a"), &s("b"), &s("x"), &s("y")));
    assert!(!keys_match(&s(""), &s(""), &s(""), &s("")));
    assert!(!keys_match(&s(""), &s("b"), &s(""), &s("x")));
}

#[test]
fn same_executable_matches() {
    let mut open = window("0x1", "a");
    let mut saved = window("0x2", "b");
    assert!(!launched_window_matches(&open, &saved));
    open.exe_path = Some("/bin/x".into());
    assert!(!launched_window_matches(&open, &saved));
    saved.exe_path = Some("/bin/y".into());
    assert!(!launched_window_matches(&open, &saved));
    saved.exe_path = Some("/bin/x".into());
    assert!(launched_window_matches(&open, &saved));
}

#[test]
fn classes_match_without_regard_to_case() {
    let mut open = window("0x1", "Foot");
    let mut saved = window("0x2", "fOOT");
    assert!(launched_window_matches(&open, &saved));
    open.class = "other".into();
    open.initial_class = "FOOT".into();
    assert!(launched_window_matches(&open, &saved));
    saved.class = String::new();
    assert!(!launched_window_matches(&open, &saved));
    saved.initial_class = "foot".into();
    assert!(launched_window_matches(&open, &saved));
}

#[test]
fn a_window_matches_itself_if_it_has_a_class_or_an_executable() {
    assert!(launched_window_matches(&window("0x1", "a"), &window("0x1", "a")));
    let mut nameless = window("0x1", "");
    assert!(!launched_window_matches(&nameless, &nameless));
    nameless.exe_path = Some(String::new());
    assert!(launched_window_matches(&nameless, &nameless));
}

#[test]
fn browser_binaries() {
    let mut saved = window("0x1", "c");
    assert_eq!(browser_binary(&saved), None);
    saved.exe_path = Some(String::new());
    assert_eq!(browser_binary(&saved), None);
    saved.exe_path = Some("/opt/with space/edge".into());
    assert_eq!(browser_binary(&saved), Some("/opt/with space/edge".to_string()));
    saved.command = Some(vec![]);
    assert_eq!(browser_binary(&saved), Some("/opt/with space/edge".to_string()));
    saved.command = Some(owned(&["  ", "x"]));
    assert_eq!(browser_binary(&saved), Some("/opt/with space/edge".to_string()));
    saved.command = Some(owned(&[" edge --app ", "x"]));
    assert_eq!(browser_binary(&saved), Some("edge".to_string()));
}

#[test]
fn programs_guessed_from_classes() {
    assert_eq!(resolve_command("Brave-browser"), "brave");
    assert_eq!(resolve_command("Code"), "code");
    assert_eq!(resolve_command("Google-chrome"), "google-chrome-stable");
    assert_eq!(resolve_command("com.mitchellh.ghostty"), "ghostty");
    assert_eq!(resolve_command("Spotify"), "spotify");
    assert_eq!(resolve_command("ÄPP"), "äpp");
    assert_eq!(command_for_class("google-chrome".into()), "google-chrome-stable");
    assert_eq!(command_for_class("Google-chrome".into()), "Google-chrome");
}

#[test]
fn launch_preferences() {
    let mut saved = window("0x1", &format!("msedge-{}-Default", ID));
    saved.initial_class = "Initial".into();
    assert_eq!(resolve_launch(&saved), owned(&["initial"]));
    saved.exe_path = Some("/bin/edge".into());
    assert_eq!(
        resolve_launch(&saved),
        vec![
            "/bin/edge".to_string(),
            "--profile-directory=Default".to_string(),
            format!("--app-id={}", ID)
        ]
    );
    saved.class = "Other".into();
    assert_eq!(resolve_launch(&saved), owned(&["/bin/edge"]));
    saved.command = Some(owned(&["edge", "-x"]));
    assert_eq!(resolve_launch(&saved), owned(&["edge", "-x"]));
    saved.flatpak = Some("com.E".into());
    assert_eq!(resolve_launch(&saved), owned(&["flatpak", "run", "com.E"]));
    saved.flatpak = Some(String::new());
    assert_eq!(resolve_launch(&saved), owned(&["edge", "-x"]));
    saved.command = Some(vec![]);
    saved.exe_path = Some(String::new());
    assert_eq!(resolve_launch(&saved), owned(&["initial"]));
    saved.initial_class = String::new();
    assert_eq!(resolve_launch(&saved), owned(&["other"]));
}

#[test]
fn launching_tells_notifies_and_executes() {
    let mut saved = window("0x1", "Foot");
    saved.command = Some(owned(&["foot", "-e", "vi"]));
    assert_eq!(launch_command(&saved), "foot -e vi");
    let mut list: Vec<Step> = vec![];
    launch_app(&saved, &mut list);
    assert_eq!(
        format!("{:?}", list),
        "[Tell(Launching(\"foot -e vi\")), Notify(\"Launching Foot...\"), \
         Try(Exec(\"foot -e vi\", \"2\"))]"
    );
}

#[test]
fn workspaces_are_named() {
    let plain = HyprWorkspaceRef { id: 3, name: "three".into() };
    let special = HyprWorkspaceRef { id: -98, name: "special:magic".into() };
    assert_eq!(workspace_target(&plain), "3");
    assert_eq!(workspace_target(&special), "special:magic");
    assert_eq!(workspace_label(&plain), "workspace 3");
    assert_eq!(workspace_label(&special), "workspace special:magic");
    assert_eq!(workspace_target(&HyprWorkspaceRef { id: 0, name: "zero".into() }), "0");
}

#[test]
fn saved_windows_are_paired_in_order() {
    let open = [window("0xa", "x"), window("0xb", "y"), window("0xc", "x")];
    let saved = [window("1", "x"), window("2", "z"), window("3", "x"), window("4", "x")];
    assert_eq!(reconcile(&open, &saved), vec![Some(0), None, Some(2), None]);
    assert_eq!(reconcile(&open, &[]), vec![]);
    assert_eq!(reconcile(&[], &saved), vec![None, None, None, None]);
}

#[test]
fn launched_windows_are_matched_once() {
    let saved = [window("1", "x"), window("2", "y"), window("3", "x")];
    let open = [
        window("0xa", "x"),
        window("0xb", "x"),
        window("0xb", "x"),
        window("0xc", "z"),
        window("0xd", "x"),
        window("0xe", "x"),
    ];
    let mut pending = vec![0, 1, 2];
    let mut known = StringHashSet::new();
    known.insert("0xa".to_string());
    let placed = match_launched(&saved, &open, &mut pending, &mut known);
    assert_eq!(placed, vec![(1, 0), (4, 2)]);
    assert_eq!(pending, vec![1]);
    assert!(known.contains("0xb"));
    assert!(known.contains("0xd"));
    assert!(!known.contains("0xc"));
    assert!(!known.contains("0xe"));
}
