use hypr_session::ipc::process::split_lone_argument;
use hypr_session::ipc::{
    parse_cmdline, parse_flatpak_app_id, record_exe_path, record_process, HyprClient,
    HyprWorkspaceRef,
};

fn plain_window() -> HyprClient {
    HyprClient {
        address: "0x1".into(),
        at: [0, 0],
        size: [1, 1],
        workspace: HyprWorkspaceRef { id: 1, name: "1".into() },
        class: "c".into(),
        title: "t".into(),
        initial_class: "ic".into(),
        initial_title: "it".into(),
        floating: false,
        pinned: false,
        monitor: 0,
        fullscreen: 0,
        xwayland: false,
        pid: 1,
        command: Some(vec!["old".into()]),
        exe_path: Some("/old".into()),
        grouped: vec![],
        flatpak: Some("old.Id".into()),
    }
}

fn id(cgroup: &str) -> Option<String> {
    parse_flatpak_app_id(cgroup)
}

#[test]
fn flatpak_scope_names_the_app() {
    assert_eq!(
        id("0::/user.slice/user@1000.service/app.slice/app-flatpak-com.spotify.Client-816252360.scope\n"),
        Some("com.spotify.Client".to_string())
    );
    assert_eq!(id("app-flatpak-org.a-b.C-12.scope"), Some("org.a-b.C".to_string()));
}

#[test]
fn flatpak_scope_without_an_instance() {
    assert_eq!(id("app-flatpak-org.Foo.scope"), Some("org.Foo".to_string()));
    assert_eq!(id("app-flatpak-org-Foo.scope"), Some("org-Foo".to_string()));
    assert_eq!(id("app-flatpak-foo-.scope"), Some("foo".to_string()));
    assert_eq!(id("app-flatpak--12.scope"), Some("-12".to_string()));
    assert_eq!(id("app-flatpak-.scope"), Some(String::new()));
    assert_eq!(id("app-flatpak-foo-1x.scope"), Some("foo-1x".to_string()));
    assert_eq!(id("app-flatpak-foo-٣.scope"), Some("foo-٣".to_string()));
}

#[test]
fn other_scopes_name_no_app() {
    assert_eq!(id(""), None);
    assert_eq!(id("0::/user.slice/app-foot-1.scope"), None);
    assert_eq!(id("app-flatpak-org.Foo-1.service"), None);
    assert_eq!(id(".scope app-flatpak-org.Foo"), None);
}

#[test]
fn first_marker_counts() {
    assert_eq!(
        id("app-flatpak-a-1.scope app-flatpak-b-2.scope"),
        Some("a".to_string())
    );
}

#[test]
fn empty_arguments_are_dropped() {
    assert_eq!(parse_cmdline(b"\0\0a\0\0b\0\0"), vec!["a", "b"]);
    assert!(parse_cmdline(b"").is_empty());
    assert!(parse_cmdline(b"\0\0").is_empty());
    assert!(parse_cmdline(b" \t \0").is_empty());
    assert_eq!(parse_cmdline(b" \0 \0"), vec![" ", " "]);
}

#[test]
fn arguments_that_are_not_utf8() {
    assert_eq!(parse_cmdline(b"a\xffb\0c\0"), vec!["a\u{fffd}b", "c"]);
    assert_eq!(parse_cmdline("größe\0π".as_bytes()), vec!["größe", "π"]);
    assert_eq!(parse_cmdline("one\u{a0}two".as_bytes()), vec!["one", "two"]);
}

#[test]
fn parsing_again_changes_nothing() {
    let buffers: [&[u8]; 9] = [
        b"",
        b"\0 \0",
        b" \t ",
        b"/bin/a b --c",
        b" a \0",
        b"a b\0c\0",
        b"\xff\xfe\0\xc3(\0",
        b"one \xff two",
        "größe\u{3000}π".as_bytes(),
    ];
    for buffer in buffers {
        let list = parse_cmdline(buffer);
        let mut again: Vec<u8> = vec![];
        for argument in &list {
            assert!(!argument.is_empty());
            again.extend_from_slice(argument.as_bytes());
            again.push(0);
        }
        assert_eq!(parse_cmdline(&again), list);
    }
}

#[test]
fn a_lone_argument_is_a_command_line() {
    assert_eq!(split_lone_argument(vec!["a  b".into()]), vec!["a", "b"]);
    assert_eq!(split_lone_argument(vec!["ab".into()]), vec!["ab"]);
    assert_eq!(split_lone_argument(vec!["a b".into(), "c".into()]), vec!["a b", "c"]);
}

#[test]
fn a_process_is_recorded() {
    let mut window = plain_window();
    assert!(!record_process(&mut window, Some("app-flatpak-x.Y-1.scope"), Some(b"/bin/x\0-v\0")));
    assert_eq!(window.flatpak, Some("x.Y".to_string()));
    assert_eq!(window.command, Some(vec!["/bin/x".to_string(), "-v".to_string()]));
    assert_eq!(window.exe_path, Some("/old".to_string()));
    assert_eq!(window.title, "t");
}

#[test]
fn what_cannot_be_read_stays() {
    let mut window = plain_window();
    assert!(record_process(&mut window, None, None));
    assert_eq!(window.flatpak, Some("old.Id".to_string()));
    assert_eq!(window.command, Some(vec!["old".to_string()]));
    assert!(record_process(&mut window, Some("no scope"), Some(b"\0")));
    assert_eq!(window.flatpak, None);
    assert_eq!(window.command, Some(vec!["old".to_string()]));
}

#[test]
fn an_executable_is_recorded() {
    let mut window = plain_window();
    record_exe_path(&mut window, None);
    assert_eq!(window.exe_path, Some("/old".to_string()));
    record_exe_path(&mut window, Some("/new".to_string()));
    assert_eq!(window.exe_path, Some("/new".to_string()));
    assert_eq!(window.command, Some(vec!["old".to_string()]));
}
