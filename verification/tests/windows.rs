use hypr_session::ipc::{HyprClient, HyprWorkspaceRef};
use hypr_session::restore::{launched_window_matches, parse_pwa_class, resolve_launch};

const APP: &str = "kldaonaeondlgcjdncdbnamchihmoalb";

fn client(class: &str, command: Option<Vec<&str>>) -> HyprClient {
    HyprClient {
        address: "0x1".into(),
        at: [0, 0],
        size: [1, 1],
        workspace: HyprWorkspaceRef { id: 1, name: "1".into() },
        class: class.into(),
        title: String::new(),
        initial_class: class.into(),
        initial_title: String::new(),
        floating: false,
        pinned: false,
        monitor: 0,
        fullscreen: 0,
        xwayland: false,
        pid: 1,
        command: command.map(|c| c.into_iter().map(str::to_owned).collect()),
        exe_path: None,
        grouped: vec![],
        flatpak: None,
    }
}

#[test]
fn pwa_class_wayland_form() {
    assert_eq!(
        parse_pwa_class(&format!("msedge-{}-Default", APP)),
        Some((APP.to_string(), "Default".to_string()))
    );
}

#[test]
fn pwa_class_xwayland_form() {
    assert_eq!(
        parse_pwa_class(&format!("msedge-_{}-Default", APP)),
        Some((APP.to_string(), "Default".to_string()))
    );
}

#[test]
fn pwa_class_rejects_plain_browser_and_others() {
    assert_eq!(parse_pwa_class("msedge"), None);
    assert_eq!(parse_pwa_class("org.telegram.desktop"), None);
    assert_eq!(parse_pwa_class("com.mitchellh.ghostty"), None);
    assert_eq!(parse_pwa_class(&format!("msedge-{}-", APP)), None);
}

#[test]
fn saved_xwayland_pwa_matches_live_wayland_pwa() {
    let saved = client(&format!("msedge-_{}-Default", APP), None);
    let live = client(&format!("msedge-{}-Default", APP), None);
    assert!(launched_window_matches(&live, &saved));
}

#[test]
fn different_pwas_do_not_match() {
    let saved = client(&format!("msedge-_{}-Default", APP), None);
    let live = client("msedge-pkooggnaalmfkidjmlhoelhdllpphaga-Default", None);
    assert!(!launched_window_matches(&live, &saved));
}

#[test]
fn pwa_launch_from_old_session_with_joined_cmdline() {
    let saved = client(
        &format!("msedge-_{}-Default", APP),
        Some(vec![
            "/opt/microsoft/msedge/msedge --profile-directory=Default --app-id=pkooggnaalmfkidjmlhoelhdllpphaga",
        ]),
    );
    assert_eq!(resolve_launch(&saved)[0], "/opt/microsoft/msedge/msedge");
    assert_eq!(resolve_launch(&saved).len(), 3);
}

#[test]
fn pwa_launch_uses_binary_only() {
    let saved = client(
        &format!("msedge-_{}-Default", APP),
        Some(vec![
            "/opt/microsoft/msedge/msedge",
            "--profile-directory=Default",
            "--app-id=pkooggnaalmfkidjmlhoelhdllpphaga",
            "--app-url=https://outlook.office365.com/mail/",
        ]),
    );
    assert_eq!(
        resolve_launch(&saved),
        vec![
            "/opt/microsoft/msedge/msedge",
            "--profile-directory=Default",
            &format!("--app-id={}", APP),
        ]
    );
}
