use hypr_session::ipc::{HyprActiveWorkspace, HyprClient, HyprWorkspaceRef};
use hypr_session::restore::{restore_session, Action, Event, Request, Session};

fn window(address: &str, class: &str, id: i32) -> HyprClient {
    HyprClient {
        address: address.into(),
        at: [1, 2],
        size: [3, 4],
        workspace: HyprWorkspaceRef { id, name: format!("special:w{}", id) },
        class: class.into(),
        title: String::new(),
        initial_class: class.into(),
        initial_title: String::new(),
        floating: false,
        pinned: false,
        monitor: 0,
        fullscreen: 0,
        xwayland: false,
        pid: 1,
        command: None,
        exe_path: None,
        grouped: vec![],
        flatpak: None,
    }
}

fn in_group(mut client: HyprClient, grouped: &[&str]) -> HyprClient {
    client.grouped = grouped.iter().map(|s| s.to_string()).collect();
    client
}

/// A compositor that does at once what it is asked to do, in which a launched program opens a
/// window of the class that its command line names.
struct Compositor {
    windows: Vec<HyprClient>,
    focus: Option<String>,
    merging: bool,
    clock: u64,
    launches: bool,
    /// Actions that show this text are refused.
    refuse: Option<&'static str>,
    /// Actions that show this text are refused while merging is off.
    refuse_apart: Option<&'static str>,
    log: Vec<String>,
}

impl Compositor {
    fn new(windows: Vec<HyprClient>) -> Compositor {
        Compositor {
            windows,
            focus: None,
            merging: false,
            clock: 0,
            launches: true,
            refuse: None,
            refuse_apart: None,
            log: vec![],
        }
    }

    fn find(&self, address: &str) -> usize {
        self.windows.iter().position(|w| w.address == address).unwrap()
    }

    fn set_group(&mut self, members: &[String], grouped: &[String]) {
        for member in members {
            let i = self.find(member);
            self.windows[i].grouped = grouped.to_vec();
        }
    }

    fn perform(&mut self, action: &Action) -> Event {
        let shown = format!("{:?}", action);
        self.log.push(shown.clone());
        if let Some(text) = self.refuse {
            if shown.contains(text) {
                return Event::Failed(format!("refused {}", text));
            }
        }
        if let Some(text) = self.refuse_apart {
            if shown.contains(text) && !self.merging {
                return Event::Failed(format!("refused {} apart", text));
            }
        }
        match action {
            Action::MoveToWorkspace(window, target) => {
                let i = self.find(window);
                let mut moving = self.windows[i].grouped.clone();
                if moving.is_empty() {
                    moving.push(window.clone());
                }
                let id = target.parse::<i32>().unwrap_or(-7);
                for member in &moving {
                    let k = self.find(member);
                    self.windows[k].workspace = HyprWorkspaceRef { id, name: target.clone() };
                }
                if let Some(focus) = self.focus.clone() {
                    let f = self.find(&focus);
                    let host = self.windows[f].grouped.clone();
                    let there = self.windows[f].workspace.id == id;
                    if self.merging && there && !host.is_empty() && !moving.contains(&focus) {
                        let mut all = host;
                        all.append(&mut moving);
                        self.set_group(&all.clone(), &all);
                    }
                }
            }
            Action::ToggleFloating(window) => {
                let i = self.find(window);
                self.windows[i].floating = !self.windows[i].floating;
            }
            Action::MovePixel(window, x, y) => {
                let i = self.find(window);
                self.windows[i].at = [*x, *y];
            }
            Action::ResizePixel(window, w, h) => {
                let i = self.find(window);
                self.windows[i].size = [*w, *h];
            }
            Action::FocusWindow(window) => self.focus = Some(window.clone()),
            Action::ToggleGroup => {
                let focus = self.focus.clone().unwrap();
                let group = self.windows[self.find(&focus)].grouped.clone();
                if group.is_empty() {
                    self.set_group(&[focus.clone()], &[focus.clone()]);
                } else {
                    self.set_group(&group, &[]);
                }
            }
            Action::SetMerging(enabled) => self.merging = *enabled,
            Action::FocusWorkspace(_) => {}
            Action::Exec(line, _) => {
                if self.launches {
                    let address = format!("new{}", self.windows.len());
                    self.windows.push(window(&address, line, 77));
                }
            }
        }
        Event::Done
    }

    fn answer(&mut self, request: &Request) -> Event {
        match request {
            Request::Capture => Event::Windows(self.windows.clone()),
            Request::ActiveWorkspace => {
                Event::Workspace(HyprActiveWorkspace { id: 42, name: "42".into() })
            }
            Request::Tell(note) => {
                self.log.push(note.line());
                Event::Done
            }
            Request::Notify(body) => {
                self.log.push(body.clone());
                Event::Done
            }
            Request::Perform(action) => self.perform(action),
            Request::Pause(ms) => {
                self.clock += ms;
                Event::Done
            }
            Request::StartClock => {
                self.clock = 0;
                Event::Done
            }
            Request::ReadClock => Event::Elapsed(self.clock),
            Request::ReadMerging => Event::Merging(self.merging),
            Request::Finish(_) => unreachable!(),
        }
    }

    fn run(&mut self, saved: Vec<HyprClient>) -> Option<String> {
        let mut session = restore_session(saved);
        let mut event = Event::Done;
        for _ in 0..10000 {
            let request = session.step(event);
            if let Request::Finish(reason) = request {
                return reason;
            }
            event = self.answer(&request);
        }
        panic!("the restore does not end");
    }

    fn group_of(&self, class: &str) -> Vec<String> {
        self.windows.iter().find(|w| w.class == class).unwrap().grouped.clone()
    }

    fn workspace_of(&self, class: &str) -> String {
        self.windows.iter().find(|w| w.class == class).unwrap().workspace.name.clone()
    }
}

fn shown(session: &mut Session, event: Event) -> String {
    format!("{:?}", session.step(event))
}

fn workspace(id: i32) -> Event {
    Event::Workspace(HyprActiveWorkspace { id, name: id.to_string() })
}

#[test]
fn open_windows_go_to_their_places() {
    let mut saved = window("1", "foot", 5);
    saved.floating = true;
    let mut compositor = Compositor::new(vec![window("a", "Foot", 2)]);
    assert_eq!(compositor.run(vec![saved]), None);
    assert_eq!(
        compositor.log,
        vec![
            "Phase 1: relocating already-open windows...",
            "   ↪ Moving Foot → workspace 5",
            "MoveToWorkspace(\"a\", \"5\")",
            "ToggleFloating(\"a\")",
            "MovePixel(\"a\", 1, 2)",
            "ResizePixel(\"a\", 3, 4)",
            "Phase 2: nothing to launch — every saved window was already open.",
            "FocusWorkspace(42)",
        ]
    );
    assert!(compositor.windows[0].floating);
    assert_eq!(compositor.windows[0].workspace.id, 5);
}

#[test]
fn missing_windows_are_launched_and_placed() {
    let mut compositor = Compositor::new(vec![window("a", "other", 2)]);
    assert_eq!(compositor.run(vec![window("1", "foot", 5), window("2", "foot", 6)]), None);
    assert_eq!(
        compositor.log,
        vec![
            "Phase 1: relocating already-open windows...",
            "Phase 2: launching 2 missing window(s)...",
            "   ⤷ Launching: foot",
            "Launching foot...",
            "Exec(\"foot\", \"5\")",
            "   ⤷ Launching: foot",
            "Launching foot...",
            "Exec(\"foot\", \"6\")",
            "   ✓ Positioned foot",
            "MoveToWorkspace(\"new1\", \"5\")",
            "   ✓ Positioned foot",
            "MoveToWorkspace(\"new2\", \"6\")",
            "FocusWorkspace(42)",
        ]
    );
}

#[test]
fn windows_that_never_appear_are_given_up() {
    let mut compositor = Compositor::new(vec![]);
    compositor.launches = false;
    assert_eq!(compositor.run(vec![window("1", "foot", 5)]), None);
    assert_eq!(compositor.clock, 15000);
    assert_eq!(
        compositor.log[compositor.log.len() - 2..],
        [
            "   ⚠️ Gave up waiting for foot to appear (it may still open later)",
            "FocusWorkspace(42)",
        ]
    );
}

#[test]
fn an_empty_session_only_returns() {
    let mut compositor = Compositor::new(vec![window("a", "x", 1)]);
    assert_eq!(compositor.run(vec![]), None);
    assert_eq!(
        compositor.log,
        vec![
            "Phase 1: relocating already-open windows...",
            "Phase 2: nothing to launch — every saved window was already open.",
            "FocusWorkspace(42)",
        ]
    );
}

#[test]
fn groups_are_rebuilt() {
    let members = ["1", "2", "3"];
    let saved = vec![
        in_group(window("1", "x", 5), &members),
        in_group(window("2", "y", 5), &members),
        in_group(window("3", "z", 5), &members),
    ];
    let open = vec![
        in_group(window("a", "x", 2), &["a", "b"]),
        in_group(window("b", "stranger", 2), &["a", "b"]),
        window("c", "y", 3),
        in_group(window("d", "host", 5), &["d"]),
    ];
    let mut compositor = Compositor::new(open);
    assert_eq!(compositor.run(saved), None);
    for class in ["x", "y", "z"] {
        let mut group = compositor.group_of(class);
        group.sort();
        assert_eq!(group, vec!["a", "c", "new4"]);
        assert_eq!(compositor.workspace_of(class), "5");
    }
    assert!(compositor.group_of("stranger").is_empty());
    assert_eq!(compositor.group_of("host"), vec!["d"]);
    assert!(!compositor.merging);
}

#[test]
fn two_groups_on_one_workspace_stay_apart() {
    let saved = vec![
        in_group(window("1", "p", -3), &["1", "2"]),
        in_group(window("2", "q", -3), &["1", "2"]),
        in_group(window("3", "r", -3), &["3", "4"]),
        in_group(window("4", "s", -3), &["3", "4"]),
    ];
    let open = ["p", "q", "r", "s"].iter().map(|c| window(&format!("w{}", c), c, 1)).collect();
    let mut compositor = Compositor::new(open);
    compositor.merging = true;
    assert_eq!(compositor.run(saved), None);
    assert_eq!(compositor.group_of("p"), vec!["wp", "wq"]);
    assert_eq!(compositor.group_of("q"), vec!["wp", "wq"]);
    assert_eq!(compositor.group_of("r"), vec!["wr", "ws"]);
    assert_eq!(compositor.group_of("s"), vec!["wr", "ws"]);
    for class in ["p", "q", "r", "s"] {
        assert_eq!(compositor.workspace_of(class), "special:w-3");
    }
    assert!(compositor.merging);
    assert!(compositor.log.contains(&"MoveToWorkspace(\"wp\", \"90111\")".to_string()));
    assert!(compositor.log.contains(&"MoveToWorkspace(\"wr\", \"90113\")".to_string()));
    assert!(compositor.log.contains(&"MoveToWorkspace(\"ws\", \"90114\")".to_string()));
}

#[test]
fn intact_groups_are_not_dissolved() {
    let saved = vec![
        in_group(window("1", "x", 5), &["1", "2"]),
        in_group(window("2", "y", 5), &["1", "2"]),
    ];
    let open = vec![
        in_group(window("a", "x", 5), &["a", "b"]),
        in_group(window("b", "y", 5), &["a", "b"]),
    ];
    let mut compositor = Compositor::new(open);
    assert_eq!(compositor.run(saved), None);
    assert_eq!(
        compositor.log[4..],
        [
            "Phase 3: rebuilding 1 window group(s)...",
            "SetMerging(true)",
            "   = Group (x) already intact on workspace 5; leaving as-is",
            "SetMerging(false)",
            "FocusWorkspace(42)",
        ]
    );
}

#[test]
fn groups_without_enough_windows_are_skipped() {
    let saved = vec![
        in_group(window("1", "x", 5), &["1", "2"]),
        in_group(window("2", "y", 5), &["1", "2"]),
    ];
    let mut compositor = Compositor::new(vec![window("a", "x", 5)]);
    compositor.launches = false;
    assert_eq!(compositor.run(saved), None);
    assert!(compositor
        .log
        .contains(&"   ⚠️ Group (x) has fewer than 2 live members; skipping".to_string()));
}

#[test]
fn a_group_that_fails_does_not_stop_the_next() {
    let saved = vec![
        in_group(window("1", "p", 5), &["1", "2"]),
        in_group(window("2", "q", 5), &["1", "2"]),
        in_group(window("3", "r", 5), &["3", "4"]),
        in_group(window("4", "s", 5), &["3", "4"]),
    ];
    let open = ["p", "q", "r", "s"].iter().map(|c| window(&format!("w{}", c), c, 5)).collect();
    let mut compositor = Compositor::new(open);
    compositor.refuse = Some("\"90112\"");
    assert_eq!(compositor.run(saved), None);
    assert!(compositor
        .log
        .contains(&"   ⚠️ Failed to rebuild group (p): refused \"90112\"".to_string()));
    assert_eq!(compositor.group_of("r"), vec!["wr", "ws"]);
    assert_eq!(compositor.group_of("q"), Vec::<String>::new());
}

#[test]
fn merging_is_on_again_after_a_group_that_fails() {
    let saved = vec![
        in_group(window("1", "p", 5), &["1", "2"]),
        in_group(window("2", "q", 5), &["1", "2"]),
        in_group(window("3", "r", 5), &["3", "4"]),
        in_group(window("4", "s", 5), &["3", "4"]),
    ];
    let open = ["p", "q", "r", "s"].iter().map(|c| window(&format!("w{}", c), c, 5)).collect();
    let mut compositor = Compositor::new(open);
    compositor.refuse_apart = Some("FocusWindow(\"wp\")");
    assert_eq!(compositor.run(saved), None);
    let failed = compositor.log.iter().position(|l| l.contains("Failed to rebuild")).unwrap();
    assert_eq!(
        compositor.log[failed - 2..failed + 4],
        [
            "SetMerging(false)",
            "FocusWindow(\"wp\")",
            "   ⚠️ Failed to rebuild group (p): refused FocusWindow(\"wp\") apart",
            "SetMerging(true)",
            "   ⊞ Grouping 2 window(s) (r) on workspace 5",
            "MoveToWorkspace(\"wr\", \"90113\")",
        ]
    );
    assert_eq!(compositor.group_of("r"), vec!["wr", "ws"]);
    assert_eq!(compositor.group_of("s"), vec!["wr", "ws"]);
    assert!(!compositor.merging);
}

/// What is logged from the failure of a group on, in a restore of two groups.
fn logged_from_failure(compositor: &mut Compositor) -> Vec<String> {
    let saved = vec![
        in_group(window("1", "p", 5), &["1", "2"]),
        in_group(window("2", "q", 5), &["1", "2"]),
        in_group(window("3", "r", 5), &["3", "4"]),
        in_group(window("4", "s", 5), &["3", "4"]),
    ];
    compositor.windows =
        ["p", "q", "r", "s"].iter().map(|c| window(&format!("w{}", c), c, 5)).collect();
    assert_eq!(compositor.run(saved), None);
    let failed = compositor.log.iter().position(|l| l.contains("Failed to rebuild")).unwrap();
    compositor.log[failed..].to_vec()
}

#[test]
fn merging_that_was_not_switched_off_is_not_switched_on() {
    let mut compositor = Compositor::new(vec![]);
    compositor.refuse = Some("\"90112\"");
    assert_eq!(
        logged_from_failure(&mut compositor)[..3],
        [
            "   ⚠️ Failed to rebuild group (p): refused \"90112\"",
            "   ⊞ Grouping 2 window(s) (r) on workspace 5",
            "MoveToWorkspace(\"wr\", \"90113\")",
        ]
    );
    let mut compositor = Compositor::new(vec![]);
    compositor.merging = true;
    compositor.refuse = Some("SetMerging(false)");
    assert_eq!(
        logged_from_failure(&mut compositor)[..3],
        [
            "   ⚠️ Failed to rebuild group (p): refused SetMerging(false)",
            "   ⊞ Grouping 2 window(s) (r) on workspace 5",
            "MoveToWorkspace(\"wr\", \"90113\")",
        ]
    );
}

#[test]
fn merging_that_stays_off_is_switched_on_once_more() {
    let mut compositor = Compositor::new(vec![]);
    compositor.merging = true;
    compositor.refuse_apart = Some("SetMerging(true)");
    assert_eq!(
        logged_from_failure(&mut compositor)[..3],
        [
            "   ⚠️ Failed to rebuild group (p): refused SetMerging(true) apart",
            "SetMerging(true)",
            "   ⊞ Grouping 2 window(s) (r) on workspace 5",
        ]
    );
}

#[test]
fn no_groups_where_merging_cannot_be_enabled() {
    let saved = vec![
        in_group(window("1", "x", 5), &["1", "2"]),
        in_group(window("2", "y", 5), &["1", "2"]),
    ];
    let mut compositor = Compositor::new(vec![window("a", "x", 5), window("b", "y", 5)]);
    compositor.refuse = Some("SetMerging");
    assert_eq!(compositor.run(saved), None);
    assert_eq!(
        compositor.log[4..],
        [
            "Phase 3: rebuilding 1 window group(s)...",
            "SetMerging(true)",
            "   ⚠️ Could not enable group_on_movetoworkspace (refused SetMerging); skipping groups",
            "FocusWorkspace(42)",
        ]
    );
}

#[test]
fn a_window_that_cannot_be_placed_ends_the_restore() {
    let mut compositor = Compositor::new(vec![window("a", "x", 1)]);
    compositor.refuse = Some("MoveToWorkspace");
    assert_eq!(
        compositor.run(vec![window("1", "x", 5), window("2", "y", 5)]),
        Some("refused MoveToWorkspace".to_string())
    );
    assert_eq!(compositor.log.len(), 3);
}

#[test]
fn a_launched_window_that_cannot_be_placed_ends_the_restore() {
    let mut compositor = Compositor::new(vec![]);
    compositor.refuse = Some("MoveToWorkspace");
    assert_eq!(
        compositor.run(vec![window("1", "x", 5)]),
        Some("refused MoveToWorkspace".to_string())
    );
}

#[test]
fn a_failed_launch_is_waited_for_all_the_same() {
    let mut compositor = Compositor::new(vec![]);
    compositor.refuse = Some("Exec");
    assert_eq!(compositor.run(vec![window("1", "x", 5)]), None);
    assert_eq!(compositor.clock, 15000);
}

#[test]
fn windows_that_cannot_be_read_end_the_restore() {
    let mut session = restore_session(vec![window("1", "x", 5)]);
    assert_eq!(shown(&mut session, Event::Done), "Capture");
    assert_eq!(shown(&mut session, Event::Failed("no socket".into())), "Finish(Some(\"no socket\"))");
    assert_eq!(shown(&mut session, Event::Done), "Finish(Some(\"no socket\"))");
}

#[test]
fn windows_that_cannot_be_read_again_end_the_restore() {
    let mut session = restore_session(vec![window("1", "x", 5)]);
    session.step(Event::Done);
    session.step(Event::Windows(vec![]));
    let mut request = shown(&mut session, workspace(3));
    while request != "ReadClock" {
        request = shown(&mut session, Event::Done);
    }
    assert_eq!(shown(&mut session, Event::Elapsed(14999)), "Capture");
    assert_eq!(shown(&mut session, Event::Failed("gone".into())), "Finish(Some(\"gone\"))");
}

#[test]
fn the_default_workspace_is_returned_to() {
    let mut session = restore_session(vec![]);
    session.step(Event::Done);
    assert_eq!(shown(&mut session, Event::Windows(vec![])), "ActiveWorkspace");
    assert_eq!(shown(&mut session, Event::Failed("x".into())), "Tell(Relocating)");
    assert_eq!(shown(&mut session, Event::Done), "Tell(NothingToLaunch)");
    assert_eq!(shown(&mut session, Event::Done), "Perform(FocusWorkspace(1))");
    assert_eq!(shown(&mut session, Event::Failed("x".into())), "Finish(None)");
    assert_eq!(shown(&mut session, Event::Done), "Finish(None)");
}

#[test]
fn conditions_are_looked_at_until_time_is_up() {
    let saved = vec![
        in_group(window("1", "x", 5), &["1", "2"]),
        in_group(window("2", "y", 5), &["1", "2"]),
    ];
    let open = || vec![window("a", "x", 5), window("b", "y", 5)];
    let mut session = restore_session(saved);
    session.step(Event::Done);
    session.step(Event::Windows(open()));
    let mut request = shown(&mut session, workspace(3));
    while request != "ReadMerging" {
        request = shown(&mut session, Event::Done);
    }
    assert_eq!(shown(&mut session, Event::Merging(false)), "Perform(SetMerging(true))");
    assert_eq!(shown(&mut session, Event::Done), "Capture");
    assert_eq!(
        shown(&mut session, Event::Windows(open())),
        "Tell(Grouping(2, \"x\", \"workspace 5\"))"
    );
    assert_eq!(shown(&mut session, Event::Done), "Perform(MoveToWorkspace(\"a\", \"90111\"))");
    assert_eq!(shown(&mut session, Event::Done), "StartClock");
    assert_eq!(shown(&mut session, Event::Done), "ReadClock");
    assert_eq!(shown(&mut session, Event::Elapsed(0)), "Capture");
    assert_eq!(shown(&mut session, Event::Windows(open())), "Pause(150)");
    assert_eq!(shown(&mut session, Event::Done), "ReadClock");
    assert_eq!(shown(&mut session, Event::Elapsed(2999)), "Capture");
    assert_eq!(shown(&mut session, Event::Failed("x".into())), "Pause(150)");
    assert_eq!(shown(&mut session, Event::Done), "ReadClock");
    assert_eq!(shown(&mut session, Event::Elapsed(3000)), "Capture");
    assert_eq!(shown(&mut session, Event::Windows(open())), "Perform(FocusWindow(\"a\"))");
    assert_eq!(shown(&mut session, Event::Done), "Capture");
    assert_eq!(shown(&mut session, Event::Failed("x".into())), "Perform(ToggleGroup)");
    assert_eq!(
        shown(&mut session, Event::Failed("no".into())),
        "Tell(RebuildFailed(\"x\", \"no\"))"
    );
    assert_eq!(shown(&mut session, Event::Done), "Perform(SetMerging(false))");
    assert_eq!(shown(&mut session, Event::Done), "Perform(FocusWorkspace(3))");
    assert_eq!(shown(&mut session, Event::Done), "Finish(None)");
}
