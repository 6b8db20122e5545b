use hypr_session::ipc::{HyprClient, HyprWorkspaceRef};
use hypr_session::restore::observe::find_window;
use hypr_session::restore::plan::{abandon, decide_group, give_up, regroup};
use hypr_session::restore::{
    client_ws, dissolve_group, existing_group_ws, grouped_count, plan_groups, rebuild_group,
    restore_groups, restore_window_position, BuildStep, Condition, GroupTask, Note,
};

fn tab(address: &str, class: &str, id: i32, grouped: &[&str]) -> HyprClient {
    HyprClient {
        address: address.into(),
        at: [10, -20],
        size: [300, 400],
        workspace: HyprWorkspaceRef { id, name: format!("special:{}", id) },
        class: class.into(),
        title: String::new(),
        initial_class: class.into(),
        initial_title: String::new(),
        floating: false,
        pinned: false,
        monitor: 0,
        fullscreen: 0,
        xwayland: false,
        pid: 1,
        command: None,
        exe_path: None,
        grouped: owned(grouped),
        flatpak: None,
    }
}

fn owned(list: &[&str]) -> Vec<String> {
    list.iter().map(|s| s.to_string()).collect()
}

fn planned(clients: &[HyprClient]) -> Vec<Vec<String>> {
    plan_groups(clients)
        .iter()
        .map(|g| g.iter().map(|c| c.class.clone()).collect())
        .collect()
}

fn task(members: &[&str]) -> GroupTask {
    GroupTask {
        label: "lab".into(),
        place: "workspace 5".into(),
        dest: "5".into(),
        members: owned(members),
    }
}

#[test]
fn groups_are_found_in_tab_order() {
    let clients = [
        tab("1", "a", 1, &["2", "1"]),
        tab("2", "b", 1, &["1", "2"]),
        tab("3", "c", 1, &[]),
        tab("4", "d", 1, &["4"]),
        tab("5", "e", 1, &["5", "6", "gone"]),
        tab("6", "f", 1, &["5", "6", "gone"]),
        tab("7", "g", 1, &["7", "gone"]),
    ];
    assert_eq!(planned(&clients), vec![owned(&["b", "a"]), owned(&["e", "f"])]);
    assert!(planned(&[]).is_empty());
}

#[test]
fn the_last_window_with_an_address_counts() {
    let clients = [
        tab("1", "old", 1, &[]),
        tab("1", "new", 1, &["1", "2"]),
        tab("2", "b", 1, &["1", "2"]),
    ];
    assert_eq!(planned(&clients), vec![owned(&["new", "b"])]);
}

#[test]
fn commas_do_not_confuse_groups() {
    let clients = [
        tab("a,b", "x", 1, &["a,b", "c"]),
        tab("c", "y", 1, &["a,b", "c"]),
        tab("a", "z", 1, &["a", "b,c"]),
        tab("b,c", "w", 1, &["a", "b,c"]),
    ];
    assert_eq!(planned(&clients), vec![owned(&["x", "y"]), owned(&["z", "w"])]);
}

#[test]
fn windows_are_observed() {
    let open = vec![
        tab("1", "a", 3, &["1", "2"]),
        tab("2", "b", -9, &[]),
        tab("2", "later", 4, &["x"]),
    ];
    assert_eq!(find_window(&open, "2").map(|c| c.class.as_str()), Some("b"));
    assert!(find_window(&open, "3").is_none());
    assert_eq!(grouped_count(Some(&open), "1"), 2);
    assert_eq!(grouped_count(Some(&open), "2"), 0);
    assert_eq!(grouped_count(Some(&open), "3"), 0);
    assert_eq!(grouped_count(None, "1"), 0);
    assert_eq!(client_ws(Some(&open), "1"), Some("3".to_string()));
    assert_eq!(client_ws(Some(&open), "2"), Some("special:-9".to_string()));
    assert_eq!(client_ws(Some(&open), "3"), None);
    assert_eq!(client_ws(None, "1"), None);
}

#[test]
fn intact_groups_are_recognised() {
    let open = vec![tab("1", "a", 3, &["1", "2"]), tab("2", "b", 3, &["1", "2"])];
    assert_eq!(existing_group_ws(Some(&open), &owned(&["1", "2"])), Some("3".to_string()));
    assert_eq!(existing_group_ws(Some(&open), &owned(&["2", "1"])), Some("3".to_string()));
    assert_eq!(existing_group_ws(Some(&open), &owned(&["1", "2", "1"])), Some("3".to_string()));
    assert_eq!(existing_group_ws(Some(&open), &owned(&["1"])), None);
    assert_eq!(existing_group_ws(Some(&open), &owned(&["1", "2", "3"])), None);
    assert_eq!(existing_group_ws(Some(&open), &owned(&["3", "1"])), None);
    assert_eq!(existing_group_ws(None, &owned(&["1", "2"])), None);
}

#[test]
fn conditions_hold() {
    let open = vec![tab("1", "a", 3, &["1", "2"])];
    let w = || "1".to_string();
    assert!(Condition::OnWorkspace(w(), "3".into()).holds(Some(&open)));
    assert!(!Condition::OnWorkspace(w(), "4".into()).holds(Some(&open)));
    assert!(!Condition::OnWorkspace(w(), "3".into()).holds(None));
    assert!(Condition::GroupAtMost(w(), 2).holds(Some(&open)));
    assert!(!Condition::GroupAtMost(w(), 1).holds(Some(&open)));
    assert!(Condition::GroupAtMost(w(), 1).holds(None));
    assert!(Condition::GroupAtLeast(w(), 2).holds(Some(&open)));
    assert!(!Condition::GroupAtLeast(w(), 3).holds(Some(&open)));
    assert!(Condition::GroupAbove(w(), 1).holds(Some(&open)));
    assert!(!Condition::GroupAbove(w(), 2).holds(Some(&open)));
}

#[test]
fn rebuilding_goes_through_a_workspace_of_its_own() {
    let steps = rebuild_group(&owned(&["1", "2"]), 90111, "special:m");
    let wanted = [
        "Act(MoveToWorkspace(\"1\", \"90111\"))",
        "Await(OnWorkspace(\"1\", \"90111\"), 3000)",
        "Dissolve(\"1\")",
        "Act(FocusWindow(\"1\"))",
        "StartGroup(\"1\")",
        "Dissolve(\"2\")",
        "Act(MoveToWorkspace(\"2\", \"90112\"))",
        "Await(OnWorkspace(\"2\", \"90112\"), 3000)",
        "Act(FocusWindow(\"1\"))",
        "Join(\"2\", \"1\", \"90111\")",
        "Act(SetMerging(false))",
        "Act(FocusWindow(\"1\"))",
        "Act(MoveToWorkspace(\"1\", \"special:m\"))",
        "Settle(300)",
        "Act(SetMerging(true))",
    ];
    assert_eq!(steps.iter().map(|s| format!("{:?}", s)).collect::<Vec<_>>(), wanted);
}

#[test]
fn only_real_groups_are_dissolved() {
    assert!(dissolve_group("1", 0).is_empty());
    assert!(dissolve_group("1", 1).is_empty());
    assert_eq!(
        format!("{:?}", dissolve_group("1", 2)),
        "[Act(FocusWindow(\"1\")), Act(ToggleGroup), Await(GroupAtMost(\"1\", 1), 2000)]"
    );
}

#[test]
fn steps_are_resolved_by_what_is_open() {
    let open = vec![tab("1", "a", 3, &["1", "2"])];
    let start = || BuildStep::StartGroup("1".into());
    assert_eq!(start().count(Some(&open)), 2);
    assert_eq!(start().count(None), 0);
    assert!(start().resolve(1).is_empty());
    assert_eq!(
        format!("{:?}", start().resolve(0)),
        "[Act(ToggleGroup), Await(GroupAtLeast(\"1\", 1), 2000)]"
    );
    let join = BuildStep::Join("2".into(), "1".into(), "90111".into());
    assert_eq!(join.count(Some(&open)), 2);
    assert_eq!(
        format!("{:?}", join.resolve(2)),
        "[Act(MoveToWorkspace(\"2\", \"90111\")), Await(GroupAbove(\"1\", 2), 3000)]"
    );
    let dissolve = BuildStep::Dissolve("1".into());
    assert_eq!(dissolve.count(Some(&open)), 2);
    assert_eq!(dissolve.resolve(2).len(), 3);
    let settle = BuildStep::Settle(7);
    assert_eq!(settle.count(Some(&open)), 0);
    assert_eq!(format!("{:?}", settle.resolve(0)), "[Settle(7)]");
}

#[test]
fn intact_group_in_place_is_left_alone() {
    let open = vec![tab("1", "a", 5, &["1", "2"])];
    let (steps, anew) = decide_group(&task(&["1", "2"]), Some(&open), 90111);
    assert!(!anew);
    assert_eq!(format!("{:?}", steps), "[Tell(Intact(\"lab\", \"workspace 5\"))]");
}

#[test]
fn intact_group_elsewhere_is_moved_whole() {
    let open = vec![tab("1", "a", 6, &["2", "1"])];
    let (steps, anew) = decide_group(&task(&["1", "2"]), Some(&open), 90111);
    assert!(!anew);
    assert_eq!(
        format!("{:?}", steps),
        "[Tell(Relocated(\"lab\", \"workspace 5\")), Try(SetMerging(false)), \
         Try(FocusWindow(\"1\")), Try(MoveToWorkspace(\"1\", \"5\")), Pause(300), \
         Try(SetMerging(true))]"
    );
}

#[test]
fn any_other_group_is_rebuilt() {
    let open = vec![tab("1", "a", 5, &["1", "2", "3"])];
    for windows in [Some(&open), None] {
        let (steps, anew) = decide_group(&task(&["1", "2"]), windows, 90113);
        assert!(anew);
        assert_eq!(steps.len(), 16);
        assert_eq!(format!("{:?}", steps[0]), "Tell(Grouping(2, \"lab\", \"workspace 5\"))");
        assert_eq!(
            format!("{:?}", steps[1]),
            "Build(Act(MoveToWorkspace(\"1\", \"90113\")))"
        );
    }
}

#[test]
fn groups_need_two_windows() {
    let steps = restore_groups(vec![task(&["1"]), task(&["1", "2"])], true);
    assert_eq!(steps.len(), 3);
    assert_eq!(format!("{:?}", steps[0]), "Tell(TooFew(\"lab\"))");
    assert!(format!("{:?}", steps[1]).starts_with("Group("));
    assert_eq!(format!("{:?}", steps[2]), "Try(SetMerging(true))");
    assert!(regroup(vec![]).is_empty());
    assert_eq!(format!("{:?}", regroup(vec![task(&["1"])])[0]), "Tell(Rebuilding(1))");
}

#[test]
fn an_abandoned_group_leaves_merging_on() {
    assert_eq!(
        format!("{:?}", abandon("lab".into(), "why".into(), true)),
        "[Tell(RebuildFailed(\"lab\", \"why\")), Try(SetMerging(true))]"
    );
    assert_eq!(
        format!("{:?}", abandon("lab".into(), "why".into(), false)),
        "[Tell(RebuildFailed(\"lab\", \"why\"))]"
    );
}

#[test]
fn giving_up_names_the_windows() {
    let saved = [tab("1", "a", 1, &[]), tab("2", "b", 1, &[])];
    assert_eq!(
        format!("{:?}", give_up(&saved, &vec![1, 0])),
        "[Tell(GaveUp(\"b\")), Tell(GaveUp(\"a\"))]"
    );
}

#[test]
fn positions_of_floating_and_tiled_windows() {
    let open = tab("0xa", "a", 1, &[]);
    let mut saved = tab("9", "a", 1, &[]);
    let shown = |open: &HyprClient, saved: &HyprClient| {
        format!("{:?}", restore_window_position(open, saved))
    };
    assert_eq!(shown(&open, &saved), "[]");
    saved.floating = true;
    assert_eq!(
        shown(&open, &saved),
        "[ToggleFloating(\"0xa\"), MovePixel(\"0xa\", 10, -20), ResizePixel(\"0xa\", 300, 400)]"
    );
    let mut floating = open.clone();
    floating.floating = true;
    assert_eq!(
        shown(&floating, &saved),
        "[MovePixel(\"0xa\", 10, -20), ResizePixel(\"0xa\", 300, 400)]"
    );
    saved.floating = false;
    saved.workspace.id = 7;
    assert_eq!(
        shown(&floating, &saved),
        "[MoveToWorkspace(\"0xa\", \"7\"), ToggleFloating(\"0xa\")]"
    );
    saved.workspace = HyprWorkspaceRef { id: -98, name: "special:magic".into() };
    assert_eq!(shown(&open, &saved), "[MoveToWorkspace(\"0xa\", \"special:magic\")]");
}

#[test]
fn notes_are_worded() {
    let s = |t: &str| t.to_string();
    let notes = [
        (Note::Relocating, false, "Phase 1: relocating already-open windows..."),
        (Note::Moving(s("c"), s("p")), false, "   ↪ Moving c → p"),
        (
            Note::NothingToLaunch,
            false,
            "Phase 2: nothing to launch — every saved window was already open.",
        ),
        (Note::LaunchingMissing(12), false, "Phase 2: launching 12 missing window(s)..."),
        (Note::Launching(s("x -y")), false, "   ⤷ Launching: x -y"),
        (Note::Positioned(s("c")), false, "   ✓ Positioned c"),
        (
            Note::GaveUp(s("c")),
            true,
            "   ⚠️ Gave up waiting for c to appear (it may still open later)",
        ),
        (Note::Rebuilding(3), false, "Phase 3: rebuilding 3 window group(s)..."),
        (
            Note::CannotMerge(s("r")),
            true,
            "   ⚠️ Could not enable group_on_movetoworkspace (r); skipping groups",
        ),
        (Note::TooFew(s("l")), true, "   ⚠️ Group (l) has fewer than 2 live members; skipping"),
        (
            Note::Intact(s("l"), s("p")),
            false,
            "   = Group (l) already intact on p; leaving as-is",
        ),
        (Note::Relocated(s("l"), s("p")), false, "   ↪ Group (l) intact; moving to p"),
        (Note::Grouping(2, s("l"), s("p")), false, "   ⊞ Grouping 2 window(s) (l) on p"),
        (Note::RebuildFailed(s("l"), s("r")), true, "   ⚠️ Failed to rebuild group (l): r"),
    ];
    for (note, warning, line) in notes {
        assert_eq!(note.line(), line);
        assert_eq!(note.is_warning(), warning);
    }
}
