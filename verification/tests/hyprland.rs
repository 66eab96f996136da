use hyprwpe::hyprland::{
    parse_event, socket2_path, socket_path, ClientReport, EventReader, HyprEvent, LineRead,
    MonitorReport, OcclusionTracker,
};
use hyprwpe::json::parse_json;

#[test]
fn parse_fullscreen_on() {
    let e = parse_event("fullscreen>>1").unwrap();
    assert!(matches!(e, HyprEvent::Fullscreen(true)));
}

#[test]
fn parse_fullscreen_off() {
    let e = parse_event("fullscreen>>0").unwrap();
    assert!(matches!(e, HyprEvent::Fullscreen(false)));
}

#[test]
fn parse_workspace() {
    let e = parse_event("workspace>>3").unwrap();
    assert!(matches!(e, HyprEvent::Workspace(ref n) if n == "3"));
}

#[test]
fn parse_openwindow() {
    let e = parse_event("openwindow>>0x1234,2,kitty,Terminal").unwrap();
    match e {
        HyprEvent::OpenWindow {
            address,
            workspace,
            class,
            title,
        } => {
            assert_eq!(address, "0x1234");
            assert_eq!(workspace, "2");
            assert_eq!(class, "kitty");
            assert_eq!(title, "Terminal");
        }
        _ => panic!("wrong variant"),
    }
}

#[test]
fn parse_closewindow() {
    let e = parse_event("closewindow>>0x1234").unwrap();
    assert!(matches!(e, HyprEvent::CloseWindow { address } if address == "0x1234"));
}

#[test]
fn parse_movewindow() {
    let e = parse_event("movewindow>>0x1234,3").unwrap();
    match e {
        HyprEvent::MoveWindow {
            address,
            workspace,
        } => {
            assert_eq!(address, "0x1234");
            assert_eq!(workspace, "3");
        }
        _ => panic!("wrong variant"),
    }
}

#[test]
fn parse_focusedmon() {
    let e = parse_event("focusedmon>>DP-2,1").unwrap();
    match e {
        HyprEvent::FocusedMon { name, workspace } => {
            assert_eq!(name, "DP-2");
            assert_eq!(workspace, "1");
        }
        _ => panic!("wrong variant"),
    }
}

#[test]
fn unknown_event_is_none() {
    assert!(parse_event("somethingelse>>data").is_none());
}

#[test]
fn empty_line_is_none() {
    assert!(parse_event("").is_none());
}

#[test]
fn parse_fullscreen_mode2() {
    let e = parse_event("fullscreen>>2").unwrap();
    assert!(matches!(e, HyprEvent::Fullscreen(true)));
}

#[test]
fn parse_lockscreen() {
    let on = parse_event("lockscreen>>1").unwrap();
    assert!(matches!(on, HyprEvent::Lock(true)));
    let off = parse_event("lockscreen>>0").unwrap();
    assert!(matches!(off, HyprEvent::Lock(false)));
}

#[test]
fn parse_dpms() {
    let off = parse_event("dpms>>0").unwrap();
    assert!(matches!(off, HyprEvent::Dpms(false)));
    let on = parse_event("dpms>>1").unwrap();
    assert!(matches!(on, HyprEvent::Dpms(true)));
}

#[test]
fn occlusion_tracker_single_monitor() {
    let mut tracker = OcclusionTracker::new();
    tracker.handle_event(&HyprEvent::FocusedMon {
        name: "DP-2".into(),
        workspace: "1".into(),
    });
    assert!(!tracker.is_all_occluded());

    // Fullscreen on workspace 1 -> occluded
    tracker.handle_event(&HyprEvent::Fullscreen(true));
    assert!(tracker.is_all_occluded());

    // Switch to empty workspace 2 -> visible
    tracker.handle_event(&HyprEvent::Workspace("2".into()));
    assert!(!tracker.is_all_occluded());

    // Switch back to workspace 1 -> occluded again
    tracker.handle_event(&HyprEvent::Workspace("1".into()));
    assert!(tracker.is_all_occluded());

    // Exit fullscreen -> visible
    tracker.handle_event(&HyprEvent::Fullscreen(false));
    assert!(!tracker.is_all_occluded());
}

#[test]
fn occlusion_tracker_multi_monitor() {
    let mut tracker = OcclusionTracker::new();
    tracker.handle_event(&HyprEvent::FocusedMon {
        name: "DP-2".into(),
        workspace: "1".into(),
    });
    tracker.handle_event(&HyprEvent::FocusedMon {
        name: "eDP-1".into(),
        workspace: "2".into(),
    });

    // Fullscreen on eDP-1 (currently focused) -> DP-2 is still visible!
    tracker.handle_event(&HyprEvent::Fullscreen(true));
    assert!(!tracker.is_all_occluded());

    // Now focus DP-2 and fullscreen it as well -> both occluded!
    tracker.handle_event(&HyprEvent::FocusedMon {
        name: "DP-2".into(),
        workspace: "1".into(),
    });
    tracker.handle_event(&HyprEvent::Fullscreen(true));
    assert!(tracker.is_all_occluded());

    // eDP-1 exits fullscreen -> background visible on eDP-1
    tracker.handle_event(&HyprEvent::FocusedMon {
        name: "eDP-1".into(),
        workspace: "2".into(),
    });
    tracker.handle_event(&HyprEvent::Fullscreen(false));
    assert!(!tracker.is_all_occluded());
}

#[test]
fn occlusion_tracker_lock_and_dpms() {
    let mut tracker = OcclusionTracker::new();
    tracker.handle_event(&HyprEvent::FocusedMon {
        name: "DP-2".into(),
        workspace: "1".into(),
    });
    assert!(!tracker.is_all_occluded());

    // DPMS off -> occluded
    tracker.handle_event(&HyprEvent::Dpms(false));
    assert!(tracker.is_all_occluded());
    tracker.handle_event(&HyprEvent::Dpms(true));
    assert!(!tracker.is_all_occluded());

    // Lockscreen on -> occluded
    tracker.handle_event(&HyprEvent::Lock(true));
    assert!(tracker.is_all_occluded());
    tracker.handle_event(&HyprEvent::Lock(false));
    assert!(!tracker.is_all_occluded());
}

#[test]
fn socket_path_shape() {
    let runtime = Some("/run/user/1000".to_string());
    let instance = Some("abc".to_string());
    assert_eq!(
        socket_path(&runtime, &instance).as_deref(),
        Some("/run/user/1000/hypr/abc/.socket.sock")
    );
    assert_eq!(
        socket2_path(&runtime, &instance).as_deref(),
        Some("/run/user/1000/hypr/abc/.socket2.sock")
    );
    assert_eq!(socket_path(&None, &instance), None);
    assert_eq!(socket2_path(&runtime, &None), None);
}

fn focus(name: &str, workspace: &str) -> HyprEvent {
    HyprEvent::FocusedMon {
        name: name.to_string(),
        workspace: workspace.to_string(),
    }
}

fn line(s: &str) -> LineRead {
    LineRead::Line(s.to_string())
}

#[test]
fn available_lines_are_read_until_there_are_none() {
    let mut reader = EventReader::new();
    let events = reader.poll(&vec![
        line("fullscreen>>1\n"),
        line("nonsense>>x\n"),
        line("workspace>>4\n"),
        LineRead::Pending,
    ]);
    assert_eq!(
        events,
        vec![
            HyprEvent::Fullscreen(true),
            HyprEvent::Workspace("4".to_string())
        ]
    );
    assert!(!reader.is_eof());
    let events = reader.poll(&vec![line("dpms>>0\n"), LineRead::Closed]);
    assert_eq!(events, vec![HyprEvent::Dpms(false)]);
    assert!(reader.is_eof());
    assert!(reader.poll(&vec![line("dpms>>1\n")]).is_empty());
}

#[test]
fn a_failed_read_ends_the_stream() {
    let mut reader = EventReader::new();
    assert!(reader.poll(&vec![LineRead::Failed]).is_empty());
    assert!(reader.is_eof());
}

#[test]
fn a_window_title_keeps_its_commas() {
    let e = parse_event("openwindow>>0x1,2,kitty,a, b, c ").unwrap();
    assert_eq!(
        e,
        HyprEvent::OpenWindow {
            address: "0x1".to_string(),
            workspace: "2".to_string(),
            class: "kitty".to_string(),
            title: "a, b, c".to_string(),
        }
    );
    assert_eq!(parse_event("openwindow>>0x1,2"), None);
    assert_eq!(parse_event("movewindow>>0x1"), None);
}

#[test]
fn reports_say_what_is_visible() {
    let mut tracker = OcclusionTracker::new();
    let monitors = Some(vec![
        MonitorReport {
            name: "DP-2".to_string(),
            active_workspace: "1".to_string(),
            focused: true,
        },
        MonitorReport {
            name: "eDP-1".to_string(),
            active_workspace: "2".to_string(),
            focused: false,
        },
    ]);
    let one = Some(vec![ClientReport {
        workspace: "1".to_string(),
        fullscreen: parse_json("2").unwrap(),
    }]);
    tracker.sync_from_hyprland(&monitors, &one);
    assert_eq!(tracker.monitors().len(), 2);
    assert!(!tracker.is_all_occluded());
    let both = Some(vec![
        ClientReport {
            workspace: "1".to_string(),
            fullscreen: parse_json("true").unwrap(),
        },
        ClientReport {
            workspace: "2".to_string(),
            fullscreen: parse_json("1").unwrap(),
        },
        ClientReport {
            workspace: "3".to_string(),
            fullscreen: parse_json("0").unwrap(),
        },
    ]);
    tracker.sync_from_hyprland(&monitors, &both);
    assert!(tracker.is_all_occluded());
}

#[test]
fn locking_and_sleep_are_told_apart() {
    let mut tracker = OcclusionTracker::new();
    tracker.handle_event(&HyprEvent::Lock(true));
    assert!(tracker.is_locked() && !tracker.is_dpms_off());
    tracker.handle_event(&HyprEvent::Lock(false));
    tracker.handle_event(&HyprEvent::Dpms(false));
    assert!(!tracker.is_locked() && tracker.is_dpms_off());
}

#[test]
fn a_fullscreen_window_on_one_monitor_leaves_the_others_alone() {
    let mut tracker = OcclusionTracker::new();
    tracker.handle_event(&focus("A", "1"));
    tracker.handle_event(&focus("B", "2"));
    tracker.handle_event(&HyprEvent::Fullscreen(true));
    assert!(tracker.monitors().get("A").unwrap().fullscreen_workspaces.is_empty());
    assert!(tracker
        .monitors()
        .get("B")
        .unwrap()
        .fullscreen_workspaces
        .contains_key("2"));
}

#[test]
fn a_removed_monitor_gives_the_focus_to_another() {
    let mut tracker = OcclusionTracker::new();
    tracker.handle_event(&focus("A", "1"));
    tracker.handle_event(&focus("B", "2"));
    tracker.handle_event(&HyprEvent::MonitorRemoved("B".to_string()));
    assert_eq!(tracker.monitors().len(), 1);
    // The next fullscreen window is on the one that is left.
    tracker.handle_event(&HyprEvent::Fullscreen(true));
    assert!(tracker.is_all_occluded());
}

#[test]
fn the_terminator_of_a_line_is_no_data() {
    for line in [
        "openwindow>>a,1,kitty",
        "openwindow>>a,1,kitty,A title, with commas",
        "workspace>>2",
        "movewindow>>a,2",
        "nonsense",
    ] {
        let bare = format!("{:?}", parse_event(line));
        assert_eq!(format!("{:?}", parse_event(&format!("{line}\n"))), bare);
        assert_eq!(format!("{:?}", parse_event(&format!("{line}\r\n"))), bare);
    }
    match parse_event("openwindow>>a,1,kitty\n") {
        Some(HyprEvent::OpenWindow { class, title, .. }) => {
            assert_eq!(class, "kitty");
            assert_eq!(title, "");
        }
        _ => panic!("an opened window"),
    }
}

fn shown(name: &str, workspace: &str) -> MonitorReport {
    MonitorReport {
        name: name.to_string(),
        active_workspace: workspace.to_string(),
        focused: false,
    }
}

fn covering(workspace: &str) -> ClientReport {
    ClientReport {
        workspace: workspace.to_string(),
        fullscreen: parse_json("true").unwrap(),
    }
}

#[test]
fn a_fullscreen_window_counts_on_a_workspace_that_is_not_shown() {
    let mut tracker = OcclusionTracker::new();
    tracker.sync_from_hyprland(
        &Some(vec![shown("DP-1", "1")]),
        &Some(vec![covering("2")]),
    );
    let covered = &tracker.monitors().get("DP-1").unwrap().fullscreen_workspaces;
    assert_eq!(covered.len(), 1);
    assert!(covered.contains_key("2"));
    assert!(!tracker.is_all_occluded());
    tracker.handle_event(&focus("DP-1", "2"));
    assert!(tracker.is_all_occluded());
}

#[test]
fn a_workspace_that_is_shown_is_on_the_monitor_that_shows_it() {
    let mut tracker = OcclusionTracker::new();
    tracker.sync_from_hyprland(
        &Some(vec![shown("DP-1", "1"), shown("DP-2", "2")]),
        &Some(vec![covering("2")]),
    );
    let covered = |name: &str| tracker.monitors().get(name).unwrap().fullscreen_workspaces.len();
    assert_eq!(covered("DP-1"), 0);
    assert_eq!(covered("DP-2"), 1);
}

#[test]
fn a_hidden_workspace_is_on_no_one_of_several_monitors() {
    let mut tracker = OcclusionTracker::new();
    tracker.sync_from_hyprland(
        &Some(vec![shown("DP-1", "1"), shown("DP-2", "2")]),
        &Some(vec![covering("3")]),
    );
    let covered = |name: &str| tracker.monitors().get(name).unwrap().fullscreen_workspaces.len();
    assert_eq!(covered("DP-1"), 0);
    assert_eq!(covered("DP-2"), 0);
    tracker.handle_event(&focus("DP-1", "3"));
    assert!(!tracker.is_all_occluded());
}
