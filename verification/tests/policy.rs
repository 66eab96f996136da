use hyprwpe::hyprland::HyprEvent;
use hyprwpe::policy::{PolicyAction, PolicyEngine, PolicyState};

/// Times and delays are in nanoseconds.
fn millis(n: u64) -> u64 {
    n * 1_000_000
}

#[test]
fn hysteresis_prevents_thrashing_on_quick_switch() {
    let now: u64 = 7_000_000_000;
    let mut policy = PolicyEngine::with_delay(millis(1500));
    policy.handle_event_at(
        &HyprEvent::FocusedMon {
            name: "DP-2".into(),
            workspace: "1".into(),
        },
        now,
    );

    // Window becomes fullscreen on workspace 1
    assert_eq!(
        policy.handle_event_at(&HyprEvent::Fullscreen(true), now),
        PolicyAction::Nothing
    );
    assert_eq!(policy.state(), PolicyState::Active);
    assert!(policy.pending_timeout_at(now).is_some());

    // Switch to workspace 2 quickly at now + 300ms
    let t_switch = now + millis(300);
    assert_eq!(
        policy.handle_event_at(&HyprEvent::Workspace("2".into()), t_switch),
        PolicyAction::Nothing
    );
    assert_eq!(policy.state(), PolicyState::Active);
    assert_eq!(policy.pending_timeout_at(t_switch), None);

    // Tick past the 1500ms delay -> still Active, no pause occurred!
    assert_eq!(
        policy.tick_at(now + millis(1600)),
        PolicyAction::Nothing
    );
    assert_eq!(policy.state(), PolicyState::Active);
}

#[test]
fn continuous_occlusion_triggers_suspend_and_instant_resume() {
    let now: u64 = 7_000_000_000;
    let mut policy = PolicyEngine::with_delay(millis(1500));
    policy.handle_event_at(
        &HyprEvent::FocusedMon {
            name: "DP-2".into(),
            workspace: "1".into(),
        },
        now,
    );

    // Fullscreen at now
    assert_eq!(
        policy.handle_event_at(&HyprEvent::Fullscreen(true), now),
        PolicyAction::Nothing
    );

    // Advance time past threshold (1500ms)
    let action = policy.tick_at(now + millis(1501));
    assert_eq!(action, PolicyAction::Pause);
    assert_eq!(policy.state(), PolicyState::Suspended);

    // Leaving fullscreen resumes instantly (zero delay)
    let action =
        policy.handle_event_at(&HyprEvent::Fullscreen(false), now + millis(2000));
    assert_eq!(action, PolicyAction::Resume);
    assert_eq!(policy.state(), PolicyState::Active);
}

#[test]
fn lock_and_dpms_suspend_immediately() {
    let mut policy = PolicyEngine::with_delay(millis(1500));
    policy.handle_event_at(
        &HyprEvent::FocusedMon {
            name: "DP-2".into(),
            workspace: "1".into(),
        },
        0,
    );

    // Lockscreen suspends immediately without hysteresis delay
    let action = policy.handle_event_at(&HyprEvent::Lock(true), 0);
    assert_eq!(action, PolicyAction::Pause);
    assert_eq!(policy.state(), PolicyState::Suspended);

    // Unlock resumes immediately
    let action = policy.handle_event_at(&HyprEvent::Lock(false), 0);
    assert_eq!(action, PolicyAction::Resume);
    assert_eq!(policy.state(), PolicyState::Active);

    // DPMS display off suspends immediately
    let action = policy.handle_event_at(&HyprEvent::Dpms(false), 0);
    assert_eq!(action, PolicyAction::Pause);
    assert_eq!(policy.state(), PolicyState::Suspended);

    // DPMS display on resumes immediately
    let action = policy.handle_event_at(&HyprEvent::Dpms(true), 0);
    assert_eq!(action, PolicyAction::Resume);
    assert_eq!(policy.state(), PolicyState::Active);
}

#[test]
fn manual_pause_overrides_compositor_events() {
    let mut policy = PolicyEngine::new();
    policy.handle_event_at(
        &HyprEvent::FocusedMon {
            name: "DP-2".into(),
            workspace: "1".into(),
        },
        0,
    );

    assert_eq!(policy.set_manual_pause(true), PolicyAction::Pause);
    assert_eq!(policy.state(), PolicyState::Suspended);
    assert!(policy.is_manual_paused());

    // Event arriving while manually paused must NOT resume
    assert_eq!(
        policy.handle_event_at(&HyprEvent::Workspace("2".into()), 0),
        PolicyAction::Nothing
    );
    assert_eq!(policy.state(), PolicyState::Suspended);

    // Manual resume restores Active
    assert_eq!(policy.set_manual_pause(false), PolicyAction::Resume);
    assert_eq!(policy.state(), PolicyState::Active);
    assert!(!policy.is_manual_paused());
}

/// Cover the one monitor at the beginning of time, and say how long it then takes.
fn delay_of(policy: &mut PolicyEngine) -> Option<u64> {
    policy.handle_event_at(
        &HyprEvent::FocusedMon {
            name: "A".to_string(),
            workspace: "1".to_string(),
        },
        0,
    );
    policy.handle_event_at(&HyprEvent::Fullscreen(true), 0);
    policy.pending_timeout_at(0)
}

#[test]
fn the_default_delay_is_a_second_and_a_half() {
    assert_eq!(delay_of(&mut PolicyEngine::new()), Some(millis(1500)));
    assert_eq!(delay_of(&mut PolicyEngine::default()), Some(millis(1500)));
    assert_eq!(delay_of(&mut PolicyEngine::with_delay(millis(20))), Some(millis(20)));
}

#[test]
fn a_delay_can_follow_any_point_in_time() {
    let mut policy = PolicyEngine::with_delay(u64::MAX);
    policy.handle_event_at(
        &HyprEvent::FocusedMon {
            name: "A".to_string(),
            workspace: "1".to_string(),
        },
        u64::MAX,
    );
    let action = policy.handle_event_at(&HyprEvent::Fullscreen(true), u64::MAX);
    assert_eq!(action, PolicyAction::Nothing);
    assert_eq!(policy.pending_timeout_at(u64::MAX), Some(u64::MAX));
    assert_eq!(policy.pending_timeout_at(0), Some(u64::MAX));
    assert_eq!(policy.tick_at(u64::MAX), PolicyAction::Nothing);
}

#[test]
fn the_timeout_counts_down_to_the_deadline() {
    let mut policy = PolicyEngine::with_delay(millis(1000));
    policy.handle_event_at(
        &HyprEvent::FocusedMon {
            name: "A".to_string(),
            workspace: "1".to_string(),
        },
        0,
    );
    policy.handle_event_at(&HyprEvent::Fullscreen(true), millis(100));
    assert_eq!(policy.pending_timeout_at(millis(400)), Some(millis(700)));
    assert_eq!(policy.pending_timeout_at(millis(5000)), Some(0));
    assert_eq!(policy.tick_at(millis(1099)), PolicyAction::Nothing);
    assert_eq!(policy.tick_at(millis(1100)), PolicyAction::Pause);
    assert_eq!(policy.pending_timeout_at(millis(1100)), None);
    assert!(policy.is_paused());
}

#[test]
fn pausing_twice_asks_once() {
    let mut policy = PolicyEngine::new();
    assert_eq!(policy.set_manual_pause(true), PolicyAction::Pause);
    assert_eq!(policy.set_manual_pause(true), PolicyAction::Nothing);
    assert_eq!(policy.set_manual_pause(false), PolicyAction::Resume);
}

#[test]
fn what_is_reported_at_the_start_counts() {
    let mut policy = PolicyEngine::with_delay(millis(1000));
    policy.sync_from_hyprland(&None, &None, 0);
    assert!(policy.tracker().monitors().is_empty());
    assert_eq!(policy.reconcile(0), PolicyAction::Nothing);
    assert_eq!(policy.state(), PolicyState::Active);
}

#[test]
fn renderers_stand_still_exactly_while_suspended() {
    let mut policy = PolicyEngine::with_delay(millis(100));
    let mut still = false;
    let mut follow = |policy: &PolicyEngine, action: PolicyAction| {
        match action {
            PolicyAction::Nothing => {}
            PolicyAction::Pause => still = true,
            PolicyAction::Resume => still = false,
        }
        assert_eq!(still, policy.state() == PolicyState::Suspended);
        still
    };
    let focused = HyprEvent::FocusedMon {
        name: "DP-1".into(),
        workspace: "1".into(),
    };
    let action = policy.handle_event_at(&focused, millis(0));
    assert!(!follow(&policy, action));
    let action = policy.handle_event_at(&HyprEvent::Fullscreen(true), millis(10));
    assert!(!follow(&policy, action));
    let action = policy.tick_at(millis(200));
    assert!(follow(&policy, action));
    let action = policy.set_manual_pause(true);
    assert!(follow(&policy, action));
    let action = policy.handle_event_at(&HyprEvent::Fullscreen(false), millis(300));
    assert!(follow(&policy, action));
    let action = policy.set_manual_pause(false);
    assert!(!follow(&policy, action));
    let action = policy.handle_event_at(&HyprEvent::Lock(true), millis(400));
    assert!(follow(&policy, action));
    let action = policy.handle_event_at(&HyprEvent::Lock(false), millis(500));
    assert!(!follow(&policy, action));
}

#[test]
fn a_manual_pause_holds_against_reconciling_and_reports() {
    let mut policy = PolicyEngine::new();
    let focused = HyprEvent::FocusedMon {
        name: "DP-2".into(),
        workspace: "1".into(),
    };
    policy.handle_event_at(&focused, millis(0));
    assert_eq!(policy.set_manual_pause(true), PolicyAction::Pause);
    assert_eq!(policy.reconcile(millis(10)), PolicyAction::Nothing);
    assert_eq!(policy.state(), PolicyState::Suspended);
    policy.sync_from_hyprland(&None, &None, millis(20));
    assert_eq!(policy.state(), PolicyState::Suspended);
    assert_eq!(policy.set_manual_pause(false), PolicyAction::Resume);
}
