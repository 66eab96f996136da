use hyprwpe::catalog::Kind;
use hyprwpe::daemon::{
    handle, media_kind, prepare_set, start, Desk, Effect, Scaling, SetError, Start,
};
use hyprwpe::policy::{PolicyAction, PolicyEngine, PolicyState};
use hyprwpe::protocol::{OutputStatus, Request, Response, Target};

fn desk(is_file: bool) -> Desk {
    Desk {
        is_file,
        known: vec!["DP-1".to_string(), "DP-2".to_string()],
        outputs: vec![OutputStatus {
            name: "DP-1".to_string(),
            width: 1920,
            height: 1080,
            scale: 1,
            wallpaper: None,
            scaling: None,
        }],
        renderers_paused: false,
        rss_kb: Some(2048),
    }
}

fn show(path: &str, target: Target, scaling: &str) -> Request {
    Request::Show {
        path: path.to_string(),
        target,
        scaling: scaling.to_string(),
    }
}

#[test]
fn scaling_names_are_read_back() {
    for (mode, name) in [
        (Scaling::Fill, "fill"),
        (Scaling::Fit, "fit"),
        (Scaling::Stretch, "stretch"),
        (Scaling::Center, "center"),
    ] {
        assert_eq!(mode.as_str(), name);
        assert_eq!(Scaling::parse(name), Some(mode));
    }
    assert_eq!(Scaling::parse("Fill"), None);
}

#[test]
fn a_good_request_is_shown() {
    let mut policy = PolicyEngine::new();
    let (response, effect) = handle(
        &show("/w/a.png", Target::Output("DP-2".to_string()), "fit"),
        &mut policy,
        desk(true),
    );
    assert_eq!(response, Response::Done);
    match effect {
        Effect::Show { target, spec } => {
            assert_eq!(target, Target::Output("DP-2".to_string()));
            assert_eq!(spec.path, "/w/a.png");
            assert_eq!(spec.scaling, Scaling::Fit);
            assert_eq!(spec.kind, Kind::Image);
        }
        other => panic!("wrong effect: {other:?}"),
    }
}

fn refusal(request: &Request, is_file: bool) -> String {
    let mut policy = PolicyEngine::new();
    let (response, effect) = handle(request, &mut policy, desk(is_file));
    assert_eq!(effect, Effect::Nothing);
    assert_eq!(policy.state(), PolicyState::Active);
    match response {
        Response::Error { message } => message,
        other => panic!("wrong response: {other:?}"),
    }
}

#[test]
fn a_bad_request_is_refused_and_changes_nothing() {
    assert_eq!(
        refusal(&show("/w/a.png", Target::All, "fill"), false),
        "/w/a.png is not a readable file"
    );
    assert_eq!(
        refusal(&show("/w/a.png", Target::All, "zoom"), true),
        "unknown scaling mode \"zoom\""
    );
    assert_eq!(
        refusal(&show("/w/a.txt", Target::All, "fill"), true),
        "/w/a.txt is not a wallpaper hyprwpe can render"
    );
    assert_eq!(
        refusal(&show("/w/a.png", Target::Output("HDMI".to_string()), "fill"), true),
        "no output named \"HDMI\"; connected outputs: DP-1, DP-2"
    );
}

#[test]
fn names_are_quoted_as_the_standard_library_does() {
    let odd = "a \"b\" \\ \n é \u{200b}";
    let e = SetError::UnknownScaling {
        scaling: odd.to_string(),
    };
    assert_eq!(e.message(), format!("unknown scaling mode {odd:?}"));
    let none = SetError::UnknownOutput {
        name: "X".to_string(),
        known: vec![],
    };
    assert_eq!(
        none.message(),
        "no output named \"X\"; connected outputs: none"
    );
}

#[test]
fn a_scene_package_can_be_shown() {
    assert_eq!(media_kind("/ws/1/scene.pkg"), Some(Kind::Scene));
    assert_eq!(media_kind("/ws/1/other.pkg"), None);
    assert_eq!(media_kind("/ws/1/a.WEBM"), Some(Kind::Video));
    let (_, spec) = prepare_set("/ws/1/scene.pkg", &Target::All, "fill", true, &vec![]).unwrap();
    assert_eq!(spec.kind, Kind::Scene);
}

#[test]
fn pausing_is_passed_on_to_the_renderers() {
    let mut policy = PolicyEngine::new();
    let (response, effect) = handle(&Request::Pause, &mut policy, desk(false));
    assert_eq!(response, Response::Done);
    assert_eq!(effect, Effect::Act(PolicyAction::Pause));
    assert!(policy.is_manual_paused());
    let (_, effect) = handle(&Request::Resume, &mut policy, desk(false));
    assert_eq!(effect, Effect::Act(PolicyAction::Resume));
    assert!(!policy.is_paused());
}

#[test]
fn status_tells_of_every_pause() {
    let mut policy = PolicyEngine::new();
    let status = |policy: &mut PolicyEngine, paused: bool| {
        let mut d = desk(false);
        d.renderers_paused = paused;
        match handle(&Request::Status, policy, d) {
            (Response::Status(s), Effect::Nothing) => s,
            other => panic!("wrong answer: {other:?}"),
        }
    };
    let s = status(&mut policy, false);
    assert!(!s.paused);
    assert_eq!(s.outputs.len(), 1);
    assert_eq!(s.rss_kb, Some(2048));
    assert!(status(&mut policy, true).paused);
    policy.set_manual_pause(true);
    assert!(status(&mut policy, false).paused);
}

#[test]
fn pings_and_stops_are_answered() {
    let mut policy = PolicyEngine::new();
    assert_eq!(
        handle(&Request::Ping, &mut policy, desk(false)),
        (Response::Done, Effect::Nothing)
    );
    assert_eq!(
        handle(&Request::Stop, &mut policy, desk(false)),
        (Response::Done, Effect::Exit)
    );
}

#[test]
fn a_leftover_socket_is_not_a_daemon() {
    assert_eq!(start(true, true), Start::AlreadyRunning);
    assert_eq!(start(false, true), Start::RemoveStale);
    assert_eq!(start(false, false), Start::Bind);
}
