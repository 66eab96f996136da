use hyprwpe::catalog::Source;
use hyprwpe::json::{parse_json, Json};
use hyprwpe::properties::{PropertyKind, PropertySet};
use hyprwpe::settings::{
    check_property, config_path, expand, state_path, Assignment, Config, General, PropertyError,
    SourceConfig, State,
};
use hyprwpe::strmap::StrMap;

fn json(s: &str) -> Json {
    parse_json(s).unwrap()
}

fn text(s: &str) -> Option<String> {
    Some(s.to_string())
}

fn set_of(paths: &[&str]) -> StrMap<()> {
    let mut out = StrMap::new();
    for p in paths {
        out.insert(p.to_string(), ());
    }
    out
}

fn assignment(path: &str) -> Assignment {
    Assignment {
        path: path.to_string(),
        scaling: "fill".to_string(),
        kind: None,
    }
}

#[test]
fn empty_config_means_detect_not_nothing() {
    let config = Config::default();
    assert!(config.sources.is_empty());
    let detected = vec![Source::Workshop("/ws".to_string())];
    assert_eq!(config.sources(&text("/home/u"), &detected), detected);
}

#[test]
fn configured_sources_are_not_detected() {
    let config = Config {
        sources: vec![
            SourceConfig::Workshop {
                path: "~/.steam/root/steamapps/workshop/content/431960".to_string(),
            },
            SourceConfig::Directory {
                path: "~/Pictures/Wallpapers".to_string(),
                recursive: false,
            },
        ],
        default_scaling: text("fit"),
        general: General::default(),
    };
    let detected = vec![Source::Workshop("/ws".to_string())];
    assert_eq!(
        config.sources(&text("/home/u"), &detected),
        vec![
            Source::Workshop("/home/u/.steam/root/steamapps/workshop/content/431960".to_string()),
            Source::Directory {
                path: "/home/u/Pictures/Wallpapers".to_string(),
                recursive: false
            },
        ]
    );
}

#[test]
fn tilde_is_expanded() {
    let home = text("/home/example");
    assert_eq!(expand("~/pics", &home), "/home/example/pics");
    assert_eq!(expand("/abs", &home), "/abs");
    // A bare tilde with no separator is a filename, not a home directory.
    assert_eq!(expand("~weird", &home), "~weird");
}

/// Expansion agrees with the path functions of the standard library.
#[test]
fn expansion_is_that_of_paths() {
    for path in [
        "~", "~/", "~//a", "~/./a", "~/a/.", "~/a/b/", "~/.", "~/.hidden", "~/a/../b", "~a/b", "a/~", "",
        "./~/x", "~/a//b", "~/./", "~/a/./b/.",
    ] {
        let want = match std::path::Path::new(path).strip_prefix("~") {
            Ok(rest) => std::path::PathBuf::from("/home/u").join(rest),
            Err(_) => std::path::PathBuf::from(path),
        };
        assert_eq!(
            expand(path, &text("/home/u")),
            want.to_str().unwrap(),
            "{path}"
        );
        assert_eq!(expand(path, &None), path);
    }
}

#[test]
fn files_are_in_the_base_directories() {
    assert_eq!(
        config_path(&text("/c"), &text("/home/u")).as_deref(),
        Some("/c/hyprwpe/config.toml")
    );
    assert_eq!(
        config_path(&None, &text("/home/u")).as_deref(),
        Some("/home/u/.config/hyprwpe/config.toml")
    );
    assert_eq!(
        state_path(&None, &text("/home/u")).as_deref(),
        Some("/home/u/.local/state/hyprwpe/state.json")
    );
    assert_eq!(config_path(&None, &None), None);
    assert_eq!(state_path(&None, &None), None);
}

#[test]
fn pruning_drops_assignments_whose_file_is_gone() {
    let mut state = State {
        default: Some(assignment("/definitely/not/here.png")),
        ..State::default()
    };
    state
        .outputs
        .insert("DP-2".into(), assignment("/also/gone.png"));
    state.prune_missing(&StrMap::new(), &StrMap::new());
    assert!(state.default.is_none());
    assert!(state.outputs.is_empty());
}

#[test]
fn pruning_keeps_what_is_there() {
    let mut state = State {
        default: Some(assignment("/a.png")),
        ..State::default()
    };
    state.outputs.insert("DP-1".into(), assignment("/b.png"));
    state.outputs.insert("DP-2".into(), assignment("/gone.png"));
    state.outputs.insert("DP-3".into(), assignment("/a.png"));
    state.properties.insert("/a.png".into(), json("{}"));
    state.properties.insert("/dir".into(), json("{}"));
    state.properties.insert("/gone.png".into(), json("{}"));
    state.prune_missing(
        &set_of(&["/a.png", "/b.png"]),
        &set_of(&["/a.png", "/b.png", "/dir"]),
    );
    assert_eq!(state.default, Some(assignment("/a.png")));
    assert_eq!(state.outputs.len(), 2);
    assert_eq!(state.outputs.get("DP-1"), Some(&assignment("/b.png")));
    assert!(!state.outputs.contains_key("DP-2"));
    assert_eq!(state.properties.len(), 2);
    assert!(state.properties.contains_key("/dir"));

    state.prune_missing(
        &set_of(&["/a.png", "/b.png"]),
        &set_of(&["/a.png", "/b.png", "/dir"]),
    );
    assert_eq!(state.default, Some(assignment("/a.png")));
    assert_eq!(state.outputs.len(), 2);
    assert_eq!(state.properties.len(), 2);
}

#[test]
fn general_defaults_match_the_old_hard_coded_behaviour() {
    let g = General::default();
    assert_eq!(
        g.suspend_delay_ms, 1500,
        "the delay the policy engine used to hard-code"
    );
    assert!(g.pause_on_fullscreen);
    assert_eq!(g.fps_limit, 0, "uncapped by default");
    assert_eq!(g.suspend_delay(), 1500 * 1_000_000);
    assert!(g.frame_interval().is_none());
}

#[test]
fn a_configured_frame_limit_becomes_an_interval() {
    let g = General {
        fps_limit: 60,
        ..General::default()
    };
    assert_eq!(g.frame_interval().unwrap(), 16);
    // A nonsensical cap must not divide by zero.
    let g = General {
        fps_limit: 1,
        ..General::default()
    };
    assert_eq!(g.frame_interval().unwrap(), 1000);
    let g = General {
        fps_limit: 5000,
        ..General::default()
    };
    assert_eq!(g.frame_interval().unwrap(), 1);
}

#[test]
fn pruning_drops_property_values_for_a_wallpaper_that_is_gone() {
    let mut state = State::default();
    state
        .properties
        .insert("/definitely/not/here.png".into(), json(r#"{"a": {"value": 1}}"#));
    state.prune_missing(&StrMap::new(), &StrMap::new());
    assert!(state.properties.is_empty());
}

#[test]
fn setting_a_property_validates_a_known_wallpaper() {
    let declared = PropertySet::from_document(&json(
        r#"{"general":{"properties":{
            "size":{"type":"slider","min":0,"max":1,"value":0.5},
            "mode":{"type":"combo","options":[{"label":"A","value":"1"}],"value":"1"},
            "label":{"type":"group","value":""}
        }}}"#,
    ));
    let pkg = "/ws/1/scene.pkg";

    let mut state = State::default();
    // A stored value is coerced against the declaration, not trusted.
    assert_eq!(
        state
            .set_property(pkg, &declared, "size", &json("9"), None)
            .unwrap(),
        json("1")
    );
    // A label or group is not something a user sets.
    assert_eq!(
        state.set_property(pkg, &declared, "label", &json("\"x\""), None),
        Err(PropertyError::NotEditable(PropertyKind::Group))
    );
    // Unknown key: the error names the ones that do exist.
    let err = state
        .set_property(pkg, &declared, "nope", &json("1"), None)
        .unwrap_err();
    let told = err.message(pkg, "nope", &json("1"));
    assert!(told.contains("size"), "lists the real properties: {told}");
    assert_eq!(
        err,
        PropertyError::Unknown {
            known: vec!["mode".to_string(), "size".to_string()]
        }
    );
    assert_eq!(
        state.set_property(pkg, &declared, "mode", &json("\"Z\""), None),
        Err(PropertyError::Invalid(PropertyKind::Combo))
    );
    // ...and reported back as what actually stuck.
    let props = state.properties_for(pkg, declared, &vec![None]);
    assert_eq!(props.get("size").unwrap().value, json("1"));
}

/// Setting one property must not wipe the others.
#[test]
fn setting_a_property_merges_rather_than_replaces() {
    let declare = || {
        PropertySet::from_document(&json(
            r#"{"general":{"properties":{
            "a":{"fraction":true,"type":"slider","min":0,"max":1,"value":0.1},
            "b":{"fraction":true,"type":"slider","min":0,"max":1,"value":0.2}
        }}}"#,
        ))
    };
    let pkg = "/ws/2/scene.pkg";
    let mut state = State::default();
    // What doubles make of the values is handed in: both lie within their range.
    state
        .set_property(pkg, &declare(), "a", &json("0.9"), Some(json("0.9")))
        .unwrap();
    state
        .set_property(pkg, &declare(), "b", &json("0.8"), Some(json("0.8")))
        .unwrap();
    let props = state.properties_for(
        pkg,
        declare(),
        &vec![Some(json("0.9")), Some(json("0.8"))],
    );
    assert_eq!(props.get("a").unwrap().value, json("0.9"));
    assert_eq!(props.get("b").unwrap().value, json("0.8"));
}

/// A wallpaper with no properties is not a crash - the GUI must be told so
/// plainly, since most of the library has nothing to configure.
#[test]
fn a_wallpaper_without_properties_says_so() {
    let declared = PropertySet::from_document(&json(r#"{"general":{}}"#));
    let mut state = State::default();
    let err = state
        .set_property("/ws/3/scene.pkg", &declared, "x", &json("1"), None)
        .unwrap_err();
    assert_eq!(err, PropertyError::NoProperties);
    let told = err.message("/ws/3/scene.pkg", "x", &json("1"));
    assert!(told.contains("no user properties"), "{told}");
    assert!(matches!(
        check_property(&declared, "x", &json("1")),
        Err(PropertyError::NoProperties)
    ));
    assert!(state.properties.is_empty());
}

#[test]
fn a_refused_property_is_explained() {
    let told = |e: PropertyError| e.message("/w/a.pkg", "size", &json("{\"b\": [1, \"x\\n\"]}"));
    assert_eq!(
        told(PropertyError::NoProperties),
        "/w/a.pkg exposes no user properties"
    );
    assert_eq!(
        told(PropertyError::Unknown { known: vec![] }),
        "no property \"size\" on this wallpaper; it has: none"
    );
    assert_eq!(
        told(PropertyError::Unknown {
            known: vec!["a".to_string(), "b".to_string()]
        }),
        "no property \"size\" on this wallpaper; it has: a, b"
    );
    assert_eq!(
        told(PropertyError::NotEditable(PropertyKind::Group)),
        "\"size\" is a Group, not a value you can set"
    );
    assert_eq!(
        told(PropertyError::Invalid(PropertyKind::Slider)),
        "{\"b\":[1,\"x\\n\"]} is not a valid value for \"size\" (Slider)"
    );
    for kind in [
        PropertyKind::Bool,
        PropertyKind::Slider,
        PropertyKind::Color,
        PropertyKind::Combo,
        PropertyKind::TextInput,
        PropertyKind::Texture,
        PropertyKind::UserShortcut,
        PropertyKind::Group,
        PropertyKind::Text,
        PropertyKind::Other("a \"b\"".to_string()),
    ] {
        let want = format!("\"size\" is a {kind:?}, not a value you can set");
        assert_eq!(told(PropertyError::NotEditable(kind)), want);
    }
}

#[test]
fn what_is_not_a_table_is_replaced() {
    let declared = PropertySet::from_document(&json(
        r#"{"general":{"properties":{"on":{"type":"bool","value":true}}}}"#,
    ));
    let mut state = State::default();
    state.properties.insert("/w".into(), json("[1]"));
    state
        .set_property("/w", &declared, "on", &json("\"off\""), None)
        .unwrap();
    assert_eq!(
        state.properties.get("/w"),
        Some(&json(r#"{"on":{"value":false}}"#))
    );
}
