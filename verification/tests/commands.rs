use hyprwpe::catalog::{Catalog, Found, Kind, Problem, Source, Wallpaper, WallpaperId};
use hyprwpe::client::ClientError;
use hyprwpe::commands::{
    find_wallpaper, media_of, parse_value, property_line, resolve, show_request, shown, skipped_line, source_for,
    status_lines, summary_line, wallpaper_line, Child,
};
use hyprwpe::daemon::Scaling;
use hyprwpe::json::{parse_json, Json};
use hyprwpe::picker::{
    applied_message, apply, category, describe, output_choice, output_items, output_names,
    outputs_changed, scaling_choice, subtitle, Selection, CATEGORIES, SCALINGS,
};
use hyprwpe::properties::PropertySet;
use hyprwpe::protocol::{OutputStatus, Request, Response, Status, Target};

fn child(is_dir: bool, has_project: bool) -> Child {
    Child {
        is_dir,
        has_project,
    }
}

#[test]
fn a_directory_of_projects_is_workshop_content() {
    assert_eq!(
        source_for("/ws", &vec![child(false, true), child(true, true)]),
        Source::Workshop("/ws".to_string())
    );
    let plain = Source::Directory {
        path: "/p".to_string(),
        recursive: true,
    };
    assert_eq!(source_for("/p", &vec![child(false, true), child(true, false)]), plain);
    assert_eq!(source_for("/p", &vec![]), plain);
}

fn wallpaper(id: &str, title: &str, kind: Kind) -> Wallpaper {
    Wallpaper {
        id: WallpaperId::Wpe(id.to_string()),
        title: title.to_string(),
        kind,
        path: format!("/ws/{id}"),
        preview: None,
    }
}

fn catalog() -> Catalog {
    Catalog {
        wallpapers: vec![
            wallpaper("1", "Rain", Kind::Scene),
            wallpaper("2", "Page", Kind::Web),
            Catalog::read_file("/p/a.png").unwrap(),
            wallpaper("2", "Again", Kind::Video),
        ],
        problems: vec![],
    }
}

#[test]
fn wallpapers_are_found_by_id_or_path() {
    let c = catalog();
    assert_eq!(find_wallpaper(&c, "2"), Some(1));
    assert_eq!(find_wallpaper(&c, "/p/a.png"), Some(2));
    assert_eq!(find_wallpaper(&c, "Rain"), None);
}

#[test]
fn what_a_user_types_becomes_a_file() {
    let c = catalog();
    let media = Some("/ws/1/scene.pkg".to_string());
    assert_eq!(resolve("/p/x.png", true, None, &None).unwrap(), "/p/x.png");
    assert_eq!(
        resolve("1", false, Some(&c.wallpapers[0]), &media).unwrap(),
        "/ws/1/scene.pkg"
    );
    assert_eq!(
        resolve("1", false, Some(&c.wallpapers[0]), &None)
            .unwrap_err()
            .message(),
        "\"Rain\" declares itself a scene wallpaper but ships no file to play"
    );
    assert_eq!(
        resolve("2", false, Some(&c.wallpapers[1]), &media)
            .unwrap_err()
            .message(),
        "\"Page\" is a web wallpaper, which hyprwpe cannot render yet"
    );
    assert_eq!(
        resolve("nope", false, None, &None).unwrap_err().message(),
        "\"nope\" is neither a readable file nor a known wallpaper id"
    );
}

#[test]
fn an_item_plays_the_file_that_its_project_names() {
    let c = catalog();
    let file = Some("clip.mp4".to_string());
    assert_eq!(media_of(&c.wallpapers[0], &file).as_deref(), Some("/ws/1/scene.pkg"));
    assert_eq!(media_of(&c.wallpapers[2], &None).as_deref(), Some("/p/a.png"));
    assert_eq!(media_of(&c.wallpapers[3], &file).as_deref(), Some("/ws/2/clip.mp4"));
    assert_eq!(media_of(&c.wallpapers[3], &None), None);
}

#[test]
fn a_request_is_for_one_output_or_all() {
    assert_eq!(
        show_request("/a".to_string(), None, "fill".to_string()),
        Request::Show {
            path: "/a".to_string(),
            target: Target::All,
            scaling: "fill".to_string()
        }
    );
    assert_eq!(
        show_request("/a".to_string(), Some("DP-1".to_string()), "fit".to_string()),
        Request::Show {
            path: "/a".to_string(),
            target: Target::Output("DP-1".to_string()),
            scaling: "fit".to_string()
        }
    );
}

#[test]
fn values_are_parsed_as_users_write_them() {
    assert_eq!(parse_value("0.5"), parse_json("0.5").unwrap());
    assert_eq!(parse_value("true"), Json::Bool(true));
    assert_eq!(parse_value("\"text\""), Json::Text("text".to_string()));
    assert_eq!(parse_value("Rain"), Json::Text("Rain".to_string()));
}

#[test]
fn a_property_is_listed_on_a_line() {
    let set = PropertySet::from_document(
        &parse_json(
            r#"{"general":{"properties":{
            "size":{"order":1,"type":"slider","min":0,"max":1,"value":0.5,"text":"Size"},
            "mode":{"order":2,"type":"combo","options":[{"label":"A","value":"1"},{"label":"B","value":"2"}],"value":"1","text":"mode"},
            "head":{"order":3,"type":"group","value":"","text":""}
        }}}"#,
        )
        .unwrap(),
    );
    let p = &set.properties;
    assert_eq!(
        property_line(&p[0], &Some("0..1".to_string())),
        format!("{:28} {:9} {}   ({}..{})   # {}", "size", "slider", "0.5", 0, 1, "Size")
    );
    assert_eq!(
        property_line(&p[1], &None),
        format!("{:28} {:9} {}   [A=1, B=2]", "mode", "combo", "\"1\"")
    );
    assert_eq!(
        property_line(&p[2], &None),
        format!("{:28} {:9} {}   (label, not a value)", "head", "group", "\"\"")
    );
}

fn output(name: &str, scale: i32, wallpaper: Option<&str>) -> OutputStatus {
    OutputStatus {
        name: name.to_string(),
        width: 2560,
        height: 1440,
        scale,
        wallpaper: wallpaper.map(|s| s.to_string()),
        scaling: wallpaper.map(|_| "fill".to_string()),
    }
}

#[test]
fn what_could_not_be_listed_is_named_with_the_reason() {
    let unreadable = Problem::Unreadable {
        path: "/ws/6".to_string(),
        reason: "reading project.json: not found".to_string(),
    };
    assert_eq!(unreadable.path(), "/ws/6");
    assert_eq!(unreadable.message(), "reading project.json: not found");
    assert_eq!(
        skipped_line(&unreadable),
        "skipped /ws/6: reading project.json: not found"
    );
    let unknown = |ty: Option<&str>| Problem::UnknownType {
        path: "/ws/7".to_string(),
        ty: ty.map(|t| t.to_string()),
    };
    assert_eq!(
        unknown(Some("app\n")).message(),
        "unknown wallpaper type \"app\\n\""
    );
    assert_eq!(
        skipped_line(&unknown(None)),
        "skipped /ws/7: unknown wallpaper type \"<missing>\""
    );
}

#[test]
fn a_status_is_listed_output_by_output() {
    let s = Status {
        outputs: vec![output("DP-1", 2, Some("/w/a.png")), output("a-rather-long-name", -1, None)],
        paused: true,
        rss_kb: None,
    };
    assert_eq!(
        status_lines(&s),
        vec![
            "state: paused".to_string(),
            format!("{:<10} {}x{} @{}x  {:<8} {}", "DP-1", 2560, 1440, 2, "fill", "/w/a.png"),
            format!(
                "{:<10} {}x{} @{}x  {:<8} {}",
                "a-rather-long-name", 2560, 1440, -1, "-", "(none)"
            ),
        ]
    );
    assert_eq!(status_lines(&Status::default()), vec!["no outputs"]);
}

#[test]
fn a_listing_is_filtered_by_kind() {
    let c = catalog();
    assert_eq!(shown(&c, None), vec![0, 1, 2, 3]);
    assert_eq!(shown(&c, Some(Kind::Video)), vec![3]);
    assert_eq!(shown(&c, Some(Kind::Shader)), Vec::<usize>::new());
    assert_eq!(wallpaper_line(&c.wallpapers[0]), "scene   1 Rain");
    assert_eq!(wallpaper_line(&c.wallpapers[1]), "web     2 Page  (unsupported)");
    assert_eq!(
        summary_line(&c, 4),
        "4 wallpapers: 1 image, 1 video, 1 scene, 1 web"
    );
    assert_eq!(summary_line(&c, 1), "1 of 4 wallpapers");
    let none = Catalog::scan(&Vec::<Found>::new());
    assert_eq!(summary_line(&none, 0), "0 wallpapers: ");
}

#[test]
fn the_picker_offers_kinds_and_scalings() {
    let kinds: Vec<(&str, Option<Kind>)> = (0..CATEGORIES).map(category).collect();
    assert_eq!(
        kinds,
        vec![
            ("All", None),
            ("Images", Some(Kind::Image)),
            ("Scenes", Some(Kind::Scene)),
            ("Videos", Some(Kind::Video)),
            ("Web", Some(Kind::Web)),
        ]
    );
    let modes: Vec<Scaling> = (0..SCALINGS).map(scaling_choice).collect();
    assert_eq!(
        modes,
        vec![Scaling::Fill, Scaling::Fit, Scaling::Stretch, Scaling::Center]
    );
}

#[test]
fn an_entry_chooses_the_output_that_it_names() {
    let outputs = vec!["DP-1".to_string(), "DP-2".to_string()];
    let items = output_items(&outputs);
    assert_eq!(items, vec!["All outputs", "DP-1", "DP-2"]);
    assert_eq!(output_choice(&outputs, 0), None);
    assert_eq!(output_choice(&outputs, 2), Some(items[2].clone()));
    assert_eq!(output_choice(&outputs, 3), None);
}

#[test]
fn the_list_of_outputs_is_rebuilt_when_they_change() {
    let status = Status {
        outputs: vec![output("DP-1", 1, None), output("DP-2", 1, None)],
        paused: false,
        rss_kb: None,
    };
    let names = output_names(&status);
    assert_eq!(names, vec!["DP-1", "DP-2"]);
    assert!(!outputs_changed(&names, &output_names(&status)));
    assert!(outputs_changed(&names, &vec!["DP-1".to_string()]));
    assert!(outputs_changed(&names, &vec!["DP-1".to_string(), "DP-3".to_string()]));
}

#[test]
fn a_click_shows_an_image_or_says_why_not() {
    let c = catalog();
    let selection = Selection {
        output: Some("DP-1".to_string()),
        scaling: "fit".to_string(),
    };
    assert_eq!(
        apply(&c.wallpapers[2], &selection),
        Ok(Request::Show {
            path: "/p/a.png".to_string(),
            target: Target::Output("DP-1".to_string()),
            scaling: "fit".to_string()
        })
    );
    assert_eq!(
        apply(&c.wallpapers[0], &Selection::default()),
        Err("hyprwpe cannot render scene wallpapers yet".to_string())
    );
    assert_eq!(subtitle(&c.wallpapers[0]), "scene");
    assert_eq!(subtitle(&c.wallpapers[1]), "web · unsupported");
}

#[test]
fn the_reply_to_a_click_is_shown() {
    assert_eq!(applied_message("Rain", &Ok(Response::Done), ""), "Set Rain");
    assert_eq!(
        applied_message("Rain", &Ok(Response::Error { message: "no".to_string() }), ""),
        "no"
    );
    assert_eq!(
        applied_message("Rain", &Ok(Response::Status(Status::default())), ""),
        "Unexpected response from the daemon"
    );
    assert_eq!(
        applied_message("Rain", &Err(ClientError::NoReply), "it is gone"),
        "it is gone"
    );
}

#[test]
fn a_status_is_described_in_a_line() {
    let s = Status {
        outputs: vec![output("DP-1", 1, Some("/w/a b.png")), output("DP-2", 1, None)],
        paused: false,
        rss_kb: Some(2048),
    };
    assert_eq!(
        describe(&s, &Some("2".to_string())),
        "DP-1: a b.png   ·   DP-2: nothing   ·   daemon 2 MB"
    );
    assert_eq!(describe(&Status::default(), &None), "");
}
