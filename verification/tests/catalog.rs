use hyprwpe::catalog::{
    visit_directory, visit_workshop, Catalog, Found, Kind, Problem, Project, UnknownType, Visit,
    Wallpaper, WallpaperId,
};
use hyprwpe::config::{
    default_sources, detect_workshop_dir, picture_candidates, workshop_candidates,
};

#[test]
fn kind_from_extension_is_case_insensitive() {
    assert_eq!(Kind::from_extension("a.PNG"), Some(Kind::Image));
    assert_eq!(Kind::from_extension("a.Mp4"), Some(Kind::Video));
    assert_eq!(Kind::from_extension("a.txt"), None);
    assert_eq!(Kind::from_extension("noext"), None);
}

#[test]
fn project_type_casing_varies_in_the_wild() {
    assert_eq!(Kind::from_project_type("scene"), Some(Kind::Scene));
    assert_eq!(Kind::from_project_type("Scene"), Some(Kind::Scene));
    assert_eq!(Kind::from_project_type("Web"), Some(Kind::Web));
    assert_eq!(Kind::from_project_type("nonsense"), None);
}

#[test]
fn web_is_listed_but_unsupported() {
    let w = Wallpaper {
        id: WallpaperId::Wpe("1".into()),
        title: "t".into(),
        kind: Kind::Web,
        path: String::new(),
        preview: None,
    };
    assert!(!w.supported());
}

fn project(title: Option<&str>, ty: Option<&str>, preview: Option<&str>) -> Project {
    Project {
        title: title.map(|s| s.to_string()),
        ty: ty.map(|s| s.to_string()),
        preview: preview.map(|s| s.to_string()),
    }
}

#[test]
fn a_workshop_item_is_read_from_its_project() {
    let p = project(Some("Rain"), Some("Video"), Some("preview.jpg"));
    let w = Catalog::read_workshop_item("/ws/123", &p, false, true).unwrap();
    assert_eq!(w.id, WallpaperId::Wpe("123".to_string()));
    assert_eq!(w.id.label(), "123");
    assert_eq!(w.title, "Rain");
    assert_eq!(w.kind, Kind::Video);
    assert_eq!(w.path, "/ws/123");
    assert_eq!(w.preview.as_deref(), Some("/ws/123/preview.jpg"));
    // A preview that is not there is not named, and the id stands for a title.
    let p = project(None, Some("scene"), Some("preview.jpg"));
    let w = Catalog::read_workshop_item("/ws/123", &p, false, false).unwrap();
    assert_eq!(w.preview, None);
    assert_eq!(w.title, "123");
}

#[test]
fn a_scene_package_is_proof_of_a_scene() {
    let p = project(None, Some("scnee"), None);
    let w = Catalog::read_workshop_item("/ws/1", &p, true, false).unwrap();
    assert_eq!(w.kind, Kind::Scene);
    assert_eq!(
        Catalog::read_workshop_item("/ws/1", &p, false, false),
        Err(UnknownType {
            ty: Some("scnee".to_string())
        })
    );
}

#[test]
fn a_file_is_its_own_preview_where_it_is_an_image() {
    let w = Catalog::read_file("/p/Blue Sky.jpeg").unwrap();
    assert_eq!(w.id.label(), "/p/Blue Sky.jpeg");
    assert_eq!(w.title, "Blue Sky");
    assert_eq!(w.preview.as_deref(), Some("/p/Blue Sky.jpeg"));
    let w = Catalog::read_file("/p/a.mkv").unwrap();
    assert_eq!(w.kind, Kind::Video);
    assert_eq!(w.preview, None);
    assert_eq!(Catalog::read_file("/p/a.frag").unwrap().kind, Kind::Shader);
    assert!(Catalog::read_file("/p/notes.txt").is_none());
}

fn file(path: &str) -> Found {
    Found::File(path.to_string())
}

#[test]
fn a_catalog_is_ordered_by_title() {
    let found = vec![
        file("/p/zebra.png"),
        file("/p/Éclair.png"),
        file("/q/apple.png"),
        file("/p/Apple.png"),
        file("/p/apple.mp4"),
        file("/p/readme.md"),
        Found::Unreadable {
            path: "/gone".to_string(),
            reason: "no such directory".to_string(),
        },
        Found::Item {
            dir: "/ws/7".to_string(),
            project: project(None, None, None),
            has_package: false,
            has_preview: false,
        },
    ];
    let cat = Catalog::scan(&found);
    let paths: Vec<&str> = cat.wallpapers.iter().map(|w| w.path.as_str()).collect();
    assert_eq!(
        paths,
        vec![
            "/p/Apple.png",
            "/q/apple.png",
            "/p/apple.mp4",
            "/p/zebra.png",
            "/p/Éclair.png"
        ]
    );
    assert_eq!(
        cat.problems,
        vec![
            Problem::Unreadable {
                path: "/gone".to_string(),
                reason: "no such directory".to_string()
            },
            Problem::UnknownType {
                path: "/ws/7".to_string(),
                ty: None
            },
        ]
    );
    assert_eq!(
        cat.count_by_kind(),
        vec![(Kind::Image, 4), (Kind::Video, 1)]
    );
}

/// Titles that are not ASCII are ordered by their lower case too.
#[test]
fn lower_case_is_that_of_unicode() {
    let cat = Catalog::scan(&vec![file("/p/é.png"), file("/p/È.png")]);
    let titles: Vec<&str> = cat.wallpapers.iter().map(|w| w.title.as_str()).collect();
    assert_eq!(titles, vec!["È", "é"]);
}

#[test]
fn directories_are_looked_through_where_that_is_asked_for() {
    assert_eq!(visit_workshop(true, true), Visit::Take);
    assert_eq!(visit_workshop(true, false), Visit::Skip);
    assert_eq!(visit_workshop(false, true), Visit::Skip);
    assert_eq!(visit_directory(true, true), Visit::Descend);
    assert_eq!(visit_directory(true, false), Visit::Skip);
    assert_eq!(visit_directory(false, false), Visit::Take);
}

#[test]
fn sources_are_detected_below_the_home() {
    let home = Some("/home/u".to_string());
    let all = workshop_candidates(&home);
    assert_eq!(
        all[0],
        "/home/u/.steam/root/steamapps/workshop/content/431960"
    );
    let dir = detect_workshop_dir(&all, &vec![false, false, true, true]);
    assert_eq!(
        dir.as_deref(),
        Some("/home/u/.local/share/Steam/steamapps/workshop/content/431960")
    );
    assert_eq!(detect_workshop_dir(&all, &vec![false; 4]), None);
    let pictures = picture_candidates(&home);
    assert_eq!(
        pictures,
        vec!["/home/u/Pictures/Wallpapers", "/home/u/Pictures"]
    );
    let sources = default_sources(&dir, &pictures, &vec![false, true]);
    assert_eq!(sources.len(), 2);
    assert_eq!(
        format!("{:?}", sources[1]),
        "Directory { path: \"/home/u/Pictures\", recursive: true }"
    );
    assert!(default_sources(&None, &picture_candidates(&None), &vec![]).is_empty());
}

#[test]
fn scanning_two_lists_together_gives_both() {
    let a = || vec![file("/p/b.png"), file("/p/d.png")];
    let b = || {
        vec![
            file("/q/a.png"),
            file("/q/b.png"),
            Found::Unreadable {
                path: "/gone".to_string(),
                reason: "no such directory".to_string(),
            },
        ]
    };
    let mut both = a();
    both.extend(b());
    let all = Catalog::scan(&both);
    let paths: Vec<&str> = all.wallpapers.iter().map(|w| w.path.as_str()).collect();
    assert_eq!(paths, vec!["/q/a.png", "/p/b.png", "/q/b.png", "/p/d.png"]);
    assert_eq!(all.problems, Catalog::scan(&b()).problems);
    let none = Catalog::scan(&vec![]);
    assert!(none.wallpapers.is_empty() && none.problems.is_empty());
}
