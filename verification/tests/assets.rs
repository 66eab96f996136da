use hyprwpe::assets::{asset_candidates, assets_dir, sidecar_name, steam_roots, Resources};
use hyprwpe::pkg::Package;

fn text(s: &str) -> Option<String> {
    Some(s.to_string())
}

/// A PKGV container with these files.
fn package(files: &[(&str, &[u8])]) -> Vec<u8> {
    let version = b"PKGV0001";
    let mut b = Vec::new();
    b.extend_from_slice(&(version.len() as u32).to_le_bytes());
    b.extend_from_slice(version);
    b.extend_from_slice(&(files.len() as u32).to_le_bytes());
    let mut blob: Vec<u8> = Vec::new();
    for (name, data) in files {
        b.extend_from_slice(&(name.len() as u32).to_le_bytes());
        b.extend_from_slice(name.as_bytes());
        b.extend_from_slice(&(blob.len() as u32).to_le_bytes());
        b.extend_from_slice(&(data.len() as u32).to_le_bytes());
        blob.extend_from_slice(data);
    }
    b.extend_from_slice(&blob);
    b
}

#[test]
fn a_name_with_a_parent_escape_is_refused() {
    let res = Resources::with_assets(package(&[]), text("/we/assets")).unwrap();
    // What stands at the path that answers for the name is handed in.
    assert_eq!(res.asset_path("ok.txt").as_deref(), Some("/we/assets/ok.txt"));
    assert_eq!(
        res.get("ok.txt", Some(b"hello".to_vec())).as_deref(),
        Some(&b"hello"[..])
    );
    assert!(res.asset_path("../ok.txt").is_none());
    assert!(res.get("../ok.txt", Some(b"hello".to_vec())).is_none());
    assert!(res.get("sub/../../ok.txt", Some(b"hello".to_vec())).is_none());
}

#[test]
fn a_name_that_begins_at_the_root_is_refused() {
    let res = Resources::with_assets(package(&[]), text("/we/assets")).unwrap();
    assert!(res.asset_path("/etc/passwd").is_none());
}

#[test]
fn the_package_answers_before_the_assets() {
    let res = Resources::with_assets(package(&[("a", b"own")]), text("/we/assets")).unwrap();
    assert_eq!(res.get("a", Some(b"engine".to_vec())).as_deref(), Some(&b"own"[..]));
    assert_eq!(res.get("b", Some(b"engine".to_vec())).as_deref(), Some(&b"engine"[..]));
    assert_eq!(res.get("b", None), None);
    assert!(res.has_assets());
    assert_eq!(res.package().entries.len(), 1);
}

#[test]
fn without_assets_only_the_package_answers() {
    let own = Package::parse(package(&[("a", b"own")])).unwrap();
    let res = Resources::from_package(own, None);
    assert!(!res.has_assets());
    assert_eq!(res.get("a", None).as_deref(), Some(&b"own"[..]));
    assert_eq!(res.get("b", Some(b"engine".to_vec())), None);
    assert_eq!(res.get_str("a", None).as_deref(), Some("own"));
}

#[test]
fn text_is_read_with_replacement_characters() {
    let res = Resources::with_assets(package(&[("a", b"x\xffy")]), None).unwrap();
    assert_eq!(res.get_str("a", None).as_deref(), Some("x\u{fffd}y"));
}

#[test]
fn the_steam_roots_are_below_the_home() {
    assert_eq!(
        steam_roots(&text("/home/u")),
        vec![
            "/home/u/.steam/root",
            "/home/u/.steam/steam",
            "/home/u/.local/share/Steam",
            "/home/u/.var/app/com.valvesoftware.Steam/data/Steam",
        ]
    );
    assert!(steam_roots(&None).is_empty());
}

#[test]
fn the_chosen_directory_overrides_detection() {
    assert_eq!(asset_candidates(&text("/we"), &text("/home/u")), vec!["/we/assets"]);
    assert_eq!(asset_candidates(&text("/we/assets"), &text("/home/u")), vec!["/we/assets"]);
    let all = asset_candidates(&None, &text("/home/u"));
    assert_eq!(all.len(), 4);
    assert_eq!(
        all[0],
        "/home/u/.steam/root/steamapps/common/wallpaper_engine/assets"
    );
    assert_eq!(
        assets_dir(&all, &vec![false, true, true, false]).as_deref(),
        Some("/home/u/.steam/steam/steamapps/common/wallpaper_engine/assets")
    );
    assert_eq!(assets_dir(&all, &vec![false; 4]), None);
}

#[test]
fn a_texture_comes_with_its_sidecar() {
    assert_eq!(sidecar_name("materials/fog.tex"), "materials/fog.tex-json");
    let files: Vec<(&str, &[u8])> = vec![("a.tex", b"pixels"), ("a.tex-json", b"{}")];
    let res = Resources::with_assets(package(&files), None).unwrap();
    assert_eq!(
        res.texture("a.tex", None, None),
        Some((b"pixels".to_vec(), Some(b"{}".to_vec())))
    );
    assert_eq!(res.texture("b.tex", None, None), None);
}

#[test]
fn opening_finds_the_assets_among_the_candidates() {
    let candidates = asset_candidates(&text("/we"), &None);
    let res = Resources::open(package(&[]), &candidates, &vec![true]).unwrap();
    assert_eq!(res.asset_path("a").as_deref(), Some("/we/assets/a"));
    let res = Resources::open(package(&[]), &candidates, &vec![false]).unwrap();
    assert_eq!(res.asset_path("a"), None);
    assert!(Resources::open(b"nothing".to_vec(), &candidates, &vec![true]).is_err());
}
