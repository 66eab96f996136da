use hyprwpe::pkg::{Package, PkgError};

/// Fixtures are built here rather than taken from a Workshop item; shipping
/// real wallpaper data would mean redistributing someone else's work.
fn build(version: &str, files: &[(&str, &[u8])]) -> Vec<u8> {
    let mut header = Vec::new();
    header.extend((version.len() as u32).to_le_bytes());
    header.extend(version.as_bytes());
    header.extend((files.len() as u32).to_le_bytes());
    let mut blob: Vec<u8> = Vec::new();
    for (name, data) in files {
        header.extend((name.len() as u32).to_le_bytes());
        header.extend(name.as_bytes());
        header.extend((blob.len() as u32).to_le_bytes());
        header.extend((data.len() as u32).to_le_bytes());
        blob.extend(*data);
    }
    header.extend(blob);
    header
}

#[test]
fn reads_entries() {
    let raw = build(
        "PKGV0001",
        &[("scene.json", b"{\"a\":1}"), ("t.tex", b"\x00\x01\x02")],
    );
    let p = Package::parse(raw).unwrap();
    assert_eq!(p.version, "PKGV0001");
    assert_eq!(p.entries.len(), 2);
    assert_eq!(p.get("scene.json").unwrap(), b"{\"a\":1}");
    assert_eq!(p.get("t.tex").unwrap(), b"\x00\x01\x02");
    assert!(p.get("missing").is_none());
}

#[test]
fn accepts_any_pkgv_revision() {
    // 20 distinct version strings appear in the reference corpus and all
    // share this table layout.
    let raw = build("PKGV0023", &[("scene.json", b"{}")]);
    assert_eq!(Package::parse(raw).unwrap().version, "PKGV0023");
}

#[test]
fn strips_bom() {
    let raw = build("PKGV0001", &[("scene.json", b"\xef\xbb\xbf{}")]);
    assert_eq!(
        Package::parse(raw).unwrap().get_str("scene.json").unwrap(),
        "{}"
    );
}

#[test]
fn rejects_trailing_slack() {
    let mut raw = build("PKGV0001", &[("a", b"xy")]);
    raw.push(0); // one byte no entry accounts for
    assert!(Package::parse(raw).is_err());
}

#[test]
fn rejects_foreign_file() {
    assert!(Package::parse(b"not a package at all".to_vec()).is_err());
}

#[test]
fn rejects_truncated_header() {
    let raw = build("PKGV0001", &[("scene.json", b"{}")]);
    assert!(Package::parse(raw[..8].to_vec()).is_err());
}

/// What is written into a container is read back.
#[test]
fn files_are_read_back() {
    let files: Vec<(&str, &[u8])> = vec![("a", b"one"), ("b/c.tex", b""), ("d", b"\x00\xff")];
    let p = Package::parse(build("PKGV0019", &files)).unwrap();
    for (name, data) in files {
        assert_eq!(p.get(name).unwrap(), data);
    }
    assert_eq!(p.entries.len(), 3);
}

fn fails_with(bytes: Vec<u8>) -> PkgError {
    match Package::parse(bytes) {
        Ok(_) => panic!("not a package"),
        Err(e) => e,
    }
}

#[test]
fn each_fault_of_a_package_has_its_name() {
    assert_eq!(fails_with(vec![1, 0]), PkgError::LengthPastEnd);
    assert_eq!(
        fails_with(vec![0x01, 0x10, 0, 0]),
        PkgError::StringTooLong(4097)
    );
    assert_eq!(fails_with(vec![5, 0, 0, 0, b'P']), PkgError::StringPastEnd);
    assert_eq!(fails_with(build("ZIP", &[])), PkgError::NotPkgv);
    let mut many = build("PKGV0001", &[]);
    let at = many.len() - 4;
    many[at..].copy_from_slice(&2_000_000u32.to_le_bytes());
    assert_eq!(fails_with(many), PkgError::TooManyEntries(2_000_000));
    let mut slack = build("PKGV0001", &[("a", b"xy")]);
    slack.push(0);
    assert_eq!(
        fails_with(slack),
        PkgError::Unaccounted {
            data_start: 29,
            addressed: 2,
            len: 32
        }
    );
}

/// A name that is not UTF-8 is read with replacement characters.
#[test]
fn a_name_that_is_not_utf8_is_still_an_entry() {
    let mut raw = build("PKGV0001", &[("a?", b"xy")]);
    let at = raw.iter().position(|b| *b == b'?').unwrap();
    raw[at] = 0xff;
    let p = Package::parse(raw).unwrap();
    assert_eq!(p.get("a\u{fffd}").unwrap(), b"xy");
}

#[test]
fn text_that_is_not_utf8_is_no_text() {
    let p = Package::parse(build("PKGV0001", &[("t", b"\xff"), ("u", "é".as_bytes())])).unwrap();
    assert_eq!(p.get_str("t"), None);
    assert_eq!(p.get_str("u"), Some("é"));
    assert_eq!(p.get_str("v"), None);
}
