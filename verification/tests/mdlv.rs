use hyprwpe::mdlv::{
    animations_with_trailer, choose_mesh, find_sections, is_mdl_tag, is_wound_alike, parse, parse_animations, parse_attachments,
    parse_skeleton, sampled_triangles, section_at, winding_votes, Keyframe, MdlvError, Mesh,
    MeshCandidate, MeshTurns, PuppetAnimation, Section, Track, Turn,
};

#[test]
fn rejects_non_puppet_files() {
    assert!(parse(b"not a model at all").is_err());
    assert!(parse(b"PKGV0001....").is_err());
}

#[test]
fn tag_validation_is_strict() {
    assert!(is_mdl_tag(b"MDLS0004"));
    assert!(!is_mdl_tag(b"MDLS0004x"));
    assert!(!is_mdl_tag(b"mdLS0004"));
    assert!(!is_mdl_tag(b"MDLSabcd"));
}

#[test]
fn section_header_is_read_from_the_file() {
    // tag(8) pad(1) next(4) count(2)
    let mut d = vec![0u8; 128];
    d[0..8].copy_from_slice(b"MDLS0004");
    d[8] = 0;
    d[9..13].copy_from_slice(&100u32.to_le_bytes());
    d[13..15].copy_from_slice(&7u16.to_le_bytes());
    let sec = section_at(&d, 0).expect("valid header");
    assert_eq!(sec.next, 100);
    assert_eq!(sec.count, 7);

    // A non-zero pad means this byte run is not a real section.
    d[8] = 1;
    assert!(section_at(&d, 0).is_none());
}

#[test]
fn section_scan_finds_each_tag_once_in_order() {
    let mut d = vec![0u8; 300];
    for (off, tag) in [
        (0usize, b"MDLV0023"),
        (100, b"MDLS0004"),
        (200, b"MDLA0006"),
    ] {
        d[off..off + 8].copy_from_slice(tag);
        d[off + 8] = 0;
        let next = (off + 90) as u32;
        d[off + 9..off + 13].copy_from_slice(&next.to_le_bytes());
    }
    d[290..298].copy_from_slice(b"MDLS0004"); // duplicate: ignored
    let secs = find_sections(&d);
    let tags: Vec<&str> = secs.iter().map(|(t, _)| t.as_str()).collect();
    assert_eq!(tags, vec!["MDLV0023", "MDLS0004", "MDLA0006"]);
}

fn key(x: f32) -> Keyframe {
    Keyframe {
        position: [x.to_bits(), 0, 0],
        rotation: 0,
        scale: [1.0f32.to_bits(); 3],
    }
}

/// The first component of the position at a time, between the keys around it.
fn position_at(anim: &PuppetAnimation, time: f32) -> f32 {
    let length = anim.length as f32;
    let mut frame = time * f32::from_bits(anim.fps);
    if anim.mode == "loop" && length > 0.0 {
        frame %= length;
    }
    let i = frame.floor() as usize;
    let (a, b) = anim.tracks[0].around(i).unwrap();
    let (a, b) = (f32::from_bits(a.position[0]), f32::from_bits(b.position[0]));
    a + (b - a) * (frame - i as f32)
}

#[test]
fn keyframe_sampling_interpolates_and_loops() {
    let anim = PuppetAnimation {
        name: "a".into(),
        mode: "loop".into(),
        fps: 10.0f32.to_bits(),
        length: 3,
        tracks: vec![Track {
            keys: vec![key(0.0), key(10.0), key(20.0), key(30.0)],
        }],
    };
    // t = 0.15s -> frame 1.5 -> halfway between keys 1 and 2.
    let s = position_at(&anim, 0.15);
    assert!((s - 15.0).abs() < 1e-3, "{s}");
    // frame 3 == length, loop wraps to 0.
    let s = position_at(&anim, 0.3);
    assert!(s.abs() < 1e-3, "{s}");
}

/// The share of the triangles that are wound the way that most are.
fn winding_consistency(verts: &[[f32; 2]], indices: &[u32]) -> f32 {
    let mut turns = Vec::new();
    for t in sampled_triangles(verts.len(), &indices.to_vec()) {
        let (a, b, c) = (verts[t.a as usize], verts[t.b as usize], verts[t.c as usize]);
        let area = (b[0] - a[0]) * (c[1] - a[1]) - (c[0] - a[0]) * (b[1] - a[1]);
        turns.push(if area > 0.0 {
            Turn::Left
        } else if area < 0.0 {
            Turn::Right
        } else {
            Turn::Flat
        });
    }
    let (most, all) = winding_votes(&turns);
    if all == 0 {
        0.0
    } else {
        most as f32 / all as f32
    }
}

#[test]
fn winding_test_separates_real_geometry_from_noise() {
    // A triangle wound consistently: score 1.0.
    let verts = [[0.0, 0.0], [1.0, 0.0], [0.0, 1.0]];
    assert!((winding_consistency(&verts, &[0, 1, 2]) - 1.0).abs() < 1e-6);
    // An index that falls outside the vertex list is skipped, not panicking.
    assert_eq!(winding_consistency(&verts, &[0, 1, 99]), 0.0);
}

#[test]
fn each_fault_of_a_model_has_its_name() {
    assert!(matches!(parse(b"MDLV"), Err(MdlvError::TooShort)));
    assert!(matches!(parse(b"PKGV0001...."), Err(MdlvError::NotPuppet)));
    assert!(matches!(parse(b"MDLVabcd...."), Err(MdlvError::BadVersion)));
}

#[test]
fn a_bare_tag_is_a_model_without_content() {
    let mut d = b"MDLV0023".to_vec();
    d.resize(64, 0);
    let model = parse(&d).unwrap();
    assert_eq!(model.version, 23);
    assert_eq!(model.material, "");
    assert!(model.bones.is_empty() && model.attachments.is_empty() && model.animations.is_empty());
}

/// A section's header, with what follows it.
fn section(tag: &[u8; 8], count: u16, content: &[u8]) -> Vec<u8> {
    let mut d = tag.to_vec();
    d.push(0);
    d.extend_from_slice(&((15 + content.len()) as u32).to_le_bytes());
    d.extend_from_slice(&count.to_le_bytes());
    d.extend_from_slice(content);
    d
}

fn whole(d: &[u8]) -> Section {
    section_at(d, 0).unwrap()
}

#[test]
fn empty_sections_hold_nothing() {
    let d = section(b"MDLS0004", 0, &[0; 32]);
    assert!(parse_skeleton(&d, &whole(&d)).is_empty());
    let d = section(b"MDAT0001", 0, &[0; 32]);
    assert!(parse_attachments(&d, &whole(&d)).is_empty());
    let d = section(b"MDLA0006", 0, &[0; 32]);
    assert!(parse_animations(&d, &whole(&d)).is_empty());
}

fn candidate(start: usize, wide: bool) -> MeshCandidate {
    MeshCandidate {
        start,
        wide,
        mesh: Mesh {
            positions: Vec::new(),
            uvs: Vec::new(),
            indices: Vec::new(),
            stride: 16,
            records: Vec::new(),
        },
    }
}

fn turns(left: usize, right: usize, flat: usize) -> Vec<Turn> {
    let mut out = vec![Turn::Left; left];
    out.extend(vec![Turn::Right; right]);
    out.extend(vec![Turn::Flat; flat]);
    out
}

fn wound(plane: Vec<Turn>, texture: Vec<Turn>) -> MeshTurns {
    MeshTurns { plane, texture }
}

#[test]
fn nineteen_in_twenty_triangles_are_wound_alike() {
    assert!(is_wound_alike(&turns(19, 1, 5)));
    assert!(is_wound_alike(&turns(1, 19, 0)));
    assert!(!is_wound_alike(&turns(18, 1, 0)));
    assert!(!is_wound_alike(&turns(0, 0, 9)));
    assert!(!is_wound_alike(&vec![]));
}

#[test]
fn the_mesh_is_the_first_candidate_whose_arrays_agree() {
    let list = vec![
        candidate(10, false),
        candidate(10, true),
        candidate(11, false),
        candidate(12, false),
    ];
    let good = || wound(turns(19, 1, 0), turns(0, 20, 0));
    let better = || wound(turns(20, 0, 0), turns(20, 0, 0));
    let bad = || wound(turns(20, 0, 0), turns(10, 10, 0));
    // A later one that agrees even better changes nothing.
    assert_eq!(choose_mesh(&list, &vec![bad(), bad(), good(), better()]), Some(2));
    assert_eq!(choose_mesh(&list, &vec![good(), better(), better(), better()]), Some(0));
    assert_eq!(choose_mesh(&list, &vec![bad(), bad(), bad(), bad()]), None);
}

#[test]
fn what_is_behind_a_section_does_not_matter_to_its_animations() {
    let mut content = vec![0u8; 2 + 8];
    content.extend_from_slice(b"wave\0loop\0");
    content.extend_from_slice(&30f32.to_bits().to_le_bytes());
    content.extend_from_slice(&1u32.to_le_bytes());
    content.extend_from_slice(&[0; 4]);
    content.extend_from_slice(&1u32.to_le_bytes());
    content.extend_from_slice(&[0; 4]);
    content.extend_from_slice(&72u32.to_le_bytes());
    for i in 0..18 {
        content.extend_from_slice(&(i as f32).to_bits().to_le_bytes());
    }
    let d = section(b"MDLA0006", 1, &content);
    let sec = whole(&d);
    let one = animations_with_trailer(&d, &sec, 0).unwrap();
    assert_eq!(one.len(), 1);
    assert_eq!(one[0].name, "wave");
    assert_eq!(one[0].tracks[0].keys.len(), 2);
    assert_eq!(one[0].tracks[0].keys[1].rotation, 14f32.to_bits());
    // A trailer of any length can be asked for; the search stops before this one.
    content.extend_from_slice(&[0; 300]);
    let padded = section(b"MDLA0006", 1, &content);
    let same = animations_with_trailer(&padded, &whole(&padded), 300).unwrap();
    assert_eq!(format!("{same:?}"), format!("{one:?}"));
    assert!(animations_with_trailer(&padded, &whole(&padded), 299).is_none());
    assert!(parse_animations(&padded, &whole(&padded)).is_empty());
    for more in [vec![0u8; 40], vec![255u8; 7]] {
        let mut longer = d.clone();
        longer.extend_from_slice(&more);
        let again = animations_with_trailer(&longer, &sec, 0).unwrap();
        assert_eq!(format!("{again:?}"), format!("{one:?}"));
        assert!(animations_with_trailer(&longer, &sec, 1).is_none());
        assert!(animations_with_trailer(&longer, &sec, usize::MAX).is_none());
    }
}
