use hyprwpe::json::{parse_json, Json};
use hyprwpe::scene::{
    number_from_entries, truth_from_entries, truth_from_text, vector_from_list, vector_from_text,
    Component, ObjectKind, Scene, SceneObject, Vec2, Vec3, VectorReader,
};

fn json(s: &str) -> Json {
    parse_json(s).unwrap()
}

/// A component as a single-precision value.
fn value(c: &Component) -> f32 {
    match c {
        Component::Zero => 0.0,
        Component::Number(n) => n.written().parse::<f64>().unwrap() as f32,
        Component::Text(s) => s.parse().unwrap(),
    }
}

fn values(v: &[Component]) -> Vec<f32> {
    v.iter().map(value).collect()
}

/// A vector in any of its writings.
fn vector(j: &Json, n: usize) -> Vec<f32> {
    match j {
        Json::Text(s) => values(&vector_from_text(s, n)),
        Json::List(a) => values(&vector_from_list(a, n)),
        Json::Number(x) => vec![value(&Component::Number(x.clone())); n],
        Json::Table(m) => {
            let mut reader = VectorReader::new(n);
            for i in 0..m.len() {
                reader.take(m.key_at(i), m.value_at(i));
            }
            values(&reader.parts)
        }
        _ => panic!("not a vector"),
    }
}

fn vec3(j: &Json) -> Vec3 {
    let v = vector(j, 3);
    Vec3::new(v[0].to_bits(), v[1].to_bits(), v[2].to_bits())
}

fn floats(v: Vec3) -> [f32; 3] {
    [f32::from_bits(v.x()), f32::from_bits(v.y()), f32::from_bits(v.z())]
}

fn object(j: &Json) -> SceneObject {
    let own = |key: &str| j.get(key).map(|v| v.copy());
    SceneObject {
        id: j.get("id").and_then(|v| v.as_u64()).map(|n| n as u32),
        name: j.text_at("name").cloned(),
        origin: j.get("origin").map(vec3),
        scale: j.get("scale").map(vec3),
        angles: j.get("angles").map(vec3),
        size: None,
        color: None,
        alpha: j.get("alpha").map(|v| {
            let c = number_from_entries(&entries(v)).unwrap();
            value(&c).to_bits()
        }),
        visible: j.get("visible").map(|v| match v {
            Json::Bool(b) => *b,
            other => truth_from_entries(&entries(other)),
        }),
        parent: None,
        parallax_depth: None,
        effects: Vec::new(),
        image: own("image"),
        particle: own("particle"),
        text: own("text"),
        sound: own("sound"),
        light: own("light"),
    }
}

fn entries(j: &Json) -> Vec<(String, Json)> {
    match j {
        Json::Table(m) => (0..m.len())
            .map(|i| (m.key_at(i).clone(), m.value_at(i).copy()))
            .collect(),
        _ => panic!("not an object"),
    }
}

fn scene(j: &Json) -> Scene {
    let objects = match j.get("objects") {
        Some(Json::List(a)) => a.iter().map(object).collect(),
        _ => Vec::new(),
    };
    Scene {
        camera: None,
        general: None,
        objects,
        version: j.get("version").and_then(|v| v.as_u64()).map(|n| n as u32),
    }
}

#[test]
fn parse_vec3_string_and_array() {
    let t = json(r#"{"origin": "100 200.5 -50", "scale": [1.0, 2.0, 3.0], "angles": 1.5}"#);
    assert_eq!(vector(t.get("origin").unwrap(), 3), [100.0, 200.5, -50.0]);
    assert_eq!(vector(t.get("scale").unwrap(), 3), [1.0, 2.0, 3.0]);
    assert_eq!(vector(t.get("angles").unwrap(), 3), [1.5, 1.5, 1.5]);
}

#[test]
fn parse_vec2_string_and_array() {
    let t = json(r#"{"size": "1920 1080", "depth": [0.5, 0.5]}"#);
    assert_eq!(vector(t.get("size").unwrap(), 2), [1920.0, 1080.0]);
    assert_eq!(vector(t.get("depth").unwrap(), 2), [0.5, 0.5]);
}

#[test]
fn parse_realistic_scene_json() {
    let scene = scene(&json(
        r#"{
        "objects": [
            {
                "id": 1,
                "name": "Background",
                "origin": "960 540 0",
                "scale": "1 1 1",
                "visible": true,
                "image": "materials/background.json"
            },
            {
                "id": 2,
                "name": "Snowfall",
                "origin": "960 1080 0",
                "particle": {
                    "file": "particles/snow.json"
                }
            },
            {
                "id": 3,
                "name": "Clock",
                "origin": "100 100 0",
                "text": {
                    "value": "12:00"
                }
            }
        ],
        "version": 1
    }"#,
    ));
    assert_eq!(scene.version, Some(1));
    assert_eq!(scene.objects.len(), 3);

    let bg = &scene.objects[0];
    assert_eq!(bg.name.as_deref(), Some("Background"));
    assert_eq!(bg.kind(), ObjectKind::Image);
    assert_eq!(bg.image_path().as_deref(), Some("materials/background.json"));
    assert_eq!(floats(bg.origin()), [960.0, 540.0, 0.0]);
    assert_eq!(floats(bg.scale()), [1.0, 1.0, 1.0]);
    assert!(bg.is_visible());

    let snow = &scene.objects[1];
    assert_eq!(snow.kind(), ObjectKind::Particle);

    let clock = &scene.objects[2];
    assert_eq!(clock.kind(), ObjectKind::Text);

    let counts = scene.count_by_kind();
    assert!(counts.contains(&(ObjectKind::Image, 1)));
    assert!(counts.contains(&(ObjectKind::Particle, 1)));
    assert!(counts.contains(&(ObjectKind::Text, 1)));
    assert_eq!(counts.len(), 3);
}

#[test]
fn parse_object_with_user_properties() {
    let scene = scene(&json(
        r#"{
        "objects": [
            {
                "id": 1,
                "name": "Fog",
                "origin": {"value": "100 200 0"},
                "visible": {"user": "smoke", "value": true},
                "alpha": {"user": "opacity", "value": 0.75}
            }
        ]
    }"#,
    ));
    assert_eq!(scene.objects.len(), 1);
    let obj = &scene.objects[0];
    assert_eq!(floats(obj.origin()), [100.0, 200.0, 0.0]);
    assert_eq!(obj.visible, Some(true));
    assert_eq!(f32::from_bits(obj.alpha()), 0.75);
}

#[test]
fn vectors_are_padded_with_zero() {
    assert_eq!(values(&vector_from_text("1, x,2", 3)), [1.0, 2.0, 0.0]);
    assert_eq!(values(&vector_from_text("", 2)), [0.0, 0.0]);
    assert_eq!(vector(&json(r#"[1, "x", 3, 4]"#), 3), [1.0, 0.0, 3.0]);
    assert_eq!(vector(&json(r#"{"x": 1, "z": 3, "w": 9}"#), 3), [1.0, 0.0, 3.0]);
    assert_eq!(vector(&json(r#"{"x": 1, "z": 3}"#), 2), [1.0, 0.0]);
    assert_eq!(vector(&json(r#"{"value": 7, "y": 3}"#), 2), [0.0, 3.0]);
}

#[test]
fn a_value_is_the_whole_vector() {
    let mut reader = VectorReader::new(3);
    reader.take("x", &json("5"));
    reader.take("value", &json("\"1 2 3\""));
    assert!(reader.done);
    reader.take("y", &json("9"));
    assert_eq!(values(&reader.parts), [1.0, 2.0, 3.0]);
}

#[test]
fn truth_is_written_in_many_ways() {
    assert_eq!(truth_from_text("TRUE"), Some(true));
    assert_eq!(truth_from_text("0"), Some(false));
    assert_eq!(truth_from_text("yes"), None);
    assert!(truth_from_entries(&vec![]));
    assert!(!truth_from_entries(&entries(&json(r#"{"value": 0}"#))));
    assert!(!truth_from_entries(&entries(&json(r#"{"value": "no"}"#))));
    assert!(truth_from_entries(&entries(&json(r#"{"value": "1"}"#))));
    assert!(truth_from_entries(&entries(&json(r#"{"value": null}"#))));
}

#[test]
fn numbers_are_written_in_many_ways() {
    let read = |s: &str| number_from_entries(&entries(&json(s))).map(|c| value(&c));
    assert_eq!(read(r#"{"value": "0.25"}"#), Some(0.25));
    assert_eq!(read(r#"{"value": 3}"#), Some(3.0));
    assert_eq!(read(r#"{"value": "x"}"#), None);
    assert_eq!(read(r#"{"user": 3}"#), None);
}

#[test]
fn what_is_not_given_has_a_default() {
    let o = object(&json(r#"{"image": {"image": "a.json"}, "sound": []}"#));
    assert_eq!(o.kind(), ObjectKind::Image);
    assert_eq!(o.image_path().as_deref(), Some("a.json"));
    assert_eq!(f32::from_bits(o.alpha()), 1.0);
    assert_eq!(floats(o.origin()), [0.0; 3]);
    assert_eq!(floats(o.scale()), [1.0; 3]);
    assert_eq!(floats(o.angles()), [0.0; 3]);
    assert_eq!(o.size(), None);
    assert!(o.is_visible());
    assert_eq!(object(&json(r#"{"sound": []}"#)).kind().as_str(), "sound");
    assert_eq!(object(&json(r#"{"light": 1}"#)).kind().as_str(), "light");
    assert_eq!(object(&json("{}")).kind().as_str(), "other");
    assert_eq!(object(&json(r#"{"image": 3}"#)).image_path(), None);
    let v = Vec2::new(1, 2);
    assert_eq!((v.x(), v.y()), (1, 2));
}

#[test]
fn every_object_is_counted_once() {
    let s = scene(&json(r#"{"objects": [{"light": 1}, {}, {"text": 1}, {"light": 2}]}"#));
    let total: usize = s.count_by_kind().iter().map(|(_, n)| n).sum();
    assert_eq!(total, s.objects.len());
    assert!(s.count_by_kind().contains(&(ObjectKind::Light, 2)));
}
