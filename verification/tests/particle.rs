use hyprwpe::json::{parse_json, Json};
use hyprwpe::particle::{material_texture, parse, vocabularies, Item, RawSystem, System};
use hyprwpe::scene::Component;

const FOG: &str = r#"{
    "emitter": [
        {"directions": "1 0.2 0", "distancemax": 512, "distancemin": 0,
         "id": 8, "name": "sphererandom", "origin": "0 0 0", "rate": 1.5}
    ],
    "initializer": [
        {"id": 2, "max": 5, "min": 3, "name": "lifetimerandom"},
        {"id": 4, "max": "80 0 0", "min": "25 0 0", "name": "velocityrandom"}
    ],
    "operator": [
        {"gravity": "0 0 0", "id": 9, "name": "movement"},
        {"fadeintime": 0.5, "id": 10, "name": "alphafade"}
    ],
    "renderer": [{"id": 1, "name": "sprite"}],
    "material": "materials/presets/fog1.json",
    "maxcount": 20,
    "starttime": 2,
    "children": null
}"#;

/// The sections of a definition.
fn raw(text: &str) -> RawSystem {
    let doc = parse_json(text).unwrap();
    let list = |key: &str| match doc.get(key) {
        Some(Json::List(a)) => a.iter().map(|j| j.copy()).collect(),
        _ => Vec::new(),
    };
    RawSystem {
        emitter: list("emitter"),
        initializer: list("initializer"),
        operator: list("operator"),
        renderer: list("renderer"),
        controlpoint: list("controlpoint"),
        children: match doc.get("children") {
            Some(Json::List(a)) => Some(a.iter().map(|c| c.text_at("name").cloned()).collect()),
            _ => None,
        },
        material: doc.text_at("material").cloned(),
        maxcount: doc.get("maxcount").map(|j| j.copy()),
        starttime: doc.get("starttime").map(|j| j.copy()),
    }
}

fn system(text: &str) -> System {
    parse(&raw(text))
}

fn value(c: &Component) -> f32 {
    match c {
        Component::Zero => 0.0,
        Component::Number(n) => n.written().parse::<f64>().unwrap() as f32,
        Component::Text(s) => s.parse().unwrap(),
    }
}

fn vec3(item: &Item, key: &str) -> Option<[f32; 3]> {
    item.vec3(key).map(|v| [value(&v[0]), value(&v[1]), value(&v[2])])
}

fn number(item: &Item, key: &str) -> Option<f32> {
    item.number(key).map(|c| value(&c))
}

#[test]
fn parses_the_real_shape() {
    let s = system(FOG);
    assert_eq!(s.emitters.len(), 1);
    assert_eq!(s.initializers.len(), 2);
    assert_eq!(s.operators.len(), 2);
    assert_eq!(s.renderers.len(), 1);
    assert_eq!(s.maxcount, 20);
    assert!((value(&s.starttime) - 2.0).abs() < 1e-6);
    assert_eq!(s.material.as_deref(), Some("materials/presets/fog1.json"));
}

#[test]
fn parameters_read_by_name_with_types() {
    let s = system(FOG);
    let em = &s.emitters[0];
    assert_eq!(em.name, "sphererandom");
    assert_eq!(vec3(em, "directions"), Some([1.0, 0.2, 0.0]));
    assert!((value(&em.number_or("distancemax", &Component::Zero)) - 512.0).abs() < 1e-6);
    assert!((value(&em.number_or("rate", &Component::Zero)) - 1.5).abs() < 1e-6);
    // A vector parameter written as a string.
    let vel = &s.initializers[1];
    assert_eq!(vec3(vel, "min"), Some([25.0, 0.0, 0.0]));
    assert_eq!(vec3(vel, "max"), Some([80.0, 0.0, 0.0]));
    // min/max pair helper.
    let one = Component::Text("1.0".to_string());
    let (min, max) = s.initializers[0].min_max((&Component::Zero, &one));
    assert_eq!([value(&min), value(&max)], [3.0, 5.0]);
}

#[test]
fn an_unknown_parameter_or_behaviour_is_not_an_error() {
    let s = system(
        r#"{
        "initializer": [{"name": "some_future_initializer", "newparam": 3}],
        "emitter": [{"name": "sphererandom", "rate": 1}]
    }"#,
    );
    assert_eq!(s.initializers[0].name, "some_future_initializer");
    assert_eq!(number(&s.initializers[0], "newparam"), Some(3.0));
}

#[test]
fn missing_sections_default_to_empty() {
    let s = system("{}");
    assert!(s.is_empty());
    assert_eq!(s.maxcount, 1000, "a missing maxcount gets a sane bound");
}

#[test]
fn material_texture_reads_the_first_pass() {
    let m = r#"{"passes":[{"textures":["particle/glow"]}]}"#;
    assert_eq!(material_texture(m).as_deref(), Some("particle/glow"));
    assert_eq!(material_texture("{}"), None);
}

#[test]
fn a_texture_may_stand_on_the_whole_material() {
    let m = r#"{"passes":[{}],"textures":["a","b"]}"#;
    assert_eq!(material_texture(m).as_deref(), Some("a"));
    assert_eq!(material_texture(r#"{"textures":["a"]}"#), None);
    assert_eq!(material_texture("not json"), None);
}

#[test]
fn identity_is_not_a_parameter() {
    let s = system(FOG);
    let em = &s.emitters[0];
    assert!(em.has("rate"));
    assert!(!em.has("id") && !em.has("name"));
    assert_eq!(number(em, "nothing"), None);
    let nameless = system(r#"{"emitter": [{"rate": 1}, 3, {"name": 4}]}"#);
    assert!(nameless.is_empty());
}

#[test]
fn vectors_repeat_their_first_component() {
    let s = system(
        r#"{"emitter": [{"name": "e", "a": 2, "b": [1, "x", 3], "c": "5 6", "d": "x", "f": true, "g": "7 8"}]}"#,
    );
    let e = &s.emitters[0];
    assert_eq!(vec3(e, "a"), Some([2.0, 2.0, 2.0]));
    assert_eq!(vec3(e, "b"), Some([1.0, 3.0, 1.0]));
    assert_eq!(vec3(e, "c"), Some([5.0, 6.0, 5.0]));
    assert_eq!(vec3(e, "d"), None);
    assert_eq!(vec3(e, "f"), None);
    assert_eq!(number(e, "g"), Some(7.0));
    let default = vec![Component::Zero, Component::Zero, Component::Zero];
    assert_eq!(e.vec3_or("none", &default), default);
}

#[test]
fn bounds_and_delays_may_be_texts() {
    let s = system(
        r#"{"maxcount": " 12 ", "starttime": " 0.5 ", "children": [{"name": "a"}, {}],
            "controlpoint": [{"offset": "1 2"}, {"offset": 3}, {}]}"#,
    );
    assert_eq!(s.maxcount, 12);
    assert_eq!(value(&s.starttime), 0.5);
    assert_eq!(s.children, vec!["a"]);
    assert_eq!(s.control_points.len(), 1);
    let offset: Vec<f32> = s.control_points[&0].iter().map(value).collect();
    assert_eq!(offset, [1.0, 2.0, 0.0]);
    assert_eq!(system(r#"{"maxcount": 0}"#).maxcount, 1000);
    assert_eq!(system(r#"{"maxcount": -4}"#).maxcount, 1000);
    assert_eq!(value(&system(r#"{"starttime": "soon"}"#).starttime), 0.0);
}

#[test]
fn the_vocabulary_is_by_section() {
    let v = vocabularies();
    let sections: Vec<&str> = v.iter().map(|(name, _)| *name).collect();
    assert_eq!(sections, vec!["emitter", "initializer", "operator", "renderer"]);
    let counts: Vec<usize> = v.iter().map(|(_, list)| list.len()).collect();
    assert_eq!(counts, vec![2, 10, 12, 4]);
    assert!(v[2].1.contains(&"vortex"));
}

#[test]
fn control_points_are_indexed_by_their_ids() {
    let s = system(r#"{"controlpoint":[{"id":1,"offset":"1 2 3"}]}"#);
    let at = |s: &hyprwpe::particle::System, id: u64| -> Option<Vec<f32>> {
        s.control_points.get(&id).map(|v| v.iter().map(value).collect())
    };
    assert_eq!(at(&s, 1), Some(vec![1.0, 2.0, 3.0]));
    assert_eq!(at(&s, 0), None);
    assert!(s.emitters.is_empty());
    assert_eq!(s.maxcount, 1000);
    let s = system(
        r#"{"controlpoint":[{"id":2,"offset":"1"},{"offset":"5"},{"id":2,"offset":"9"},{"id":7}]}"#,
    );
    assert_eq!(at(&s, 2), Some(vec![9.0, 0.0, 0.0]));
    assert_eq!(at(&s, 1), Some(vec![5.0, 0.0, 0.0]));
    assert_eq!(s.control_points.len(), 2);
}
