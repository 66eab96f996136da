use hyprwpe::json::{parse_json, Json, JsonNumber};
use hyprwpe::properties::{
    parse_color, Channel, Coercion, Colour, Property, PropertyKind, PropertySet, SlideSource,
};
use hyprwpe::sliders::slide;

fn json(s: &str) -> Json {
    parse_json(s).unwrap()
}

/// A double as JSON.
fn double(v: f64) -> Json {
    json(&serde_json::Value::from(v).to_string())
}

fn number(n: &JsonNumber) -> f64 {
    n.written().parse().unwrap()
}

/// What a value comes to, once a number in a text is read.
fn coerce(p: &Property, input: &Json) -> Option<Json> {
    finish(p, p.coerce(input)?)
}

fn finish(p: &Property, c: Coercion) -> Option<Json> {
    match c {
        Coercion::Value(v) => Some(v),
        Coercion::Slide(source) => {
            let raw = match source {
                SlideSource::Number(n) => number(&n),
                SlideSource::Text(s) => s.parse::<f64>().unwrap(),
            };
            let (min, max, fraction) = match &p.range {
                Some(r) => (r.min.clone(), r.max.clone(), r.fraction),
                None => (JsonNumber::Natural(0), JsonNumber::Natural(1), false),
            };
            match double(raw) {
                Json::Number(n) => slide(&n, &min, &max, fraction).map(Json::Number),
                _ => None,
            }
        }
        Coercion::Colour(_) => None,
    }
}

fn apply(set: &mut PropertySet, saved: &Json) {
    let changes = set.saved_changes(saved);
    let mut finished = Vec::new();
    for c in changes {
        finished.push(finish(&set.properties[c.index], c.coercion));
    }
    set.apply_saved(saved, &finished);
}

fn channel(c: &Channel) -> f32 {
    match c {
        Channel::Number(n) => number(n) as f32,
        Channel::Text(s) => s.parse().unwrap(),
        Channel::Hex(b) => f32::from(*b) / 255.0,
    }
}

fn colour(c: Colour) -> [f32; 3] {
    [channel(&c.r), channel(&c.g), channel(&c.b)]
}

/// The declaration shape the local library actually uses, taken verbatim
/// from a scene's `project.json`.
fn real_general() -> Json {
    json(
        r#"{
        "properties": {
            "blade_color": {"index":36,"order":136,"text":"Blades Color","type":"color","value":"1 1 1"},
            "bladessize": {"fraction":true,"index":37,"max":1,"min":0,"order":137,"precision":2,"step":0.1,"text":"Blades Size","type":"slider","value":0.5},
            "huegradient": {"index":20,"options":[{"label":"Off","value":"1"},{"label":"1","value":"2"}],"order":120,"text":"Hue Gradient","type":"combo","value":"1"},
            "audioresponsive": {"index":8,"order":108,"text":"Oni Audio Responsive on/off","type":"bool","value":true},
            "schemecolor": {"index":0,"order":100,"text":"Scheme Color","type":"color","value":"0.1 0.2 0.3"}
        }
    }"#,
    )
}

#[test]
fn a_real_general_parses_and_orders_by_the_editors_order_key() {
    let set = PropertySet::from_general(&real_general());
    assert_eq!(set.len(), 5);
    // schemecolor (order 100) first, audioresponsive (108), huegradient (120)...
    let order: Vec<&str> = set.properties.iter().map(|p| p.key.as_str()).collect();
    assert_eq!(
        order,
        vec![
            "schemecolor",
            "audioresponsive",
            "huegradient",
            "blade_color",
            "bladessize"
        ]
    );
    assert_eq!(set.get("bladessize").unwrap().kind, PropertyKind::Slider);
}

#[test]
fn every_corpus_type_maps_to_a_kind_and_unknown_ones_survive() {
    for (t, want) in [
        ("bool", PropertyKind::Bool),
        ("slider", PropertyKind::Slider),
        ("color", PropertyKind::Color),
        ("combo", PropertyKind::Combo),
        ("textinput", PropertyKind::TextInput),
        ("scenetexture", PropertyKind::Texture),
        ("texture", PropertyKind::Texture),
        ("usershortcut", PropertyKind::UserShortcut),
        ("group", PropertyKind::Group),
        ("text", PropertyKind::Text),
    ] {
        assert_eq!(PropertyKind::parse(t), want, "{t}");
    }
    // A type from a future engine version is preserved, never dropped.
    assert_eq!(
        PropertyKind::parse("holodeck"),
        PropertyKind::Other("holodeck".into())
    );
}

#[test]
fn a_slider_clamps_to_its_range_and_quantises() {
    let set = PropertySet::from_general(&real_general());
    let p = set.get("bladessize").unwrap(); // min 0 max 1 step 0.1 precision 2
    assert_eq!(coerce(p, &json("5.0")).unwrap(), json("1"), "clamped to max");
    assert_eq!(coerce(p, &json("-3")).unwrap(), json("0"), "clamped to min");
    // `step` is a UI hint: a stored value that is not on a step boundary is
    // kept, not rounded away.
    assert_eq!(coerce(p, &json("0.34")).unwrap(), json("0.34"));
    assert_eq!(
        coerce(p, &json("\"0.7\"")).unwrap(),
        json("0.7"),
        "a string number works"
    );
    assert!(coerce(p, &json("\"hello\"")).is_none());
}

#[test]
fn a_whole_number_slider_never_keeps_a_fraction() {
    let g = json(r#"{"properties": {"n": {"type":"slider","min":0,"max":2,"fraction":false,"value":0}}}"#);
    let set = PropertySet::from_general(&g);
    let p = set.get("n").unwrap();
    assert_eq!(coerce(p, &json("1.6")).unwrap(), json("2"));
}

#[test]
fn booleans_accept_the_spellings_users_write() {
    let set = PropertySet::from_general(&real_general());
    let p = set.get("audioresponsive").unwrap();
    assert_eq!(coerce(p, &json("\"false\"")).unwrap(), json("false"));
    assert_eq!(coerce(p, &json("\"ON\"")).unwrap(), json("true"));
    assert_eq!(coerce(p, &json("0")).unwrap(), json("false"));
    assert_eq!(
        coerce(p, &json("\"maybe\"")).unwrap_or(json("false")),
        json("false")
    );
}

#[test]
fn a_combo_accepts_a_value_or_its_label_and_rejects_nonsense() {
    let set = PropertySet::from_general(&real_general());
    let p = set.get("huegradient").unwrap();
    assert_eq!(coerce(p, &json("\"2\"")).unwrap(), json("\"2\""));
    assert_eq!(
        coerce(p, &json("\"Off\"")).unwrap(),
        json("\"1\""),
        "label -> value"
    );
    assert!(coerce(p, &json("\"purple\"")).is_none(), "not an option");
}

#[test]
fn colours_parse_from_engine_triples_arrays_and_hex() {
    assert_eq!(
        colour(parse_color(&json("\"1 0.5 0.25\"")).unwrap()),
        [1.0, 0.5, 0.25]
    );
    assert_eq!(
        colour(parse_color(&json("[0.1, 0.2, 0.3]")).unwrap()),
        [0.1, 0.2, 0.3]
    );
    let hex = colour(parse_color(&json("\"#ff8000\"")).unwrap());
    assert!((hex[0] - 1.0).abs() < 1e-6 && (hex[1] - 0.502).abs() < 0.01);
    assert!(parse_color(&json("\"not a colour\"")).is_none());
}

#[test]
fn saved_values_layer_over_the_declared_defaults() {
    let mut set = PropertySet::from_general(&real_general());
    // The engine's saved shape.
    apply(
        &mut set,
        &json(r#"{"bladessize": {"value": 0.9}, "audioresponsive": {"value": false}}"#),
    );
    assert_eq!(set.get("bladessize").unwrap().value, json("0.9"));
    assert_eq!(set.get("audioresponsive").unwrap().value, json("false"));
    // Untouched properties keep their default.
    assert_eq!(set.get("blade_color").unwrap().value, json("\"1 1 1\""));
    // A bare value (no wrapper) is accepted too.
    let mut bare = PropertySet::from_general(&real_general());
    apply(&mut bare, &json(r#"{"blade_color": "0.5 0.5 0.5"}"#));
    assert_eq!(bare.get("blade_color").unwrap().value, json("\"0.5 0.5 0.5\""));
}

#[test]
fn a_saved_value_out_of_range_is_coerced_not_trusted() {
    let mut set = PropertySet::from_general(&real_general());
    apply(&mut set, &json(r#"{"bladessize": {"value": 99}}"#));
    assert_eq!(set.get("bladessize").unwrap().value, json("1"));
}

#[test]
fn a_saved_key_with_no_declaration_is_ignored() {
    let mut set = PropertySet::from_general(&real_general());
    apply(&mut set, &json(r#"{"removed_property": {"value": 1}}"#));
    assert_eq!(set.len(), 5, "does not resurrect a removed property");
}

#[test]
fn round_trip_back_to_the_engines_saved_shape() {
    let set = PropertySet::from_general(&real_general());
    let saved = set.to_saved();
    assert_eq!(
        saved.get("bladessize").unwrap().get("value"),
        Some(&json("0.5"))
    );
    assert_eq!(
        saved.get("audioresponsive").unwrap().get("value"),
        Some(&json("true"))
    );
    // Re-applying our own output is a no-op.
    let mut again = PropertySet::from_general(&real_general());
    apply(&mut again, &saved);
    assert_eq!(again.properties, set.properties);
}

#[test]
fn a_group_is_kept_but_is_not_editable() {
    let g = json(
        r#"{"properties": {
        "ar": {"index":31,"order":131,"text":"AR/Media","type":"group","value":""},
        "vol": {"type":"slider","min":0,"max":1,"value":0.5}
    }}"#,
    );
    let set = PropertySet::from_general(&g);
    assert_eq!(set.len(), 2, "the group is still listed");
    let editable: Vec<&str> = set.editable().iter().map(|p| p.key.as_str()).collect();
    assert_eq!(editable, vec!["vol"]);
    // A group is not written into saved values.
    assert!(set.to_saved().get("ar").is_none());
}

#[test]
fn unknown_declaration_fields_survive_a_round_trip() {
    let g = json(
        r#"{"properties": {
        "x": {"type":"bool","value":true,"futureKeyboardHint":"press F"}
    }}"#,
    );
    let set = PropertySet::from_general(&g);
    let p = set.get("x").unwrap();
    assert_eq!(
        p.extra.get("futureKeyboardHint").unwrap(),
        &json("\"press F\"")
    );
}

#[test]
fn a_property_with_no_type_is_still_shown() {
    let g = json(r#"{"properties": {"mystery": {"value": 3}}}"#);
    let set = PropertySet::from_general(&g);
    assert_eq!(set.len(), 1);
    assert_eq!(set.get("mystery").unwrap().value, json("3"));
}

#[test]
fn a_blank_label_falls_back_to_the_key() {
    let g = json(r#"{"properties": {"newproperty": {"type":"textinput","text":"","value":""}}}"#);
    let set = PropertySet::from_general(&g);
    assert_eq!(set.get("newproperty").unwrap().label(), "newproperty");
}

/// An integer-valued slider must not be rewritten as a float.
#[test]
fn an_integral_slider_keeps_its_integer_type() {
    let g = json(
        r#"{"properties": {
        "soundsensitivity": {"type":"slider","min":0,"max":100,"value":100},
        "bladesopacity": {"fraction":true,"type":"slider","min":0,"max":5,"value":1}
    }}"#,
    );
    let set = PropertySet::from_general(&g);
    assert_eq!(
        coerce(set.get("soundsensitivity").unwrap(), &json("100")).unwrap(),
        json("100")
    );
    assert_eq!(
        coerce(set.get("bladesopacity").unwrap(), &json("1")).unwrap(),
        json("1")
    );
    // A fractional slider is unaffected.
    assert_eq!(
        coerce(set.get("bladesopacity").unwrap(), &json("0.5")).unwrap(),
        json("0.5")
    );
}

/// A combo whose default is the number `0` must not be turned into the string `"0"`.
#[test]
fn a_numeric_combo_default_keeps_its_number_type() {
    let g = json(
        r#"{"properties": {
        "instrument": {"type":"combo","options":[{"label":"Piano","value":"0"},{"label":"Drum","value":"1"}],"value":0}
    }}"#,
    );
    let set = PropertySet::from_general(&g);
    let p = set.get("instrument").unwrap();
    assert_eq!(coerce(p, &json("0")).unwrap(), json("0"), "stays a number");
    assert_eq!(
        coerce(p, &json("\"Drum\"")).unwrap(),
        json("\"1\""),
        "label maps to value"
    );
    assert_eq!(
        coerce(p, &json("\"9\"")).unwrap_or(json("null")),
        json("null"),
        "not an option"
    );
}

/// Every default in the library must survive its own coercion unchanged.
#[test]
fn coercing_a_default_is_a_no_op() {
    let set = PropertySet::from_general(&real_general());
    for p in &set.properties {
        if p.kind.is_editable() {
            assert_eq!(
                coerce(p, &p.value).as_ref(),
                Some(&p.value),
                "{} {:?}",
                p.key,
                p.kind
            );
        }
    }
}

#[test]
fn a_scene_without_properties_yields_an_empty_set_not_a_failure() {
    let set = PropertySet::from_document(&json(r#"{"general": {"clearcolor": "0 0 0"}}"#));
    assert!(set.is_empty());
}

#[test]
fn whole_numbers_are_settled_without_doubles() {
    let g = json(r#"{"properties": {"n": {"type":"slider","min":10,"max":-10,"value":0}}}"#);
    let set = PropertySet::from_general(&g);
    let p = set.get("n").unwrap();
    assert_eq!(p.coerce(&json("99")), Some(Coercion::Value(json("10"))));
    assert_eq!(p.coerce(&json("-99")), Some(Coercion::Value(json("-10"))));
    assert_eq!(p.coerce(&json("3")), Some(Coercion::Value(json("3"))));
    assert_eq!(p.coerce(&json("null")), None);
}

#[test]
fn a_text_takes_any_scalar_as_it_is_written() {
    let g = json(r#"{"properties": {"t": {"type":"textinput","value":""}}}"#);
    let set = PropertySet::from_general(&g);
    let p = set.get("t").unwrap();
    assert_eq!(p.coerce(&json("0.5")), Some(Coercion::Value(json("\"0.5\""))));
    assert_eq!(p.coerce(&json("-3")), Some(Coercion::Value(json("\"-3\""))));
    assert_eq!(p.coerce(&json("true")), Some(Coercion::Value(json("\"true\""))));
    assert_eq!(p.coerce(&json("null")), Some(Coercion::Value(json("\"\""))));
}

/// A list or a table is stored as it is written, and what was stored is kept.
#[test]
fn a_text_takes_a_list_or_a_table_as_json() {
    let g = json(r#"{"properties": {"t": {"type":"textinput","value":""}}}"#);
    let set = PropertySet::from_general(&g);
    let p = set.get("t").unwrap();
    for (input, want) in [
        ("[ ]", "[]"),
        ("{ }", "{}"),
        ("[1, -2, 0.5, null, true, \"a\"]", "[1,-2,0.5,null,true,\"a\"]"),
        ("{\"b\": [1, {}], \"a\": false}", "{\"a\":false,\"b\":[1,{}]}"),
    ] {
        let stored = Json::Text(want.to_string());
        assert_eq!(p.coerce(&json(input)), Some(Coercion::Value(stored.clone())));
        assert_eq!(p.coerce(&stored), Some(Coercion::Value(stored)));
    }
}

#[test]
fn a_dropdown_without_a_value_takes_its_first_option() {
    let set = PropertySet::from_general(&real_general());
    let p = set.get("huegradient").unwrap();
    assert_eq!(p.coerce(&json("null")), Some(Coercion::Value(json("\"1\""))));
}

#[test]
fn hexadecimal_colours_that_are_malformed_are_none() {
    assert!(parse_color(&json("\"#ff80\"")).is_none());
    assert!(parse_color(&json("\"#gg8000\"")).is_none());
    assert!(parse_color(&json("\"#é8000\"")).is_none());
}

#[test]
fn names_of_kinds_are_read_back() {
    for t in ["bool", "slider", "color", "combo", "textinput", "usershortcut", "group", "text", "x"] {
        assert_eq!(PropertyKind::parse(t).as_str(), t);
    }
}

#[test]
fn a_whole_document_among_the_saved_values_is_read() {
    let mut set = PropertySet::from_general(&real_general());
    apply(
        &mut set,
        &json(r#"{"general": {"properties": {"audioresponsive": {"value": false}}}}"#),
    );
    assert_eq!(set.get("audioresponsive").unwrap().value, json("false"));
}

/// A value that was finished is accepted as it is.
#[test]
fn finished_values_are_kept() {
    let g = json(
        r#"{"properties": {
            "c": {"type":"color","value":"1 1 1"},
            "t": {"type":"textinput","value":""},
            "n": {"type":"slider","min":0,"max":10,"value":1},
            "h": {"type":"slider","min":0,"max":1.5,"value":1}}}"#,
    );
    let set = PropertySet::from_general(&g);
    for (key, value) in [("c", "\"1.0 0.5 0.0\""), ("t", "\"[1,2]\""), ("n", "7")] {
        let p = set.get(key).unwrap();
        assert_eq!(p.coerce(&json(value)), Some(Coercion::Value(json(value))));
    }
    let p = set.get("h").unwrap();
    let once = coerce(p, &json("9")).unwrap();
    assert_eq!(once, json("1"));
    assert_eq!(coerce(p, &once), Some(once));
}
