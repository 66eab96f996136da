use hyprwpe::json::{parse_json, Json, JsonNumber};
use hyprwpe::numbers::{decimal, parse_natural, reads_as_float};
use hyprwpe::paths::{extension, file_name, file_stem, join_path, leads_to};
use hyprwpe::strmap::{order_of, Standing, StrMap};
use hyprwpe::text::{is_of_class, lowered, trim, unmarked, words, Class};

fn chars(s: &str) -> Vec<char> {
    s.chars().collect()
}

#[test]
fn white_space_is_that_of_unicode() {
    for n in 0..=0x10FFFFu32 {
        if let Some(c) = char::from_u32(n) {
            assert_eq!(is_of_class(c, Class::Space), c.is_whitespace(), "{n:x}");
        }
    }
}

#[test]
fn words_and_trimming_agree_with_the_standard_library() {
    for s in ["", " ", "a", " a b ", "\u{3000}x\u{2003}y\t", "a\u{a0}b", "\n\r"] {
        let all = chars(s);
        assert_eq!(trim(&all).iter().collect::<String>(), s.trim());
        let got: Vec<String> = words(&all).iter().map(|w| w.iter().collect()).collect();
        let want: Vec<&str> = s.split_whitespace().collect();
        assert_eq!(got, want);
    }
    assert_eq!(lowered(&chars("ÀBc")).iter().collect::<String>(), "Àbc");
    assert_eq!(unmarked("\u{feff}{}"), "{}");
    assert_eq!(unmarked("{}"), "{}");
}

#[test]
fn numbers_agree_with_the_standard_library() {
    for s in [
        "", "0", "+7", "-7", "007", "18446744073709551615", "18446744073709551616", "1.0", " 1", "+", "1e3",
    ] {
        assert_eq!(parse_natural(&chars(s), u64::MAX), s.parse::<u64>().ok(), "{s}");
    }
    for s in [
        "", "1", "-1", "+1.5", ".5", "5.", ".", "1e5", "1E-5", "1e", "e5", "inf", "-Infinity", "NaN", "nan",
        "+nan", "1_0", "0x10", "1.5.2", "--1", " 1", "1e+", "infin", "1e5.5", "١",
    ] {
        assert_eq!(reads_as_float(&chars(s)), s.parse::<f64>().is_ok(), "{s}");
        assert_eq!(reads_as_float(&chars(s)), s.parse::<f32>().is_ok(), "{s}");
    }
    for n in [0, 9, 10, 123, u64::MAX] {
        let text: String = decimal(n).iter().collect();
        assert_eq!(text, n.to_string());
        assert_eq!(parse_natural(&chars(&text), u64::MAX), Some(n));
    }
}

#[test]
fn paths_agree_with_the_standard_library() {
    let some = [
        "", "/", "a", "/a", "a/", "a/b.c", "a/b.c/", "a/.", "a/..", ".", "..", "/..", ".hidden", "a/.b.c",
        "a.b.c", "a.", "a//b", "a/./b", "./a", "a/./", "x/...", "é.PNG", "..a", "a..",
    ];
    for p in some {
        let path = std::path::Path::new(p);
        let name = path.file_name().map(|s| s.to_str().unwrap());
        assert_eq!(file_name(p).as_deref(), name, "{p}");
        let stem = path.file_stem().map(|s| s.to_str().unwrap());
        assert_eq!(file_stem(p).as_deref(), stem, "{p}");
        let ext = extension(p).map(|e| e.iter().collect::<String>());
        assert_eq!(ext.as_deref(), path.extension().map(|s| s.to_str().unwrap()), "{p}");
        for q in some {
            assert_eq!(join_path(p, q), path.join(q).to_str().unwrap(), "{p} {q}");
        }
    }
    assert!(leads_to("/we/assets", "assets"));
    assert!(!leads_to("/we", "assets"));
}

#[test]
fn a_map_is_in_the_order_of_its_keys() {
    let mut m: StrMap<u32> = StrMap::new();
    for (i, k) in ["b", "", "é", "a", "aa", "Z"].iter().enumerate() {
        m.insert(k.to_string(), i as u32);
    }
    m.insert("a".to_string(), 9);
    let keys: Vec<&str> = (0..m.len()).map(|i| m.key_at(i).as_str()).collect();
    assert_eq!(keys, vec!["", "Z", "a", "aa", "b", "é"]);
    assert_eq!(m.get("a"), Some(&9));
    assert_eq!(*m.value_at(1), 5);
    assert_eq!(m.remove("b"), Some(0));
    assert_eq!(m.remove("b"), None);
    assert!(!m.contains_key("b"));
    assert_eq!(m.clone().len(), 5);
    assert_eq!(order_of("a", "b"), Standing::Before);
    assert_eq!(order_of("b", "b"), Standing::Same);
    assert_eq!(order_of("b", "B"), Standing::After);
}

#[test]
fn documents_are_read() {
    let j = parse_json(r#"{"a": [null, true, 1, -2, 0.5], "b": "x", "a2": {}}"#).unwrap();
    match j.get("a").unwrap() {
        Json::List(a) => {
            assert_eq!(a[0], Json::Null);
            assert_eq!(a[1].as_bool(), Some(true));
            assert_eq!(a[2].as_u64(), Some(1));
            assert_eq!(a[3].as_i64(), Some(-2));
            assert_eq!(a[3].as_u64(), None);
            match &a[4] {
                Json::Number(JsonNumber::Real { bits, text }) => {
                    assert_eq!(f64::from_bits(*bits), 0.5);
                    assert_eq!(text, "0.5");
                }
                other => panic!("not a real: {other:?}"),
            }
        }
        other => panic!("not a list: {other:?}"),
    }
    assert_eq!(j.text_at("b").map(|s| s.as_str()), Some("x"));
    assert_eq!(j.text_at("a"), None);
    assert_eq!(j.clone(), j);
    assert!(parse_json("{").is_none());
    assert!(parse_json("1 2").is_none());
}

#[test]
fn a_document_is_written_without_spaces() {
    let written = |text: &str| parse_json(text).unwrap().written();
    assert_eq!(written(" null "), "null");
    assert_eq!(written("[true, false]"), "[true,false]");
    assert_eq!(written("[18446744073709551615, -9223372036854775808]"), "[18446744073709551615,-9223372036854775808]");
    assert_eq!(written("[1e2, 0.1, -0.0, 1e300]"), "[100.0,0.1,-0.0,1e+300]");
    assert_eq!(written("{\"b\": {\"y\": [], \"x\": {}}, \"a\": 1}"), "{\"a\":1,\"b\":{\"x\":{},\"y\":[]}}");
    assert_eq!(written("{\"\\n\\\"\": \"\"}"), "{\"\\n\\\"\":\"\"}");
}

#[test]
fn a_text_is_escaped_as_json_asks_and_no_further() {
    let written = |text: &str| Json::Text(text.to_string()).written();
    assert_eq!(written("plain/é\u{7f}\u{2028}😀"), "\"plain/é\u{7f}\u{2028}😀\"");
    assert_eq!(written("\"\\"), "\"\\\"\\\\\"");
    assert_eq!(written("\u{8}\t\n\u{c}\r"), "\"\\b\\t\\n\\f\\r\"");
    assert_eq!(written("\0\u{1}\u{b}\u{1f}"), "\"\\u0000\\u0001\\u000b\\u001f\"");
    for c in 0..0x250u32 {
        let text = char::from_u32(c).unwrap().to_string();
        let read = parse_json(&written(&text)).unwrap();
        assert_eq!(read, Json::Text(text));
    }
}
