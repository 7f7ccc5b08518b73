//! JSON documents and their rendering.

use bonsai::json::{escape, to_json, J};

fn parse(s: &str) -> J {
    J::parse(s).unwrap()
}

#[test]
fn parses_objects_and_arrays() {
    let v = parse(r#"{"a": 1, "b": [true, null, "x\ny"], "c": {"d": -2.5}}"#);
    assert_eq!(v.get("a").unwrap().as_i64(), Some(1));
    assert_eq!(v.get("b").unwrap().as_arr().unwrap().len(), 3);
    assert_eq!(v.get("b").unwrap().as_arr().unwrap()[2].as_str(), Some("x\ny"));
    let d = v.get("c").unwrap().get("d").unwrap().as_f64();
    assert_eq!(d.map(f64::from_bits), Some(-2.5));
}

#[test]
fn parses_unicode_escapes() {
    let v = parse(r#""a\u00e9b""#);
    assert_eq!(v.as_str(), Some("aéb"));
}

#[test]
fn serializes_back_to_compact_json() {
    let src = r#"{"a":1,"b":[true,null,"x"],"c":{"d":-2.5},"e":"q\"z"}"#;
    let v = parse(src);
    assert_eq!(to_json(&v), src);
}

#[test]
fn escapes_roundtrip() {
    assert_eq!(escape("a\"b\\c\nd"), "a\\\"b\\\\c\\nd");
}

#[test]
fn control_characters_are_escaped() {
    assert_eq!(escape("\r\t\u{8}\u{c}\u{1}"), "\\r\\t\\b\\f\\u0001");
}

#[test]
fn an_escaped_text_reads_back() {
    for s in ["", "plain", "a\"b\\c\nd\t\r\u{1}\u{1f} é 漢 😀"] {
        let doc = format!("\"{}\"", escape(s));
        assert_eq!(parse(&doc).as_str(), Some(s));
    }
}

#[test]
fn later_keys_win_or_lose_as_lookup_says() {
    let v = parse(r#"{"k": 1, "k": 2}"#);
    assert_eq!(v.get("k").unwrap().as_i64(), Some(1));
    assert!(v.get("absent").is_none());
}

#[test]
fn bad_documents_are_refused() {
    for s in ["", "{", "[1,", "tru", "{\"a\" 1}", "\"open", "1 2", "[1] x", "{1:2}", "\"\\q\""] {
        assert!(J::parse(s).is_err(), "{s:?}");
    }
}

#[test]
fn accessors_refuse_other_kinds() {
    let v = parse(r#"[1, "x", true, null]"#);
    let items = v.as_arr().unwrap();
    assert_eq!(items[0].as_str(), None);
    assert_eq!(items[0].as_bool(), None);
    assert_eq!(items[1].as_f64(), None);
    assert_eq!(items[1].as_i64(), None);
    assert_eq!(items[2].as_bool(), Some(true));
    assert!(items[3].as_arr().is_none());
    assert!(items[3].get("k").is_none());
}

#[test]
fn numbers_are_cut_to_integers() {
    assert_eq!(parse("2.9").as_i64(), Some(2));
    assert_eq!(parse("-2.9").as_i64(), Some(-2));
    assert_eq!(parse("1e300").as_i64(), Some(i64::MAX));
    assert_eq!(parse("-1e300").as_i64(), Some(i64::MIN));
}

#[test]
fn numbers_render_as_the_shortest_text() {
    for s in ["0", "1", "-2.5", "0.1", "1234567890123", "100000000000000000000"] {
        let v = f64::from_bits(parse(s).as_f64().unwrap());
        let text = to_json(&parse(s));
        assert_eq!(text.parse::<f64>().unwrap(), v);
    }
    assert_eq!(to_json(&parse("0.1")), "0.1");
    assert_eq!(to_json(&parse("3.0")), "3");
}

#[test]
fn numbers_read_back_as_far_as_their_text_goes() {
    for n in [1.5f64, -2.0, 0.1, 1e300, 5e-324] {
        let v = parse(&to_json(&J::Num(n.to_bits())));
        assert!(matches!(v, J::Num(b) if b == n.to_bits()), "{n}");
    }
    assert_eq!(to_json(&J::Num((-0.0f64).to_bits())), "0");
    assert!(matches!(parse(&to_json(&J::Num((-0.0f64).to_bits()))), J::Num(0)));
    for n in [f64::INFINITY, f64::NEG_INFINITY, f64::NAN] {
        let doc = to_json(&J::Arr(vec![J::Num(n.to_bits())]));
        assert_eq!(doc, "[null]");
        assert!(matches!(&parse(&doc).as_arr().unwrap()[0], J::Null));
    }
}
