use stash_cli::json::{escape_string, get_member, parse, JsonValue};
use stash_cli::meta::{AttrMap, Meta};

fn meta(id: &str, ts: &str, size: i64, preview: &str, attrs: &[(&str, &str)]) -> Meta {
    let mut map = AttrMap::new();
    for (k, v) in attrs {
        map.insert(k.to_string(), v.to_string());
    }
    Meta {
        id: id.to_string(),
        ts: ts.to_string(),
        size,
        preview: preview.to_string(),
        attrs: map,
    }
}

fn same_meta(a: &Meta, b: &Meta) -> bool {
    if a.id != b.id || a.ts != b.ts || a.size != b.size || a.preview != b.preview {
        return false;
    }
    if a.attrs.len() != b.attrs.len() {
        return false;
    }
    for i in 0..a.attrs.len() {
        if a.attrs.key_at(i) != b.attrs.key_at(i) || a.attrs.value_at(i) != b.attrs.value_at(i) {
            return false;
        }
    }
    true
}

#[test]
fn compact_form_lists_members_in_order() {
    let m = meta("01ABC", "2024-01-02T03:04:05Z", 12, "hi", &[("b", "2"), ("a", "1")]);
    assert_eq!(
        m.to_json_compact(),
        "{\"id\":\"01ABC\",\"ts\":\"2024-01-02T03:04:05Z\",\"size\":12,\"preview\":\"hi\",\"meta\":{\"a\":\"1\",\"b\":\"2\"}}"
    );
}

#[test]
fn compact_form_leaves_out_empty_preview_and_attrs() {
    let m = meta("x", "t", -5, "", &[]);
    assert_eq!(m.to_json_compact(), "{\"id\":\"x\",\"ts\":\"t\",\"size\":-5}");
}

#[test]
fn pretty_form_is_indented() {
    let m = meta("x", "t", 3, "p", &[("k", "v")]);
    assert_eq!(
        m.to_json_pretty(),
        "{\n  \"id\": \"x\",\n  \"ts\": \"t\",\n  \"size\": 3,\n  \"preview\": \"p\",\n  \"meta\": {\n    \"k\": \"v\"\n  }\n}\n"
    );
}

#[test]
fn escape_string_escapes_quotes_backslashes_and_controls() {
    assert_eq!(escape_string("a\"b\\c\nd\re\tf"), "a\\\"b\\\\c\\nd\\re\\tf");
    assert_eq!(escape_string("\u{1}\u{7f}\u{9f}"), "\\u0001\\u007f\\u009f");
    assert_eq!(escape_string("é"), "é");
}

#[test]
fn compact_round_trip_gives_the_entry_back() {
    let m = meta("01K", "ts\u{1}", 42, "line1\nline2 \"q\"", &[("x", "y\\z"), ("a", "")]);
    let back = Meta::from_json_str(&m.to_json_compact()).unwrap();
    assert!(same_meta(&m, &back));
}

#[test]
fn pretty_round_trip_gives_the_entry_back() {
    let m = meta("01K", "2024", i64::MIN, "", &[("filename", "a.txt"), ("tab", "\t")]);
    let back = Meta::from_json_str(&m.to_json_pretty()).unwrap();
    assert!(same_meta(&m, &back));
    let plain = meta("id", "ts", 0, "", &[]);
    let back = Meta::from_json_str(&plain.to_json_pretty()).unwrap();
    assert!(same_meta(&plain, &back));
}

#[test]
fn non_ascii_text_reads_back_byte_by_byte() {
    let m = meta("é", "t", 1, "", &[]);
    let back = Meta::from_json_str(&m.to_json_compact()).unwrap();
    assert_eq!(back.id, "\u{c3}\u{a9}");
}

#[test]
fn parse_reads_nested_objects_and_literals() {
    let v = parse(" { \"a\" : { \"b\" : -7 } , \"t\": true, \"f\": false, \"n\": null, \"a\": \"x\" } ").unwrap();
    match v {
        JsonValue::Object(es) => {
            assert_eq!(es.len(), 4);
            assert_eq!(es[0].0, "a");
            match get_member(&es, "a") {
                Some(JsonValue::String(s)) => assert_eq!(s, "x"),
                _ => panic!("a should be the later string"),
            }
            assert!(matches!(get_member(&es, "t"), Some(JsonValue::Bool(()))));
            assert!(matches!(get_member(&es, "f"), Some(JsonValue::Bool(()))));
            assert!(matches!(get_member(&es, "n"), Some(JsonValue::Null)));
            assert!(get_member(&es, "zz").is_none());
        }
        _ => panic!("expected an object"),
    }
}

#[test]
fn parse_reads_unicode_escapes() {
    match parse("\"\\u0041\\u00e9\\n\\/\"").unwrap() {
        JsonValue::String(s) => assert_eq!(s, "A\u{e9}\n/"),
        _ => panic!("expected a string"),
    }
}

#[test]
fn parse_reports_each_error() {
    assert_eq!(parse("").err().unwrap(), "unexpected token");
    assert_eq!(parse("tru").err().unwrap(), "unexpected token");
    assert_eq!(parse("{\"a\" 1}").err().unwrap(), "expected ':'");
    assert_eq!(parse("{\"a\":1 \"b\":2}").err().unwrap(), "expected ',' or '}'");
    assert_eq!(parse("{1:2}").err().unwrap(), "expected '\"'");
    assert_eq!(parse("\"abc").err().unwrap(), "unterminated string");
    assert_eq!(parse("\"\\").err().unwrap(), "incomplete escape");
    assert_eq!(parse("\"\\q\"").err().unwrap(), "invalid escape");
    assert_eq!(parse("\"\\u12\"").err().unwrap(), "invalid hex digit");
    assert_eq!(parse("\"\\u12").err().unwrap(), "short unicode escape");
    assert_eq!(parse("\"\\ud800\"").err().unwrap(), "invalid unicode escape");
    assert_eq!(parse("-").err().unwrap(), "invalid number");
    assert_eq!(parse("99999999999999999999").err().unwrap(), "invalid number");
    assert_eq!(parse("1 2").err().unwrap(), "trailing data");
}

#[test]
fn from_json_str_reports_missing_fields() {
    assert_eq!(Meta::from_json_str("[").err().unwrap(), "unexpected token");
    assert_eq!(Meta::from_json_str("\"s\"").err().unwrap(), "meta.json root must be an object");
    assert_eq!(Meta::from_json_str("{}").err().unwrap(), "missing string field id");
    assert_eq!(Meta::from_json_str("{\"id\":\"a\"}").err().unwrap(), "missing string field ts");
    assert_eq!(
        Meta::from_json_str("{\"id\":\"a\",\"ts\":\"b\",\"size\":\"1\"}").err().unwrap(),
        "missing numeric field size"
    );
    assert_eq!(
        Meta::from_json_str("{\"id\":\"a\",\"ts\":\"b\",\"size\":1,\"meta\":3}").err().unwrap(),
        "meta must be an object"
    );
    assert_eq!(
        Meta::from_json_str("{\"id\":\"a\",\"ts\":\"b\",\"size\":1,\"meta\":{\"k\":1}}").err().unwrap(),
        "meta values must be strings"
    );
    let m = Meta::from_json_str("{\"id\":\"a\",\"ts\":\"b\",\"size\":1,\"meta\":null,\"preview\":7}").unwrap();
    assert_eq!(m.preview, "");
    assert_eq!(m.attrs.len(), 0);
}

#[test]
fn escaped_strings_parse_back() {
    let raw = "a\"b\n\u{1}";
    let escaped = escape_string(raw);
    assert_eq!(escaped, "a\\\"b\\n\\u0001");
    assert!(!escaped.chars().any(|c| c.is_control()));
    match parse(&format!("\"{}\"", escaped)) {
        Ok(JsonValue::String(s)) => assert_eq!(s, raw),
        _ => panic!("escaped string did not parse back"),
    }
}

#[test]
fn entry_json_object_holds_fields_attributes_and_preview() {
    let m = meta("01abc", "2024-01-01T00:00:00Z", 12, "hello", &[("kind", "note"), ("a", "1")]);
    match m.to_json_value(true) {
        JsonValue::Object(es) => {
            let keys: Vec<&str> = es.iter().map(|(k, _)| k.as_str()).collect();
            assert_eq!(keys, vec!["a", "id", "kind", "preview", "size", "ts"]);
            assert!(matches!(get_member(&es, "size"), Some(JsonValue::Number(12))));
            match get_member(&es, "kind") {
                Some(JsonValue::String(s)) => assert_eq!(s, "note"),
                _ => panic!("kind missing"),
            }
        }
        _ => panic!("not an object"),
    }
    match m.to_json_value(false) {
        JsonValue::Object(es) => assert!(get_member(&es, "preview").is_none()),
        _ => panic!("not an object"),
    }
    let empty = meta("01abc", "t", 0, "", &[]);
    match empty.to_json_value(true) {
        JsonValue::Object(es) => assert_eq!(es.len(), 3),
        _ => panic!("not an object"),
    }
}
