use stash_cli::display::{color_attrs, color_id, color_label, color_name, paint};
use stash_cli::json::{escape_json, get_number, get_optional_string, get_string, parse, JsonValue};
use stash_cli::listing::{format_log_meta, parse_index_meta_expr};
use stash_cli::meta::AttrMap;
use stash_cli::paths::{cache_dir, daemon_cache_path, list_cache_path, tmp_dir};
use stash_cli::selection::MetaSelection;
use stash_cli::size::format_size;
use stash_cli::store::StoreError;
use stash_cli::strmap::StrMap;

#[test]
fn paint_wraps_non_empty_text_when_enabled() {
    assert_eq!(paint("abc", "1;33", true), "\x1b[1;33mabc\x1b[0m");
    assert_eq!(paint("abc", "1;33", false), "abc");
    assert_eq!(paint("", "1;33", true), "");
    assert_eq!(color_id("x", true), "\x1b[1;33mx\x1b[0m");
    assert_eq!(color_label("x", true), "\x1b[1mx\x1b[0m");
    assert_eq!(color_attrs("x", true), "\x1b[35mx\x1b[0m");
    assert_eq!(color_name("x", true), "\x1b[1;36mx\x1b[0m");
    assert_eq!(color_name("x", false), "x");
}

#[test]
fn format_size_shows_bytes_or_human_size() {
    assert_eq!(format_size(2048, "bytes"), "2048");
    assert_eq!(format_size(2048, "human"), "2.0K");
    assert_eq!(format_size(12, "anything"), "12B");
    assert_eq!(format_size(-3, "bytes"), "-3");
}

fn attrs(pairs: &[(&str, &str)]) -> AttrMap {
    let mut m: AttrMap = StrMap::new();
    for (k, v) in pairs {
        m.insert(k.to_string(), v.to_string());
    }
    m
}

#[test]
fn log_meta_line_lists_all_or_selected_attributes() {
    let a = attrs(&[("type", "text"), ("label", "one"), ("kind", "x=y")]);
    let all = MetaSelection { show_all: true, display_tags: vec![], filter_tags: vec![] };
    assert_eq!(format_log_meta(&a, &all), Some("kind=x=y  label=one  type=text".to_string()));
    let some = MetaSelection {
        show_all: false,
        display_tags: vec!["type".to_string(), "missing".to_string(), "label".to_string()],
        filter_tags: vec![],
    };
    assert_eq!(format_log_meta(&a, &some), Some("type=text  label=one".to_string()));
    let none = MetaSelection { show_all: false, display_tags: vec!["missing".to_string()], filter_tags: vec![] };
    assert_eq!(format_log_meta(&a, &none), None);
    assert_eq!(format_log_meta(&attrs(&[]), &all), None);
}

#[test]
fn index_meta_expressions_name_a_quoted_key() {
    assert_eq!(parse_index_meta_expr("index .Meta \"note\""), Some("note".to_string()));
    assert_eq!(parse_index_meta_expr("index .Meta   \"a b\"  "), Some("a b".to_string()));
    assert_eq!(parse_index_meta_expr("index .Meta \"\""), Some(String::new()));
    assert_eq!(parse_index_meta_expr("index .Meta \""), None);
    assert_eq!(parse_index_meta_expr("index .Meta note"), None);
    assert_eq!(parse_index_meta_expr(".ID"), None);
}

fn object(text: &str) -> Vec<(String, JsonValue)> {
    match parse(text) {
        Ok(JsonValue::Object(es)) => es,
        _ => panic!("not an object"),
    }
}

#[test]
fn json_member_getters_report_missing_fields() {
    let es = object("{\"id\":\"abc\",\"size\":12,\"flag\":true}");
    assert_eq!(get_string(&es, "id"), Ok("abc".to_string()));
    assert_eq!(get_string(&es, "size"), Err("missing string field size".to_string()));
    assert_eq!(get_string(&es, "nope"), Err("missing string field nope".to_string()));
    assert_eq!(get_optional_string(&es, "id"), Some("abc".to_string()));
    assert_eq!(get_optional_string(&es, "flag"), None);
    assert_eq!(get_number(&es, "size"), Ok(12));
    assert_eq!(get_number(&es, "id"), Err("missing numeric field id".to_string()));
    assert_eq!(escape_json("a\"b\n"), "a\\\"b\\n");
}

#[test]
fn store_paths_under_base_directory() {
    assert_eq!(cache_dir("/s"), "/s/cache");
    assert_eq!(list_cache_path("/s"), "/s/cache/list.cache");
    assert_eq!(daemon_cache_path("/s/"), "/s/cache/daemon.cache");
    assert_eq!(tmp_dir("/s"), "/s/tmp");
}

#[test]
fn store_error_messages() {
    assert_eq!(StoreError::StashEmpty.message(), "stash is empty");
    assert_eq!(StoreError::NoEntryIds.message(), "stash is empty");
    assert_eq!(StoreError::ZeroIndex.message(), "n must be >= 1");
    assert_eq!(StoreError::IndexOutOfRange.message(), "entry index out of range");
    assert_eq!(StoreError::EntryNotFound.message(), "entry not found");
    assert_eq!(StoreError::InvalidStackRef.message(), "invalid stack ref");
    assert_eq!(StoreError::InvalidIndex.message(), "invalid index");
    assert_eq!(StoreError::IdTooShort.message(), "id too short");
    assert_eq!(StoreError::AmbiguousId.message(), "ambiguous id");
}

#[test]
fn attr_values_escape_and_unescape() {
    use_escape_helpers();
}

fn use_escape_helpers() {
    let raw = "a=b\\c\nd\te\r";
    let escaped = stash_cli::attrfile::escape_attr(raw);
    assert_eq!(escaped, "a\\=b\\\\c\\nd\\te\\r");
    assert_eq!(stash_cli::attrfile::unescape_attr(&escaped), Ok(raw.to_string()));
    assert_eq!(
        stash_cli::attrfile::unescape_attr("bad\\q"),
        Err(stash_cli::attrfile::AttrError::InvalidEscape('q'))
    );
    assert_eq!(
        stash_cli::attrfile::unescape_attr("end\\"),
        Err(stash_cli::attrfile::AttrError::UnterminatedEscape)
    );
}

#[test]
fn entry_directories_under_base() {
    assert_eq!(stash_cli::paths::entries_dir("/s"), "/s/entries");
    assert_eq!(stash_cli::paths::entry_dir("/s", "01abc"), "/s/01abc");
    assert_eq!(stash_cli::paths::entry_dir("/s", "/abs"), "/abs");
}
