use stash_cli::display::attr_value;
use stash_cli::attrfile::{encode_attr, parse_attr_file};
use stash_cli::meta::{AttrMap, Meta};
use stash_cli::store::{
    add_filename_attr, all_attr_keys, file_name, list, newer_than_ids, newest, nth_newest, older_than_ids,
    resolve, set_attrs, sort_ids_desc, unset_attrs, StoreError,
};

fn meta(id: &str, attrs: &[(&str, &str)]) -> Meta {
    let mut map = AttrMap::new();
    for (k, v) in attrs {
        map.insert(k.to_string(), v.to_string());
    }
    Meta {
        id: id.into(),
        ts: "2024-01-01T00:00:00Z".into(),
        size: 1,
        preview: String::new(),
        attrs: map,
    }
}

fn ids(items: &[Meta]) -> Vec<String> {
    items.iter().map(|m| m.id.clone()).collect()
}

#[test]
fn ids_sort_newest_first() {
    let names = vec!["01b".to_string(), "01c".to_string(), "01a".to_string(), "01c".to_string()];
    assert_eq!(sort_ids_desc(&names), vec!["01c", "01c", "01b", "01a"]);
    assert!(sort_ids_desc(&vec![]).is_empty());
}

#[test]
fn list_keeps_entries_whose_files_parse() {
    let good = encode_attr(&meta("01aaaaaa", &[("k", "v")]));
    let files = vec![Some(good.clone()), None, Some("no equals sign".into()), Some(good)];
    let items = list(&files);
    assert_eq!(items.len(), 2);
    assert_eq!(items[0].id, "01aaaaaa");
    assert_eq!(items[0].attrs.get("k"), Some(&"v".to_string()));
}

#[test]
fn filename_attr_takes_the_last_component() {
    let mut attrs = AttrMap::new();
    add_filename_attr("dir/sub/report.txt", &mut attrs);
    assert_eq!(attrs.get("filename"), Some(&"report.txt".to_string()));
    let mut none = AttrMap::new();
    add_filename_attr("/", &mut none);
    add_filename_attr("a/..", &mut none);
    assert_eq!(none.len(), 0);
}

#[test]
fn file_name_follows_path_components() {
    assert_eq!(file_name("/tmp/x/sample.txt"), Some("sample.txt".to_string()));
    assert_eq!(file_name("foo.txt/."), Some("foo.txt".to_string()));
    assert_eq!(file_name("a//b//"), Some("b".to_string()));
    assert_eq!(file_name("..a"), Some("..a".to_string()));
    assert_eq!(file_name(""), None);
    assert_eq!(file_name("."), None);
    assert_eq!(file_name("./"), None);
    assert_eq!(file_name("/"), None);
    assert_eq!(file_name("a/.."), None);
}

#[test]
fn resolve_handles_positions_prefixes_and_suffixes() {
    let items = vec![
        meta("01knxfeb2hgmybg39ajhec0b9h", &[]),
        meta("01knxf6yj2tdgj4k8kz70pc1xm", &[]),
        meta("01knxf1n5ffvk9jsm8wve1pgsd", &[]),
    ];
    let all = ids(&items);
    assert_eq!(resolve("", &all, &items).unwrap(), "01knxfeb2hgmybg39ajhec0b9h");
    assert_eq!(resolve("@2", &all, &items).unwrap(), "01knxf6yj2tdgj4k8kz70pc1xm");
    assert_eq!(resolve(" 3 ", &all, &items).unwrap(), "01knxf1n5ffvk9jsm8wve1pgsd");
    assert_eq!(resolve("01KNXF6Y", &all, &items).unwrap(), "01knxf6yj2tdgj4k8kz70pc1xm");
    assert_eq!(resolve("8wve1pgsd", &all, &items).unwrap(), "01knxf1n5ffvk9jsm8wve1pgsd");
    assert_eq!(resolve("01knxf", &all, &items), Err(StoreError::AmbiguousId));
    assert_eq!(resolve("abc", &all, &items), Err(StoreError::IdTooShort));
    assert_eq!(resolve("zzzzzzzz", &all, &items), Err(StoreError::EntryNotFound));
    assert_eq!(resolve("0", &all, &items), Err(StoreError::ZeroIndex));
    assert_eq!(resolve("@9", &all, &items), Err(StoreError::IndexOutOfRange));
    assert_eq!(resolve("@x", &all, &items), Err(StoreError::InvalidStackRef));
    assert_eq!(resolve("", &vec![], &vec![]), Err(StoreError::StashEmpty));
    assert_eq!(resolve("01knxf", &vec![], &vec![]), Err(StoreError::NoEntryIds));
}

#[test]
fn positions_in_the_list() {
    let items = vec![meta("c", &[]), meta("b", &[]), meta("a", &[])];
    assert_eq!(newest(&items).ok().unwrap().id, "c");
    assert_eq!(nth_newest(&items, 3).ok().unwrap().id, "a");
    assert_eq!(nth_newest(&items, 0).err().unwrap(), StoreError::ZeroIndex);
    assert_eq!(older_than_ids(&items, "b").ok().unwrap(), vec!["a"]);
    assert_eq!(newer_than_ids(&items, "b").ok().unwrap(), vec!["c"]);
    assert_eq!(older_than_ids(&items, "x").err().unwrap(), StoreError::EntryNotFound);
    assert_eq!(newest(&vec![]).err().unwrap(), StoreError::StashEmpty);
}

#[test]
fn attribute_keys_are_counted() {
    let items = vec![meta("a", &[("type", "x"), ("kind", "y")]), meta("b", &[("type", "z")])];
    assert_eq!(
        all_attr_keys(&items),
        vec![("kind".to_string(), 1), ("type".to_string(), 2)]
    );
}

#[test]
fn set_and_unset_attributes() {
    let mut m = meta("a", &[("keep", "1"), ("drop", "2")]);
    let mut more = AttrMap::new();
    more.insert("keep".into(), "3".into());
    more.insert("new".into(), "4".into());
    set_attrs(&mut m, &more);
    assert_eq!(m.attrs.get("keep"), Some(&"3".to_string()));
    assert_eq!(m.attrs.get("new"), Some(&"4".to_string()));
    unset_attrs(&mut m, &vec!["drop".to_string(), "absent".to_string()]);
    assert_eq!(m.attrs.len(), 2);
    assert!(!m.attrs.contains_key("drop"));
}

#[test]
fn attribute_file_round_trip() {
    let mut m = meta("01abc", &[("note", "a=b\\c\nd\te")]);
    m.preview = "first line".into();
    let text = encode_attr(&m);
    assert_eq!(
        text,
        "id=01abc\nts=2024-01-01T00:00:00Z\nsize=1\npreview=first line\nnote=a\\=b\\\\c\\nd\\te\n"
    );
    let back = parse_attr_file(&text).ok().unwrap();
    assert_eq!(back.id, m.id);
    assert_eq!(back.preview, m.preview);
    assert_eq!(back.attrs.get("note"), m.attrs.get("note"));
}

#[test]
fn set_then_read_gives_back_the_value_and_unset_removes_it() {
    let mut m = meta("01knxf1n5ffvk9jsm8wve1pgsd", &[("note", "old"), ("kind", "text")]);
    let mut written = AttrMap::new();
    written.insert("note".to_string(), "keep".to_string());
    written.insert("label".to_string(), "test".to_string());
    set_attrs(&mut m, &written);
    assert_eq!(attr_value(&m, "note", false), Some("keep".to_string()));
    assert_eq!(attr_value(&m, "label", false), Some("test".to_string()));
    assert_eq!(attr_value(&m, "kind", false), Some("text".to_string()));
    assert_eq!(attr_value(&m, "id", false), Some("01knxf1n5ffvk9jsm8wve1pgsd".to_string()));
    unset_attrs(&mut m, &vec!["note".to_string()]);
    assert_eq!(attr_value(&m, "note", false), None);
    assert_eq!(attr_value(&m, "label", false), Some("test".to_string()));
}

#[test]
fn id_ranges_split_the_listing_at_the_id() {
    let items = vec![meta("e", &[]), meta("d", &[]), meta("c", &[]), meta("b", &[]), meta("a", &[])];
    let all: Vec<String> = items.iter().map(|m| m.id.clone()).collect();
    for id in ["e", "c", "a"] {
        let mut joined = newer_than_ids(&items, id).ok().unwrap();
        joined.push(id.to_string());
        joined.extend(older_than_ids(&items, id).ok().unwrap());
        assert_eq!(joined, all);
    }
}
