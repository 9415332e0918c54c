use stash_cli::commands::{
    attr_read_lines, is_yes, matches_attr_match_filters, merged_pocket_filters, parse_attr_match_filters,
    parse_meta_flags, parse_print_target, path_for, plan_attr_command, plan_rm, range_prompt, rm_list_lines,
    split_once_char, stdin_refs, unique_ids, ArgError, AttrCommandError, AttrPlan, PrintTarget, RmError,
    RmPlan,
};
use stash_cli::meta::{AttrMap, Meta};
use stash_cli::selection::{matches_meta, parse_meta_selection, SelectionError};

fn strings(v: &[&str]) -> Vec<String> {
    v.iter().map(|s| s.to_string()).collect()
}

fn meta(id: &str, attrs: &[(&str, &str)]) -> Meta {
    let mut map = AttrMap::new();
    for (k, v) in attrs {
        map.insert(k.to_string(), v.to_string());
    }
    Meta {
        id: id.into(),
        ts: "2024-05-06T07:08:09Z".into(),
        size: 3,
        preview: "pre".into(),
        attrs: map,
    }
}

#[test]
fn flags_need_key_value_pairs() {
    let m = parse_meta_flags(&strings(&["a=1", "b=x=y", "a=2"])).ok().unwrap();
    assert_eq!(m.get("a"), Some(&"2".to_string()));
    assert_eq!(m.get("b"), Some(&"x=y".to_string()));
    assert_eq!(parse_meta_flags(&strings(&["novalue"])).err().unwrap(), ArgError::AttributeNotKeyValue);
    assert_eq!(split_once_char("k=v=w", '='), Some(("k".to_string(), "v=w".to_string())));
    assert_eq!(split_once_char("kv", '='), None);
}

#[test]
fn print_targets() {
    assert_eq!(parse_print_target("1").ok().unwrap(), PrintTarget::Stdout);
    assert_eq!(parse_print_target("stderr").ok().unwrap(), PrintTarget::Stderr);
    assert_eq!(parse_print_target("0").ok().unwrap(), PrintTarget::Null);
    assert_eq!(parse_print_target("file").err().unwrap(), ArgError::InvalidPrintTarget);
    assert_eq!(ArgError::InvalidPrintTarget.message(), "--print must be stdout, stderr, null, 1, 2, or 0");
}

#[test]
fn attribute_filters_match_presence_or_value() {
    let fs = parse_attr_match_filters(&strings(&["bucket=x", "kind"])).ok().unwrap();
    let yes = meta("a", &[("bucket", "x"), ("kind", "k")]);
    let no = meta("b", &[("bucket", "y"), ("kind", "k")]);
    assert!(matches_attr_match_filters(&yes.attrs, &fs));
    assert!(!matches_attr_match_filters(&no.attrs, &fs));
    assert_eq!(parse_attr_match_filters(&strings(&["a,b"])).err().unwrap(), ArgError::InvalidAttrFilter);
    assert_eq!(parse_attr_match_filters(&strings(&["  "])).err().unwrap(), ArgError::InvalidAttrFilter);
    assert_eq!(
        merged_pocket_filters(&strings(&["k=v"]), &strings(&["work"])),
        strings(&["k=v", "pocket=work"])
    );
}

#[test]
fn meta_selection_filters_and_shows() {
    let sel = parse_meta_selection(&strings(&["+type", "++kind", "label", "kind"]), false).ok().unwrap();
    assert_eq!(sel.display_tags, strings(&["type", "kind"]));
    assert_eq!(sel.filter_tags, strings(&["kind", "label"]));
    assert!(matches_meta(&meta("a", &[("label", "l"), ("kind", "k")]).attrs, &sel));
    assert!(!matches_meta(&meta("a", &[("type", "t"), ("kind", "k")]).attrs, &sel));
    let shown = parse_meta_selection(&strings(&["+type", "++kind"]), false).ok().unwrap();
    assert_eq!(shown.display_tags, strings(&["type", "kind"]));
    assert_eq!(shown.filter_tags, strings(&["kind"]));
    let plain = parse_meta_selection(&strings(&["label"]), false).ok().unwrap();
    assert!(plain.display_tags.is_empty());
    assert_eq!(plain.filter_tags, strings(&["label"]));
    let plus = parse_meta_selection(&strings(&["+label"]), false).ok().unwrap();
    assert_eq!(plus.display_tags, strings(&["label"]));
    assert!(plus.filter_tags.is_empty());
    assert_eq!(parse_meta_selection(&strings(&["+"]), false).err().unwrap(), SelectionError::EmptyFilter);
    assert_eq!(parse_meta_selection(&strings(&["++"]), false).err().unwrap(), SelectionError::EmptyFilterDisplay);
}

#[test]
fn rm_arguments() {
    assert!(matches!(plan_rm(&strings(&["a"]), None, None, &vec![]), Ok(RmPlan::Refs)));
    assert!(matches!(plan_rm(&vec![], Some("x".into()), None, &vec![]), Ok(RmPlan::Before(_))));
    assert!(matches!(plan_rm(&vec![], None, Some("x".into()), &vec![]), Ok(RmPlan::After(_))));
    assert!(matches!(plan_rm(&vec![], None, None, &strings(&["k=v"])), Ok(RmPlan::ByAttr(_))));
    assert_eq!(plan_rm(&vec![], Some("a".into()), Some("b".into()), &vec![]).err().unwrap(), RmError::BeforeAndAfter);
    assert_eq!(plan_rm(&strings(&["a"]), None, None, &strings(&["k"])).err().unwrap(), RmError::AttrWithOthers);
    assert_eq!(plan_rm(&strings(&["a"]), Some("b".into()), None, &vec![]).err().unwrap(), RmError::RefsWithRange);
    assert_eq!(plan_rm(&vec![], None, None, &vec![]).err().unwrap(), RmError::NoRef);
    assert_eq!(plan_rm(&vec![], None, None, &strings(&["a,b"])).err().unwrap(), RmError::InvalidFilter);
    assert_eq!(RmError::NoRef.message(), "rm requires at least one ref");
}

#[test]
fn rm_prompts_and_listing() {
    assert_eq!(range_prompt(true, "abc", 1), "Remove 1 entry older than abc? [y/N] ");
    assert_eq!(range_prompt(false, "abc", 3), "Remove 3 entries newer than abc? [y/N] ");
    assert!(is_yes(" Yes\n"));
    assert!(is_yes("y"));
    assert!(!is_yes("yep"));
    let entries = vec![meta("01aaaaaaaa", &[("filename", "f.txt")]), meta("01bbbbbbbb", &[])];
    let lines = rm_list_lines("older than x", &entries, &strings(&["aaaaaaaa", "bbbbbbbb"]));
    assert_eq!(
        lines,
        strings(&[
            "Remove 2 entries older than x:",
            "  aaaaaaaa  2024-05-06T07:08:09Z  f.txt",
            "  bbbbbbbb  2024-05-06T07:08:09Z",
        ])
    );
    assert_eq!(unique_ids(&strings(&["b", "a", "b"])), strings(&["b", "a"]));
}

#[test]
fn attr_command_plans() {
    assert!(matches!(plan_attr_command(&strings(&["note=keep", "label=test"]), &vec![]), Ok(AttrPlan::Assign(_))));
    assert!(matches!(plan_attr_command(&strings(&["note"]), &vec![]), Ok(AttrPlan::Read)));
    assert!(matches!(plan_attr_command(&vec![], &strings(&["note"])), Ok(AttrPlan::Unset(_))));
    assert_eq!(
        plan_attr_command(&strings(&["a"]), &strings(&["b"])).err().unwrap(),
        AttrCommandError::UnsetWithItems
    );
    assert_eq!(
        plan_attr_command(&strings(&["a", "b=c"]), &vec![]).err().unwrap(),
        AttrCommandError::MixedReadsWrites
    );
    assert_eq!(
        plan_attr_command(&strings(&["id=x"]), &vec![]).err().unwrap(),
        AttrCommandError::NotWritable("id".into())
    );
}

#[test]
fn attr_reads_values() {
    let m = meta("01ABC", &[("note", "keep"), ("label", "test")]);
    assert_eq!(
        attr_read_lines(&m, &strings(&["note", "label"]), "\t", false).ok().unwrap(),
        strings(&["note\tkeep", "label\ttest"])
    );
    assert_eq!(attr_read_lines(&m, &strings(&["note"]), "\t", false).ok().unwrap(), strings(&["keep"]));
    assert_eq!(
        attr_read_lines(&m, &strings(&["missing"]), "\t", false).err().unwrap(),
        (vec![], AttrCommandError::NotFound(None))
    );
    assert_eq!(
        attr_read_lines(&m, &strings(&["note", "missing", "label"]), "\t", false).err().unwrap(),
        (strings(&["note\tkeep"]), AttrCommandError::NotFound(Some("missing".to_string())))
    );
    assert_eq!(
        attr_read_lines(&m, &vec![], "=", true).ok().unwrap(),
        strings(&["id=01abc", "ts=2024-05-06T07:08:09Z", "size=3", "label=test", "note=keep", "preview=pre"])
    );
}

#[test]
fn paths_and_stdin_refs() {
    assert_eq!(path_for("/s", Some("01AB"), false, false), "/s/data/01ab");
    assert_eq!(path_for("/s", Some("01AB"), false, true), "/s/attr/01ab");
    assert_eq!(path_for("/s", Some("01AB"), true, false), "/s/data");
    assert_eq!(path_for("/s", None, true, false), "/s");
    assert_eq!(path_for("/s", None, false, true), "/s/attr");
    assert_eq!(stdin_refs(&strings(&[" a ", "", "b"])), strings(&["a", "b"]));
}
