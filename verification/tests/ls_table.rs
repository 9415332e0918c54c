use stash_cli::args::{ls_plan, smart_mode_uses_tee, AttrsMode, LsArgError, LsArgs, parse_attrs_mode};
use stash_cli::listing::DecoratedEntry;
use stash_cli::lsview::{auto_ls_preview_chars, dim_ansi_line, ls_table_lines, LsColumnWidths, LsLayout};
use stash_cli::meta::{AttrMap, Meta};
use stash_cli::selection::SelectionError;

fn args() -> LsArgs {
    LsArgs {
        id: "short".into(),
        attr: vec![],
        attrs: None,
        number: 0,
        reverse: false,
        json: false,
        headers: false,
        stripe: false,
        date: None,
        size: None,
        name: false,
        preview: false,
        long: false,
        chars: 80,
        color: "true".into(),
    }
}

fn layout() -> LsLayout {
    LsLayout {
        has_size: true,
        use_bytes: false,
        has_date: false,
        show_count: false,
        show_flag: false,
        show_name: false,
        show_preview: false,
        show_all_meta: false,
        headers: true,
        stripe: false,
        style_color: false,
        auto_preview: false,
    }
}

fn decorated(id: &str, human: &str, preview: &str) -> DecoratedEntry {
    DecoratedEntry {
        id: id.into(),
        size_bytes: "0".into(),
        size_human: human.into(),
        date: String::new(),
        preview: preview.into(),
        filename: None,
        meta_vals: vec![],
        meta_inline: String::new(),
        log_attr_lines: vec![],
    }
}

fn item(id: &str, preview: &str) -> Meta {
    Meta {
        id: id.into(),
        ts: "2024-01-01T00:00:00Z".into(),
        size: 0,
        preview: preview.into(),
        attrs: AttrMap::new(),
    }
}

#[test]
fn plain_ls_lists_ids_only() {
    let plan = ls_plan(&args(), false).ok().unwrap();
    assert!(plan.ids_only);
    assert!(!plan.layout.style_color);
    assert_eq!(plan.date_mode, "ls");
    assert_eq!(plan.preview_chars, 80);
    let colored = ls_plan(&args(), true).ok().unwrap();
    assert!(colored.layout.style_color);
}

#[test]
fn long_listing_fills_in_columns() {
    let mut a = args();
    a.long = true;
    let plan = ls_plan(&a, true).ok().unwrap();
    assert!(plan.layout.has_date && plan.layout.has_size && plan.layout.show_preview);
    assert!(plan.layout.show_flag && !plan.layout.show_count);
    assert!(plan.layout.auto_preview);
    assert_eq!(plan.preview_chars, 0);
    assert!(!plan.ids_only);
}

#[test]
fn stripe_turns_other_colours_off() {
    let mut a = args();
    a.stripe = true;
    a.size = Some("bytes".into());
    let plan = ls_plan(&a, true).ok().unwrap();
    assert!(plan.layout.stripe && !plan.layout.style_color && plan.layout.use_bytes);
}

#[test]
fn ls_arguments_are_checked_in_order() {
    let mut a = args();
    a.color = "maybe".into();
    a.attrs = Some("bogus".into());
    assert_eq!(ls_plan(&a, true).err().unwrap(), LsArgError::Color);
    a.color = "false".into();
    assert_eq!(ls_plan(&a, true).err().unwrap(), LsArgError::AttrsMode);
    a.attrs = Some("count".into());
    a.date = Some("yesterday".into());
    assert_eq!(ls_plan(&a, true).err().unwrap(), LsArgError::DateMode);
    a.date = Some("relative".into());
    a.attr = vec!["a,b".into()];
    assert_eq!(
        ls_plan(&a, true).err().unwrap(),
        LsArgError::Selection(SelectionError::InvalidAttrValue)
    );
    a.attr = vec!["tag".into(), "+shown".into()];
    let plan = ls_plan(&a, true).ok().unwrap();
    assert_eq!(plan.date_mode, "ago");
    assert_eq!(plan.selection.filter_tags, vec!["tag".to_string()]);
    assert_eq!(plan.selection.display_tags, vec!["shown".to_string()]);
    assert_eq!(LsArgError::Color.message(), "--color must be true or false");
}

#[test]
fn attrs_mode_names() {
    assert_eq!(parse_attrs_mode(Some("list")), Ok(Some(AttrsMode::List)));
    assert_eq!(parse_attrs_mode(None), Ok(None));
    assert_eq!(parse_attrs_mode(Some("x")), Err(()));
}

#[test]
fn smart_mode_is_tee_only_mid_pipeline() {
    assert!(smart_mode_uses_tee(false, false, false));
    assert!(!smart_mode_uses_tee(true, false, false));
    assert!(!smart_mode_uses_tee(false, true, false));
    assert!(!smart_mode_uses_tee(false, false, true));
}

#[test]
fn table_pads_columns_and_prints_a_header() {
    let decs = vec![decorated("abc", "1.0K", ""), decorated("abcdef", "12B", "")];
    let items = vec![item("abc", ""), item("abcdef", "")];
    let lines = ls_table_lines(&decs, &items, &vec![], layout(), None);
    assert_eq!(lines, vec!["id      size", "abc     1.0K", "abcdef   12B"]);
}

#[test]
fn table_lines_are_cut_and_striped() {
    let decs = vec![decorated("abc", "1.0K", ""), decorated("abcdef", "12B", "")];
    let items = vec![item("abc", ""), item("abcdef", "")];
    let mut l = layout();
    l.headers = false;
    l.stripe = true;
    let lines = ls_table_lines(&decs, &items, &vec![], l, Some(5));
    assert_eq!(lines[0], "abc  \x1b[0m");
    assert_eq!(lines[1], dim_ansi_line("abcde\x1b[0m"));
}

#[test]
fn auto_preview_is_sized_to_the_terminal() {
    let w = LsColumnWidths {
        id: 8,
        size: 4,
        date: 0,
        name: 0,
        attr_count: 0,
        attr_flag: 1,
        inline: 0,
        meta: vec![3],
    };
    assert_eq!(auto_ls_preview_chars(&w, Some(100)), 100 - (8 + 6 + 3 + 5) - 2);
    assert_eq!(auto_ls_preview_chars(&w, Some(10)), 20);
    assert_eq!(auto_ls_preview_chars(&w, None), 80 - 22 - 2);
}

#[test]
fn auto_preview_cuts_the_stored_preview() {
    let long = "abcdefghijklmnopqrstuvwxyz".repeat(4);
    let decs = vec![decorated("abc", "1B", "")];
    let items = vec![item("abc", &long)];
    let mut l = layout();
    l.headers = false;
    l.show_preview = true;
    l.auto_preview = true;
    let lines = ls_table_lines(&decs, &items, &vec![], l, Some(40));
    let chars = 40 - (3 + 2 + 2) - 2;
    let expected = format!("abc  1B  {}...", &long[..chars]);
    assert_eq!(lines[0], format!("{}\x1b[0m", &expected[..40]));
}
