use stash_cli::scan::attr_id_from_name;
use stash_cli::events::FsEventKind;
use stash_cli::strmap::StrMap;
use stash_cli::watch::{
    content_hash_hex, emit_differences, emit_transition, hex_hash, record_hash, should_process_event_kind,
};

fn blake3_hex(data: &[u8]) -> String {
    blake3::hash(data).to_hex().to_string()
}

#[test]
fn content_hash_is_lower_hex_of_blake3() {
    assert_eq!(content_hash_hex(b"id=1\n"), blake3_hex(b"id=1\n"));
    assert_eq!(content_hash_hex(b""), blake3_hex(b""));
    let mut bytes = [0u8; 32];
    bytes[0] = 0xab;
    bytes[31] = 0x0f;
    let hex = hex_hash(&bytes);
    assert_eq!(hex.len(), 64);
    assert!(hex.starts_with("ab00"));
    assert!(hex.ends_with("000f"));
}

#[test]
fn transition_lines_use_dash_for_missing_hashes() {
    let id = "01knxf1n5ffvk9jsm8wve1pgsd";
    assert_eq!(emit_transition(id, Some("aa"), Some("bb")), format!("{id} aa bb"));
    assert_eq!(emit_transition(id, None, Some("bb")), format!("{id} - bb"));
    assert_eq!(emit_transition(id, Some("aa"), None), format!("{id} aa -"));
}

#[test]
fn handle_event_logs_hash_transition() {
    let id = "01knxf1n5ffvk9jsm8wve1pgsd";
    let old = blake3_hex(b"first\n");
    let new = blake3_hex(b"second\n");
    let mut hashes: StrMap<String> = StrMap::new();
    hashes.insert(id.to_string(), old.clone());
    let line = record_hash(&mut hashes, id, Some(content_hash_hex(b"second\n")));
    assert_eq!(line, Some(format!("{id} {old} {new}")));
    assert_eq!(hashes.get(id), Some(&new));
}

#[test]
fn create_event_uses_dash_for_missing_old_hash() {
    let id = "01knxf1n5ffvk9jsm8wve1pgsd";
    let mut hashes: StrMap<String> = StrMap::new();
    let line = record_hash(&mut hashes, id, Some(content_hash_hex(b"new\n")));
    let new = blake3_hex(b"new\n");
    assert_eq!(line, Some(format!("{id} - {new}")));
}

#[test]
fn remove_event_logs_transition_and_drops_cached_hash() {
    let id = "01knxf1n5ffvk9jsm8wve1pgsd";
    let old = blake3_hex(b"gone\n");
    let mut hashes: StrMap<String> = StrMap::new();
    hashes.insert(id.to_string(), old.clone());
    let line = record_hash(&mut hashes, id, None);
    assert_eq!(line, Some(format!("{id} {old} -")));
    assert!(!hashes.contains_key(id));
}

#[test]
fn unchanged_hash_logs_nothing() {
    let id = "01knxf1n5ffvk9jsm8wve1pgsd";
    let h = blake3_hex(b"same\n");
    let mut hashes: StrMap<String> = StrMap::new();
    hashes.insert(id.to_string(), h.clone());
    assert_eq!(record_hash(&mut hashes, id, Some(h.clone())), None);
    assert_eq!(hashes.get(id), Some(&h));
    let mut empty: StrMap<String> = StrMap::new();
    assert_eq!(record_hash(&mut empty, id, None), None);
    assert_eq!(empty.len(), 0);
}

#[test]
fn startup_reconcile_emits_modify_create_and_remove_differences() {
    let removed = "01knxf1n5ffvk9jsm8wve1pgsd";
    let modified = "01knxf6yj2tdgj4k8kz70pc1xm";
    let created = "01knxfeb2hgmybg39ajhec0b9h";
    let mut cached: StrMap<String> = StrMap::new();
    cached.insert(removed.to_string(), blake3_hex(b"removed\n"));
    cached.insert(modified.to_string(), blake3_hex(b"before\n"));
    let mut current: StrMap<String> = StrMap::new();
    current.insert(modified.to_string(), content_hash_hex(b"after\n"));
    current.insert(created.to_string(), content_hash_hex(b"created\n"));
    let lines = emit_differences(&cached, &current);
    assert_eq!(
        lines,
        vec![
            format!("{} {} -", removed, blake3_hex(b"removed\n")),
            format!("{} {} {}", modified, blake3_hex(b"before\n"), blake3_hex(b"after\n")),
            format!("{} - {}", created, blake3_hex(b"created\n")),
        ]
    );
}

#[test]
fn rename_events_are_processed() {
    assert!(should_process_event_kind(FsEventKind::ModifyName));
    assert!(should_process_event_kind(FsEventKind::CreateFile));
    assert!(should_process_event_kind(FsEventKind::RemoveFile));
    assert!(should_process_event_kind(FsEventKind::ModifyData));
    assert!(!should_process_event_kind(FsEventKind::Access));
    assert!(!should_process_event_kind(FsEventKind::Any));
    assert!(!should_process_event_kind(FsEventKind::Other));
    assert!(!should_process_event_kind(FsEventKind::CreateOther));
}

#[test]
fn build_hash_map_indexes_only_ulid_named_files() {
    let keep_id = "01knxf1n5ffvk9jsm8wve1pgsd";
    assert_eq!(attr_id_from_name(keep_id), Some(keep_id.to_string()));
    assert_eq!(attr_id_from_name("01KNXF1N5FFVK9JSM8WVE1PGSD"), Some(keep_id.to_string()));
    assert_eq!(attr_id_from_name("not-an-id"), None);
    let mut hashes: StrMap<String> = StrMap::new();
    for (name, data) in [(keep_id, &b"id=1\n"[..]), ("not-an-id", &b"skip\n"[..])] {
        if let Some(id) = attr_id_from_name(name) {
            hashes.insert(id, content_hash_hex(data));
        }
    }
    assert_eq!(hashes.len(), 1);
    assert_eq!(hashes.get(keep_id), Some(&blake3_hex(b"id=1\n")));
}
