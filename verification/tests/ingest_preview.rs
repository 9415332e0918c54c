use stash_cli::ingest::{
    exit_status, finalize_meta, mark_partial, read_loop_step, reports_error, RunFailure, save_or_abort_partial, PartialSavedError, ReadEvent, ReadLoop,
    ReadStep, SAMPLE_LEN,
};
use stash_cli::meta::AttrMap;
use stash_cli::paths::{attr_dir, base_dir, data_dir, entry_attr_path, entry_data_path, path_join};
use stash_cli::preview::{build_preview_data, text_preview};

#[test]
fn preview_collapses_white_space_and_masks_controls() {
    assert_eq!(build_preview_data(b"hello\n\nworld\t!", 0), "hello world !");
    assert_eq!(build_preview_data(b"  a\x01b  ", 0), "a.b");
    assert_eq!(build_preview_data(b"", 5), "");
    assert_eq!(build_preview_data(b"abcdefgh", 3), "abc");
    assert_eq!(build_preview_data(&[0xff, b'x'], 0), ".x");
    let long = vec![b'a'; 300];
    assert_eq!(build_preview_data(&long, 0).len(), 128);
}

#[test]
fn read_loop_keeps_a_sample_and_a_total() {
    let mut r = ReadLoop::new();
    r.record_chunk(&vec![1u8; 400]);
    r.record_chunk(&vec![2u8; 400]);
    assert_eq!(r.total, 800);
    assert_eq!(r.sample.len(), SAMPLE_LEN);
    assert_eq!(r.sample[399], 1);
    assert_eq!(r.sample[400], 2);
}

#[test]
fn read_loop_steps() {
    assert_eq!(read_loop_step(true, 0, ReadEvent::Interrupted { signal: 2 }), ReadStep::SavePartial { signal: Some(2) });
    assert_eq!(read_loop_step(false, 10, ReadEvent::Interrupted { signal: 2 }), ReadStep::Discard);
    assert_eq!(read_loop_step(true, 0, ReadEvent::ReadFailed), ReadStep::Discard);
    assert_eq!(read_loop_step(true, 5, ReadEvent::ReadFailed), ReadStep::SavePartial { signal: None });
    assert_eq!(read_loop_step(true, 5, ReadEvent::Data), ReadStep::Continue);
    assert_eq!(read_loop_step(true, 5, ReadEvent::Eof), ReadStep::Finalize);
    assert_eq!(read_loop_step(true, 5, ReadEvent::StoreFailed), ReadStep::Discard);
    assert_eq!(read_loop_step(false, 5, ReadEvent::TeeFailed { broken_pipe: true }), ReadStep::Finalize);
    assert_eq!(read_loop_step(true, 5, ReadEvent::TeeFailed { broken_pipe: false }), ReadStep::SavePartial { signal: None });
    assert!(save_or_abort_partial(true, 0, true));
    assert!(!save_or_abort_partial(true, 0, false));
    assert!(!save_or_abort_partial(false, 9, true));
}

#[test]
fn finished_and_partial_entries() {
    let mut attrs = AttrMap::new();
    mark_partial(&mut attrs);
    assert_eq!(attrs.get("partial"), Some(&"true".to_string()));
    let m = finalize_meta("01ABC".into(), "2024".into(), b"some text", 9, attrs);
    assert_eq!(m.preview, "some text");
    assert_eq!(m.size, 9);
    let err = PartialSavedError { id: "01ABC".into(), cause: "interrupted".into(), signal: Some(2) };
    assert_eq!(err.message(), "partial entry saved as \"01abc\": interrupted");
}

#[test]
fn store_paths() {
    assert_eq!(base_dir(Some("/tmp/s".into()), Some("/home/u".into())), "/tmp/s");
    assert_eq!(base_dir(Some("  ".into()), Some("/home/u".into())), "/home/u/.stash");
    assert_eq!(base_dir(None, Some("/home/u/".into())), "/home/u/.stash");
    assert_eq!(data_dir("/b"), "/b/data");
    assert_eq!(attr_dir("/b"), "/b/attr");
    assert_eq!(entry_data_path("/b", "01ABC"), "/b/data/01abc");
    assert_eq!(entry_attr_path("/b", "01ABC"), "/b/attr/01abc");
    assert_eq!(path_join("/a", "/abs"), "/abs");
    assert_eq!(path_join("", "x"), "x");
}

#[test]
fn text_preview_folds_and_limits_characters() {
    assert_eq!(text_preview("  héllo\r\n\tworld ", 100), "héllo world");
    assert_eq!(text_preview("a\u{7}b\u{FFFD}c", 100), "a.b.c");
    assert_eq!(text_preview("abcdef", 4), "abcd");
    assert_eq!(text_preview("ab   cd", 3), "ab");
    assert_eq!(text_preview("", 4), "");
}

#[test]
fn failed_runs_exit_with_the_documented_status() {
    assert_eq!(exit_status(RunFailure::BrokenPipe), 0);
    assert_eq!(exit_status(RunFailure::PartialSaved { signal: Some(2) }), 130);
    assert_eq!(exit_status(RunFailure::PartialSaved { signal: Some(15) }), 143);
    assert_eq!(exit_status(RunFailure::PartialSaved { signal: Some(1) }), 1);
    assert_eq!(exit_status(RunFailure::PartialSaved { signal: None }), 1);
    assert_eq!(exit_status(RunFailure::Other), 1);
    assert!(reports_error(RunFailure::Other));
    assert!(!reports_error(RunFailure::BrokenPipe));
    assert!(!reports_error(RunFailure::PartialSaved { signal: None }));
}
