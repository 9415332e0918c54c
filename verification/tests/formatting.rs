use stash_cli::cache::{dir_mtime_key, list_cache_fresh, LIST_CACHE_VERSION};
use stash_cli::dates::{
    civil_to_days, format_date, format_ls_date, format_relative, format_timestamp, measure_date_width,
    normalize_date_mode, parse_ts_seconds, unix_to_utc,
};
use stash_cli::attrfile::unescape_attr;
use stash_cli::display::{escape_attr_output, pad_left, pad_right, preview_snippet, trim_ansi_to_width};
use stash_cli::size::{human_size, measure_size_width};

const JAN_1_2024: i64 = 1_704_067_200;

fn human_expected(n: i64) -> String {
    if n < 1024 {
        format!("{n}B")
    } else if n < 1024 * 1024 {
        format!("{:.1}K", n as f64 / 1024.0)
    } else if n < 1024 * 1024 * 1024 {
        format!("{:.1}M", n as f64 / (1024.0 * 1024.0))
    } else {
        format!("{:.1}G", n as f64 / (1024.0 * 1024.0 * 1024.0))
    }
}

#[test]
fn human_size_matches_float_formatting() {
    let samples: Vec<i64> = vec![
        -5,
        0,
        1023,
        1024,
        1075,
        1076,
        1126,
        1127,
        1_048_575,
        1_048_576,
        52_428_800,
        1_073_741_823,
        1_073_741_824,
        1_234_567_890_123,
        i64::MAX,
        9_007_199_254_740_993,
    ];
    for n in samples {
        assert_eq!(human_size(n), human_expected(n), "size {n}");
    }
    let mut n: i64 = 1;
    while n < i64::MAX / 3 {
        assert_eq!(human_size(n), human_expected(n), "size {n}");
        assert_eq!(human_size(n + 51), human_expected(n + 51), "size {}", n + 51);
        n = n * 3 + 7;
    }
}

#[test]
fn size_widths() {
    assert_eq!(measure_size_width(0, true), 1);
    assert_eq!(measure_size_width(-1234, true), 4);
    assert_eq!(measure_size_width(1_000_000, true), 7);
    assert_eq!(measure_size_width(2048, false), "2.0K".len());
}

#[test]
fn civil_dates_and_times() {
    assert_eq!(civil_to_days(1970, 1, 1), 0);
    assert_eq!(civil_to_days(2024, 1, 1), 19723);
    assert_eq!(civil_to_days(1969, 12, 31), -1);
    let t = unix_to_utc(JAN_1_2024 + 3600 + 61);
    assert_eq!((t.year, t.month, t.day, t.hour, t.min, t.sec), (2024, 1, 1, 1, 1, 1));
    let before = unix_to_utc(-1);
    assert_eq!((before.year, before.month, before.day, before.hour), (1969, 12, 31, 23));
    assert_eq!(parse_ts_seconds("2024-01-01T00:00:00Z"), Some(JAN_1_2024));
    assert_eq!(parse_ts_seconds("2024-01-01"), None);
    assert_eq!(format_timestamp(JAN_1_2024 + 59, 7), "2024-01-01T00:00:59.000000007Z");
}

#[test]
fn relative_and_ls_dates() {
    let ts = "2024-01-01T00:00:00Z";
    assert_eq!(format_relative(ts, Some(JAN_1_2024 + 59)).unwrap(), "59s ago");
    assert_eq!(format_relative(ts, Some(JAN_1_2024 + 90)).unwrap(), "1m ago");
    assert_eq!(format_relative(ts, Some(JAN_1_2024 + 7200)).unwrap(), "2h ago");
    assert_eq!(format_relative(ts, Some(JAN_1_2024 + 3 * 86_400)).unwrap(), "3d ago");
    assert_eq!(format_relative(ts, Some(JAN_1_2024 - 10)).unwrap(), "-10s ago");
    assert!(format_relative("garbage", Some(0)).is_none());
    assert_eq!(format_ls_date("2024-03-05T07:08:09Z", Some(JAN_1_2024)).unwrap(), "Mar  5 07:08");
    assert_eq!(format_ls_date("2023-12-25T07:08:09Z", Some(JAN_1_2024)).unwrap(), "Dec 25  2023");
    assert_eq!(format_date(ts, "absolute", None), ts);
    assert_eq!(format_date("bad", "ago", Some(0)), "bad");
    assert_eq!(normalize_date_mode("relative").ok().unwrap(), "ago");
    assert!(normalize_date_mode("when").is_err());
    assert_eq!(measure_date_width(ts, "iso", None), ts.len());
    assert_eq!(measure_date_width(ts, "ls", None), 12);
    assert_eq!(measure_date_width(ts, "ago", Some(JAN_1_2024 + 90)), "1m ago".len());
}

#[test]
fn padding_trimming_and_snippets() {
    assert_eq!(pad_right("ab", 4), "ab  ");
    assert_eq!(pad_left("ab", 4), "  ab");
    assert_eq!(pad_right("abcdef", 4), "abcdef");
    assert_eq!(trim_ansi_to_width("hello world", 5), "hello\x1b[0m");
    assert_eq!(trim_ansi_to_width("\x1b[1mhi\x1b[0m", 5), "\x1b[1mhi\x1b[0m");
    assert_eq!(trim_ansi_to_width("abc", 0), "");
    assert_eq!(preview_snippet("abcdefgh", 5), "abcde...");
    assert_eq!(preview_snippet("abcdefgh", 3), "abc");
    assert_eq!(preview_snippet("abc", 5), "abc");
    assert_eq!(preview_snippet("abc", 0), "");
}

#[test]
fn list_cache_keys_and_freshness() {
    assert_eq!(dir_mtime_key(1_700_000_000, 5), "1700000000.000000005");
    assert!(list_cache_fresh(LIST_CACHE_VERSION, "1.000000001", "2.000000000", "1.000000001", "2.000000000"));
    assert!(!list_cache_fresh(LIST_CACHE_VERSION + 1, "a", "b", "a", "b"));
    assert!(!list_cache_fresh(LIST_CACHE_VERSION, "a", "b", "a", "c"));
}

#[test]
fn shown_attr_values_unescape_to_the_original() {
    let shown = escape_attr_output("a=b\tc\\d");
    assert_eq!(shown, "a=b\\tc\\\\d");
    assert_eq!(unescape_attr(&shown), Ok("a=b\tc\\d".to_string()));
    let multi = escape_attr_output("line1\r\nline2");
    assert!(!multi.contains('\n') && !multi.contains('\r'));
    assert_eq!(unescape_attr(&multi), Ok("line1\r\nline2".to_string()));
}

#[test]
fn utc_dates_convert_back_to_seconds() {
    let leap = unix_to_utc(951782400);
    assert_eq!((leap.year, leap.month, leap.day, leap.hour, leap.min, leap.sec), (2000, 2, 29, 0, 0, 0));
    for secs in [-62135596800i64, -1, 0, 951782400, 1709251199, 253402300799] {
        let t = unix_to_utc(secs);
        let back = civil_to_days(t.year, t.month, t.day) * 86400
            + t.hour as i64 * 3600
            + t.min as i64 * 60
            + t.sec as i64;
        assert_eq!(back, secs);
    }
    let first = unix_to_utc(-62135596800);
    assert_eq!((first.year, first.month, first.day), (1, 1, 1));
    let last = unix_to_utc(253402300799);
    assert_eq!((last.year, last.month, last.day, last.hour), (9999, 12, 31, 23));
}
