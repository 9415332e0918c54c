//! Calendar arithmetic on the proleptic Gregorian calendar and the
//! timestamp formats the store writes and displays.
use vstd::prelude::*;
use vstd::string::StringSliceAdditionalSpecFns;

use crate::display::{padded_left, spaces};
use crate::text::{
    chars_of, dec_int, dec_nat, i64_to_dec, parse_i64_range, parse_i64_spec, parse_usize_range,
    parse_usize_spec, push_char, push_str, u64_to_dec,
};

verus! {

/// Integer division rounding toward zero, as Rust's `/` on signed integers.
pub open spec fn tdiv(a: int, b: int) -> int
    recommends
        b > 0,
{
    if a >= 0 {
        a / b
    } else {
        -((-a) / b)
    }
}

/// Days from 1970-01-01 to the given date, by the days-from-civil formula
/// (month and day are taken as given, without range checks).
pub open spec fn days_from_civil(year: int, month: int, day: int) -> int {
    let y = if month <= 2 {
        year - 1
    } else {
        year
    };
    let era = tdiv(
        if y >= 0 {
            y
        } else {
            y - 399
        },
        400,
    );
    let yoe = y - era * 400;
    let doy = tdiv(
        153 * (month + if month > 2 {
            -3
        } else {
            9
        }) + 2,
        5,
    ) + day - 1;
    let doe = yoe * 365 + tdiv(yoe, 4) - tdiv(yoe, 100) + doy;
    era * 146097 + doe - 719468
}

/// Days from 1970-01-01 to a date.
#[verifier::rlimit(50)]
pub fn civil_to_days(year: i32, month: u32, day: u32) -> (r: i64)
    ensures
        r == days_from_civil(year as int, month as int, day as int),
{
    let mut y: i64 = year as i64;
    let m: i64 = month as i64;
    let d: i64 = day as i64;
    y -= if m <= 2 {
        1
    } else {
        0
    };
    let era: i64 = (if y >= 0 {
        y
    } else {
        y - 399
    }) / 400;
    let yoe: i64 = y - era * 400;
    let doy: i64 = (153 * (m + if m > 2 {
        -3
    } else {
        9
    }) + 2) / 5 + d - 1;
    let doe: i64 = yoe * 365 + yoe / 4 - yoe / 100 + doy;
    era * 146097 + doe - 719468
}

/// A civil date from a day count: (year, month, day), by the
/// civil-from-days formula.
pub open spec fn civil_from_days_spec(days: int) -> (int, int, int) {
    let z = days + 719468;
    let era = tdiv(
        if z >= 0 {
            z
        } else {
            z - 146096
        },
        146097,
    );
    let doe = z - era * 146097;
    let yoe = (doe - doe / 1460 + doe / 36524 - doe / 146096) / 365;
    let y = yoe + era * 400;
    let doy = doe - (365 * yoe + yoe / 4 - yoe / 100);
    let mp = (5 * doy + 2) / 153;
    let d = doy - (153 * mp + 2) / 5 + 1;
    let m = mp + if mp < 10 {
        3
    } else {
        -9
    };
    let year = y + if m <= 2 {
        1int
    } else {
        0int
    };
    (year, m, d)
}

#[verifier::rlimit(50)]
proof fn lemma_civil_ranges(days: int)
    requires
        -0x10000000000000 <= days <= 0x10000000000000,
    ensures
        ({
            let z = days + 719468;
            let era = tdiv(if z >= 0 { z } else { z - 146096 }, 146097);
            let doe = z - era * 146097;
            0 <= doe < 146097
        }),
        1 <= civil_from_days_spec(days).1 <= 12,
        1 <= civil_from_days_spec(days).2 <= 31,
        -0x10000000000000 <= civil_from_days_spec(days).0 <= 0x10000000000000,
{
    let z = days + 719468;
    let a = if z >= 0 { z } else { z - 146096 };
    let era = tdiv(a, 146097);
    assert(0 <= z - era * 146097 < 146097) by (nonlinear_arith)
        requires
            a == (if z >= 0 { z } else { z - 146096 }),
            era == (if a >= 0 { a / 146097 } else { -((-a) / 146097) }),
    {
        if z >= 0 {
            assert(era == z / 146097);
        } else {
            let b = -a;
            assert(b > 0);
            assert(b == b / 146097 * 146097 + b % 146097);
        }
    }
    let doe = z - era * 146097;
    let yoe = (doe - doe / 1460 + doe / 36524 - doe / 146096) / 365;
    assert(0 <= yoe <= 399) by (nonlinear_arith)
        requires
            0 <= doe < 146097,
            yoe == (doe - doe / 1460 + doe / 36524 - doe / 146096) / 365,
    ;
    let doy = doe - (365 * yoe + yoe / 4 - yoe / 100);
    assert(0 <= doy <= 365) by (nonlinear_arith)
        requires
            0 <= doe < 146097,
            yoe == (doe - doe / 1460 + doe / 36524 - doe / 146096) / 365,
            doy == doe - (365 * yoe + yoe / 4 - yoe / 100),
    ;
    let mp = (5 * doy + 2) / 153;
    assert(0 <= mp <= 11) by (nonlinear_arith)
        requires
            0 <= doy <= 365,
            mp == (5 * doy + 2) / 153,
    ;
    let d = doy - (153 * mp + 2) / 5 + 1;
    assert(1 <= d <= 31) by (nonlinear_arith)
        requires
            0 <= doy <= 365,
            mp == (5 * doy + 2) / 153,
            d == doy - (153 * mp + 2) / 5 + 1,
    ;
    assert(-31000000000 <= era <= 31000000000);
}

/// Turning a day count into a date and back gives the day count again.
#[verifier::rlimit(50)]
pub proof fn lemma_civil_round_trip(days: int)
    requires
        -0x10000000000000 <= days <= 0x10000000000000,
    ensures
        days_from_civil(
            civil_from_days_spec(days).0,
            civil_from_days_spec(days).1,
            civil_from_days_spec(days).2,
        ) == days,
{
    lemma_civil_ranges(days);
    let z = days + 719468;
    let era = tdiv(if z >= 0 { z } else { z - 146096 }, 146097);
    let doe = z - era * 146097;
    let yoe = (doe - doe / 1460 + doe / 36524 - doe / 146096) / 365;
    assert(0 <= yoe <= 399) by (nonlinear_arith)
        requires
            0 <= doe < 146097,
            yoe == (doe - doe / 1460 + doe / 36524 - doe / 146096) / 365,
    ;
    let y = yoe + era * 400;
    let doy = doe - (365 * yoe + yoe / 4 - yoe / 100);
    let mp = (5 * doy + 2) / 153;
    assert(0 <= doy <= 365) by (nonlinear_arith)
        requires
            0 <= doe < 146097,
            yoe == (doe - doe / 1460 + doe / 36524 - doe / 146096) / 365,
            doy == doe - (365 * yoe + yoe / 4 - yoe / 100),
    ;
    assert(0 <= mp <= 11) by (nonlinear_arith)
        requires
            0 <= doy <= 365,
            mp == (5 * doy + 2) / 153,
    ;
    let d = doy - (153 * mp + 2) / 5 + 1;
    let m = mp + if mp < 10 { 3int } else { -9int };
    let year = y + if m <= 2 { 1int } else { 0int };
    assert(civil_from_days_spec(days) == (year, m, d));
    // Reading the date back: the year before March, its era, and the day of the era.
    let y2 = if m <= 2 { year - 1 } else { year };
    assert(y2 == y);
    let era2 = tdiv(if y2 >= 0 { y2 } else { y2 - 399 }, 400);
    assert(era2 == era) by (nonlinear_arith)
        requires
            y2 == yoe + era * 400,
            0 <= yoe <= 399,
            era2 == tdiv(if y2 >= 0 { y2 } else { y2 - 399 }, 400),
    {
        if y2 >= 0 {
            assert(era >= 0);
            assert(era2 == y2 / 400);
        } else {
            assert(era <= -1);
            let b = 399 - y2;
            assert(b == -era * 400 + (399 - yoe));
            assert(era2 == -(b / 400));
        }
    }
    let mp2 = m + if m > 2 { -3int } else { 9int };
    assert(mp2 == mp);
    let doy2 = tdiv(153 * mp2 + 2, 5) + d - 1;
    assert(doy2 == doy);
    let yoe2 = y2 - era2 * 400;
    assert(yoe2 == yoe);
    let doe2 = yoe2 * 365 + tdiv(yoe2, 4) - tdiv(yoe2, 100) + doy2;
    assert(doe2 == doe);
}

/// A date (year, month, day) from a day count since 1970-01-01.
#[verifier::rlimit(50)]
fn civil_from_days(days: i64) -> (r: (i32, u32, u32))
    requires
        -0x10000000000000 <= days <= 0x10000000000000,
    ensures
        r.0 == civil_from_days_spec(days as int).0 as i32,
        r.1 == civil_from_days_spec(days as int).1,
        r.2 == civil_from_days_spec(days as int).2,
{
    proof {
        lemma_civil_ranges(days as int);
    }
    let z: i64 = days + 719468;
    let era: i64 = (if z >= 0 {
        z
    } else {
        z - 146096
    }) / 146097;
    let doe: i64 = z - era * 146097;
    let yoe: i64 = (doe - doe / 1460 + doe / 36524 - doe / 146096) / 365;
    let y: i64 = yoe + era * 400;
    let doy: i64 = doe - (365 * yoe + yoe / 4 - yoe / 100);
    let mp: i64 = (5 * doy + 2) / 153;
    let d: i64 = doy - (153 * mp + 2) / 5 + 1;
    let m: i64 = mp + if mp < 10 {
        3
    } else {
        -9
    };
    let year: i64 = y + if m <= 2 {
        1
    } else {
        0
    };
    (year as i32, m as u32, d as u32)
}

/// A UTC date and time of day.
#[derive(Clone, Copy, Debug, PartialEq, Eq, Structural)]
pub struct UtcDateTime {
    pub year: i32,
    pub month: u32,
    pub day: u32,
    pub hour: u32,
    pub min: u32,
    pub sec: u32,
}

/// The UTC date and time `secs` seconds after 1970-01-01T00:00:00Z (the
/// year is cut to 32 bits as `as i32` does).
pub open spec fn utc_spec(secs: int) -> UtcDateTime {
    let days = secs / 86400;
    let rem = secs % 86400;
    let c = civil_from_days_spec(days);
    UtcDateTime {
        year: c.0 as i32,
        month: c.1 as u32,
        day: c.2 as u32,
        hour: (rem / 3600) as u32,
        min: ((rem % 3600) / 60) as u32,
        sec: (rem % 60) as u32,
    }
}

/// The UTC date and time of a Unix timestamp in seconds.
#[verifier::rlimit(50)]
pub fn unix_to_utc(secs: i64) -> (r: UtcDateTime)
    ensures
        r == utc_spec(secs as int),
{
    let q: i64 = secs / 86400;
    let rm: i64 = secs % 86400;
    let (days, rem) = if rm < 0 {
        (q - 1, rm + 86400)
    } else {
        (q, rm)
    };
    proof {
        let s = secs as int;
        assert(days == s / 86400 && rem == s % 86400) by (nonlinear_arith)
            requires
                q == (if s >= 0 { s / 86400 } else { -((-s) / 86400) }),
                rm == s - q * 86400,
                days == (if rm < 0 { q - 1 } else { q as int }),
                rem == (if rm < 0 { rm + 86400 } else { rm as int }),
        {
            if s < 0 {
                let b = -s;
                assert(b == b / 86400 * 86400 + b % 86400);
            }
        }
        assert(-0x10000000000000 <= days <= 0x10000000000000) by (nonlinear_arith)
            requires
                days == (secs as int) / 86400,
                i64::MIN <= secs <= i64::MAX,
        ;
    }
    let (year, month, day) = civil_from_days(days);
    proof {
        let c = civil_from_days_spec(days as int);
        lemma_civil_ranges(days as int);
    }
    UtcDateTime {
        year: year,
        month: month,
        day: day,
        hour: (rem / 3600) as u32,
        min: ((rem % 3600) / 60) as u32,
        sec: (rem % 60) as u32,
    }
}

/// Whether `y` is a leap year of the Gregorian calendar.
pub open spec fn is_leap(y: int) -> bool {
    y % 4 == 0 && (y % 100 != 0 || y % 400 == 0)
}

/// The number of days in month `m` of year `y`.
pub open spec fn days_in_month(y: int, m: int) -> int {
    if m == 2 {
        if is_leap(y) {
            29
        } else {
            28
        }
    } else if m == 4 || m == 6 || m == 9 || m == 11 {
        30
    } else {
        31
    }
}

/// Within an era of 400 years (counted from March of its first year), a
/// year reaches its 366th day only when the February it ends with is that
/// of a leap year.
#[verifier::rlimit(80)]
proof fn lemma_era_leap_day(doe: int)
    requires
        0 <= doe < 146097,
    ensures
        ({
            let yoe = (doe - doe / 1460 + doe / 36524 - doe / 146096) / 365;
            let doy = doe - (365 * yoe + yoe / 4 - yoe / 100);
            doy == 365 ==> is_leap(yoe + 1)
        }),
{
    let yoe = (doe - doe / 1460 + doe / 36524 - doe / 146096) / 365;
    let doy = doe - (365 * yoe + yoe / 4 - yoe / 100);
    if doe == 146096 {
        assert(doe / 1460 == 100 && doe / 36524 == 4 && doe / 146096 == 1);
        assert(yoe == 399);
    } else {
        let c = doe / 36524;
        let r = doe - 36524 * c;
        assert(0 <= c <= 3 && 0 <= r < 36524) by (nonlinear_arith)
            requires
                0 <= doe < 146096,
                c == doe / 36524,
                r == doe - 36524 * c,
        ;
        assert(doe / 146096 == 0);
        let q = r / 1461;
        let s1 = r - 1461 * q;
        assert(0 <= q <= 24 && 0 <= s1 < 1461 && (q == 24 ==> s1 <= 1459)) by (nonlinear_arith)
            requires
                0 <= r < 36524,
                q == r / 1461,
                s1 == r - 1461 * q,
        ;
        let m = 24 * c + q + s1;
        assert(doe == 1460 * (25 * c + q) + m);
        let delta = m / 1460;
        assert(0 <= delta <= 1 && (delta == 1 <==> s1 + 24 * c + q >= 1460)) by (nonlinear_arith)
            requires
                0 <= m < 2920,
                delta == m / 1460,
                m == 24 * c + q + s1,
        ;
        assert(doe / 1460 == 25 * c + q + delta) by (nonlinear_arith)
            requires
                doe == 1460 * (25 * c + q) + m,
                0 <= m,
                delta == m / 1460,
                0 <= c,
                0 <= q,
        ;
        let f = doe - doe / 1460 + doe / 36524 - doe / 146096;
        assert(f == 36500 * c + 1460 * q + s1 - delta);
        let t = (s1 - delta) / 365;
        assert(s1 - delta >= 0);
        assert(s1 - delta <= 1459);
        assert(0 <= t <= 3) by (nonlinear_arith)
            requires
                0 <= s1 - delta <= 1459,
                t == (s1 - delta) / 365,
        ;
        assert(yoe == 100 * c + 4 * q + t) by (nonlinear_arith)
            requires
                f == 365 * (100 * c + 4 * q) + (s1 - delta),
                yoe == f / 365,
                t == (s1 - delta) / 365,
                0 <= s1 - delta,
                0 <= c,
                0 <= q,
        ;
        assert(yoe / 4 == 25 * c + q && yoe / 100 == c);
        assert(doy == s1 - 365 * t);
        if doy == 365 {
            assert(s1 - delta == 365 * t + (365 - delta));
            assert(delta == 1) by (nonlinear_arith)
                requires
                    0 <= delta <= 1,
                    t == (s1 - delta) / 365,
                    s1 - delta == 365 * t + (365 - delta),
            ;
            assert(s1 == 1460 && t == 3);
            assert(q <= 23);
            assert((yoe + 1) % 4 == 0 && (yoe + 1) % 100 != 0) by (nonlinear_arith)
                requires
                    yoe + 1 == 100 * c + 4 * (q + 1),
                    0 <= q <= 23,
                    0 <= c <= 3,
            ;
        }
    }
}

/// The date made of a day count names a day that its month has.
#[verifier::rlimit(80)]
pub proof fn lemma_civil_day_in_month(days: int)
    requires
        -0x10000000000000 <= days <= 0x10000000000000,
    ensures
        civil_from_days_spec(days).2 <= days_in_month(civil_from_days_spec(days).0, civil_from_days_spec(days).1),
{
    lemma_civil_ranges(days);
    let z = days + 719468;
    let era = tdiv(if z >= 0 { z } else { z - 146096 }, 146097);
    let doe = z - era * 146097;
    let yoe = (doe - doe / 1460 + doe / 36524 - doe / 146096) / 365;
    assert(0 <= yoe <= 399) by (nonlinear_arith)
        requires
            0 <= doe < 146097,
            yoe == (doe - doe / 1460 + doe / 36524 - doe / 146096) / 365,
    ;
    let doy = doe - (365 * yoe + yoe / 4 - yoe / 100);
    assert(0 <= doy <= 365) by (nonlinear_arith)
        requires
            0 <= doe < 146097,
            yoe == (doe - doe / 1460 + doe / 36524 - doe / 146096) / 365,
            doy == doe - (365 * yoe + yoe / 4 - yoe / 100),
    ;
    let mp = (5 * doy + 2) / 153;
    assert(0 <= mp <= 11 && 153 * mp <= 5 * doy + 2 && 5 * doy + 2 < 153 * mp + 153) by (nonlinear_arith)
        requires
            0 <= doy <= 365,
            mp == (5 * doy + 2) / 153,
    ;
    let d = doy - (153 * mp + 2) / 5 + 1;
    let m = mp + if mp < 10 { 3int } else { -9int };
    let year = yoe + era * 400 + if m <= 2 { 1int } else { 0int };
    assert(civil_from_days_spec(days) == (year, m, d));
    if mp == 11 {
        lemma_era_leap_day(doe);
        let k = yoe + 1;
        assert(is_leap(year) == is_leap(k)) by (nonlinear_arith)
            requires
                year == k + era * 400,
        ;
    }
}

/// For timestamps from year 1 to year 9999, `unix_to_utc` gives a valid
/// time of day and a valid date (month 1 to 12, a day that month has),
/// and turning that date and time back into seconds gives the timestamp
/// again.
#[verifier::rlimit(50)]
pub proof fn lemma_unix_to_utc_inverse(secs: int)
    requires
        -62135596800 <= secs <= 253402300799,
    ensures
        1 <= utc_spec(secs).month <= 12,
        1 <= utc_spec(secs).day <= 31,
        utc_spec(secs).day <= days_in_month(utc_spec(secs).year as int, utc_spec(secs).month as int),
        utc_spec(secs).hour < 24,
        utc_spec(secs).min < 60,
        utc_spec(secs).sec < 60,
        days_from_civil(
            utc_spec(secs).year as int,
            utc_spec(secs).month as int,
            utc_spec(secs).day as int,
        ) * 86400 + utc_spec(secs).hour * 3600 + utc_spec(secs).min * 60 + utc_spec(secs).sec
            == secs,
{
    let days = secs / 86400;
    let rem = secs % 86400;
    assert(-719163 <= days <= 2932897 && 0 <= rem < 86400 && days * 86400 + rem == secs)
        by (nonlinear_arith)
        requires
            -62135596800 <= secs <= 253402300799,
            days == secs / 86400,
            rem == secs % 86400,
    ;
    lemma_civil_ranges(days);
    lemma_civil_round_trip(days);
    lemma_civil_day_in_month(days);
    let c = civil_from_days_spec(days);
    let z = days + 719468;
    let era = tdiv(if z >= 0 { z } else { z - 146096 }, 146097);
    assert(0 <= era <= 25) by (nonlinear_arith)
        requires
            0 <= z <= 3652365,
            era == tdiv(z, 146097),
    ;
    let doe = z - era * 146097;
    let yoe = (doe - doe / 1460 + doe / 36524 - doe / 146096) / 365;
    assert(0 <= yoe <= 399) by (nonlinear_arith)
        requires
            0 <= doe < 146097,
            yoe == (doe - doe / 1460 + doe / 36524 - doe / 146096) / 365,
    ;
    assert(-1 <= c.0 <= 10400);
    let dt = utc_spec(secs);
    assert(dt.year as int == c.0);
    assert(dt.month as int == c.1);
    assert(dt.day as int == c.2);
    assert(dt.hour * 3600 + dt.min * 60 + dt.sec == rem) by (nonlinear_arith)
        requires
            0 <= rem < 86400,
            dt.hour == rem / 3600,
            dt.min == (rem % 3600) / 60,
            dt.sec == rem % 60,
    ;
}

// ---------------------------------------------------------------------------
// Reading stored timestamps
// ---------------------------------------------------------------------------

/// The first `n` characters of `s` exist and are ASCII.
pub open spec fn ascii_prefix(s: Seq<char>, n: int) -> bool {
    s.len() >= n && forall|i: int| 0 <= i < n ==> #[trigger] s[i] <= '\x7f'
}

/// The six numeric fields of a timestamp `YYYY-MM-DDTHH:MM:SS...`, each
/// parsed as Rust parses integers (the year as `i32`, the others as
/// `u32`); `None` when the first 19 bytes cannot be cut into these fields
/// or one of them does not parse.
pub open spec fn ts_parts_spec(ts: Seq<char>) -> Option<(i32, u32, u32, u32, u32, u32)> {
    if !ascii_prefix(ts, 19) {
        None
    } else {
        let y = parse_i64_spec(ts.subrange(0, 4));
        let mo = parse_usize_spec(ts.subrange(5, 7));
        let d = parse_usize_spec(ts.subrange(8, 10));
        let h = parse_usize_spec(ts.subrange(11, 13));
        let mi = parse_usize_spec(ts.subrange(14, 16));
        let sec = parse_usize_spec(ts.subrange(17, 19));
        if y is Some && mo is Some && d is Some && h is Some && mi is Some && sec is Some {
            Some(
                (
                    y.unwrap() as i32,
                    mo.unwrap() as u32,
                    d.unwrap() as u32,
                    h.unwrap() as u32,
                    mi.unwrap() as u32,
                    sec.unwrap() as u32,
                ),
            )
        } else {
            None
        }
    }
}

#[verifier::rlimit(50)]
proof fn lemma_small_field(s: Seq<char>)
    requires
        s.len() <= 4,
    ensures
        parse_i64_spec(s) is Some ==> -999 <= parse_i64_spec(s).unwrap() <= 9999,
        parse_usize_spec(s) is Some ==> parse_usize_spec(s).unwrap() <= 9999,
{
    let neg = s.len() > 0 && s[0] == '-';
    let plus = s.len() > 0 && s[0] == '+';
    let digits = if neg || plus {
        s.drop_first()
    } else {
        s
    };
    lemma_digits_small(digits);
    let pd = if plus {
        s.drop_first()
    } else {
        s
    };
    lemma_digits_small(pd);
}

#[verifier::rlimit(50)]
proof fn lemma_digits_small(s: Seq<char>)
    requires
        s.len() <= 4,
    ensures
        crate::text::digits_value(s) < if s.len() == 4 {
            10000int
        } else if s.len() == 3 {
            1000int
        } else if s.len() == 2 {
            100int
        } else if s.len() == 1 {
            10int
        } else {
            1int
        },
    decreases s.len(),
{
    if s.len() > 0 {
        lemma_digits_small(s.drop_last());
        let c = s.last();
        assert(crate::text::digit_value(c) <= 9);
    }
}

/// The numeric fields of a stored timestamp (see [`ts_parts_spec`]).
#[verifier::rlimit(50)]
pub fn parse_ts_parts(ts: &str) -> (r: Option<(i32, u32, u32, u32, u32, u32)>)
    ensures
        r == ts_parts_spec(ts@),
{
    let v = chars_of(ts);
    if v.len() < 19 {
        return None;
    }
    let mut i: usize = 0;
    while i < 19
        invariant
            i <= 19 <= v.len(),
            v@ == ts@,
            forall|j: int| 0 <= j < i ==> #[trigger] v@[j] <= '\x7f',
        decreases 19 - i,
    {
        if v[i] > '\x7f' {
            return None;
        }
        i += 1;
    }
    proof {
        lemma_small_field(ts@.subrange(0, 4));
        lemma_small_field(ts@.subrange(5, 7));
        lemma_small_field(ts@.subrange(8, 10));
        lemma_small_field(ts@.subrange(11, 13));
        lemma_small_field(ts@.subrange(14, 16));
        lemma_small_field(ts@.subrange(17, 19));
    }
    let y = match parse_i64_range(&v, 0, 4) {
        Some(x) => x,
        None => {
            return None;
        },
    };
    let mo = match parse_usize_range(&v, 5, 7) {
        Some(x) => x,
        None => {
            return None;
        },
    };
    let d = match parse_usize_range(&v, 8, 10) {
        Some(x) => x,
        None => {
            return None;
        },
    };
    let h = match parse_usize_range(&v, 11, 13) {
        Some(x) => x,
        None => {
            return None;
        },
    };
    let mi = match parse_usize_range(&v, 14, 16) {
        Some(x) => x,
        None => {
            return None;
        },
    };
    let sec = match parse_usize_range(&v, 17, 19) {
        Some(x) => x,
        None => {
            return None;
        },
    };
    Some((y as i32, mo as u32, d as u32, h as u32, mi as u32, sec as u32))
}

/// Seconds since 1970-01-01T00:00:00Z of a stored timestamp.
pub open spec fn ts_seconds_spec(ts: Seq<char>) -> Option<int> {
    match ts_parts_spec(ts) {
        None => None,
        Some(p) => Some(
            days_from_civil(p.0 as int, p.1 as int, p.2 as int) * 86400 + p.3 * 3600 + p.4 * 60
                + p.5,
        ),
    }
}

/// Seconds since 1970-01-01T00:00:00Z of a stored timestamp.
#[verifier::rlimit(50)]
pub fn parse_ts_seconds(ts: &str) -> (r: Option<i64>)
    ensures
        match r {
            Some(x) => ts_seconds_spec(ts@) == Some(x as int),
            None => ts_seconds_spec(ts@) is None,
        },
{
    let (year, month, day, hour, minute, second) = match parse_ts_parts(ts) {
        Some(p) => p,
        None => {
            return None;
        },
    };
    proof {
        lemma_small_field(ts@.subrange(0, 4));
        lemma_small_field(ts@.subrange(5, 7));
        lemma_small_field(ts@.subrange(8, 10));
        lemma_small_field(ts@.subrange(11, 13));
        lemma_small_field(ts@.subrange(14, 16));
        lemma_small_field(ts@.subrange(17, 19));
        lemma_days_from_civil_small(year as int, month as int, day as int);
    }
    let days = civil_to_days(year, month, day);
    Some(days * 86400 + hour as i64 * 3600 + minute as i64 * 60 + second as i64)
}

#[verifier::rlimit(50)]
proof fn lemma_days_from_civil_small(year: int, month: int, day: int)
    requires
        -999 <= year <= 9999,
        0 <= month <= 9999,
        0 <= day <= 9999,
    ensures
        -100000000 <= days_from_civil(year, month, day) <= 100000000,
{
    let y = if month <= 2 {
        year - 1
    } else {
        year
    };
    let a = if y >= 0 {
        y
    } else {
        y - 399
    };
    let era = tdiv(a, 400);
    assert(-4 <= era <= 25);
    let yoe = y - era * 400;
    assert(-400 <= yoe <= 400);
    let doy = tdiv(
        153 * (month + if month > 2 {
            -3
        } else {
            9
        }) + 2,
        5,
    ) + day - 1;
    assert(-1 <= doy <= 320000);
    assert(-200000 <= yoe * 365 <= 200000) by (nonlinear_arith)
        requires
            -400 <= yoe <= 400,
    ;
    assert(-1000000 <= era * 146097 <= 4000000) by (nonlinear_arith)
        requires
            -4 <= era <= 25,
    ;
}

// ---------------------------------------------------------------------------
// Writing dates
// ---------------------------------------------------------------------------

/// `n` zeros.
pub open spec fn zeros(n: nat) -> Seq<char> {
    Seq::new(n, |i: int| '0')
}

/// `n` written as `{:0w}` writes it: the sign, then zeros up to width
/// `width`, then the digits.
pub open spec fn zero_padded(n: int, width: nat) -> Seq<char> {
    let sign: Seq<char> = if n < 0 {
        seq!['-']
    } else {
        Seq::empty()
    };
    let digits = dec_nat(if n < 0 {
        (-n) as nat
    } else {
        n as nat
    });
    if sign.len() + digits.len() >= width {
        sign + digits
    } else {
        sign + zeros((width - sign.len() - digits.len()) as nat) + digits
    }
}

/// Appends `n` written as `{:0w}` writes it (see [`zero_padded`]).
#[verifier::rlimit(50)]
pub fn push_zero_padded(out: &mut String, n: i64, width: usize)
    ensures
        final(out)@ == old(out)@ + zero_padded(n as int, width as nat),
{
    let mag: u64 = if n >= 0 {
        n as u64
    } else if n == i64::MIN {
        0x8000_0000_0000_0000u64
    } else {
        (-n) as u64
    };
    let digits = u64_to_dec(mag);
    let dv = chars_of(digits.as_str());
    let sign_len: usize = if n < 0 {
        1
    } else {
        0
    };
    if n < 0 {
        push_char(out, '-');
    }
    let ghost mid = out@;
    if dv.len() < width && sign_len < width - dv.len() {
        let k = width - sign_len - dv.len();
        let mut i: usize = 0;
        while i < k
            invariant
                i <= k,
                out@ == mid + zeros(i as nat),
            decreases k - i,
        {
            push_char(out, '0');
            i += 1;
            assert(out@ =~= mid + zeros(i as nat));
        }
    }
    push_str(out, digits.as_str());
    assert(final(out)@ =~= old(out)@ + zero_padded(n as int, width as nat));
}

/// Why a display option was refused.
#[derive(Clone, Copy, Debug, PartialEq, Eq, Structural)]
pub enum DateModeError {
    /// `--date` names no known mode.
    InvalidDateMode,
}

impl DateModeError {
    /// The message that reports this error.
    #[verifier::rlimit(50)]
    pub fn message(&self) -> (r: &'static str)
        ensures
            r@ == "--date must be iso, ago, or ls"@,
    {
        "--date must be iso, ago, or ls"
    }
}

/// The canonical name of a date mode: `absolute` is `iso`, `relative` is
/// `ago`, and `iso`, `ago` and `ls` stand for themselves.
pub open spec fn date_mode_spec(mode: Seq<char>) -> Option<Seq<char>> {
    if mode == "absolute"@ || mode == "iso"@ {
        Some("iso"@)
    } else if mode == "relative"@ || mode == "ago"@ {
        Some("ago"@)
    } else if mode == "ls"@ {
        Some("ls"@)
    } else {
        None
    }
}

/// The canonical name of a date mode (see [`date_mode_spec`]).
#[verifier::rlimit(50)]
pub fn normalize_date_mode(mode: &str) -> (r: Result<&'static str, DateModeError>)
    ensures
        match r {
            Ok(m) => date_mode_spec(mode@) == Some(m@),
            Err(e) => date_mode_spec(mode@) is None && e == DateModeError::InvalidDateMode,
        },
{
    if crate::text::str_eq(mode, "absolute") || crate::text::str_eq(mode, "iso") {
        Ok("iso")
    } else if crate::text::str_eq(mode, "relative") || crate::text::str_eq(mode, "ago") {
        Ok("ago")
    } else if crate::text::str_eq(mode, "ls") {
        Ok("ls")
    } else {
        Err(DateModeError::InvalidDateMode)
    }
}

/// `a - b`, clamped to the range of `i64`.
pub open spec fn sat_sub_i64(a: i64, b: i64) -> i64 {
    let d = a - b;
    if d > i64::MAX {
        i64::MAX
    } else if d < i64::MIN {
        i64::MIN
    } else {
        d as i64
    }
}

/// How long ago a timestamp was, in the largest whole unit: seconds under
/// a minute, then minutes, hours, and days.
pub open spec fn relative_spec(ts: Seq<char>, now: Option<i64>) -> Option<Seq<char>> {
    match (ts_seconds_spec(ts), now) {
        (Some(then), Some(n)) => {
            let delta = sat_sub_i64(n, then as i64) as int;
            Some(
                if delta < 60 {
                    dec_int(delta) + "s ago"@
                } else if delta < 3600 {
                    dec_int(delta / 60) + "m ago"@
                } else if delta < 86400 {
                    dec_int(delta / 3600) + "h ago"@
                } else {
                    dec_int(delta / 86400) + "d ago"@
                },
            )
        },
        _ => None,
    }
}

/// How long before `now_secs` (the current time, if the clock could be
/// read) a timestamp was (see [`relative_spec`]).
#[verifier::rlimit(50)]
pub fn format_relative(ts: &str, now_secs: Option<i64>) -> (r: Option<String>)
    ensures
        opt_string_view(r) == relative_spec(ts@, now_secs),
{
    let then = match parse_ts_seconds(ts) {
        Some(t) => t,
        None => {
            return None;
        },
    };
    let now = match now_secs {
        Some(n) => n,
        None => {
            return None;
        },
    };
    let wide: i128 = now as i128 - then as i128;
    let delta: i64 = if wide > i64::MAX as i128 {
        i64::MAX
    } else if wide < i64::MIN as i128 {
        i64::MIN
    } else {
        wide as i64
    };
    let (value, unit) = if delta < 60 {
        (delta, "s ago")
    } else if delta < 3600 {
        (delta / 60, "m ago")
    } else if delta < 86400 {
        (delta / 3600, "h ago")
    } else {
        (delta / 86400, "d ago")
    };
    let mut out = i64_to_dec(value);
    push_str(&mut out, unit);
    Some(out)
}

/// The view of an optional string.
pub open spec fn opt_string_view(o: Option<String>) -> Option<Seq<char>> {
    match o {
        Some(s) => Some(s@),
        None => None,
    }
}

/// The three-letter English name of month `m` (1 to 12).
pub open spec fn month_abbrev(m: int) -> Seq<char> {
    if m == 1 {
        "Jan"@
    } else if m == 2 {
        "Feb"@
    } else if m == 3 {
        "Mar"@
    } else if m == 4 {
        "Apr"@
    } else if m == 5 {
        "May"@
    } else if m == 6 {
        "Jun"@
    } else if m == 7 {
        "Jul"@
    } else if m == 8 {
        "Aug"@
    } else if m == 9 {
        "Sep"@
    } else if m == 10 {
        "Oct"@
    } else if m == 11 {
        "Nov"@
    } else {
        "Dec"@
    }
}

#[verifier::rlimit(50)]
fn month_name(m: u32) -> (r: &'static str)
    requires
        1 <= m <= 12,
    ensures
        r@ == month_abbrev(m as int),
{
    if m == 1 {
        "Jan"
    } else if m == 2 {
        "Feb"
    } else if m == 3 {
        "Mar"
    } else if m == 4 {
        "Apr"
    } else if m == 5 {
        "May"
    } else if m == 6 {
        "Jun"
    } else if m == 7 {
        "Jul"
    } else if m == 8 {
        "Aug"
    } else if m == 9 {
        "Sep"
    } else if m == 10 {
        "Oct"
    } else if m == 11 {
        "Nov"
    } else {
        "Dec"
    }
}

/// The month of a stored timestamp, when it can be read, is a real month
/// (the `ls` date format indexes a table with it).
pub open spec fn ts_month_ok(ts: Seq<char>) -> bool {
    match ts_parts_spec(ts) {
        Some(p) => 1 <= p.1 <= 12,
        None => true,
    }
}

/// A date the way `ls` shows it: `Mon DD HH:MM` within the current year,
/// `Mon DD  YYYY` otherwise.
pub open spec fn ls_date_spec(ts: Seq<char>, now: Option<i64>) -> Option<Seq<char>> {
    match (ts_parts_spec(ts), now) {
        (Some(p), Some(n)) => {
            let head = month_abbrev(p.1 as int) + " "@ + padded_left(dec_nat(p.2 as nat), 2);
            Some(
                if p.0 == utc_spec(n as int).year {
                    head + " "@ + zero_padded(p.3 as int, 2) + ":"@ + zero_padded(p.4 as int, 2)
                } else {
                    head + "  "@ + dec_int(p.0 as int)
                },
            )
        },
        _ => None,
    }
}

/// A date the way `ls` shows it (see [`ls_date_spec`]).
#[verifier::rlimit(50)]
pub fn format_ls_date(ts: &str, now_secs: Option<i64>) -> (r: Option<String>)
    requires
        ts_month_ok(ts@),
    ensures
        opt_string_view(r) == ls_date_spec(ts@, now_secs),
{
    let (year, month, day, hour, minute, _) = match parse_ts_parts(ts) {
        Some(p) => p,
        None => {
            return None;
        },
    };
    let now = match now_secs {
        Some(n) => n,
        None => {
            return None;
        },
    };
    let now_year = unix_to_utc(now).year;
    let mut out = String::new();
    push_str(&mut out, month_name(month));
    push_char(&mut out, ' ');
    let day_text = u64_to_dec(day as u64);
    let padded = crate::display::pad_left(day_text.as_str(), 2);
    push_str(&mut out, padded.as_str());
    if year == now_year {
        push_char(&mut out, ' ');
        push_zero_padded(&mut out, hour as i64, 2);
        push_char(&mut out, ':');
        push_zero_padded(&mut out, minute as i64, 2);
    } else {
        push_char(&mut out, ' ');
        push_char(&mut out, ' ');
        let y = i64_to_dec(year as i64);
        push_str(&mut out, y.as_str());
    }
    proof {
        reveal_strlit(" ");
        reveal_strlit("  ");
        reveal_strlit(":");
    }
    assert(out@ =~= ls_date_spec(ts@, now_secs).unwrap());
    Some(out)
}

/// A stored timestamp shown in date mode `mode`: as it is for `iso` (and
/// unknown modes), relative to now for `ago`, in the `ls` style for `ls`;
/// the timestamp itself when it cannot be read.
pub open spec fn date_spec(ts: Seq<char>, mode: Seq<char>, now: Option<i64>) -> Seq<char> {
    let m = match date_mode_spec(mode) {
        Some(m) => m,
        None => "iso"@,
    };
    if m == "ago"@ {
        match relative_spec(ts, now) {
            Some(s) => s,
            None => ts,
        }
    } else if m == "ls"@ {
        match ls_date_spec(ts, now) {
            Some(s) => s,
            None => ts,
        }
    } else {
        ts
    }
}

/// A stored timestamp shown in date mode `mode` (see [`date_spec`]), where
/// `now_secs` is the current time if the clock could be read.
#[verifier::rlimit(50)]
pub fn format_date(ts: &str, mode: &str, now_secs: Option<i64>) -> (r: String)
    requires
        date_mode_spec(mode@) == Some("ls"@) ==> ts_month_ok(ts@),
    ensures
        r@ == date_spec(ts@, mode@, now_secs),
{
    proof {
        reveal_strlit("iso");
        reveal_strlit("ago");
        reveal_strlit("ls");
    }
    let ghost mv: Seq<char>;
    let m = match normalize_date_mode(mode) {
        Ok(m) => {
            proof {
                mv = m@;
            }
            m
        },
        Err(_) => {
            proof {
                mv = "iso"@;
            }
            "iso"
        },
    };
    assert(mv == m@);
    assert(mv == (match date_mode_spec(mode@) {
        Some(x) => x,
        None => "iso"@,
    }));
    if crate::text::str_eq(m, "ago") {
        match format_relative(ts, now_secs) {
            Some(s) => s,
            None => ts.to_owned(),
        }
    } else if crate::text::str_eq(m, "ls") {
        match format_ls_date(ts, now_secs) {
            Some(s) => s,
            None => ts.to_owned(),
        }
    } else {
        ts.to_owned()
    }
}

/// The timestamp the store writes for `secs` seconds and `nanos`
/// nanoseconds after 1970-01-01T00:00:00Z:
/// `YYYY-MM-DDTHH:MM:SS.NNNNNNNNNZ` in UTC.
pub open spec fn timestamp_spec(secs: int, nanos: int) -> Seq<char> {
    let dt = utc_spec(secs);
    zero_padded(dt.year as int, 4) + "-"@ + zero_padded(dt.month as int, 2) + "-"@ + zero_padded(
        dt.day as int,
        2,
    ) + "T"@ + zero_padded(dt.hour as int, 2) + ":"@ + zero_padded(dt.min as int, 2) + ":"@
        + zero_padded(dt.sec as int, 2) + "."@ + zero_padded(nanos, 9) + "Z"@
}

/// The timestamp the store writes for a point in time (see
/// [`timestamp_spec`]).
#[verifier::rlimit(50)]
pub fn format_timestamp(secs: i64, nanos: u32) -> (r: String)
    ensures
        r@ == timestamp_spec(secs as int, nanos as int),
{
    let dt = unix_to_utc(secs);
    proof {
        reveal_strlit("-");
        reveal_strlit("T");
        reveal_strlit(":");
        reveal_strlit(".");
        reveal_strlit("Z");
    }
    let mut out = String::new();
    push_zero_padded(&mut out, dt.year as i64, 4);
    push_char(&mut out, '-');
    push_zero_padded(&mut out, dt.month as i64, 2);
    push_char(&mut out, '-');
    push_zero_padded(&mut out, dt.day as i64, 2);
    let ghost date_part = out@;
    assert(date_part =~= zero_padded(dt.year as int, 4) + "-"@ + zero_padded(dt.month as int, 2)
        + "-"@ + zero_padded(dt.day as int, 2));
    push_char(&mut out, 'T');
    push_zero_padded(&mut out, dt.hour as i64, 2);
    push_char(&mut out, ':');
    push_zero_padded(&mut out, dt.min as i64, 2);
    push_char(&mut out, ':');
    push_zero_padded(&mut out, dt.sec as i64, 2);
    let ghost time_part = out@;
    assert(time_part =~= date_part + "T"@ + zero_padded(dt.hour as int, 2) + ":"@ + zero_padded(
        dt.min as int,
        2,
    ) + ":"@ + zero_padded(dt.sec as int, 2));
    push_char(&mut out, '.');
    push_zero_padded(&mut out, nanos as i64, 9);
    push_char(&mut out, 'Z');
    assert(out@ =~= time_part + "."@ + zero_padded(nanos as int, 9) + "Z"@);
    out
}

/// The width in bytes of a date cell in mode `mode` (an unknown mode
/// counts as `iso`): the timestamp itself for `iso`, 12 for `ls`, and the
/// formatted date otherwise.
pub open spec fn date_width_spec(ts: Seq<char>, mode: Seq<char>, now: Option<i64>) -> nat {
    let m = match date_mode_spec(mode) {
        Some(m) => m,
        None => "iso"@,
    };
    if m == "iso"@ {
        vstd::utf8::encode_utf8(ts).len()
    } else if m == "ls"@ {
        12
    } else {
        vstd::utf8::encode_utf8(date_spec(ts, mode, now)).len()
    }
}

/// The width of a date cell (see [`date_width_spec`]).
#[verifier::rlimit(50)]
pub fn measure_date_width(ts: &str, mode: &str, now_secs: Option<i64>) -> (r: usize)
    ensures
        r == date_width_spec(ts@, mode@, now_secs),
{
    proof {
        reveal_strlit("iso");
        reveal_strlit("ago");
        reveal_strlit("ls");
    }
    let m = match normalize_date_mode(mode) {
        Ok(m) => m,
        Err(_) => "iso",
    };
    if crate::text::str_eq(m, "iso") {
        assert(ts.spec_bytes() == vstd::utf8::encode_utf8(ts@));
        ts.as_bytes().len()
    } else if crate::text::str_eq(m, "ls") {
        12
    } else {
        let d = format_date(ts, mode, now_secs);
        let ds = d.as_str();
        assert(ds.spec_bytes() == vstd::utf8::encode_utf8(ds@));
        ds.as_bytes().len()
    }
}

} // verus!
