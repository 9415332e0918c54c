//! Character-level helpers shared by the formats and the display code.
//!
//! Strings are reasoned about through their view, a `Seq<char>`.
use vstd::prelude::*;
use vstd::string::StringExecFns;

verus! {

// ---------------------------------------------------------------------------
// Character classes
// ---------------------------------------------------------------------------

/// Unicode `White_Space`, as `char::is_whitespace` documents it.
pub open spec fn is_ws(c: char) -> bool {
    let u = c as u32;
    (0x09 <= u && u <= 0x0d) || u == 0x20 || u == 0x85 || u == 0xa0 || u == 0x1680 || (0x2000
        <= u && u <= 0x200a) || u == 0x2028 || u == 0x2029 || u == 0x202f || u == 0x205f || u
        == 0x3000
}

/// General category `Cc`, as `char::is_control` documents it.
pub open spec fn is_ctrl(c: char) -> bool {
    let u = c as u32;
    u <= 0x1f || (0x7f <= u && u <= 0x9f)
}

pub open spec fn is_digit(c: char) -> bool {
    '0' <= c && c <= '9'
}

pub open spec fn is_ascii_alnum(c: char) -> bool {
    ('0' <= c && c <= '9') || ('a' <= c && c <= 'z') || ('A' <= c && c <= 'Z')
}

/// Whether `c` is Unicode white space.
pub fn char_is_whitespace(c: char) -> (b: bool)
    ensures
        b == is_ws(c),
{
    let u = c as u32;
    (0x09 <= u && u <= 0x0d) || u == 0x20 || u == 0x85 || u == 0xa0 || u == 0x1680 || (0x2000
        <= u && u <= 0x200a) || u == 0x2028 || u == 0x2029 || u == 0x202f || u == 0x205f || u
        == 0x3000
}

/// Whether `c` is a control character.
pub fn char_is_control(c: char) -> (b: bool)
    ensures
        b == is_ctrl(c),
{
    let u = c as u32;
    u <= 0x1f || (0x7f <= u && u <= 0x9f)
}

pub open spec fn lower_char(c: char) -> char {
    if 'A' <= c && c <= 'Z' {
        ((c as u32) + 32) as char
    } else {
        c
    }
}

/// ASCII lower-casing of one character.
pub fn char_to_lower(c: char) -> (r: char)
    ensures
        r == lower_char(c),
{
    if 'A' <= c && c <= 'Z' {
        let u: u32 = (c as u32) + 32;
        let b: u8 = u as u8;
        b as char
    } else {
        c
    }
}

pub open spec fn lower_seq(s: Seq<char>) -> Seq<char> {
    s.map_values(|c: char| lower_char(c))
}

// ---------------------------------------------------------------------------
// Conversions between `str`, `String` and `Vec<char>`
// ---------------------------------------------------------------------------

/// Appends one character (std `String::push`).
#[verifier::external_body]
pub(crate) fn push_char(s: &mut String, c: char)
    ensures
        final(s)@ == old(s)@.push(c),
{
    s.push(c);
}

/// Appends a string slice.
pub(crate) fn push_str(s: &mut String, t: &str)
    ensures
        final(s)@ == old(s)@ + t@,
{
    s.append(t);
}

/// The characters of `s`, in order.
pub fn chars_of(s: &str) -> (v: Vec<char>)
    ensures
        v@ == s@,
{
    let mut v: Vec<char> = Vec::new();
    for c in it: s.chars()
        invariant
            v@ == it.seq().take(it.index() as int),
            it.seq() == s@,
    {
        v.push(c);
    }
    v
}

/// A string holding exactly the characters `v[lo..hi]`.
pub fn string_of_range(v: &Vec<char>, lo: usize, hi: usize) -> (s: String)
    requires
        lo <= hi <= v.len(),
    ensures
        s@ == v@.subrange(lo as int, hi as int),
{
    let mut s = String::new();
    let mut i: usize = lo;
    while i < hi
        invariant
            lo <= i <= hi <= v.len(),
            s@ == v@.subrange(lo as int, i as int),
        decreases hi - i,
    {
        push_char(&mut s, v[i]);
        i += 1;
        assert(s@ == v@.subrange(lo as int, i as int));
    }
    s
}

/// A string holding exactly the characters of `v`.
pub fn string_of(v: &Vec<char>) -> (s: String)
    ensures
        s@ == v@,
{
    let s = string_of_range(v, 0, v.len());
    assert(v@.subrange(0, v@.len() as int) == v@);
    s
}

/// Appends the characters `v[lo..hi]` to `out`.
pub fn push_range(out: &mut String, v: &Vec<char>, lo: usize, hi: usize)
    requires
        lo <= hi <= v.len(),
    ensures
        final(out)@ == old(out)@ + v@.subrange(lo as int, hi as int),
{
    let mut i: usize = lo;
    while i < hi
        invariant
            lo <= i <= hi <= v.len(),
            out@ == old(out)@ + v@.subrange(lo as int, i as int),
        decreases hi - i,
    {
        push_char(out, v[i]);
        i += 1;
        assert(out@ == old(out)@ + v@.subrange(lo as int, i as int));
    }
}

/// Equality of two character slices.
pub fn range_eq(a: &Vec<char>, lo: usize, hi: usize, b: &Vec<char>) -> (r: bool)
    requires
        lo <= hi <= a.len(),
    ensures
        r == (a@.subrange(lo as int, hi as int) == b@),
{
    if hi - lo != b.len() {
        return false;
    }
    let mut i: usize = 0;
    while i < b.len()
        invariant
            lo <= hi <= a.len(),
            hi - lo == b.len(),
            i <= b.len(),
            forall|j: int| 0 <= j < i ==> a@[lo + j] == b@[j],
        decreases b.len() - i,
    {
        if a[lo + i] != b[i] {
            assert(a@.subrange(lo as int, hi as int)[i as int] != b@[i as int]);
            return false;
        }
        i += 1;
    }
    assert(a@.subrange(lo as int, hi as int) =~= b@);
    true
}

/// Equality of two strings, character by character.
pub fn str_eq(a: &str, b: &str) -> (r: bool)
    ensures
        r == (a@ == b@),
{
    let va = chars_of(a);
    let vb = chars_of(b);
    let r = range_eq(&va, 0, va.len(), &vb);
    assert(va@.subrange(0, va@.len() as int) == va@);
    r
}

/// ASCII lower-casing of a string (`str::to_ascii_lowercase`).
pub fn to_lower(s: &str) -> (r: String)
    ensures
        r@ == lower_seq(s@),
{
    let v = chars_of(s);
    let mut out = String::new();
    let mut i: usize = 0;
    while i < v.len()
        invariant
            i <= v.len(),
            v@ == s@,
            out@ == lower_seq(v@.take(i as int)),
        decreases v.len() - i,
    {
        let c = char_to_lower(v[i]);
        push_char(&mut out, c);
        assert(lower_seq(v@.take(i + 1)) =~= lower_seq(v@.take(i as int)).push(c));
        i += 1;
    }
    assert(v@.take(v.len() as int) == v@);
    out
}

// ---------------------------------------------------------------------------
// Trimming
// ---------------------------------------------------------------------------

/// `s` without its leading white space.
pub open spec fn trim_start(s: Seq<char>) -> Seq<char>
    decreases s.len(),
{
    if s.len() > 0 && is_ws(s[0]) {
        trim_start(s.drop_first())
    } else {
        s
    }
}

/// `s` without its trailing white space.
pub open spec fn trim_end(s: Seq<char>) -> Seq<char>
    decreases s.len(),
{
    if s.len() > 0 && is_ws(s.last()) {
        trim_end(s.drop_last())
    } else {
        s
    }
}

/// `str::trim`: `s` without leading and trailing white space.
pub open spec fn trim(s: Seq<char>) -> Seq<char> {
    trim_end(trim_start(s))
}

/// Index of the first character of `v[lo..hi]` that is not white space
/// (or `hi`).
pub fn skip_ws_forward(v: &Vec<char>, lo: usize, hi: usize) -> (r: usize)
    requires
        lo <= hi <= v.len(),
    ensures
        lo <= r <= hi,
        trim_start(v@.subrange(lo as int, hi as int)) == v@.subrange(r as int, hi as int),
{
    let mut i: usize = lo;
    while i < hi && char_is_whitespace(v[i])
        invariant
            lo <= i <= hi <= v.len(),
            trim_start(v@.subrange(lo as int, hi as int)) == trim_start(
                v@.subrange(i as int, hi as int),
            ),
        decreases hi - i,
    {
        assert(v@.subrange(i as int, hi as int).drop_first() =~= v@.subrange(i + 1, hi as int));
        i += 1;
    }
    i
}

/// End of `v[lo..hi]` once trailing white space is removed.
pub fn skip_ws_backward(v: &Vec<char>, lo: usize, hi: usize) -> (r: usize)
    requires
        lo <= hi <= v.len(),
    ensures
        lo <= r <= hi,
        trim_end(v@.subrange(lo as int, hi as int)) == v@.subrange(lo as int, r as int),
{
    let mut j: usize = hi;
    while j > lo && char_is_whitespace(v[j - 1])
        invariant
            lo <= j <= hi <= v.len(),
            trim_end(v@.subrange(lo as int, hi as int)) == trim_end(
                v@.subrange(lo as int, j as int),
            ),
        decreases j - lo,
    {
        assert(v@.subrange(lo as int, j as int).drop_last() =~= v@.subrange(lo as int, j - 1));
        j -= 1;
    }
    j
}

/// The bounds of `trim(v[lo..hi])` inside `v`.
pub fn trim_bounds(v: &Vec<char>, lo: usize, hi: usize) -> (r: (usize, usize))
    requires
        lo <= hi <= v.len(),
    ensures
        lo <= r.0 <= r.1 <= hi,
        trim(v@.subrange(lo as int, hi as int)) == v@.subrange(r.0 as int, r.1 as int),
{
    let a = skip_ws_forward(v, lo, hi);
    let b = skip_ws_backward(v, a, hi);
    (a, b)
}

/// `str::trim`, as a new string.
pub fn trim_string(s: &str) -> (r: String)
    ensures
        r@ == trim(s@),
{
    let v = chars_of(s);
    let (a, b) = trim_bounds(&v, 0, v.len());
    assert(v@.subrange(0, v@.len() as int) == v@);
    string_of_range(&v, a, b)
}

// ---------------------------------------------------------------------------
// Lexicographic order on character sequences (the order of `String`)
// ---------------------------------------------------------------------------

/// Strict lexicographic order by code point, which is the order `String`
/// uses (UTF-8 byte order agrees with code point order).
pub open spec fn lex_lt(a: Seq<char>, b: Seq<char>) -> bool
    decreases a.len(),
{
    if a.len() == 0 {
        b.len() > 0
    } else if b.len() == 0 {
        false
    } else if a[0] < b[0] {
        true
    } else if a[0] == b[0] {
        lex_lt(a.drop_first(), b.drop_first())
    } else {
        false
    }
}

#[verifier::rlimit(50)]
pub proof fn lemma_lex_irrefl(a: Seq<char>)
    ensures
        !lex_lt(a, a),
    decreases a.len(),
{
    if a.len() > 0 {
        lemma_lex_irrefl(a.drop_first());
    }
}

#[verifier::rlimit(50)]
pub proof fn lemma_lex_trichotomy(a: Seq<char>, b: Seq<char>)
    ensures
        lex_lt(a, b) || a == b || lex_lt(b, a),
        !(lex_lt(a, b) && lex_lt(b, a)),
    decreases a.len(),
{
    if a.len() > 0 && b.len() > 0 {
        lemma_lex_trichotomy(a.drop_first(), b.drop_first());
        if a[0] == b[0] && a.drop_first() == b.drop_first() {
            assert forall|i: int| 0 <= i < a.len() implies a[i] == b[i] by {
                if i > 0 {
                    assert(a[i] == a.drop_first()[i - 1]);
                    assert(b[i] == b.drop_first()[i - 1]);
                }
            }
            assert(a =~= b);
        }
    } else if a.len() == 0 && b.len() == 0 {
        assert(a =~= b);
    }
}

#[verifier::rlimit(50)]
pub proof fn lemma_lex_trans(a: Seq<char>, b: Seq<char>, c: Seq<char>)
    requires
        lex_lt(a, b),
        lex_lt(b, c),
    ensures
        lex_lt(a, c),
    decreases a.len(),
{
    if a.len() > 0 && b.len() > 0 && c.len() > 0 {
        if a[0] == b[0] && b[0] == c[0] {
            lemma_lex_trans(a.drop_first(), b.drop_first(), c.drop_first());
        }
    }
}

/// `a < b` in the order of `String`.
pub fn str_lt(a: &str, b: &str) -> (r: bool)
    ensures
        r == lex_lt(a@, b@),
{
    let va = chars_of(a);
    let vb = chars_of(b);
    let mut i: usize = 0;
    assert(va@.skip(0) == va@ && vb@.skip(0) == vb@);
    while i < va.len() && i < vb.len() && va[i] == vb[i]
        invariant
            i <= va.len(),
            i <= vb.len(),
            va@ == a@,
            vb@ == b@,
            lex_lt(a@, b@) == lex_lt(va@.skip(i as int), vb@.skip(i as int)),
        decreases va.len() - i,
    {
        assert(va@.skip(i as int).drop_first() =~= va@.skip(i + 1));
        assert(vb@.skip(i as int).drop_first() =~= vb@.skip(i + 1));
        i += 1;
    }
    if i == va.len() {
        i < vb.len()
    } else if i == vb.len() {
        false
    } else {
        assert(va@.skip(i as int)[0] == va@[i as int]);
        assert(vb@.skip(i as int)[0] == vb@[i as int]);
        va[i] < vb[i]
    }
}

// ---------------------------------------------------------------------------
// Decimal numbers
// ---------------------------------------------------------------------------

pub open spec fn digit_char(d: nat) -> char {
    if d == 0 {
        '0'
    } else if d == 1 {
        '1'
    } else if d == 2 {
        '2'
    } else if d == 3 {
        '3'
    } else if d == 4 {
        '4'
    } else if d == 5 {
        '5'
    } else if d == 6 {
        '6'
    } else if d == 7 {
        '7'
    } else if d == 8 {
        '8'
    } else {
        '9'
    }
}

/// Value of a decimal digit character.
pub open spec fn digit_value(c: char) -> nat {
    if c == '1' {
        1
    } else if c == '2' {
        2
    } else if c == '3' {
        3
    } else if c == '4' {
        4
    } else if c == '5' {
        5
    } else if c == '6' {
        6
    } else if c == '7' {
        7
    } else if c == '8' {
        8
    } else if c == '9' {
        9
    } else {
        0
    }
}

/// The digit character for `d < 10`.
pub fn digit_to_char(d: u64) -> (c: char)
    requires
        d < 10,
    ensures
        c == digit_char(d as nat),
{
    if d == 0 {
        '0'
    } else if d == 1 {
        '1'
    } else if d == 2 {
        '2'
    } else if d == 3 {
        '3'
    } else if d == 4 {
        '4'
    } else if d == 5 {
        '5'
    } else if d == 6 {
        '6'
    } else if d == 7 {
        '7'
    } else if d == 8 {
        '8'
    } else {
        '9'
    }
}

/// Value of a digit character.
pub fn char_digit_value(c: char) -> (d: u64)
    ensures
        d == digit_value(c),
        d < 10,
{
    if c == '1' {
        1
    } else if c == '2' {
        2
    } else if c == '3' {
        3
    } else if c == '4' {
        4
    } else if c == '5' {
        5
    } else if c == '6' {
        6
    } else if c == '7' {
        7
    } else if c == '8' {
        8
    } else if c == '9' {
        9
    } else {
        0
    }
}

/// Decimal digits of `n`, most significant first, without leading zeros.
pub open spec fn dec_nat(n: nat) -> Seq<char>
    decreases n,
{
    if n < 10 {
        seq![digit_char(n)]
    } else {
        dec_nat(n / 10).push(digit_char(n % 10))
    }
}

/// Decimal text of an integer, as `to_string` writes it.
pub open spec fn dec_int(n: int) -> Seq<char> {
    if n < 0 {
        seq!['-'] + dec_nat((-n) as nat)
    } else {
        dec_nat(n as nat)
    }
}

/// Value of a sequence of decimal digits.
pub open spec fn digits_value(s: Seq<char>) -> nat
    decreases s.len(),
{
    if s.len() == 0 {
        0
    } else {
        digits_value(s.drop_last()) * 10 + digit_value(s.last())
    }
}

pub open spec fn all_digits(s: Seq<char>) -> bool {
    forall|i: int| 0 <= i < s.len() ==> is_digit(#[trigger] s[i])
}

/// `str::parse::<i64>`: an optional sign, then one digit or more, whose
/// value fits in an `i64`.
pub open spec fn parse_i64_spec(s: Seq<char>) -> Option<i64> {
    let neg = s.len() > 0 && s[0] == '-';
    let plus = s.len() > 0 && s[0] == '+';
    let digits = if neg || plus {
        s.drop_first()
    } else {
        s
    };
    if digits.len() == 0 || !all_digits(digits) {
        None
    } else {
        let v: int = if neg {
            -(digits_value(digits) as int)
        } else {
            digits_value(digits) as int
        };
        if i64::MIN <= v && v <= i64::MAX {
            Some(v as i64)
        } else {
            None
        }
    }
}

/// `str::parse::<usize>`: an optional `+`, then one digit or more, whose
/// value fits in a `usize`.
pub open spec fn parse_usize_spec(s: Seq<char>) -> Option<usize> {
    let plus = s.len() > 0 && s[0] == '+';
    let digits = if plus {
        s.drop_first()
    } else {
        s
    };
    if digits.len() == 0 || !all_digits(digits) {
        None
    } else if digits_value(digits) <= usize::MAX {
        Some(digits_value(digits) as usize)
    } else {
        None
    }
}

#[verifier::rlimit(50)]
pub proof fn lemma_digit_roundtrip(d: nat)
    requires
        d < 10,
    ensures
        digit_value(digit_char(d)) == d,
        is_digit(digit_char(d)),
        !is_ws(digit_char(d)),
{
}

#[verifier::rlimit(50)]
pub proof fn lemma_dec_nat_digits(n: nat)
    ensures
        all_digits(dec_nat(n)),
        dec_nat(n).len() > 0,
        digits_value(dec_nat(n)) == n,
        !is_ws(dec_nat(n).last()),
        dec_nat(n)[0] != '-' && dec_nat(n)[0] != '+',
    decreases n,
{
    lemma_digit_roundtrip(n % 10);
    if n < 10 {
        let s = dec_nat(n);
        assert(s.drop_last() =~= Seq::<char>::empty());
        assert(digits_value(s.drop_last()) == 0);
        assert(s.last() == digit_char(n));
    }
    if n >= 10 {
        lemma_dec_nat_digits(n / 10);
        let s = dec_nat(n);
        assert(s.drop_last() =~= dec_nat(n / 10));
        assert(s.last() == digit_char(n % 10));
        assert(digits_value(s) == digits_value(dec_nat(n / 10)) * 10 + n % 10);
        assert forall|i: int| 0 <= i < s.len() implies is_digit(#[trigger] s[i]) by {
            if i < s.len() - 1 {
                assert(s[i] == dec_nat(n / 10)[i]);
            }
        }
    }
}

#[verifier::rlimit(50)]
pub proof fn lemma_parse_dec_int(n: i64)
    ensures
        parse_i64_spec(dec_int(n as int)) == Some(n),
        dec_int(n as int).len() > 0,
        !is_ws(dec_int(n as int).last()),
        forall|i: int|
            0 <= i < dec_int(n as int).len() ==> is_digit(#[trigger] dec_int(n as int)[i]) || (i
                == 0 && dec_int(n as int)[i] == '-'),
{
    if n < 0 {
        let m: nat = (-(n as int)) as nat;
        lemma_dec_nat_digits(m);
        let s = dec_int(n as int);
        assert(s.drop_first() =~= dec_nat(m));
        assert(s.last() == dec_nat(m).last());
        assert forall|i: int| 0 <= i < s.len() implies is_digit(#[trigger] s[i]) || (i == 0
            && s[i] == '-') by {
            if i > 0 {
                assert(s[i] == dec_nat(m)[i - 1]);
            }
        }
    } else {
        lemma_dec_nat_digits(n as nat);
    }
}

/// Appends the decimal text of `n` to `out`.
pub fn push_u64_dec(out: &mut String, n: u64)
    ensures
        final(out)@ == old(out)@ + dec_nat(n as nat),
    decreases n,
{
    if n >= 10 {
        push_u64_dec(out, n / 10);
    }
    let c = digit_to_char(n % 10);
    push_char(out, c);
    proof {
        if n >= 10 {
            assert(final(out)@ =~= old(out)@ + dec_nat(n as nat));
        } else {
            assert(final(out)@ =~= old(out)@ + dec_nat(n as nat));
        }
    }
}

/// Decimal text of a natural number held in a `u64`.
pub fn u64_to_dec(n: u64) -> (s: String)
    ensures
        s@ == dec_nat(n as nat),
{
    let mut out = String::new();
    push_u64_dec(&mut out, n);
    assert(out@ =~= dec_nat(n as nat));
    out
}

/// Decimal text of an `i64`, as `i64::to_string` writes it.
pub fn i64_to_dec(n: i64) -> (s: String)
    ensures
        s@ == dec_int(n as int),
{
    if n < 0 {
        let m: u64 = if n == i64::MIN {
            0x8000_0000_0000_0000u64
        } else {
            (-n) as u64
        };
        let mut out = String::new();
        push_char(&mut out, '-');
        let tail = u64_to_dec(m);
        push_str(&mut out, tail.as_str());
        assert(out@ =~= seq!['-'] + dec_nat(m as nat));
        out
    } else {
        u64_to_dec(n as u64)
    }
}

/// Decimal text of a `usize`.
pub fn usize_to_dec(n: usize) -> (s: String)
    ensures
        s@ == dec_nat(n as nat),
{
    u64_to_dec(n as u64)
}

#[verifier::rlimit(50)]
pub proof fn lemma_digits_value_push(s: Seq<char>, c: char)
    ensures
        digits_value(s.push(c)) == digits_value(s) * 10 + digit_value(c),
{
    assert(s.push(c).drop_last() =~= s);
}

/// Value of the digits `v[lo..hi]`, or `None` once it exceeds `limit`.
fn digits_value_bounded(v: &Vec<char>, lo: usize, hi: usize, limit: u64) -> (r: Option<u64>)
    requires
        lo <= hi <= v.len(),
        all_digits(v@.subrange(lo as int, hi as int)),
        10 <= limit <= 0x8000_0000_0000_0000u64,
    ensures
        match r {
            Some(x) => x == digits_value(v@.subrange(lo as int, hi as int)) && x <= limit,
            None => digits_value(v@.subrange(lo as int, hi as int)) > limit,
        },
{
    let mut acc: u64 = 0;
    let mut i: usize = lo;
    while i < hi
        invariant
            lo <= i <= hi <= v.len(),
            all_digits(v@.subrange(lo as int, hi as int)),
            10 <= limit <= 0x8000_0000_0000_0000u64,
            acc == digits_value(v@.subrange(lo as int, i as int)),
            acc <= limit,
        decreases hi - i,
    {
        assert(is_digit(v@.subrange(lo as int, hi as int)[i - lo]));
        let d: u64 = char_digit_value(v[i]);
        proof {
            lemma_digits_value_push(v@.subrange(lo as int, i as int), v@[i as int]);
            assert(v@.subrange(lo as int, i as int).push(v@[i as int]) =~= v@.subrange(
                lo as int,
                i + 1,
            ));
        }
        if acc > (limit - d) / 10 {
            proof {
                lemma_digits_prefix_bound(v@.subrange(lo as int, hi as int), (i + 1 - lo) as int);
                assert(v@.subrange(lo as int, hi as int).take((i + 1 - lo) as int) =~= v@.subrange(
                    lo as int,
                    i + 1,
                ));
                assert(acc * 10 + d > limit) by (nonlinear_arith)
                    requires
                        acc > (limit - d) / 10,
                        d <= 9,
                        d <= limit || true,
                ;
            }
            return None;
        }
        acc = acc * 10 + d;
        i += 1;
    }
    Some(acc)
}

/// The value of a digit string is at least the value of any prefix.
#[verifier::rlimit(50)]
pub proof fn lemma_digits_prefix_bound(s: Seq<char>, k: int)
    requires
        0 <= k <= s.len(),
        all_digits(s),
    ensures
        digits_value(s) >= digits_value(s.take(k)),
    decreases s.len(),
{
    if k < s.len() {
        assert(s.drop_last().take(k) =~= s.take(k));
        assert forall|i: int| 0 <= i < s.drop_last().len() implies is_digit(
            #[trigger] s.drop_last()[i],
        ) by {
            assert(s.drop_last()[i] == s[i]);
        }
        lemma_digits_prefix_bound(s.drop_last(), k);
    } else {
        assert(s.take(k) =~= s);
    }
}

/// Whether `v[lo..hi]` consists of decimal digits only.
pub fn range_all_digits(v: &Vec<char>, lo: usize, hi: usize) -> (r: bool)
    requires
        lo <= hi <= v.len(),
    ensures
        r == all_digits(v@.subrange(lo as int, hi as int)),
{
    let mut i: usize = lo;
    while i < hi
        invariant
            lo <= i <= hi <= v.len(),
            forall|j: int| lo <= j < i ==> is_digit(#[trigger] v@[j]),
        decreases hi - i,
    {
        if !('0' <= v[i] && v[i] <= '9') {
            assert(!is_digit(v@.subrange(lo as int, hi as int)[i - lo]));
            return false;
        }
        i += 1;
    }
    assert forall|j: int| 0 <= j < hi - lo implies is_digit(
        #[trigger] v@.subrange(lo as int, hi as int)[j],
    ) by {
        assert(v@.subrange(lo as int, hi as int)[j] == v@[lo + j]);
    }
    true
}

/// `str::parse::<i64>` on the characters `v[lo..hi]`.
pub fn parse_i64_range(v: &Vec<char>, lo: usize, hi: usize) -> (r: Option<i64>)
    requires
        lo <= hi <= v.len(),
    ensures
        r == parse_i64_spec(v@.subrange(lo as int, hi as int)),
{
    let ghost s = v@.subrange(lo as int, hi as int);
    let neg = lo < hi && v[lo] == '-';
    let plus = lo < hi && v[lo] == '+';
    let start: usize = if neg || plus {
        lo + 1
    } else {
        lo
    };
    proof {
        if neg || plus {
            assert(s.drop_first() =~= v@.subrange(start as int, hi as int));
        }
    }
    if start == hi || !range_all_digits(v, start, hi) {
        return None;
    }
    let limit: u64 = if neg {
        0x8000_0000_0000_0000u64
    } else {
        0x7fff_ffff_ffff_ffffu64
    };
    match digits_value_bounded(v, start, hi, limit) {
        None => None,
        Some(x) => {
            if neg {
                if x == 0x8000_0000_0000_0000u64 {
                    Some(i64::MIN)
                } else {
                    Some(-(x as i64))
                }
            } else {
                Some(x as i64)
            }
        },
    }
}

/// `str::parse::<usize>` on the characters `v[lo..hi]`.
pub fn parse_usize_range(v: &Vec<char>, lo: usize, hi: usize) -> (r: Option<usize>)
    requires
        lo <= hi <= v.len(),
    ensures
        r == parse_usize_spec(v@.subrange(lo as int, hi as int)),
{
    let ghost s = v@.subrange(lo as int, hi as int);
    let plus = lo < hi && v[lo] == '+';
    let start: usize = if plus {
        lo + 1
    } else {
        lo
    };
    proof {
        if plus {
            assert(s.drop_first() =~= v@.subrange(start as int, hi as int));
        }
    }
    if start == hi || !range_all_digits(v, start, hi) {
        return None;
    }
    match parse_u64_wide(v, start, hi) {
        None => None,
        Some(x) => Some(x),
    }
}

/// Value of the digits `v[lo..hi]` as a `usize`, if it fits.
fn parse_u64_wide(v: &Vec<char>, lo: usize, hi: usize) -> (r: Option<usize>)
    requires
        lo < hi <= v.len(),
        all_digits(v@.subrange(lo as int, hi as int)),
    ensures
        match r {
            Some(x) => x == digits_value(v@.subrange(lo as int, hi as int)),
            None => digits_value(v@.subrange(lo as int, hi as int)) > usize::MAX,
        },
{
    let mut acc: usize = 0;
    let mut i: usize = lo;
    while i < hi
        invariant
            lo <= i <= hi <= v.len(),
            all_digits(v@.subrange(lo as int, hi as int)),
            acc == digits_value(v@.subrange(lo as int, i as int)),
        decreases hi - i,
    {
        assert(is_digit(v@.subrange(lo as int, hi as int)[i - lo]));
        let d: usize = char_digit_value(v[i]) as usize;
        proof {
            lemma_digits_value_push(v@.subrange(lo as int, i as int), v@[i as int]);
            assert(v@.subrange(lo as int, i as int).push(v@[i as int]) =~= v@.subrange(
                lo as int,
                i + 1,
            ));
        }
        if acc > (usize::MAX - d) / 10 {
            proof {
                lemma_digits_prefix_bound(v@.subrange(lo as int, hi as int), (i + 1 - lo) as int);
                assert(v@.subrange(lo as int, hi as int).take((i + 1 - lo) as int) =~= v@.subrange(
                    lo as int,
                    i + 1,
                ));
                assert(acc * 10 + d > usize::MAX) by (nonlinear_arith)
                    requires
                        acc > (usize::MAX - d) / 10,
                        d <= 9,
                ;
            }
            return None;
        }
        acc = acc * 10 + d;
        i += 1;
    }
    Some(acc)
}

} // verus!
