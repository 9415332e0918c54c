//! A small JSON reader for `meta.json` files: objects, strings, integers,
//! `true`/`false` and `null`, over the bytes of the text; and the escaping
//! that writes strings back.
//!
//! Object members are kept by key in ascending order, a later member
//! replacing an earlier one with the same key. `true` and `false` read as
//! the same `Bool` value. A string's bytes other than escapes are each
//! taken as one character (code points up to 255), as the reader always
//! did.
use vstd::prelude::*;
use vstd::string::StringSliceAdditionalSpecFns;
use vstd::utf8::{encode_utf8, is_ascii_chars};

use crate::strmap::{lemma_pairs_map_push_sorted, pairs_map, sorted_keys, StrMap};
use crate::meta::{Meta, MetaView};
use crate::text::{
    char_is_control, chars_of, dec_int, i64_to_dec, is_ctrl, is_digit, parse_i64_range, parse_i64_spec, push_char,
    lex_lt, push_str, str_eq,
};

verus! {

/// A JSON value. An object lists its members in ascending key order.
pub enum JsonValue {
    Object(Vec<(String, JsonValue)>),
    String(String),
    Number(i64),
    Bool(()),
    Null,
}

/// The mathematical value of a JSON value.
pub enum JsonView {
    Object(Map<Seq<char>, JsonView>),
    String(Seq<char>),
    Number(i64),
    Bool,
    Null,
}

/// The value a JSON value denotes.
pub open spec fn jview(v: JsonValue) -> JsonView
    decreases v, 0nat,
{
    match v {
        JsonValue::Object(es) => {
            proof {
                assert(decreases_to!(v => es));
                assert(decreases_to!(es => es@));
            }
            JsonView::Object(fold_pairs(members_view(es@, es@.len())))
        },
        JsonValue::String(s) => JsonView::String(s@),
        JsonValue::Number(n) => JsonView::Number(n),
        JsonValue::Bool(_) => JsonView::Bool,
        JsonValue::Null => JsonView::Null,
    }
}

/// The map that pairs describe, a later pair replacing an earlier one with
/// the same key.
pub open spec fn fold_pairs<W>(ps: Seq<(Seq<char>, W)>) -> Map<Seq<char>, W>
    decreases ps.len(),
{
    if ps.len() == 0 {
        Map::empty()
    } else {
        fold_pairs(ps.drop_last()).insert(ps.last().0, ps.last().1)
    }
}

/// For pairs in ascending key order, the fold is the map of the pairs.
#[verifier::rlimit(50)]
pub proof fn lemma_fold_sorted<W>(ps: Seq<(Seq<char>, W)>)
    requires
        sorted_keys(ps),
    ensures
        fold_pairs(ps) == pairs_map(ps),
    decreases ps.len(),
{
    if ps.len() > 0 {
        let q = ps.drop_last();
        assert(sorted_keys(q));
        lemma_fold_sorted(q);
        assert(q.push(ps.last()) =~= ps);
        lemma_pairs_map_push_sorted(q, ps.last().0, ps.last().1);
    } else {
        assert(pairs_map(ps) =~= Map::<Seq<char>, W>::empty());
    }
}

/// The first `n` members of an object, as (key, value) pairs.
pub open spec fn members_view(es: Seq<(String, JsonValue)>, n: nat) -> Seq<(Seq<char>, JsonView)>
    decreases es, n,
{
    if n == 0 || n > es.len() {
        Seq::empty()
    } else {
        proof {
            assert(decreases_to!(es => es[n - 1]));
            assert(decreases_to!(es[n - 1] => es[n - 1].1));
        }
        members_view(es, (n - 1) as nat).push((es[n - 1].0@, jview(es[n - 1].1)))
    }
}

impl View for JsonValue {
    type V = JsonView;

    open spec fn view(&self) -> JsonView {
        jview(*self)
    }
}

// ---------------------------------------------------------------------------
// The grammar, over bytes
// ---------------------------------------------------------------------------

/// ASCII white space: space, tab, line feed, form feed, carriage return.
pub open spec fn byte_is_ws(c: u8) -> bool {
    c == 32 || c == 9 || c == 10 || c == 12 || c == 13
}

/// The first position at or after `p` that is not white space.
pub open spec fn skip_ws_spec(b: Seq<u8>, p: int) -> int
    decreases b.len() - p,
{
    if 0 <= p < b.len() && byte_is_ws(b[p]) {
        skip_ws_spec(b, p + 1)
    } else {
        p
    }
}

/// The value of a hexadecimal digit, or -1.
pub open spec fn hex_val(c: u8) -> int {
    if 48 <= c <= 57 {
        c - 48
    } else if 97 <= c <= 102 {
        c - 87
    } else if 65 <= c <= 70 {
        c - 55
    } else {
        -1
    }
}

/// The value of the four hexadecimal digits at `p`, from the `k`-th on,
/// added to `acc`.
pub open spec fn hex_spec(b: Seq<u8>, p: int, k: nat, acc: nat) -> Result<nat, Seq<char>>
    decreases 4 - k,
{
    if k >= 4 {
        Ok(acc)
    } else if p + k >= b.len() {
        Err("short unicode escape"@)
    } else if hex_val(b[p + k]) < 0 {
        Err("invalid hex digit"@)
    } else {
        hex_spec(b, p, k + 1, acc * 16 + hex_val(b[p + k]) as nat)
    }
}

/// A code that names a character (not a surrogate, at most 0x10FFFF).
pub open spec fn scalar_ok(code: nat) -> bool {
    code < 0xD800 || (0xE000 <= code && code <= 0x10FFFF)
}

/// The character a one-letter escape stands for.
pub open spec fn simple_escape(e: u8) -> Option<char> {
    if e == 34 {
        Some('"')
    } else if e == 92 {
        Some('\\')
    } else if e == 47 {
        Some('/')
    } else if e == 98 {
        Some('\x08')
    } else if e == 102 {
        Some('\x0c')
    } else if e == 110 {
        Some('\n')
    } else if e == 114 {
        Some('\r')
    } else if e == 116 {
        Some('\t')
    } else {
        None
    }
}

#[verifier::rlimit(50)]
pub proof fn lemma_hex_bound(b: Seq<u8>, p: int, k: nat, acc: nat)
    requires
        k <= 4,
    ensures
        match hex_spec(b, p, k, acc) {
            Ok(c) => c < (acc + 1) * pow16((4 - k) as nat),
            Err(_) => true,
        },
    decreases 4 - k,
{
    if k < 4 && p + k < b.len() && hex_val(b[p + k]) >= 0 {
        let d = hex_val(b[p + k]) as nat;
        let acc2 = acc * 16 + d;
        lemma_hex_bound(b, p, k + 1, acc2);
        let e = (4 - k - 1) as nat;
        lemma_pow16_pos(e);
        let pe = pow16(e);
        assert(pow16((4 - k) as nat) == 16 * pe);
        assert(hex_spec(b, p, k, acc) == hex_spec(b, p, k + 1, acc2));
        match hex_spec(b, p, k + 1, acc2) {
            Ok(c) => {
                assert(c < (acc2 + 1) * pe);
                assert((acc2 + 1) * pe <= (acc + 1) * (16 * pe)) by (nonlinear_arith)
                    requires
                        acc2 == acc * 16 + d,
                        d < 16,
                        pe >= 1,
                ;
            },
            Err(_) => {},
        }
    } else if k == 4 {
        assert(pow16(0) == 1);
        assert((acc + 1) * 1 == acc + 1) by (nonlinear_arith);
    }
}

#[verifier::rlimit(50)]
pub proof fn lemma_hex_in_bounds(b: Seq<u8>, p: int, k: nat, acc: nat)
    requires
        k < 4,
        hex_spec(b, p, k, acc) is Ok,
    ensures
        p + 3 < b.len(),
    decreases 4 - k,
{
    if k < 3 {
        lemma_hex_in_bounds(b, p, k + 1, acc * 16 + hex_val(b[p + k]) as nat);
    }
}

/// `16` to the power `e`.
pub open spec fn pow16(e: nat) -> nat
    decreases e,
{
    if e == 0 {
        1
    } else {
        16 * pow16((e - 1) as nat)
    }
}

#[verifier::rlimit(50)]
pub proof fn lemma_pow16_pos(e: nat)
    ensures
        pow16(e) >= 1,
    decreases e,
{
    if e > 0 {
        lemma_pow16_pos((e - 1) as nat);
    }
}

/// The rest of a string from `p` (after the opening quote), its characters
/// so far `acc`: the string and the position after the closing quote.
pub open spec fn string_body(b: Seq<u8>, p: int, acc: Seq<char>) -> Result<(Seq<char>, int), Seq<char>>
    decreases b.len() - p,
{
    if !(0 <= p < b.len()) {
        Err("unterminated string"@)
    } else if b[p] == 34 {
        Ok((acc, p + 1))
    } else if b[p] == 92 {
        if p + 1 >= b.len() {
            Err("incomplete escape"@)
        } else {
            match simple_escape(b[p + 1]) {
                Some(c) => string_body(b, p + 2, acc.push(c)),
                None => if b[p + 1] == 117 {
                    match hex_spec(b, p + 2, 0, 0) {
                        Err(e) => Err(e),
                        Ok(code) => if scalar_ok(code) {
                            proof {
                                lemma_hex_in_bounds(b, p + 2, 0, 0);
                            }
                            string_body(b, p + 6, acc.push(code as char))
                        } else {
                            Err("invalid unicode escape"@)
                        },
                    }
                } else {
                    Err("invalid escape"@)
                },
            }
        }
    } else {
        string_body(b, p + 1, acc.push(b[p] as char))
    }
}

/// A string starting at `p` with its opening quote.
pub open spec fn string_spec(b: Seq<u8>, p: int) -> Result<(Seq<char>, int), Seq<char>> {
    if 0 <= p < b.len() && b[p] == 34 {
        string_body(b, p + 1, Seq::empty())
    } else {
        Err("expected '\"'"@)
    }
}

/// The first position at or after `p` that is not a decimal digit.
pub open spec fn digits_end(b: Seq<u8>, p: int) -> int
    decreases b.len() - p,
{
    if 0 <= p < b.len() && 48 <= b[p] <= 57 {
        digits_end(b, p + 1)
    } else {
        p
    }
}

/// Bytes taken one character each.
pub open spec fn bytes_chars(s: Seq<u8>) -> Seq<char> {
    s.map_values(|x: u8| x as char)
}

/// A number at `p`: an optional `-` and the digits after it, read as an
/// `i64`.
pub open spec fn number_spec(b: Seq<u8>, p: int) -> Result<(i64, int), Seq<char>> {
    let q = if 0 <= p < b.len() && b[p] == 45 {
        p + 1
    } else {
        p
    };
    let e = digits_end(b, q);
    match parse_i64_spec(bytes_chars(b.subrange(p, e))) {
        Some(n) => Ok((n, e)),
        None => Err("invalid number"@),
    }
}

/// Whether the bytes `lit` stand at `p`.
pub open spec fn lit_at(b: Seq<u8>, p: int, lit: Seq<u8>) -> bool {
    0 <= p && p + lit.len() <= b.len() && b.subrange(p, p + lit.len()) == lit
}

/// A value at `p` after optional white space, and the position after it.
/// `fuel` bounds the nesting; a value nested `n` deep needs more than `n`
/// bytes, so `b.len() - p + 1` is always enough.
pub open spec fn value_spec(b: Seq<u8>, p: int, fuel: nat) -> Result<(JsonView, int), Seq<char>>
    decreases fuel,
{
    if fuel == 0 {
        Err("unexpected token"@)
    } else {
        let q = skip_ws_spec(b, p);
        if !(0 <= q < b.len()) {
            Err("unexpected token"@)
        } else if b[q] == 123 {
            let r = skip_ws_spec(b, q + 1);
            if 0 <= r < b.len() && b[r] == 125 {
                Ok((JsonView::Object(Map::empty()), r + 1))
            } else {
                match members_spec(b, r, Map::empty(), (fuel - 1) as nat) {
                    Ok((m, e)) => Ok((JsonView::Object(m), e)),
                    Err(x) => Err(x),
                }
            }
        } else if b[q] == 34 {
            match string_spec(b, q) {
                Ok((s, e)) => Ok((JsonView::String(s), e)),
                Err(x) => Err(x),
            }
        } else if b[q] == 45 || (48 <= b[q] <= 57) {
            match number_spec(b, q) {
                Ok((n, e)) => Ok((JsonView::Number(n), e)),
                Err(x) => Err(x),
            }
        } else if b[q] == 116 {
            if lit_at(b, q, seq![116u8, 114, 117, 101]) {
                Ok((JsonView::Bool, q + 4))
            } else {
                Err("unexpected token"@)
            }
        } else if b[q] == 102 {
            if lit_at(b, q, seq![102u8, 97, 108, 115, 101]) {
                Ok((JsonView::Bool, q + 5))
            } else {
                Err("unexpected token"@)
            }
        } else if b[q] == 110 {
            if lit_at(b, q, seq![110u8, 117, 108, 108]) {
                Ok((JsonView::Null, q + 4))
            } else {
                Err("unexpected token"@)
            }
        } else {
            Err("unexpected token"@)
        }
    }
}

/// The members of an object from `p` on (after `{` or `,`), the members
/// read so far `acc`: the members and the position after the closing `}`.
pub open spec fn members_spec(
    b: Seq<u8>,
    p: int,
    acc: Map<Seq<char>, JsonView>,
    fuel: nat,
) -> Result<(Map<Seq<char>, JsonView>, int), Seq<char>>
    decreases fuel,
{
    if fuel == 0 {
        Err("unexpected token"@)
    } else {
        let q = skip_ws_spec(b, p);
        match string_spec(b, q) {
            Err(x) => Err(x),
            Ok((k, r)) => {
                let s = skip_ws_spec(b, r);
                if !(0 <= s < b.len() && b[s] == 58) {
                    Err("expected ':'"@)
                } else {
                    match value_spec(b, s + 1, (fuel - 1) as nat) {
                        Err(x) => Err(x),
                        Ok((v, t)) => {
                            let m = acc.insert(k, v);
                            let u = skip_ws_spec(b, t);
                            if 0 <= u < b.len() && b[u] == 44 {
                                members_spec(b, u + 1, m, (fuel - 1) as nat)
                            } else if 0 <= u < b.len() && b[u] == 125 {
                                Ok((m, u + 1))
                            } else {
                                Err("expected ',' or '}'"@)
                            }
                        },
                    }
                }
            },
        }
    }
}

/// What reading the bytes `b` as one JSON value (with white space around
/// it) gives: the value, or the message of the first error.
pub open spec fn parse_spec(b: Seq<u8>) -> Result<JsonView, Seq<char>> {
    match value_spec(b, 0, (b.len() + 1) as nat) {
        Err(e) => Err(e),
        Ok((v, p)) => if skip_ws_spec(b, p) != b.len() {
            Err("trailing data"@)
        } else {
            Ok(v)
        },
    }
}

// ---------------------------------------------------------------------------
// The reader
// ---------------------------------------------------------------------------

#[verifier::rlimit(50)]
proof fn lemma_skip_ws(b: Seq<u8>, p: int)
    requires
        0 <= p <= b.len(),
    ensures
        p <= skip_ws_spec(b, p) <= b.len(),
    decreases b.len() - p,
{
    if p < b.len() && byte_is_ws(b[p]) {
        lemma_skip_ws(b, p + 1);
    }
}

#[verifier::rlimit(50)]
fn skip_ws(b: &[u8], p: usize) -> (r: usize)
    requires
        p <= b@.len(),
    ensures
        r == skip_ws_spec(b@, p as int),
        p <= r <= b@.len(),
{
    let mut i = p;
    while i < b.len() && (b[i] == 32 || b[i] == 9 || b[i] == 10 || b[i] == 12 || b[i] == 13)
        invariant
            p <= i <= b@.len(),
            skip_ws_spec(b@, i as int) == skip_ws_spec(b@, p as int),
        decreases b@.len() - i,
    {
        i += 1;
    }
    i
}

/// A string holding `s`.
#[verifier::rlimit(50)]
fn msg(s: &str) -> (r: String)
    ensures
        r@ == s@,
{
    s.to_owned()
}

/// `char::from_u32`: the character with code `code`, if there is one.
#[verifier::external_body]
fn char_from_u32(code: u32) -> (r: Option<char>)
    ensures
        match r {
            Some(c) => scalar_ok(code as nat) && c as nat == code as nat && c == (code as nat) as char,
            None => !scalar_ok(code as nat),
        },
{
    char::from_u32(code)
}

#[verifier::rlimit(50)]
fn hex_digit(c: u8) -> (r: Option<u32>)
    ensures
        match r {
            Some(d) => hex_val(c) >= 0 && d == hex_val(c),
            None => hex_val(c) < 0,
        },
{
    if 48 <= c && c <= 57 {
        Some((c - 48) as u32)
    } else if 97 <= c && c <= 102 {
        Some((c - 87) as u32)
    } else if 65 <= c && c <= 70 {
        Some((c - 55) as u32)
    } else {
        None
    }
}

#[verifier::rlimit(50)]
fn parse_hex4(b: &[u8], p: usize) -> (r: Result<u32, String>)
    requires
        p <= b@.len(),
    ensures
        match r {
            Ok(c) => hex_spec(b@, p as int, 0, 0) == Ok::<nat, Seq<char>>(c as nat) && p + 4
                <= b@.len() && c < 65536,
            Err(m) => hex_spec(b@, p as int, 0, 0) == Err::<nat, Seq<char>>(m@),
        },
{
    let mut code: u32 = 0;
    let mut k: usize = 0;
    while k < 4
        invariant
            k <= 4,
            p <= b@.len(),
            code < pow16(k as nat),
            p as int + k <= b@.len(),
            hex_spec(b@, p as int, 0, 0) == hex_spec(b@, p as int, k as nat, code as nat),
        decreases 4 - k,
    {
        if b.len() - p <= k {
            return Err(msg("short unicode escape"));
        }
        let d = match hex_digit(b[p + k]) {
            Some(d) => d,
            None => return Err(msg("invalid hex digit")),
        };
        proof {
            assert(pow16((k + 1) as nat) == 16 * pow16(k as nat));
            assert(code * 16 + d < 16 * pow16(k as nat)) by (nonlinear_arith)
                requires
                    code < pow16(k as nat),
                    d < 16,
            ;
            lemma_pow16_le(k as nat);
        }
        code = code * 16 + d;
        k += 1;
    }
    assert(pow16(4) == 65536) by {
        reveal_with_fuel(pow16, 5);
    }
    Ok(code)
}

#[verifier::rlimit(50)]
proof fn lemma_pow16_le(k: nat)
    requires
        k <= 3,
    ensures
        16 * pow16(k) <= 65536,
{
    reveal_with_fuel(pow16, 5);
}

#[verifier::rlimit(50)]
fn simple_escape_of(e: u8) -> (r: Option<char>)
    ensures
        r == simple_escape(e),
{
    if e == 34 {
        Some('"')
    } else if e == 92 {
        Some('\\')
    } else if e == 47 {
        Some('/')
    } else if e == 98 {
        Some('\x08')
    } else if e == 102 {
        Some('\x0c')
    } else if e == 110 {
        Some('\n')
    } else if e == 114 {
        Some('\r')
    } else if e == 116 {
        Some('\t')
    } else {
        None
    }
}

/// Reads a string at `p` (see [`string_spec`]).
#[verifier::rlimit(50)]
fn parse_string(b: &[u8], p: usize) -> (r: Result<(String, usize), String>)
    requires
        p <= b@.len(),
    ensures
        match r {
            Ok((s, e)) => string_spec(b@, p as int) == Ok::<(Seq<char>, int), Seq<char>>(
                (s@, e as int),
            ) && p < e <= b@.len(),
            Err(m) => string_spec(b@, p as int) == Err::<(Seq<char>, int), Seq<char>>(m@),
        },
{
    if p >= b.len() || b[p] != 34 {
        return Err(msg("expected '\"'"));
    }
    let mut out = String::new();
    let mut i: usize = p + 1;
    while i < b.len()
        invariant
            p < i <= b@.len(),
            string_spec(b@, p as int) == string_body(b@, i as int, out@),
        decreases b@.len() - i,
    {
        let c = b[i];
        if c == 34 {
            return Ok((out, i + 1));
        }
        if c == 92 {
            if i + 1 >= b.len() {
                return Err(msg("incomplete escape"));
            }
            let e = b[i + 1];
            match simple_escape_of(e) {
                Some(ch) => {
                    push_char(&mut out, ch);
                    i = i + 2;
                },
                None => {
                    if e != 117 {
                        return Err(msg("invalid escape"));
                    }
                    let code = match parse_hex4(b, i + 2) {
                        Ok(c) => c,
                        Err(m) => return Err(m),
                    };
                    match char_from_u32(code) {
                        Some(ch) => {
                            proof {
                                lemma_hex_in_bounds(b@, i + 2, 0, 0);
                            }
                            push_char(&mut out, ch);
                            i = i + 6;
                        },
                        None => return Err(msg("invalid unicode escape")),
                    }
                },
            }
        } else {
            push_char(&mut out, c as char);
            i = i + 1;
        }
    }
    Err(msg("unterminated string"))
}

/// Reads a number at `p` (see [`number_spec`]).
#[verifier::rlimit(50)]
fn parse_number(b: &[u8], p: usize) -> (r: Result<(i64, usize), String>)
    requires
        p <= b@.len(),
    ensures
        match r {
            Ok((n, e)) => number_spec(b@, p as int) == Ok::<(i64, int), Seq<char>>((n, e as int))
                && p <= e <= b@.len(),
            Err(m) => number_spec(b@, p as int) == Err::<(i64, int), Seq<char>>(m@),
        },
{
    let mut q = p;
    if q < b.len() && b[q] == 45 {
        q = q + 1;
    }
    let mut e = q;
    while e < b.len() && 48 <= b[e] && b[e] <= 57
        invariant
            q <= e <= b@.len(),
            digits_end(b@, e as int) == digits_end(b@, q as int),
        decreases b@.len() - e,
    {
        e = e + 1;
    }
    let mut cs: Vec<char> = Vec::new();
    let mut k = p;
    while k < e
        invariant
            p <= k <= e,
            e <= b@.len(),
            cs@ == bytes_chars(b@.subrange(p as int, k as int)),
        decreases e - k,
    {
        cs.push(b[k] as char);
        assert(bytes_chars(b@.subrange(p as int, k + 1)) =~= bytes_chars(
            b@.subrange(p as int, k as int),
        ).push(b@[k as int] as char));
        k = k + 1;
    }
    assert(cs@.subrange(0, cs@.len() as int) =~= cs@);
    match parse_i64_range(&cs, 0, cs.len()) {
        Some(n) => Ok((n, e)),
        None => Err(msg("invalid number")),
    }
}

/// Whether the bytes `lit` stand at `p`.
#[verifier::rlimit(50)]
fn lit_at_exec(b: &[u8], p: usize, lit: &[u8]) -> (r: bool)
    requires
        p <= b@.len(),
    ensures
        r == lit_at(b@, p as int, lit@),
{
    let n = b.len();
    if n - p < lit.len() {
        return false;
    }
    let mut k: usize = 0;
    while k < lit.len()
        invariant
            n == b@.len(),
            k <= lit@.len(),
            p + lit@.len() <= b@.len(),
            forall|j: int| 0 <= j < k ==> b@[p + j] == lit@[j],
        decreases lit@.len() - k,
    {
        if b[p + k] != lit[k] {
            assert(b@.subrange(p as int, p + lit@.len())[k as int] != lit@[k as int]);
            return false;
        }
        k = k + 1;
    }
    assert(b@.subrange(p as int, p + lit@.len()) =~= lit@);
    true
}

#[verifier::rlimit(50)]
proof fn lemma_members_view(es: Seq<(String, JsonValue)>, n: nat)
    requires
        n <= es.len(),
    ensures
        members_view(es, n) == es.map_values(|e: (String, JsonValue)| (e.0@, e.1@)).take(n as int),
    decreases n,
{
    let ps = es.map_values(|e: (String, JsonValue)| (e.0@, e.1@));
    if n == 0 {
        assert(ps.take(0) =~= Seq::<(Seq<char>, JsonView)>::empty());
    } else {
        lemma_members_view(es, (n - 1) as nat);
        assert(ps.take(n as int) =~= ps.take(n - 1).push(ps[n - 1]));
    }
}

/// A JSON object of the members in `m`.
#[verifier::rlimit(50)]
fn object_of(m: StrMap<JsonValue>) -> (r: JsonValue)
    requires
        m.wf(),
    ensures
        r@ == JsonView::Object(m@),
{
    let ghost ps = m.pairs();
    let es = m.into_entries();
    proof {
        lemma_members_view(es@, es@.len());
        assert(es@.map_values(|e: (String, JsonValue)| (e.0@, e.1@)).take(es@.len() as int) =~= ps);
        lemma_fold_sorted(ps);
    }
    JsonValue::Object(es)
}

/// The value of member `key` of an object's members `es` (the last one
/// with that key).
#[verifier::rlimit(50)]
pub fn get_member<'a>(es: &'a Vec<(String, JsonValue)>, key: &str) -> (r: Option<&'a JsonValue>)
    ensures
        match r {
            Some(v) => fold_pairs(members_view(es@, es@.len())).contains_key(key@) && v@ == fold_pairs(
                members_view(es@, es@.len()),
            )[key@],
            None => !fold_pairs(members_view(es@, es@.len())).contains_key(key@),
        },
{
    let mut found: Option<&'a JsonValue> = None;
    let mut i: usize = 0;
    while i < es.len()
        invariant
            i <= es@.len(),
            match found {
                Some(v) => fold_pairs(members_view(es@, i as nat)).contains_key(key@) && v@
                    == fold_pairs(members_view(es@, i as nat))[key@],
                None => !fold_pairs(members_view(es@, i as nat)).contains_key(key@),
            },
        decreases es@.len() - i,
    {
        proof {
            assert(members_view(es@, (i + 1) as nat).drop_last() == members_view(es@, i as nat));
        }
        if str_eq(es[i].0.as_str(), key) {
            found = Some(&es[i].1);
        }
        i += 1;
    }
    found
}

/// Reads a value at `p` (see [`value_spec`]).
#[verifier::rlimit(50)]
fn parse_value(b: &[u8], p: usize, Ghost(fuel): Ghost<nat>) -> (r: Result<(JsonValue, usize), String>)
    requires
        p <= b@.len(),
        fuel > b@.len() - p,
    ensures
        match r {
            Ok((v, e)) => value_spec(b@, p as int, fuel) == Ok::<(JsonView, int), Seq<char>>(
                (v@, e as int),
            ) && p < e <= b@.len(),
            Err(m) => value_spec(b@, p as int, fuel) == Err::<(JsonView, int), Seq<char>>(m@),
        },
    decreases b@.len() - p,
{
    let q = skip_ws(b, p);
    if q >= b.len() {
        return Err(msg("unexpected token"));
    }
    let c = b[q];
    if c == 123 {
        let r0 = skip_ws(b, q + 1);
        if r0 < b.len() && b[r0] == 125 {
            let m: StrMap<JsonValue> = StrMap::new();
            return Ok((object_of(m), r0 + 1));
        }
        let mut acc: StrMap<JsonValue> = StrMap::new();
        let mut cur: usize = r0;
        let ghost mut fm: nat = (fuel - 1) as nat;
        let ghost whole = value_spec(b@, p as int, fuel);
        assert(whole == match members_spec(b@, r0 as int, Map::empty(), (fuel - 1) as nat) {
            Ok((m, e)) => Ok::<(JsonView, int), Seq<char>>((JsonView::Object(m), e)),
            Err(x) => Err(x),
        });
        loop
            invariant
                p <= q < cur <= b@.len(),
                whole == value_spec(b@, p as int, fuel),
                whole == match members_spec(b@, r0 as int, Map::empty(), (fuel - 1) as nat) {
                    Ok((m, e)) => Ok::<(JsonView, int), Seq<char>>((JsonView::Object(m), e)),
                    Err(x) => Err(x),
                },
                acc.wf(),
                fm > b@.len() - cur,
                members_spec(b@, r0 as int, Map::empty(), (fuel - 1) as nat) == members_spec(
                    b@,
                    cur as int,
                    acc@,
                    fm,
                ),
            decreases b@.len() - cur,
        {
            let q2 = skip_ws(b, cur);
            let (k, r1) = match parse_string(b, q2) {
                Ok(x) => x,
                Err(m) => return Err(m),
            };
            let s = skip_ws(b, r1);
            if !(s < b.len() && b[s] == 58) {
                return Err(msg("expected ':'"));
            }
            let (v, t) = match parse_value(b, s + 1, Ghost((fm - 1) as nat)) {
                Ok(x) => x,
                Err(m) => return Err(m),
            };
            acc.insert(k, v);
            let u = skip_ws(b, t);
            if u < b.len() && b[u] == 44 {
                cur = u + 1;
                proof {
                    fm = (fm - 1) as nat;
                }
            } else if u < b.len() && b[u] == 125 {
                return Ok((object_of(acc), u + 1));
            } else {
                return Err(msg("expected ',' or '}'"));
            }
        }
    } else if c == 34 {
        return match parse_string(b, q) {
            Ok((s, e)) => Ok((JsonValue::String(s), e)),
            Err(m) => Err(m),
        };
    } else if c == 45 || (48 <= c && c <= 57) {
        return match parse_number(b, q) {
            Ok((n, e)) => Ok((JsonValue::Number(n), e)),
            Err(m) => Err(m),
        };
    } else if c == 116 {
        let lit: [u8; 4] = [116, 114, 117, 101];
        assert(lit@ =~= seq![116u8, 114, 117, 101]);
        if lit_at_exec(b, q, &lit) {
            return Ok((JsonValue::Bool(()), q + 4));
        }
    } else if c == 102 {
        let lit: [u8; 5] = [102, 97, 108, 115, 101];
        assert(lit@ =~= seq![102u8, 97, 108, 115, 101]);
        if lit_at_exec(b, q, &lit) {
            return Ok((JsonValue::Bool(()), q + 5));
        }
    } else if c == 110 {
        let lit: [u8; 4] = [110, 117, 108, 108];
        assert(lit@ =~= seq![110u8, 117, 108, 108]);
        if lit_at_exec(b, q, &lit) {
            return Ok((JsonValue::Null, q + 4));
        }
    }
    Err(msg("unexpected token"))
}

/// Reads the bytes of `input` as one JSON value with optional white space
/// around it (see [`parse_spec`]).
#[verifier::rlimit(50)]
pub fn parse(input: &str) -> (r: Result<JsonValue, String>)
    ensures
        match r {
            Ok(v) => parse_spec(encode_utf8(input@)) == Ok::<JsonView, Seq<char>>(v@),
            Err(m) => parse_spec(encode_utf8(input@)) == Err::<JsonView, Seq<char>>(m@),
        },
{
    let b = input.as_bytes();
    assert(input.spec_bytes() == encode_utf8(input@));
    let (v, p) = match parse_value(b, 0, Ghost((b@.len() + 1) as nat)) {
        Ok(x) => x,
        Err(m) => return Err(m),
    };
    let q = skip_ws(b, p);
    if q != b.len() {
        return Err(msg("trailing data"));
    }
    Ok(v)
}

// ---------------------------------------------------------------------------
// Writing
// ---------------------------------------------------------------------------

/// Lower-case hexadecimal digit `d`.
pub open spec fn hex_char(d: nat) -> char {
    "0123456789abcdef"@[d as int]
}

/// How one character is written inside a JSON string: `"`, `\`, line
/// feed, carriage return and tab by their escapes, other control
/// characters as `\u` and four lower-case hex digits, anything else as
/// itself.
pub open spec fn esc_char(c: char) -> Seq<char> {
    let u = c as u32;
    if c == '"' {
        seq!['\\', '"']
    } else if c == '\\' {
        seq!['\\', '\\']
    } else if c == '\n' {
        seq!['\\', 'n']
    } else if c == '\r' {
        seq!['\\', 'r']
    } else if c == '\t' {
        seq!['\\', 't']
    } else if is_ctrl(c) {
        seq![
            '\\',
            'u',
            hex_char(((u / 4096) % 16) as nat),
            hex_char(((u / 256) % 16) as nat),
            hex_char(((u / 16) % 16) as nat),
            hex_char((u % 16) as nat),
        ]
    } else {
        seq![c]
    }
}

/// A string escaped for JSON, without the quotes around it.
pub open spec fn escape_spec(s: Seq<char>) -> Seq<char>
    decreases s.len(),
{
    if s.len() == 0 {
        Seq::empty()
    } else {
        escape_spec(s.drop_last()) + esc_char(s.last())
    }
}

/// Escapes a string for JSON (see [`escape_spec`]).
#[verifier::rlimit(50)]
pub fn escape_string(s: &str) -> (r: String)
    ensures
        r@ == escape_spec(s@),
{
    let v = chars_of(s);
    let hex = chars_of("0123456789abcdef");
    proof {
        reveal_strlit("0123456789abcdef");
    }
    let mut out = String::new();
    let mut i: usize = 0;
    assert(v@.take(0) =~= Seq::<char>::empty());
    while i < v.len()
        invariant
            i <= v@.len(),
            v@ == s@,
            hex@ == "0123456789abcdef"@,
            hex@.len() == 16,
            out@ == escape_spec(v@.take(i as int)),
        decreases v@.len() - i,
    {
        let c = v[i];
        let ghost before = out@;
        if c == '"' {
            push_char(&mut out, '\\');
            push_char(&mut out, '"');
        } else if c == '\\' {
            push_char(&mut out, '\\');
            push_char(&mut out, '\\');
        } else if c == '\n' {
            push_char(&mut out, '\\');
            push_char(&mut out, 'n');
        } else if c == '\r' {
            push_char(&mut out, '\\');
            push_char(&mut out, 'r');
        } else if c == '\t' {
            push_char(&mut out, '\\');
            push_char(&mut out, 't');
        } else if char_is_control(c) {
            let u = c as u32;
            push_char(&mut out, '\\');
            push_char(&mut out, 'u');
            push_char(&mut out, hex[((u / 4096) % 16) as usize]);
            push_char(&mut out, hex[((u / 256) % 16) as usize]);
            push_char(&mut out, hex[((u / 16) % 16) as usize]);
            push_char(&mut out, hex[(u % 16) as usize]);
            proof {
                assert(is_ctrl(c));
                assert(out@ =~= before + esc_char(c));
            }
        } else {
            push_char(&mut out, c);
        }
        proof {
            assert(v@.take(i + 1).drop_last() =~= v@.take(i as int));
            assert(out@ =~= before + esc_char(c));
        }
        i += 1;
    }
    assert(v@.take(v@.len() as int) =~= v@);
    out
}

/// `"s"`, escaped.
pub open spec fn quoted(s: Seq<char>) -> Seq<char> {
    seq!['"'] + escape_spec(s) + seq!['"']
}

/// The attribute members, each `"key":"value"`, joined by `,`.
pub open spec fn compact_attrs(ps: Seq<(Seq<char>, Seq<char>)>) -> Seq<char>
    decreases ps.len(),
{
    if ps.len() == 0 {
        Seq::empty()
    } else if ps.len() == 1 {
        quoted(ps[0].0) + seq![':'] + quoted(ps[0].1)
    } else {
        compact_attrs(ps.drop_last()) + seq![','] + quoted(ps.last().0) + seq![':'] + quoted(
            ps.last().1,
        )
    }
}

/// The attribute members, each `    "key": "value"`, joined by `,` and a
/// line feed.
pub open spec fn pretty_attrs(ps: Seq<(Seq<char>, Seq<char>)>) -> Seq<char>
    decreases ps.len(),
{
    if ps.len() == 0 {
        Seq::empty()
    } else if ps.len() == 1 {
        "    "@ + quoted(ps[0].0) + ": "@ + quoted(ps[0].1)
    } else {
        pretty_attrs(ps.drop_last()) + ",\n"@ + "    "@ + quoted(ps.last().0) + ": "@ + quoted(
            ps.last().1,
        )
    }
}

/// An entry as one line of JSON: `id`, `ts` and `size`, then `preview`
/// when it is not empty and `meta` (the attributes in key order) when
/// there are any.
pub open spec fn compact_spec(m: Meta) -> Seq<char> {
    "{"@ + "\"id\":"@ + quoted(m.id@) + ",\"ts\":"@ + quoted(m.ts@) + ",\"size\":"@ + dec_int(
        m.size as int,
    ) + (if m.preview@.len() > 0 {
        ",\"preview\":"@ + quoted(m.preview@)
    } else {
        Seq::empty()
    }) + (if m.attrs.pairs().len() > 0 {
        ",\"meta\":{"@ + compact_attrs(m.attrs.pairs()) + "}"@
    } else {
        Seq::empty()
    }) + "}"@
}

/// An entry as indented JSON, one member per line, ending with a line
/// feed (the members as in [`compact_spec`]).
pub open spec fn pretty_spec(m: Meta) -> Seq<char> {
    "{\n"@ + "  \"id\": "@ + quoted(m.id@) + ",\n"@ + "  \"ts\": "@ + quoted(m.ts@) + ",\n"@
        + "  \"size\": "@ + dec_int(m.size as int) + (if m.preview@.len() > 0 {
        ",\n  \"preview\": "@ + quoted(m.preview@)
    } else {
        Seq::empty()
    }) + (if m.attrs.pairs().len() > 0 {
        ",\n  \"meta\": {\n"@ + pretty_attrs(m.attrs.pairs()) + "\n  }"@
    } else {
        Seq::empty()
    }) + "\n}\n"@
}

/// A string escaped for a JSON string literal (see [`escape_string`]).
#[verifier::rlimit(50)]
pub fn escape_json(s: &str) -> (r: String)
    ensures
        r@ == escape_spec(s@),
{
    escape_string(s)
}

/// Appends `"s"`, escaped.
#[verifier::rlimit(50)]
fn push_quoted(out: &mut String, s: &str)
    ensures
        final(out)@ == old(out)@ + quoted(s@),
{
    push_char(out, '"');
    let e = escape_string(s);
    push_str(out, e.as_str());
    push_char(out, '"');
    assert(final(out)@ =~= old(out)@ + quoted(s@));
}

/// String values as JSON strings.
pub open spec fn string_values(a: Map<Seq<char>, Seq<char>>) -> Map<Seq<char>, JsonView> {
    Map::new(|k: Seq<char>| a.contains_key(k), |k: Seq<char>| JsonView::String(a[k]))
}

/// The members of an entry's JSON object: `id`, `ts` and `size`, then each
/// attribute (an attribute of the same name replaces a field), then the
/// preview when it is asked for and not empty.
pub open spec fn meta_object_spec(m: MetaView, include_preview: bool) -> Map<Seq<char>, JsonView> {
    let base = Map::<Seq<char>, JsonView>::empty().insert("id"@, JsonView::String(m.id)).insert(
        "ts"@,
        JsonView::String(m.ts),
    ).insert("size"@, JsonView::Number(m.size));
    let with_attrs = base.union_prefer_right(string_values(m.attrs));
    if include_preview && m.preview.len() > 0 {
        with_attrs.insert("preview"@, JsonView::String(m.preview))
    } else {
        with_attrs
    }
}

impl Meta {
    /// The entry as one JSON object (see [`meta_object_spec`]).
    #[verifier::rlimit(50)]
    pub fn to_json_value(&self, include_preview: bool) -> (r: JsonValue)
        requires
            self.wf(),
        ensures
            r@ == JsonView::Object(meta_object_spec(self@, include_preview)),
    {
        proof {
            reveal_strlit("id");
            reveal_strlit("ts");
            reveal_strlit("size");
            reveal_strlit("preview");
        }
        let mut obj: StrMap<JsonValue> = StrMap::new();
        obj.insert("id".to_owned(), JsonValue::String(self.id.clone()));
        obj.insert("ts".to_owned(), JsonValue::String(self.ts.clone()));
        obj.insert("size".to_owned(), JsonValue::Number(self.size));
        let ghost base = obj@;
        let ghost ps = self.attrs.pairs();
        let n = self.attrs.len();
        let mut i: usize = 0;
        assert(ps.take(0) =~= Seq::<(Seq<char>, Seq<char>)>::empty());
        assert(string_values(pairs_map(ps.take(0))) =~= Map::<Seq<char>, JsonView>::empty());
        assert(base.union_prefer_right(Map::<Seq<char>, JsonView>::empty()) =~= base);
        while i < n
            invariant
                i <= n,
                n == ps.len(),
                ps == self.attrs.pairs(),
                self.attrs.wf(),
                obj.wf(),
                obj@ == base.union_prefer_right(string_values(pairs_map(ps.take(i as int)))),
            decreases n - i,
        {
            let k = self.attrs.key_at(i).clone();
            let v = self.attrs.value_at(i).clone();
            proof {
                let q = ps.take(i as int);
                assert forall|x: int, y: int| 0 <= x < y < q.len() implies lex_lt(
                    #[trigger] q[x].0,
                    #[trigger] q[y].0,
                ) by {
                    assert(q[x] == ps[x] && q[y] == ps[y]);
                }
                assert forall|j: int| 0 <= j < q.len() implies lex_lt(#[trigger] q[j].0, ps[i as int].0) by {
                    assert(q[j] == ps[j]);
                }
                lemma_pairs_map_push_sorted(q, ps[i as int].0, ps[i as int].1);
                assert(ps.take(i + 1) =~= q.push((ps[i as int].0, ps[i as int].1)));
                assert(string_values(pairs_map(q).insert(k@, v@)) =~= string_values(pairs_map(q)).insert(
                    k@,
                    JsonView::String(v@),
                ));
                assert(base.union_prefer_right(string_values(pairs_map(q)).insert(k@, JsonView::String(v@)))
                    =~= base.union_prefer_right(string_values(pairs_map(q))).insert(k@, JsonView::String(v@)));
            }
            obj.insert(k, JsonValue::String(v));
            i += 1;
        }
        proof {
            assert(ps.take(n as int) =~= ps);
        }
        if include_preview && !self.preview.as_str().is_empty() {
            obj.insert("preview".to_owned(), JsonValue::String(self.preview.clone()));
        }
        object_of(obj)
    }

    /// The entry as one line of JSON (see [`compact_spec`]).
    #[verifier::rlimit(50)]
    pub fn to_json_compact(&self) -> (r: String)
        requires
            self.wf(),
        ensures
            r@ == compact_spec(*self),
    {
        proof {
            reveal_strlit("{");
            reveal_strlit("}");
            reveal_strlit("\"id\":");
            reveal_strlit(",\"ts\":");
            reveal_strlit(",\"size\":");
            reveal_strlit(",\"preview\":");
            reveal_strlit(",\"meta\":{");
        }
        let mut out = String::new();
        push_str(&mut out, "{");
        push_str(&mut out, "\"id\":");
        push_quoted(&mut out, self.id.as_str());
        push_str(&mut out, ",\"ts\":");
        push_quoted(&mut out, self.ts.as_str());
        push_str(&mut out, ",\"size\":");
        let n = i64_to_dec(self.size);
        push_str(&mut out, n.as_str());
        let ghost head = out@;
        if !self.preview.as_str().is_empty() {
            push_str(&mut out, ",\"preview\":");
            push_quoted(&mut out, self.preview.as_str());
        }
        let ghost mid = out@;
        let ps = &self.attrs;
        let len = ps.len();
        if len > 0 {
            push_str(&mut out, ",\"meta\":{");
            let ghost start = out@;
            let mut i: usize = 0;
            while i < len
                invariant
                    i <= len,
                    len == ps.pairs().len(),
                    ps.wf(),
                    out@ == start + compact_attrs(ps.pairs().take(i as int)),
                decreases len - i,
            {
                proof {
                    ps.lemma_values();
                }
                let ghost before = out@;
                if i > 0 {
                    push_char(&mut out, ',');
                }
                push_quoted(&mut out, ps.key_at(i).as_str());
                push_char(&mut out, ':');
                push_quoted(&mut out, ps.value_at(i).as_str());
                proof {
                    let t = ps.pairs().take(i + 1);
                    assert(t.drop_last() =~= ps.pairs().take(i as int));
                    if i == 0 {
                        assert(ps.pairs().take(0) =~= Seq::<(Seq<char>, Seq<char>)>::empty());
                    }
                    assert(out@ =~= start + compact_attrs(t));
                }
                i += 1;
            }
            assert(ps.pairs().take(len as int) =~= ps.pairs());
            push_str(&mut out, "}");
        }
        push_str(&mut out, "}");
        assert(out@ =~= compact_spec(*self));
        out
    }

    /// The entry as indented JSON (see [`pretty_spec`]).
    #[verifier::rlimit(50)]
    pub fn to_json_pretty(&self) -> (r: String)
        requires
            self.wf(),
        ensures
            r@ == pretty_spec(*self),
    {
        proof {
            reveal_strlit("{\n");
            reveal_strlit("  \"id\": ");
            reveal_strlit(",\n");
            reveal_strlit("  \"ts\": ");
            reveal_strlit("  \"size\": ");
            reveal_strlit(",\n  \"preview\": ");
            reveal_strlit(",\n  \"meta\": {\n");
            reveal_strlit("    ");
            reveal_strlit(": ");
            reveal_strlit("\n  }");
            reveal_strlit("\n}\n");
        }
        let mut out = String::new();
        push_str(&mut out, "{\n");
        push_str(&mut out, "  \"id\": ");
        push_quoted(&mut out, self.id.as_str());
        push_str(&mut out, ",\n");
        push_str(&mut out, "  \"ts\": ");
        push_quoted(&mut out, self.ts.as_str());
        push_str(&mut out, ",\n");
        push_str(&mut out, "  \"size\": ");
        let n = i64_to_dec(self.size);
        push_str(&mut out, n.as_str());
        if !self.preview.as_str().is_empty() {
            push_str(&mut out, ",\n  \"preview\": ");
            push_quoted(&mut out, self.preview.as_str());
        }
        let ps = &self.attrs;
        let len = ps.len();
        if len > 0 {
            push_str(&mut out, ",\n  \"meta\": {\n");
            let ghost start = out@;
            let mut i: usize = 0;
            while i < len
                invariant
                    i <= len,
                    len == ps.pairs().len(),
                    ps.wf(),
                    out@ == start + pretty_attrs(ps.pairs().take(i as int)),
                decreases len - i,
            {
                proof {
                    ps.lemma_values();
                }
                if i > 0 {
                    push_str(&mut out, ",\n");
                }
                push_str(&mut out, "    ");
                push_quoted(&mut out, ps.key_at(i).as_str());
                push_str(&mut out, ": ");
                push_quoted(&mut out, ps.value_at(i).as_str());
                proof {
                    let t = ps.pairs().take(i + 1);
                    assert(t.drop_last() =~= ps.pairs().take(i as int));
                    if i == 0 {
                        assert(ps.pairs().take(0) =~= Seq::<(Seq<char>, Seq<char>)>::empty());
                    }
                    assert(out@ =~= start + pretty_attrs(t));
                }
                i += 1;
            }
            assert(ps.pairs().take(len as int) =~= ps.pairs());
            push_str(&mut out, "\n  }");
        }
        push_str(&mut out, "\n}\n");
        assert(out@ =~= pretty_spec(*self));
        out
    }
}

// ---------------------------------------------------------------------------
// Reading an entry
// ---------------------------------------------------------------------------

/// The string member `key` of an object, if it is one.
pub open spec fn str_field(obj: Map<Seq<char>, JsonView>, key: Seq<char>) -> Option<Seq<char>> {
    if obj.contains_key(key) {
        match obj[key] {
            JsonView::String(s) => Some(s),
            _ => None,
        }
    } else {
        None
    }
}

/// The number member `key` of an object, if it is one.
pub open spec fn num_field(obj: Map<Seq<char>, JsonView>, key: Seq<char>) -> Option<i64> {
    if obj.contains_key(key) {
        match obj[key] {
            JsonView::Number(n) => Some(n),
            _ => None,
        }
    } else {
        None
    }
}

/// Every member of an object is a string.
pub open spec fn all_strings(mo: Map<Seq<char>, JsonView>) -> bool {
    forall|k: Seq<char>| #[trigger] mo.contains_key(k) ==> mo[k] is String
}

/// The strings of an object whose members are all strings.
pub open spec fn string_map(mo: Map<Seq<char>, JsonView>) -> Map<Seq<char>, Seq<char>> {
    Map::new(|k: Seq<char>| mo.contains_key(k), |k: Seq<char>| mo[k]->String_0)
}

/// The attributes of an entry: the `meta` member, an object of strings;
/// none when it is missing or `null`.
pub open spec fn attrs_field(obj: Map<Seq<char>, JsonView>) -> Result<
    Map<Seq<char>, Seq<char>>,
    Seq<char>,
> {
    if !obj.contains_key("meta"@) {
        Ok(Map::empty())
    } else {
        match obj["meta"@] {
            JsonView::Object(mo) => if all_strings(mo) {
                Ok(string_map(mo))
            } else {
                Err("meta values must be strings"@)
            },
            JsonView::Null => Ok(Map::empty()),
            _ => Err("meta must be an object"@),
        }
    }
}

/// The entry that a `meta.json` text describes: an object with string
/// members `id` and `ts`, a number `size`, an optional string `preview`
/// and optional attributes (see [`attrs_field`]); or the first problem.
pub open spec fn meta_json_spec(input: Seq<char>) -> Result<MetaView, Seq<char>> {
    match parse_spec(encode_utf8(input)) {
        Err(e) => Err(e),
        Ok(root) => match root {
            JsonView::Object(obj) => match str_field(obj, "id"@) {
                None => Err("missing string field id"@),
                Some(id) => match str_field(obj, "ts"@) {
                    None => Err("missing string field ts"@),
                    Some(ts) => match num_field(obj, "size"@) {
                        None => Err("missing numeric field size"@),
                        Some(size) => match attrs_field(obj) {
                            Err(e) => Err(e),
                            Ok(attrs) => Ok(
                                MetaView {
                                    id,
                                    ts,
                                    size,
                                    preview: match str_field(obj, "preview"@) {
                                        Some(p) => p,
                                        None => Seq::empty(),
                                    },
                                    attrs,
                                },
                            ),
                        },
                    },
                },
            },
            _ => Err("meta.json root must be an object"@),
        },
    }
}

/// The keys of the fold are the keys of the pairs.
#[verifier::rlimit(50)]
pub proof fn lemma_fold_keys<W>(ps: Seq<(Seq<char>, W)>, k: Seq<char>)
    ensures
        fold_pairs(ps).contains_key(k) <==> exists|j: int| 0 <= j < ps.len() && #[trigger] ps[j].0 == k,
    decreases ps.len(),
{
    if ps.len() > 0 {
        let q = ps.drop_last();
        lemma_fold_keys(q, k);
        if fold_pairs(ps).contains_key(k) && k != ps.last().0 {
            let j = choose|j: int| 0 <= j < q.len() && #[trigger] q[j].0 == k;
            assert(ps[j].0 == k);
        }
        if exists|j: int| 0 <= j < ps.len() && #[trigger] ps[j].0 == k {
            let j = choose|j: int| 0 <= j < ps.len() && #[trigger] ps[j].0 == k;
            if j < ps.len() - 1 {
                assert(q[j].0 == k);
            }
        }
    }
}

/// The string member `key` of an object, if it is one.
#[verifier::rlimit(50)]
pub fn get_optional_string(es: &Vec<(String, JsonValue)>, key: &str) -> (r: Option<String>)
    ensures
        match r {
            Some(s) => str_field(fold_pairs(members_view(es@, es@.len())), key@) == Some(s@),
            None => str_field(fold_pairs(members_view(es@, es@.len())), key@) is None,
        },
{
    match get_member(es, key) {
        Some(JsonValue::String(s)) => Some(s.clone()),
        _ => None,
    }
}

/// The string member `key` of an object; `missing string field KEY` when
/// there is none or it is not a string.
#[verifier::rlimit(50)]
pub fn get_string(es: &Vec<(String, JsonValue)>, key: &str) -> (r: Result<String, String>)
    ensures
        match r {
            Ok(s) => str_field(fold_pairs(members_view(es@, es@.len())), key@) == Some(s@),
            Err(e) => str_field(fold_pairs(members_view(es@, es@.len())), key@) is None && e@
                == "missing string field "@ + key@,
        },
{
    match get_optional_string(es, key) {
        Some(s) => Ok(s),
        None => {
            let mut e = msg("missing string field ");
            push_str(&mut e, key);
            Err(e)
        },
    }
}

/// The numeric member `key` of an object; `missing numeric field KEY` when
/// there is none or it is not a number.
#[verifier::rlimit(50)]
pub fn get_number(es: &Vec<(String, JsonValue)>, key: &str) -> (r: Result<i64, String>)
    ensures
        match r {
            Ok(n) => num_field(fold_pairs(members_view(es@, es@.len())), key@) == Some(n),
            Err(e) => num_field(fold_pairs(members_view(es@, es@.len())), key@) is None && e@
                == "missing numeric field "@ + key@,
        },
{
    match get_member(es, key) {
        Some(JsonValue::Number(n)) => Ok(*n),
        _ => {
            let mut e = msg("missing numeric field ");
            push_str(&mut e, key);
            Err(e)
        },
    }
}

/// The attributes of an object whose members are all strings (see
/// [`attrs_field`]).
#[verifier::rlimit(50)]
fn string_members(es: &Vec<(String, JsonValue)>) -> (r: Result<StrMap<String>, String>)
    ensures
        match r {
            Ok(m) => m.wf() && all_strings(fold_pairs(members_view(es@, es@.len()))) && m@
                == string_map(fold_pairs(members_view(es@, es@.len()))),
            Err(e) => !all_strings(fold_pairs(members_view(es@, es@.len())))
                && e@ == "meta values must be strings"@,
        },
{
    let ghost ps = members_view(es@, es@.len());
    let ghost mo = fold_pairs(ps);
    let mut out: StrMap<String> = StrMap::new();
    let mut i: usize = 0;
    while i < es.len()
        invariant
            i <= es@.len(),
            ps == members_view(es@, es@.len()),
            mo == fold_pairs(ps),
            out.wf(),
            forall|k: Seq<char>|
                #[trigger] out@.contains_key(k) <==> exists|j: int| 0 <= j < i && #[trigger] ps[j].0 == k,
            forall|k: Seq<char>|
                #[trigger] out@.contains_key(k) ==> mo.contains_key(k) && mo[k] is String && out@[k]
                    == mo[k]->String_0,
        decreases es@.len() - i,
    {
        proof {
            lemma_members_view(es@, es@.len());
        }
        let key = es[i].0.as_str();
        proof {
            assert(ps[i as int].0 == key@);
            lemma_fold_keys(ps, key@);
        }
        match get_member(es, key) {
            Some(JsonValue::String(s)) => {
                let ghost before = out@;
                out.insert(es[i].0.clone(), s.clone());
                proof {
                    assert forall|k: Seq<char>| #[trigger] out@.contains_key(k) implies exists|j: int|
                        0 <= j < i + 1 && #[trigger] ps[j].0 == k by {
                        if k != key@ {
                            assert(before.contains_key(k));
                        }
                    }
                    assert forall|k: Seq<char>|
                        (exists|j: int| 0 <= j < i + 1 && #[trigger] ps[j].0 == k) implies out@.contains_key(
                        k,
                    ) by {
                        let j = choose|j: int| 0 <= j < i + 1 && #[trigger] ps[j].0 == k;
                        if j < i {
                            assert(before.contains_key(k));
                        }
                    }
                }
            },
            _ => {
                proof {
                    assert(mo.contains_key(key@));
                }
                return Err(msg("meta values must be strings"));
            },
        }
        i += 1;
    }
    proof {
        lemma_members_view(es@, es@.len());
        assert forall|k: Seq<char>| #[trigger] mo.contains_key(k) implies mo[k] is String by {
            lemma_fold_keys(ps, k);
            let j = choose|j: int| 0 <= j < ps.len() && #[trigger] ps[j].0 == k;
            assert(out@.contains_key(k));
        }
        assert forall|k: Seq<char>| #[trigger] mo.contains_key(k) implies out@.contains_key(k) by {
            lemma_fold_keys(ps, k);
            let j = choose|j: int| 0 <= j < ps.len() && #[trigger] ps[j].0 == k;
        }
        assert(out@ =~= string_map(mo));
    }
    Ok(out)
}

impl Meta {
    /// Reads an entry from the text of its `meta.json` (see
    /// [`meta_json_spec`]).
    #[verifier::rlimit(50)]
    pub fn from_json_str(input: &str) -> (r: Result<Meta, String>)
        ensures
            match r {
                Ok(m) => m.wf() && meta_json_spec(input@) == Ok::<MetaView, Seq<char>>(m@),
                Err(e) => meta_json_spec(input@) == Err::<MetaView, Seq<char>>(e@),
            },
    {
        proof {
            reveal_strlit("id");
            reveal_strlit("ts");
            reveal_strlit("size");
            reveal_strlit("preview");
            reveal_strlit("meta");
        }
        let root = match parse(input) {
            Ok(v) => v,
            Err(e) => return Err(e),
        };
        let es = match &root {
            JsonValue::Object(es) => es,
            _ => return Err(msg("meta.json root must be an object")),
        };
        proof {
            reveal_strlit("missing string field ");
            reveal_strlit("missing string field id");
            reveal_strlit("missing string field ts");
            reveal_strlit("missing numeric field ");
            reveal_strlit("missing numeric field size");
        }
        let id = match get_string(es, "id") {
            Ok(s) => s,
            Err(e) => {
                assert(e@ =~= "missing string field id"@);
                return Err(e);
            },
        };
        let ts = match get_string(es, "ts") {
            Ok(s) => s,
            Err(e) => {
                assert(e@ =~= "missing string field ts"@);
                return Err(e);
            },
        };
        let size: i64 = match get_number(es, "size") {
            Ok(n) => n,
            Err(e) => {
                assert(e@ =~= "missing numeric field size"@);
                return Err(e);
            },
        };
        let preview = match get_optional_string(es, "preview") {
            Some(s) => s,
            None => String::new(),
        };
        let attrs: StrMap<String> = match get_member(es, "meta") {
            Some(JsonValue::Object(mo)) => match string_members(mo) {
                Ok(m) => m,
                Err(e) => return Err(e),
            },
            Some(JsonValue::Null) => StrMap::new(),
            None => StrMap::new(),
            _ => return Err(msg("meta must be an object")),
        };
        let m = Meta { id, ts, size, preview, attrs };
        assert(m@.attrs == m.attrs@);
        Ok(m)
    }
}

// ---------------------------------------------------------------------------
// Reading back what was written
// ---------------------------------------------------------------------------

/// A string that reads back as itself: each character is ASCII or a
/// control character (the reader takes the bytes of any other character
/// one by one).
pub open spec fn json_safe(s: Seq<char>) -> bool {
    forall|i: int| 0 <= i < s.len() ==> (#[trigger] s[i] as u32) < 128 || is_ctrl(s[i])
}

/// ASCII characters as bytes.
pub open spec fn ascii_bytes(s: Seq<char>) -> Seq<u8> {
    s.map_values(|c: char| c as u8)
}

/// The ASCII text `s` stands in `b` at `p`.
#[verifier::opaque]
pub open spec fn text_at(b: Seq<u8>, p: int, s: Seq<char>) -> bool {
    0 <= p && p + s.len() <= b.len() && b.subrange(p, p + s.len()) == ascii_bytes(s)
}

#[verifier::rlimit(50)]
proof fn lemma_text_at_split(b: Seq<u8>, p: int, x: Seq<char>, y: Seq<char>)
    requires
        text_at(b, p, x + y),
    ensures
        text_at(b, p, x),
        text_at(b, p + x.len(), y),
{
    reveal(text_at);
    let xy = x + y;
    assert(b.subrange(p, p + x.len()) =~= ascii_bytes(xy).subrange(0, x.len() as int));
    assert(ascii_bytes(xy).subrange(0, x.len() as int) =~= ascii_bytes(x));
    assert(b.subrange(p + x.len(), p + xy.len()) =~= ascii_bytes(xy).subrange(
        x.len() as int,
        xy.len() as int,
    ));
    assert(ascii_bytes(xy).subrange(x.len() as int, xy.len() as int) =~= ascii_bytes(y));
}

#[verifier::rlimit(50)]
proof fn lemma_text_at_bounds(b: Seq<u8>, p: int, s: Seq<char>)
    requires
        text_at(b, p, s),
    ensures
        0 <= p,
        p + s.len() <= b.len(),
{
    reveal(text_at);
}

#[verifier::rlimit(50)]
proof fn lemma_text_at_byte(b: Seq<u8>, p: int, s: Seq<char>, i: int)
    requires
        text_at(b, p, s),
        0 <= i < s.len(),
    ensures
        b[p + i] == s[i] as u8,
        0 <= p + i < b.len(),
{
    reveal(text_at);
    assert(b.subrange(p, p + s.len())[i] == b[p + i]);
}

#[verifier::rlimit(50)]
proof fn lemma_escape_front(s: Seq<char>)
    requires
        s.len() > 0,
    ensures
        escape_spec(s) == esc_char(s[0]) + escape_spec(s.drop_first()),
    decreases s.len(),
{
    if s.len() > 1 {
        lemma_escape_front(s.drop_last());
        assert(s.drop_last().drop_first() =~= s.drop_first().drop_last());
        assert(s.drop_first().last() == s.last());
    } else {
        assert(s.drop_last() =~= Seq::<char>::empty());
        assert(s.drop_first() =~= Seq::<char>::empty());
    }
}

#[verifier::rlimit(50)]
proof fn lemma_hex_char_val(d: nat)
    requires
        d < 16,
    ensures
        hex_val(hex_char(d) as u8) == d,
        (hex_char(d) as u32) < 128,
{
    reveal_strlit("0123456789abcdef");
}

#[verifier::rlimit(50)]
proof fn lemma_hex4_of(b: Seq<u8>, p: int, u: u32)
    requires
        u <= 0x9f,
        0 <= p,
        p + 4 <= b.len(),
        b[p] == hex_char(((u / 4096) % 16) as nat) as u8,
        b[p + 1] == hex_char(((u / 256) % 16) as nat) as u8,
        b[p + 2] == hex_char(((u / 16) % 16) as nat) as u8,
        b[p + 3] == hex_char((u % 16) as nat) as u8,
    ensures
        hex_spec(b, p, 0, 0) == Ok::<nat, Seq<char>>(u as nat),
{
    let d0 = ((u / 4096) % 16) as nat;
    let d1 = ((u / 256) % 16) as nat;
    let d2 = ((u / 16) % 16) as nat;
    let d3 = (u % 16) as nat;
    lemma_hex_char_val(d0);
    lemma_hex_char_val(d1);
    lemma_hex_char_val(d2);
    lemma_hex_char_val(d3);
    assert(((d0 * 16 + d1) * 16 + d2) * 16 + d3 == u) by (nonlinear_arith)
        requires
            d0 == (u / 4096) % 16,
            d1 == (u / 256) % 16,
            d2 == (u / 16) % 16,
            d3 == u % 16,
            u <= 0x9f,
    ;
    assert(hex_spec(b, p, 4, ((d0 * 16 + d1) * 16 + d2) * 16 + d3) == Ok::<nat, Seq<char>>(
        u as nat,
    ));
    assert(hex_spec(b, p, 3, (d0 * 16 + d1) * 16 + d2) == hex_spec(
        b,
        p,
        4,
        ((d0 * 16 + d1) * 16 + d2) * 16 + d3,
    ));
    assert(hex_spec(b, p, 2, d0 * 16 + d1) == hex_spec(b, p, 3, (d0 * 16 + d1) * 16 + d2));
    assert(hex_spec(b, p, 1, d0) == hex_spec(b, p, 2, d0 * 16 + d1));
    assert(hex_spec(b, p, 0, 0) == hex_spec(b, p, 1, 0 * 16 + d0));
}

/// One escaped character reads back as itself.
#[verifier::rlimit(50)]
proof fn lemma_string_step(b: Seq<u8>, p: int, acc: Seq<char>, c: char)
    requires
        (c as u32) < 128 || is_ctrl(c),
        text_at(b, p, esc_char(c)),
    ensures
        string_body(b, p, acc) == string_body(b, p + esc_char(c).len(), acc.push(c)),
{
    let e = esc_char(c);
    let u = c as u32;
    lemma_text_at_byte(b, p, e, 0);
    if c == '"' || c == '\\' || c == '\n' || c == '\r' || c == '\t' {
        lemma_text_at_byte(b, p, e, 1);
    } else if is_ctrl(c) {
        lemma_text_at_byte(b, p, e, 1);
        lemma_text_at_byte(b, p, e, 2);
        lemma_text_at_byte(b, p, e, 3);
        lemma_text_at_byte(b, p, e, 4);
        lemma_text_at_byte(b, p, e, 5);
        lemma_hex_char_val(((u / 4096) % 16) as nat);
        lemma_hex_char_val(((u / 256) % 16) as nat);
        lemma_hex_char_val(((u / 16) % 16) as nat);
        lemma_hex_char_val((u % 16) as nat);
        lemma_hex4_of(b, p + 2, u);
        assert(scalar_ok(u as nat));
        assert((u as nat) as char == c);
    } else {
        assert((c as u8) as char == c);
    }
}

/// Reading the escaped text of a safe string and a closing quote gives the
/// string back.
#[verifier::rlimit(50)]
proof fn lemma_string_body_escaped(b: Seq<u8>, p: int, acc: Seq<char>, s: Seq<char>)
    requires
        json_safe(s),
        text_at(b, p, escape_spec(s) + seq!['"']),
    ensures
        string_body(b, p, acc) == Ok::<(Seq<char>, int), Seq<char>>(
            (acc + s, p + escape_spec(s).len() + 1),
        ),
    decreases s.len(),
{
    if s.len() == 0 {
        assert(escape_spec(s) =~= Seq::<char>::empty());
        lemma_text_at_byte(b, p, escape_spec(s) + seq!['"'], 0);
        assert(acc + s =~= acc);
    } else {
        let c = s[0];
        let e = esc_char(c);
        let rest = s.drop_first();
        lemma_escape_front(s);
        assert(escape_spec(s) + seq!['"'] =~= e + (escape_spec(rest) + seq!['"']));
        lemma_text_at_split(b, p, e, escape_spec(rest) + seq!['"']);
        assert(json_safe(rest)) by {
            assert forall|i: int| 0 <= i < rest.len() implies (#[trigger] rest[i] as u32) < 128
                || is_ctrl(rest[i]) by {
                assert(rest[i] == s[i + 1]);
            }
        }
        assert((c as u32) < 128 || is_ctrl(c));
        lemma_string_step(b, p, acc, c);
        lemma_string_body_escaped(b, p + e.len(), acc.push(c), rest);
        assert(acc.push(c) + rest =~= acc + s);
    }
}

#[verifier::rlimit(50)]
proof fn lemma_skip_ws_none(b: Seq<u8>, p: int)
    requires
        0 <= p < b.len(),
        !byte_is_ws(b[p]),
    ensures
        skip_ws_spec(b, p) == p,
{
}

#[verifier::rlimit(50)]
proof fn lemma_safe_escape_len(s: Seq<char>)
    ensures
        escape_spec(s).len() >= s.len(),
    decreases s.len(),
{
    if s.len() > 0 {
        lemma_safe_escape_len(s.drop_last());
    }
}

/// A quoted safe string reads back as itself.
#[verifier::rlimit(50)]
proof fn lemma_string_quoted(b: Seq<u8>, p: int, s: Seq<char>)
    requires
        json_safe(s),
        text_at(b, p, quoted(s)),
    ensures
        string_spec(b, p) == Ok::<(Seq<char>, int), Seq<char>>((s, p + quoted(s).len())),
{
    let q = quoted(s);
    assert(q =~= seq!['"'] + (escape_spec(s) + seq!['"']));
    lemma_text_at_split(b, p, seq!['"'], escape_spec(s) + seq!['"']);
    lemma_text_at_byte(b, p, seq!['"'], 0);
    lemma_string_body_escaped(b, p + 1, Seq::empty(), s);
    assert(Seq::<char>::empty() + s =~= s);
}

/// A quoted safe string is read as a string value.
#[verifier::rlimit(50)]
proof fn lemma_value_string(b: Seq<u8>, p: int, fuel: nat, s: Seq<char>)
    requires
        fuel > 0,
        json_safe(s),
        text_at(b, p, quoted(s)),
    ensures
        value_spec(b, p, fuel) == Ok::<(JsonView, int), Seq<char>>(
            (JsonView::String(s), p + quoted(s).len()),
        ),
{
    lemma_text_at_byte(b, p, quoted(s), 0);
    lemma_skip_ws_none(b, p);
    lemma_string_quoted(b, p, s);
}

#[verifier::rlimit(50)]
proof fn lemma_digits_end(b: Seq<u8>, p: int, d: Seq<char>)
    requires
        text_at(b, p, d),
        forall|i: int| 0 <= i < d.len() ==> is_digit(#[trigger] d[i]),
        p + d.len() == b.len() || !(48 <= b[p + d.len()] <= 57),
    ensures
        digits_end(b, p) == p + d.len(),
    decreases d.len(),
{
    if d.len() > 0 {
        assert(d.subrange(0, 1) + d.subrange(1, d.len() as int) =~= d);
        lemma_text_at_split(b, p, d.subrange(0, 1), d.subrange(1, d.len() as int));
        lemma_text_at_byte(b, p, d, 0);
        assert(d.subrange(1, d.len() as int).len() == d.len() - 1);
        assert forall|i: int| 0 <= i < d.len() - 1 implies is_digit(
            #[trigger] d.subrange(1, d.len() as int)[i],
        ) by {
            assert(d.subrange(1, d.len() as int)[i] == d[i + 1]);
        }
        lemma_digits_end(b, p + 1, d.subrange(1, d.len() as int));
    }
}

/// The decimal text of a number reads back as that number.
#[verifier::rlimit(50)]
proof fn lemma_value_number(b: Seq<u8>, p: int, fuel: nat, n: i64)
    requires
        fuel > 0,
        text_at(b, p, dec_int(n as int)),
        p + dec_int(n as int).len() == b.len() || !(48 <= b[p + dec_int(n as int).len()] <= 57),
    ensures
        value_spec(b, p, fuel) == Ok::<(JsonView, int), Seq<char>>(
            (JsonView::Number(n), p + dec_int(n as int).len()),
        ),
{
    let d = dec_int(n as int);
    crate::text::lemma_parse_dec_int(n);
    lemma_text_at_bounds(b, p, d);
    lemma_text_at_byte(b, p, d, 0);
    lemma_skip_ws_none(b, p);
    let e = p + d.len();
    if d[0] == '-' {
        let ds = d.drop_first();
        assert(d =~= seq!['-'] + ds);
        lemma_text_at_split(b, p, seq!['-'], ds);
        assert forall|i: int| 0 <= i < ds.len() implies is_digit(#[trigger] ds[i]) by {
            assert(ds[i] == d[i + 1]);
        }
        lemma_digits_end(b, p + 1, ds);
    } else {
        lemma_digits_end(b, p, d);
    }
    assert(bytes_chars(b.subrange(p, e)) =~= d) by {
        assert forall|i: int| 0 <= i < d.len() implies bytes_chars(b.subrange(p, e))[i] == d[i] by {
            lemma_text_at_byte(b, p, d, i);
            assert(is_digit(d[i]) || d[i] == '-');
        }
    }
}

/// One member step: a quoted key, `:` and a value that reads as `v`
/// ending at `t`, then `,` or `}`.
#[verifier::rlimit(50)]
proof fn lemma_member_step(
    b: Seq<u8>,
    p: int,
    acc: Map<Seq<char>, JsonView>,
    fuel: nat,
    k: Seq<char>,
    v: JsonView,
    t: int,
)
    requires
        fuel > 0,
        json_safe(k),
        text_at(b, p, quoted(k) + seq![':']),
        value_spec(b, p + quoted(k).len() + 1, (fuel - 1) as nat) == Ok::<(JsonView, int), Seq<char>>(
            (v, t),
        ),
        0 <= t < b.len(),
        b[t] == 44 || b[t] == 125,
    ensures
        members_spec(b, p, acc, fuel) == if b[t] == 44 {
            members_spec(b, t + 1, acc.insert(k, v), (fuel - 1) as nat)
        } else {
            Ok::<(Map<Seq<char>, JsonView>, int), Seq<char>>((acc.insert(k, v), t + 1))
        },
{
    lemma_text_at_split(b, p, quoted(k), seq![':']);
    lemma_text_at_byte(b, p, quoted(k), 0);
    lemma_skip_ws_none(b, p);
    lemma_string_quoted(b, p, k);
    let r = p + quoted(k).len();
    lemma_text_at_byte(b, r, seq![':'], 0);
    lemma_skip_ws_none(b, r);
    lemma_skip_ws_none(b, t);
}

/// A member `"key":"value"`.
pub open spec fn str_member(k: Seq<char>, v: Seq<char>) -> Seq<char> {
    quoted(k) + seq![':'] + quoted(v)
}

#[verifier::spinoff_prover]
#[verifier::rlimit(80)]
proof fn lemma_compact_attrs_front(ps: Seq<(Seq<char>, Seq<char>)>)
    requires
        ps.len() >= 1,
    ensures
        compact_attrs(ps) == str_member(ps[0].0, ps[0].1) + if ps.len() > 1 {
            seq![','] + compact_attrs(ps.drop_first())
        } else {
            Seq::empty()
        },
    decreases ps.len(),
{
    let m0 = str_member(ps[0].0, ps[0].1);
    if ps.len() == 1 {
        assert(compact_attrs(ps) == m0);
        assert(m0 + Seq::<char>::empty() =~= m0);
    } else {
        let dl = ps.drop_last();
        let df = ps.drop_first();
        let ml = str_member(ps.last().0, ps.last().1);
        assert(compact_attrs(ps) == compact_attrs(dl) + seq![','] + ml);
        if ps.len() == 2 {
            assert(dl[0] == ps[0]);
            assert(compact_attrs(dl) == m0);
            assert(df[0] == ps.last());
            assert(compact_attrs(df) == ml);
            assert(m0 + seq![','] + ml =~= m0 + (seq![','] + ml));
        } else {
            lemma_compact_attrs_front(dl);
            assert(dl.drop_first() =~= df.drop_last());
            assert(df.last() == ps.last());
            assert(dl[0] == ps[0]);
            assert(compact_attrs(df) == compact_attrs(df.drop_last()) + seq![','] + ml);
            assert(compact_attrs(dl) == m0 + (seq![','] + compact_attrs(dl.drop_first())));
            assert(m0 + (seq![','] + compact_attrs(df.drop_last())) + seq![','] + ml =~= m0 + (
            seq![','] + (compact_attrs(df.drop_last()) + seq![','] + ml)));
        }
    }
}

/// The attribute pairs as JSON members.
pub open spec fn string_pairs(ps: Seq<(Seq<char>, Seq<char>)>) -> Seq<(Seq<char>, JsonView)> {
    ps.map_values(|e: (Seq<char>, Seq<char>)| (e.0, JsonView::String(e.1)))
}

/// Inserting pairs into `acc`, first to last.
pub open spec fn fold_onto<W>(acc: Map<Seq<char>, W>, ps: Seq<(Seq<char>, W)>) -> Map<Seq<char>, W>
    decreases ps.len(),
{
    if ps.len() == 0 {
        acc
    } else {
        fold_onto(acc.insert(ps[0].0, ps[0].1), ps.drop_first())
    }
}

#[verifier::rlimit(50)]
proof fn lemma_fold_onto_push<W>(acc: Map<Seq<char>, W>, ps: Seq<(Seq<char>, W)>, x: (Seq<char>, W))
    ensures
        fold_onto(acc, ps.push(x)) == fold_onto(acc, ps).insert(x.0, x.1),
    decreases ps.len(),
{
    let px = ps.push(x);
    if ps.len() > 0 {
        let a2 = acc.insert(ps[0].0, ps[0].1);
        assert(px[0] == ps[0]);
        assert(px.drop_first() =~= ps.drop_first().push(x));
        lemma_fold_onto_push(a2, ps.drop_first(), x);
        assert(fold_onto(acc, px) == fold_onto(a2, px.drop_first()));
        assert(fold_onto(acc, ps) == fold_onto(a2, ps.drop_first()));
    } else {
        assert(px[0] == x);
        assert(px.drop_first() =~= Seq::<(Seq<char>, W)>::empty());
        assert(fold_onto(acc, px) == fold_onto(acc.insert(x.0, x.1), px.drop_first()));
    }
}

#[verifier::rlimit(50)]
proof fn lemma_fold_onto_empty<W>(ps: Seq<(Seq<char>, W)>)
    ensures
        fold_onto(Map::empty(), ps) == fold_pairs(ps),
    decreases ps.len(),
{
    if ps.len() > 0 {
        lemma_fold_onto_empty(ps.drop_last());
        lemma_fold_onto_push(Map::empty(), ps.drop_last(), ps.last());
        assert(ps.drop_last().push(ps.last()) =~= ps);
    }
}

/// All keys and values of the pairs read back as themselves.
pub open spec fn pairs_safe(ps: Seq<(Seq<char>, Seq<char>)>) -> bool {
    forall|i: int| 0 <= i < ps.len() ==> json_safe(#[trigger] ps[i].0) && json_safe(ps[i].1)
}

#[verifier::rlimit(50)]
proof fn lemma_quoted_len(s: Seq<char>)
    ensures
        quoted(s).len() >= 2,
{
}

/// The written attribute members and `}` read back as the attributes.
#[verifier::rlimit(50)]
proof fn lemma_members_attrs(
    b: Seq<u8>,
    p: int,
    acc: Map<Seq<char>, JsonView>,
    fuel: nat,
    ps: Seq<(Seq<char>, Seq<char>)>,
)
    requires
        ps.len() >= 1,
        pairs_safe(ps),
        text_at(b, p, compact_attrs(ps) + seq!['}']),
        fuel > b.len() - p,
    ensures
        members_spec(b, p, acc, fuel) == Ok::<(Map<Seq<char>, JsonView>, int), Seq<char>>(
            (fold_onto(acc, string_pairs(ps)), p + compact_attrs(ps).len() + 1),
        ),
    decreases ps.len(),
{
    let k = ps[0].0;
    let v = ps[0].1;
    lemma_compact_attrs_front(ps);
    let rest: Seq<char> = if ps.len() > 1 {
        seq![','] + compact_attrs(ps.drop_first())
    } else {
        Seq::empty()
    };
    let whole = compact_attrs(ps) + seq!['}'];
    lemma_text_at_bounds(b, p, whole);
    assert(whole =~= (quoted(k) + seq![':']) + (quoted(v) + (rest + seq!['}'])));
    lemma_text_at_split(b, p, quoted(k) + seq![':'], quoted(v) + (rest + seq!['}']));
    let vs = p + quoted(k).len() + 1;
    lemma_text_at_split(b, vs, quoted(v), rest + seq!['}']);
    let t = vs + quoted(v).len();
    lemma_quoted_len(k);
    lemma_quoted_len(v);
    lemma_value_string(b, vs, (fuel - 1) as nat, v);
    lemma_text_at_byte(b, t, rest + seq!['}'], 0);
    lemma_member_step(b, p, acc, fuel, k, JsonView::String(v), t);
    let sp = string_pairs(ps);
    assert(sp[0] == (k, JsonView::String(v)));
    if ps.len() > 1 {
        let tail = ps.drop_first();
        assert(rest + seq!['}'] =~= seq![','] + (compact_attrs(tail) + seq!['}']));
        lemma_text_at_split(b, t, seq![','], compact_attrs(tail) + seq!['}']);
        assert(pairs_safe(tail)) by {
            assert forall|i: int| 0 <= i < tail.len() implies json_safe(#[trigger] tail[i].0)
                && json_safe(tail[i].1) by {
                assert(tail[i] == ps[i + 1]);
                assert(json_safe(ps[i + 1].0) && json_safe(ps[i + 1].1));
            }
        }
        assert(string_pairs(tail) =~= sp.drop_first());
        lemma_members_attrs(b, t + 1, acc.insert(k, JsonView::String(v)), (fuel - 1) as nat, tail);
        assert(compact_attrs(ps).len() == str_member(k, v).len() + 1 + compact_attrs(tail).len());
        assert(fold_onto(acc, sp) == fold_onto(acc.insert(k, JsonView::String(v)), sp.drop_first()));
    } else {
        assert(sp.drop_first() =~= Seq::<(Seq<char>, JsonView)>::empty());
        assert(compact_attrs(ps).len() == str_member(k, v).len());
        assert(fold_onto(acc, sp) == fold_onto(acc.insert(k, JsonView::String(v)), sp.drop_first()));
    }
}

#[verifier::rlimit(50)]
proof fn lemma_char_ascii(c: char)
    requires
        (c as u32) < 128,
    ensures
        '\0' <= c <= '\u{7f}',
{
    assert(('\u{7f}' as u32) == 127);
    assert(('\0' as u32) == 0);
}

#[verifier::rlimit(50)]
proof fn lemma_ascii_concat(x: Seq<char>, y: Seq<char>)
    requires
        is_ascii_chars(x),
        is_ascii_chars(y),
    ensures
        is_ascii_chars(x + y),
{
    assert forall|i: int| 0 <= i < (x + y).len() implies '\0' <= #[trigger] (x + y)[i] <= '\u{7f}' by {
        if i < x.len() {
            assert((x + y)[i] == x[i]);
        } else {
            assert((x + y)[i] == y[i - x.len()]);
        }
    }
}

#[verifier::rlimit(50)]
proof fn lemma_escape_ascii(s: Seq<char>)
    requires
        json_safe(s),
    ensures
        is_ascii_chars(escape_spec(s)),
    decreases s.len(),
{
    if s.len() > 0 {
        let c = s.last();
        assert(json_safe(s.drop_last())) by {
            assert forall|i: int| 0 <= i < s.drop_last().len() implies (#[trigger] s.drop_last()[i] as u32)
                < 128 || is_ctrl(s.drop_last()[i]) by {
                assert(s.drop_last()[i] == s[i]);
            }
        }
        lemma_escape_ascii(s.drop_last());
        assert((c as u32) < 128 || is_ctrl(c)) by {
            assert(c == s[s.len() - 1]);
        }
        let u = c as u32;
        lemma_hex_char_val(((u / 4096) % 16) as nat);
        lemma_hex_char_val(((u / 256) % 16) as nat);
        lemma_hex_char_val(((u / 16) % 16) as nat);
        lemma_hex_char_val((u % 16) as nat);
        let e = esc_char(c);
        assert forall|i: int| 0 <= i < e.len() implies '\0' <= #[trigger] e[i] <= '\u{7f}' by {
            assert((e[i] as u32) < 128);
            lemma_char_ascii(e[i]);
        }
        lemma_ascii_concat(escape_spec(s.drop_last()), esc_char(c));
    } else {
        assert(escape_spec(s) =~= Seq::<char>::empty());
    }
}

#[verifier::rlimit(50)]
proof fn lemma_quoted_ascii(s: Seq<char>)
    requires
        json_safe(s),
    ensures
        is_ascii_chars(quoted(s)),
{
    lemma_escape_ascii(s);
    lemma_ascii_concat(seq!['"'], escape_spec(s));
    lemma_ascii_concat(seq!['"'] + escape_spec(s), seq!['"']);
}

#[verifier::rlimit(50)]
proof fn lemma_compact_attrs_ascii(ps: Seq<(Seq<char>, Seq<char>)>)
    requires
        pairs_safe(ps),
    ensures
        is_ascii_chars(compact_attrs(ps)),
    decreases ps.len(),
{
    if ps.len() > 0 {
        let l = ps.last();
        assert(l == ps[ps.len() - 1]);
        lemma_quoted_ascii(l.0);
        lemma_quoted_ascii(l.1);
        lemma_ascii_concat(quoted(l.0), seq![':']);
        lemma_ascii_concat(quoted(l.0) + seq![':'], quoted(l.1));
        if ps.len() > 1 {
            assert(pairs_safe(ps.drop_last())) by {
                assert forall|i: int| 0 <= i < ps.drop_last().len() implies json_safe(
                    #[trigger] ps.drop_last()[i].0,
                ) && json_safe(ps.drop_last()[i].1) by {
                    assert(ps.drop_last()[i] == ps[i]);
                }
            }
            lemma_compact_attrs_ascii(ps.drop_last());
            lemma_ascii_concat(compact_attrs(ps.drop_last()), seq![',']);
            lemma_ascii_concat(compact_attrs(ps.drop_last()) + seq![','], quoted(l.0));
            lemma_ascii_concat(compact_attrs(ps.drop_last()) + seq![','] + quoted(l.0), seq![':']);
            lemma_ascii_concat(
                compact_attrs(ps.drop_last()) + seq![','] + quoted(l.0) + seq![':'],
                quoted(l.1),
            );
        }
    }
}

#[verifier::rlimit(50)]
proof fn lemma_ascii_bytes_of(t: Seq<char>)
    requires
        is_ascii_chars(t),
    ensures
        encode_utf8(t) == ascii_bytes(t),
        text_at(encode_utf8(t), 0, t),
{
    reveal(text_at);
    vstd::utf8::is_ascii_chars_encode_utf8(t);
    assert(encode_utf8(t) =~= ascii_bytes(t));
    assert(encode_utf8(t).subrange(0, t.len() as int) =~= encode_utf8(t));
}

/// A plain ASCII text without `"`, `\` or control characters is written
/// as itself.
#[verifier::rlimit(50)]
proof fn lemma_escape_plain(s: Seq<char>)
    requires
        forall|i: int|
            0 <= i < s.len() ==> (#[trigger] s[i] as u32) < 127 && (s[i] as u32) >= 32 && s[i] != '"'
                && s[i] != '\\',
    ensures
        escape_spec(s) == s,
        json_safe(s),
    decreases s.len(),
{
    if s.len() > 0 {
        assert forall|i: int| 0 <= i < s.drop_last().len() implies (#[trigger] s.drop_last()[i] as u32)
            < 127 && (s.drop_last()[i] as u32) >= 32 && s.drop_last()[i] != '"' && s.drop_last()[i]
            != '\\' by {
            assert(s.drop_last()[i] == s[i]);
        }
        lemma_escape_plain(s.drop_last());
        let c = s.last();
        assert(c == s[s.len() - 1]);
        assert(esc_char(c) == seq![c]);
        assert(s.drop_last().push(c) =~= s);
    }
}

/// A quoted key and `:`.
pub open spec fn key_colon(k: Seq<char>) -> Seq<char> {
    quoted(k) + seq![':']
}

/// The members `meta.json` holds for an entry: `id`, `ts`, `size`, then
/// `preview` when it is not empty and `meta` when there are attributes.
pub open spec fn written_fields(m: Meta) -> Map<Seq<char>, JsonView> {
    let base = Map::<Seq<char>, JsonView>::empty().insert("id"@, JsonView::String(m.id@)).insert(
        "ts"@,
        JsonView::String(m.ts@),
    ).insert("size"@, JsonView::Number(m.size));
    let wp = if m.preview@.len() > 0 {
        base.insert("preview"@, JsonView::String(m.preview@))
    } else {
        base
    };
    if m.attrs.pairs().len() > 0 {
        wp.insert("meta"@, JsonView::Object(fold_pairs(string_pairs(m.attrs.pairs()))))
    } else {
        wp
    }
}

/// Every text of the entry reads back as itself (see [`json_safe`]).
pub open spec fn entry_safe(m: Meta) -> bool {
    &&& json_safe(m.id@)
    &&& json_safe(m.ts@)
    &&& json_safe(m.preview@)
    &&& pairs_safe(m.attrs.pairs())
}

#[verifier::rlimit(50)]
proof fn lemma_keys_plain()
    ensures
        escape_spec("id"@) == "id"@,
        escape_spec("ts"@) == "ts"@,
        escape_spec("size"@) == "size"@,
        escape_spec("preview"@) == "preview"@,
        escape_spec("meta"@) == "meta"@,
        json_safe("id"@),
        json_safe("ts"@),
        json_safe("size"@),
        json_safe("preview"@),
        json_safe("meta"@),
        "id"@ != "ts"@,
        "id"@ != "size"@,
        "id"@ != "preview"@,
        "id"@ != "meta"@,
        "ts"@ != "size"@,
        "ts"@ != "preview"@,
        "ts"@ != "meta"@,
        "size"@ != "preview"@,
        "size"@ != "meta"@,
        "preview"@ != "meta"@,
{
    reveal_strlit("id");
    reveal_strlit("ts");
    reveal_strlit("size");
    reveal_strlit("preview");
    reveal_strlit("meta");
    lemma_escape_plain("id"@);
    lemma_escape_plain("ts"@);
    lemma_escape_plain("size"@);
    lemma_escape_plain("preview"@);
    lemma_escape_plain("meta"@);
}

/// The pieces of the one-line form of an entry.
#[verifier::rlimit(50)]
proof fn lemma_compact_pieces(m: Meta)
    ensures
        compact_spec(m) == seq!['{'] + key_colon("id"@) + quoted(m.id@) + (seq![','] + key_colon(
            "ts"@,
        ) + quoted(m.ts@)) + (seq![','] + key_colon("size"@) + dec_int(m.size as int)) + (if m.preview@.len()
            > 0 {
            seq![','] + key_colon("preview"@) + quoted(m.preview@)
        } else {
            Seq::empty()
        }) + (if m.attrs.pairs().len() > 0 {
            seq![','] + key_colon("meta"@) + (seq!['{'] + compact_attrs(m.attrs.pairs()) + seq!['}'])
        } else {
            Seq::empty()
        }) + seq!['}'],
{
    lemma_keys_plain();
    reveal_strlit("id");
    reveal_strlit("ts");
    reveal_strlit("size");
    reveal_strlit("preview");
    reveal_strlit("meta");
    reveal_strlit("{");
    reveal_strlit("}");
    reveal_strlit("\"id\":");
    reveal_strlit(",\"ts\":");
    reveal_strlit(",\"size\":");
    reveal_strlit(",\"preview\":");
    reveal_strlit(",\"meta\":{");
    assert("\"id\":"@ =~= key_colon("id"@));
    assert(",\"ts\":"@ =~= seq![','] + key_colon("ts"@));
    assert(",\"size\":"@ =~= seq![','] + key_colon("size"@));
    assert(",\"preview\":"@ =~= seq![','] + key_colon("preview"@));
    assert(",\"meta\":{"@ =~= seq![','] + key_colon("meta"@) + seq!['{']);
    assert(compact_spec(m) =~= seq!['{'] + key_colon("id"@) + quoted(m.id@) + (seq![','] + key_colon(
        "ts"@,
    ) + quoted(m.ts@)) + (seq![','] + key_colon("size"@) + dec_int(m.size as int)) + (if m.preview@.len()
        > 0 {
        seq![','] + key_colon("preview"@) + quoted(m.preview@)
    } else {
        Seq::empty()
    }) + (if m.attrs.pairs().len() > 0 {
        seq![','] + key_colon("meta"@) + (seq!['{'] + compact_attrs(m.attrs.pairs()) + seq!['}'])
    } else {
        Seq::empty()
    }) + seq!['}']);
}

/// The last members of the one-line form: `preview` and `meta` when
/// present, then `}`.
pub open spec fn compact_tail(m: Meta) -> Seq<char> {
    (if m.preview@.len() > 0 {
        seq![','] + key_colon("preview"@) + quoted(m.preview@)
    } else {
        Seq::empty()
    }) + (if m.attrs.pairs().len() > 0 {
        seq![','] + key_colon("meta"@) + (seq!['{'] + compact_attrs(m.attrs.pairs()) + seq!['}'])
    } else {
        Seq::empty()
    }) + seq!['}']
}

/// The `meta` member and `}` read back as the attributes.
#[verifier::rlimit(50)]
proof fn lemma_meta_member(
    b: Seq<u8>,
    p: int,
    acc: Map<Seq<char>, JsonView>,
    fuel: nat,
    ps: Seq<(Seq<char>, Seq<char>)>,
)
    requires
        ps.len() > 0,
        pairs_safe(ps),
        text_at(b, p, key_colon("meta"@) + (seq!['{'] + compact_attrs(ps) + seq!['}']) + seq!['}']),
        fuel > b.len() - p + 2,
    ensures
        members_spec(b, p, acc, fuel) == Ok::<(Map<Seq<char>, JsonView>, int), Seq<char>>(
            (
                acc.insert("meta"@, JsonView::Object(fold_pairs(string_pairs(ps)))),
                p + key_colon("meta"@).len() + compact_attrs(ps).len() + 3,
            ),
        ),
{
    lemma_keys_plain();
    let kc = key_colon("meta"@);
    let ca = compact_attrs(ps);
    let obj = seq!['{'] + ca + seq!['}'];
    assert(kc + (seq!['{'] + ca + seq!['}']) + seq!['}'] =~= kc + (obj + seq!['}']));
    lemma_text_at_split(b, p, kc, obj + seq!['}']);
    let vs = p + kc.len();
    lemma_text_at_split(b, vs, obj, seq!['}']);
    assert(obj =~= seq!['{'] + (ca + seq!['}']));
    lemma_text_at_split(b, vs, seq!['{'], ca + seq!['}']);
    lemma_text_at_byte(b, vs, seq!['{'], 0);
    lemma_compact_attrs_front(ps);
    lemma_quoted_len(ps[0].0);
    assert(ca[0] == '"');
    lemma_text_at_byte(b, vs + 1, ca + seq!['}'], 0);
    lemma_skip_ws_none(b, vs);
    lemma_skip_ws_none(b, vs + 1);
    lemma_members_attrs(b, vs + 1, Map::empty(), (fuel - 2) as nat, ps);
    lemma_fold_onto_empty(string_pairs(ps));
    let t = vs + obj.len();
    assert(value_spec(b, vs, (fuel - 1) as nat) == Ok::<(JsonView, int), Seq<char>>(
        (JsonView::Object(fold_pairs(string_pairs(ps))), t),
    ));
    lemma_text_at_byte(b, t, seq!['}'], 0);
    assert(kc =~= quoted("meta"@) + seq![':']);
    lemma_member_step(b, p, acc, fuel, "meta"@, JsonView::Object(fold_pairs(string_pairs(ps))), t);
}

/// The members after `size`: `preview` and `meta` when present.
pub open spec fn tail_fields(acc: Map<Seq<char>, JsonView>, m: Meta) -> Map<Seq<char>, JsonView> {
    let wp = if m.preview@.len() > 0 {
        acc.insert("preview"@, JsonView::String(m.preview@))
    } else {
        acc
    };
    if m.attrs.pairs().len() > 0 {
        wp.insert("meta"@, JsonView::Object(fold_pairs(string_pairs(m.attrs.pairs()))))
    } else {
        wp
    }
}

/// What follows the `size` member reads back as the rest of the members.
#[verifier::spinoff_prover]
#[verifier::rlimit(80)]
proof fn lemma_compact_tail(b: Seq<u8>, t: int, acc: Map<Seq<char>, JsonView>, fuel: nat, m: Meta)
    requires
        entry_safe(m),
        text_at(b, t, compact_tail(m)),
        fuel > b.len() - t + 2,
    ensures
        0 <= t < b.len(),
        b[t] == 44 || b[t] == 125,
        (if b[t] == 44 {
            members_spec(b, t + 1, acc, fuel)
        } else {
            Ok::<(Map<Seq<char>, JsonView>, int), Seq<char>>((acc, t + 1))
        }) == Ok::<(Map<Seq<char>, JsonView>, int), Seq<char>>(
            (tail_fields(acc, m), t + compact_tail(m).len()),
        ),
{
    lemma_keys_plain();
    let ps = m.attrs.pairs();
    let pv = m.preview@;
    let tl = compact_tail(m);
    lemma_text_at_byte(b, t, tl, 0);
    let kp = key_colon("preview"@);
    let km = key_colon("meta"@);
    let obj = seq!['{'] + compact_attrs(ps) + seq!['}'];
    if pv.len() > 0 {
        let vp = t + 1 + kp.len();
        let after = vp + quoted(pv).len();
        let rest: Seq<char> = if ps.len() > 0 {
            seq![','] + km + obj
        } else {
            Seq::empty()
        };
        assert(tl =~= seq![','] + (kp + (quoted(pv) + (rest + seq!['}']))));
        lemma_text_at_split(b, t, seq![','], kp + (quoted(pv) + (rest + seq!['}'])));
        lemma_text_at_split(b, t + 1, kp, quoted(pv) + (rest + seq!['}']));
        lemma_text_at_split(b, vp, quoted(pv), rest + seq!['}']);
        lemma_value_string(b, vp, (fuel - 1) as nat, pv);
        lemma_text_at_byte(b, after, rest + seq!['}'], 0);
        assert(kp =~= quoted("preview"@) + seq![':']);
        lemma_text_at_split(b, t + 1, kp, quoted(pv) + (rest + seq!['}']));
        assert(kp + (quoted(pv) + (rest + seq!['}'])) =~= (quoted("preview"@) + seq![':']) + (quoted(
            pv,
        ) + (rest + seq!['}'])));
        lemma_text_at_split(b, t + 1, quoted("preview"@) + seq![':'], quoted(pv) + (rest + seq!['}']));
        lemma_member_step(b, t + 1, acc, fuel, "preview"@, JsonView::String(pv), after);
        if ps.len() > 0 {
            assert(rest + seq!['}'] =~= seq![','] + (km + obj + seq!['}']));
            lemma_text_at_split(b, after, seq![','], km + obj + seq!['}']);
            lemma_meta_member(
                b,
                after + 1,
                acc.insert("preview"@, JsonView::String(pv)),
                (fuel - 1) as nat,
                ps,
            );
        }
    } else {
        if ps.len() > 0 {
            assert(tl =~= seq![','] + (km + obj + seq!['}']));
            lemma_text_at_split(b, t, seq![','], km + obj + seq!['}']);
            lemma_meta_member(b, t + 1, acc, fuel, ps);
        } else {
            assert(tl =~= seq!['}']);
        }
    }
}

#[verifier::rlimit(50)]
proof fn lemma_compact_ascii(m: Meta)
    requires
        entry_safe(m),
    ensures
        is_ascii_chars(compact_spec(m)),
{
    lemma_keys_plain();
    lemma_compact_pieces(m);
    let ps = m.attrs.pairs();
    let kid = key_colon("id"@);
    let kts = key_colon("ts"@);
    let ksz = key_colon("size"@);
    let kpv = key_colon("preview"@);
    let kmt = key_colon("meta"@);
    lemma_quoted_ascii("id"@);
    lemma_quoted_ascii("ts"@);
    lemma_quoted_ascii("size"@);
    lemma_quoted_ascii("preview"@);
    lemma_quoted_ascii("meta"@);
    lemma_quoted_ascii(m.id@);
    lemma_quoted_ascii(m.ts@);
    lemma_quoted_ascii(m.preview@);
    lemma_compact_attrs_ascii(ps);
    crate::text::lemma_parse_dec_int(m.size);
    let d = dec_int(m.size as int);
    assert(is_ascii_chars(d)) by {
        assert forall|i: int| 0 <= i < d.len() implies '\0' <= #[trigger] d[i] <= '\u{7f}' by {
            assert(is_digit(d[i]) || d[i] == '-');
        }
    }
    let t = compact_spec(m);
    assert forall|i: int| 0 <= i < t.len() implies '\0' <= #[trigger] t[i] <= '\u{7f}' by {
        let pieces = seq![
            seq!['{'],
            kid,
            quoted(m.id@),
            seq![','],
            kts,
            quoted(m.ts@),
            seq![','],
            ksz,
            d,
        ];
        lemma_ascii_concat(quoted("id"@), seq![':']);
        lemma_ascii_concat(quoted("ts"@), seq![':']);
        lemma_ascii_concat(quoted("size"@), seq![':']);
        lemma_ascii_concat(quoted("preview"@), seq![':']);
        lemma_ascii_concat(quoted("meta"@), seq![':']);
        let a = seq!['{'] + kid + quoted(m.id@);
        lemma_ascii_concat(seq!['{'], kid);
        lemma_ascii_concat(seq!['{'] + kid, quoted(m.id@));
        let b2 = seq![','] + kts + quoted(m.ts@);
        lemma_ascii_concat(seq![','], kts);
        lemma_ascii_concat(seq![','] + kts, quoted(m.ts@));
        let b3 = seq![','] + ksz + d;
        lemma_ascii_concat(seq![','], ksz);
        lemma_ascii_concat(seq![','] + ksz, d);
        let bp: Seq<char> = if m.preview@.len() > 0 {
            seq![','] + kpv + quoted(m.preview@)
        } else {
            Seq::empty()
        };
        lemma_ascii_concat(seq![','], kpv);
        lemma_ascii_concat(seq![','] + kpv, quoted(m.preview@));
        let bm: Seq<char> = if ps.len() > 0 {
            seq![','] + kmt + (seq!['{'] + compact_attrs(ps) + seq!['}'])
        } else {
            Seq::empty()
        };
        lemma_ascii_concat(seq![','], kmt);
        lemma_ascii_concat(seq!['{'], compact_attrs(ps));
        lemma_ascii_concat(seq!['{'] + compact_attrs(ps), seq!['}']);
        lemma_ascii_concat(seq![','] + kmt, seq!['{'] + compact_attrs(ps) + seq!['}']);
        lemma_ascii_concat(a, b2);
        lemma_ascii_concat(a + b2, b3);
        lemma_ascii_concat(a + b2 + b3, bp);
        lemma_ascii_concat(a + b2 + b3 + bp, bm);
        lemma_ascii_concat(a + b2 + b3 + bp + bm, seq!['}']);
        assert(t == a + b2 + b3 + bp + bm + seq!['}']);
    }
}

/// A string member followed by `,`.
#[verifier::rlimit(50)]
proof fn lemma_str_member_comma(
    b: Seq<u8>,
    p: int,
    acc: Map<Seq<char>, JsonView>,
    fuel: nat,
    k: Seq<char>,
    v: Seq<char>,
)
    requires
        json_safe(k),
        json_safe(v),
        text_at(b, p, key_colon(k) + quoted(v) + seq![',']),
        fuel >= 2,
    ensures
        members_spec(b, p, acc, fuel) == members_spec(
            b,
            p + key_colon(k).len() + quoted(v).len() + 1,
            acc.insert(k, JsonView::String(v)),
            (fuel - 1) as nat,
        ),
{
    let kc = key_colon(k);
    assert(kc + quoted(v) + seq![','] =~= kc + (quoted(v) + seq![',']));
    lemma_text_at_split(b, p, kc, quoted(v) + seq![',']);
    lemma_text_at_split(b, p + kc.len(), quoted(v), seq![',']);
    lemma_value_string(b, p + kc.len(), (fuel - 1) as nat, v);
    lemma_text_at_byte(b, p + kc.len() + quoted(v).len(), seq![','], 0);
    lemma_member_step(b, p, acc, fuel, k, JsonView::String(v), p + kc.len() + quoted(v).len());
}

/// The members of the one-line form read back as the entry's members.
#[verifier::spinoff_prover]
#[verifier::rlimit(80)]
proof fn lemma_compact_members(b: Seq<u8>, m: Meta)
    requires
        entry_safe(m),
        text_at(
            b,
            1,
            key_colon("id"@) + quoted(m.id@) + (seq![','] + key_colon("ts"@) + quoted(m.ts@)) + (seq![
                ',',
            ] + key_colon("size"@) + dec_int(m.size as int)) + compact_tail(m),
        ),
        1 + (key_colon("id"@) + quoted(m.id@) + (seq![','] + key_colon("ts"@) + quoted(m.ts@)) + (seq![
            ',',
        ] + key_colon("size"@) + dec_int(m.size as int)) + compact_tail(m)).len() == b.len(),
    ensures
        members_spec(b, 1, Map::empty(), b.len()) == Ok::<(Map<Seq<char>, JsonView>, int), Seq<char>>(
            (written_fields(m), b.len() as int),
        ),
{
    lemma_keys_plain();
    let L = b.len();
    let kid = key_colon("id"@);
    let kts = key_colon("ts"@);
    let ksz = key_colon("size"@);
    let d = dec_int(m.size as int);
    let tl = compact_tail(m);
    let body = kid + quoted(m.id@) + (seq![','] + kts + quoted(m.ts@)) + (seq![','] + ksz + d) + tl;
    let p2: int = (1 + kid.len() + quoted(m.id@).len() + 1) as int;
    let p3: int = p2 + kts.len() + quoted(m.ts@).len() + 1;
    let a4: int = p3 + ksz.len() + d.len();
    assert(body =~= (kid + quoted(m.id@) + seq![',']) + ((kts + quoted(m.ts@) + seq![',']) + ((ksz + d)
        + tl)));
    lemma_text_at_split(b, 1, kid + quoted(m.id@) + seq![','], (kts + quoted(m.ts@) + seq![',']) + ((
    ksz + d) + tl));
    lemma_text_at_split(b, p2, kts + quoted(m.ts@) + seq![','], (ksz + d) + tl);
    lemma_text_at_split(b, p3, ksz + d, tl);
    lemma_text_at_split(b, p3, ksz, d);
    lemma_str_member_comma(b, 1, Map::empty(), L as nat, "id"@, m.id@);
    let m1 = Map::<Seq<char>, JsonView>::empty().insert("id"@, JsonView::String(m.id@));
    lemma_str_member_comma(b, p2, m1, (L - 1) as nat, "ts"@, m.ts@);
    let m2 = m1.insert("ts"@, JsonView::String(m.ts@));
    let m3 = m2.insert("size"@, JsonView::Number(m.size));
    lemma_compact_tail(b, a4, m3, (L - 3) as nat, m);
    lemma_value_number(b, p3 + ksz.len(), (L - 3) as nat, m.size);
    lemma_member_step(b, p3, m2, (L - 2) as nat, "size"@, JsonView::Number(m.size), a4);
    assert(tail_fields(m3, m) == written_fields(m));
}

/// The one-line form of an entry reads back as its members.
#[verifier::spinoff_prover]
#[verifier::rlimit(80)]
proof fn lemma_compact_parses(m: Meta)
    requires
        entry_safe(m),
    ensures
        parse_spec(encode_utf8(compact_spec(m))) == Ok::<JsonView, Seq<char>>(
            JsonView::Object(written_fields(m)),
        ),
{
    lemma_keys_plain();
    lemma_compact_pieces(m);
    lemma_compact_ascii(m);
    let t = compact_spec(m);
    lemma_ascii_bytes_of(t);
    let b = encode_utf8(t);
    let L = b.len();
    let body = key_colon("id"@) + quoted(m.id@) + (seq![','] + key_colon("ts"@) + quoted(m.ts@)) + (seq![
        ',',
    ] + key_colon("size"@) + dec_int(m.size as int)) + compact_tail(m);
    assert(t =~= seq!['{'] + body);
    lemma_text_at_split(b, 0, seq!['{'], body);
    lemma_text_at_byte(b, 0, seq!['{'], 0);
    lemma_text_at_byte(b, 1, body, 0);
    lemma_skip_ws_none(b, 0);
    lemma_skip_ws_none(b, 1);
    lemma_compact_members(b, m);
    assert(value_spec(b, 0, (L + 1) as nat) == Ok::<(JsonView, int), Seq<char>>(
        (JsonView::Object(written_fields(m)), L as int),
    ));
}

#[verifier::rlimit(50)]
proof fn lemma_string_map_fold(ps: Seq<(Seq<char>, Seq<char>)>)
    ensures
        all_strings(fold_pairs(string_pairs(ps))),
        string_map(fold_pairs(string_pairs(ps))) == fold_pairs(ps),
    decreases ps.len(),
{
    let sp = string_pairs(ps);
    if ps.len() > 0 {
        lemma_string_map_fold(ps.drop_last());
        assert(sp.drop_last() =~= string_pairs(ps.drop_last()));
        assert(sp.last() == (ps.last().0, JsonView::String(ps.last().1)));
        assert(string_map(fold_pairs(sp)) =~= fold_pairs(ps));
    } else {
        assert(string_map(fold_pairs(sp)) =~= fold_pairs(ps));
    }
}

/// The members written for an entry read back as the entry.
#[verifier::rlimit(50)]
proof fn lemma_fields_meta(m: Meta)
    requires
        m.wf(),
    ensures
        ({
            let w = written_fields(m);
            &&& str_field(w, "id"@) == Some(m.id@)
            &&& str_field(w, "ts"@) == Some(m.ts@)
            &&& num_field(w, "size"@) == Some(m.size)
            &&& (match str_field(w, "preview"@) {
                Some(p) => p,
                None => Seq::empty(),
            }) == m.preview@
            &&& attrs_field(w) == Ok::<Map<Seq<char>, Seq<char>>, Seq<char>>(m.attrs@)
        }),
{
    lemma_keys_plain();
    let ps = m.attrs.pairs();
    let w = written_fields(m);
    lemma_string_map_fold(ps);
    lemma_fold_sorted(ps);
    if m.preview@.len() == 0 {
        assert(m.preview@ =~= Seq::<char>::empty());
    }
    if ps.len() == 0 {
        assert(m.attrs@ =~= Map::<Seq<char>, Seq<char>>::empty());
    }
}

/// Writing an entry as one line of JSON and reading it back gives the same
/// entry, when each of its texts holds only ASCII and control characters.
#[verifier::rlimit(50)]
pub proof fn lemma_json_compact_roundtrip(m: Meta)
    requires
        m.wf(),
        entry_safe(m),
    ensures
        meta_json_spec(compact_spec(m)) == Ok::<MetaView, Seq<char>>(m@),
{
    lemma_compact_parses(m);
    lemma_fields_meta(m);
}

// The indented form: the same members with white space between them.

/// Spaces and line feeds only.
pub open spec fn all_ws(w: Seq<char>) -> bool {
    forall|i: int| 0 <= i < w.len() ==> (#[trigger] w[i] == ' ' || w[i] == '\n')
}

#[verifier::rlimit(50)]
proof fn lemma_skip_ws_run(b: Seq<u8>, p: int, w: Seq<char>)
    requires
        all_ws(w),
        text_at(b, p, w),
        p + w.len() == b.len() || !byte_is_ws(b[p + w.len()]),
    ensures
        skip_ws_spec(b, p) == p + w.len(),
    decreases w.len(),
{
    lemma_text_at_bounds(b, p, w);
    if w.len() > 0 {
        lemma_text_at_byte(b, p, w, 0);
        assert(w =~= seq![w[0]] + w.drop_first());
        lemma_text_at_split(b, p, seq![w[0]], w.drop_first());
        assert(all_ws(w.drop_first())) by {
            assert forall|i: int| 0 <= i < w.drop_first().len() implies (#[trigger] w.drop_first()[i]
                == ' ' || w.drop_first()[i] == '\n') by {
                assert(w.drop_first()[i] == w[i + 1]);
            }
        }
        lemma_skip_ws_run(b, p + 1, w.drop_first());
    }
}

#[verifier::rlimit(50)]
proof fn lemma_value_same_start(b: Seq<u8>, p: int, p2: int, fuel: nat)
    requires
        skip_ws_spec(b, p) == skip_ws_spec(b, p2),
    ensures
        value_spec(b, p, fuel) == value_spec(b, p2, fuel),
{
}

#[verifier::rlimit(50)]
proof fn lemma_members_same_start(b: Seq<u8>, p: int, p2: int, acc: Map<Seq<char>, JsonView>, fuel: nat)
    requires
        skip_ws_spec(b, p) == skip_ws_spec(b, p2),
    ensures
        members_spec(b, p, acc, fuel) == members_spec(b, p2, acc, fuel),
{
}

/// A member step with white space `w1` between the value and `,` or `}`.
#[verifier::rlimit(50)]
proof fn lemma_member_step_ws(
    b: Seq<u8>,
    p: int,
    acc: Map<Seq<char>, JsonView>,
    fuel: nat,
    k: Seq<char>,
    v: JsonView,
    t: int,
    w1: Seq<char>,
)
    requires
        fuel > 0,
        json_safe(k),
        text_at(b, p, quoted(k) + seq![':']),
        value_spec(b, p + quoted(k).len() + 1, (fuel - 1) as nat) == Ok::<(JsonView, int), Seq<char>>(
            (v, t),
        ),
        all_ws(w1),
        text_at(b, t, w1),
        0 <= t + w1.len() < b.len(),
        b[t + w1.len()] == 44 || b[t + w1.len()] == 125,
    ensures
        members_spec(b, p, acc, fuel) == if b[t + w1.len()] == 44 {
            members_spec(b, t + w1.len() + 1, acc.insert(k, v), (fuel - 1) as nat)
        } else {
            Ok::<(Map<Seq<char>, JsonView>, int), Seq<char>>((acc.insert(k, v), t + w1.len() + 1))
        },
{
    lemma_text_at_split(b, p, quoted(k), seq![':']);
    lemma_text_at_byte(b, p, quoted(k), 0);
    lemma_skip_ws_none(b, p);
    lemma_string_quoted(b, p, k);
    let r = p + quoted(k).len();
    lemma_text_at_byte(b, r, seq![':'], 0);
    lemma_skip_ws_none(b, r);
    lemma_skip_ws_run(b, t, w1);
}

/// Line feed and indentation before a member: `,` is followed by these.
pub open spec fn nl_indent(n: nat) -> Seq<char> {
    seq!['\n'] + Seq::new(n, |i: int| ' ')
}

#[verifier::rlimit(50)]
proof fn lemma_nl_indent_ws(n: nat)
    ensures
        all_ws(nl_indent(n)),
        nl_indent(n).len() == n + 1,
{
    assert forall|i: int| 0 <= i < nl_indent(n).len() implies (#[trigger] nl_indent(n)[i] == ' '
        || nl_indent(n)[i] == '\n') by {
        if i > 0 {
            assert(nl_indent(n)[i] == ' ');
        }
    }
}

#[verifier::rlimit(50)]
proof fn lemma_pretty_attrs_front(ps: Seq<(Seq<char>, Seq<char>)>)
    requires
        ps.len() >= 1,
    ensures
        pretty_attrs(ps) == "    "@ + quoted(ps[0].0) + ": "@ + quoted(ps[0].1) + if ps.len() > 1 {
            ",\n"@ + pretty_attrs(ps.drop_first())
        } else {
            Seq::empty()
        },
    decreases ps.len(),
{
    let m0 = "    "@ + quoted(ps[0].0) + ": "@ + quoted(ps[0].1);
    if ps.len() == 1 {
        assert(pretty_attrs(ps) == m0);
        assert(m0 + Seq::<char>::empty() =~= m0);
    } else {
        let dl = ps.drop_last();
        let df = ps.drop_first();
        let ml = "    "@ + quoted(ps.last().0) + ": "@ + quoted(ps.last().1);
        assert(pretty_attrs(ps) == pretty_attrs(dl) + ",\n"@ + ml);
        if ps.len() == 2 {
            assert(dl[0] == ps[0]);
            assert(pretty_attrs(dl) == m0);
            assert(df[0] == ps.last());
            assert(pretty_attrs(df) == ml);
            assert(m0 + ",\n"@ + ml =~= m0 + (",\n"@ + ml));
        } else {
            lemma_pretty_attrs_front(dl);
            assert(dl.drop_first() =~= df.drop_last());
            assert(df.last() == ps.last());
            assert(dl[0] == ps[0]);
            assert(pretty_attrs(df) == pretty_attrs(df.drop_last()) + ",\n"@ + ml);
            assert(pretty_attrs(dl) == m0 + (",\n"@ + pretty_attrs(dl.drop_first())));
            assert(m0 + (",\n"@ + pretty_attrs(df.drop_last())) + ",\n"@ + ml =~= m0 + (",\n"@ + (
            pretty_attrs(df.drop_last()) + ",\n"@ + ml)));
        }
    }
}

#[verifier::rlimit(50)]
proof fn lemma_lits_ws()
    ensures
        all_ws("    "@),
        "    "@.len() == 4,
        ": "@ == seq![':'] + seq![' '],
        ",\n"@ == seq![','] + seq!['\n'],
        "\n  }"@ == seq!['\n', ' ', ' '] + seq!['}'],
        all_ws(seq!['\n', ' ', ' ']),
        all_ws(seq![' ']),
        all_ws(seq!['\n']),
{
    reveal_strlit("    ");
    reveal_strlit(": ");
    reveal_strlit(",\n");
    reveal_strlit("\n  }");
    assert(": "@ =~= seq![':'] + seq![' ']);
    assert(",\n"@ =~= seq![','] + seq!['\n']);
    assert("\n  }"@ =~= seq!['\n', ' ', ' '] + seq!['}']);
}

/// A string value after one space.
#[verifier::rlimit(50)]
proof fn lemma_value_string_sp(b: Seq<u8>, p: int, fuel: nat, s: Seq<char>)
    requires
        fuel > 0,
        json_safe(s),
        text_at(b, p, seq![' '] + quoted(s)),
    ensures
        value_spec(b, p, fuel) == Ok::<(JsonView, int), Seq<char>>(
            (JsonView::String(s), p + 1 + quoted(s).len()),
        ),
{
    lemma_text_at_split(b, p, seq![' '], quoted(s));
    lemma_text_at_byte(b, p + 1, quoted(s), 0);
    lemma_text_at_byte(b, p, seq![' '], 0);
    lemma_skip_ws_none(b, p + 1);
    lemma_value_same_start(b, p, p + 1, fuel);
    lemma_value_string(b, p + 1, fuel, s);
}

/// The indented attribute members and `\n  }` read back as the attributes.
#[verifier::spinoff_prover]
#[verifier::rlimit(80)]
proof fn lemma_members_pretty_attrs(
    b: Seq<u8>,
    p: int,
    acc: Map<Seq<char>, JsonView>,
    fuel: nat,
    ps: Seq<(Seq<char>, Seq<char>)>,
)
    requires
        ps.len() >= 1,
        pairs_safe(ps),
        text_at(b, p, pretty_attrs(ps) + "\n  }"@),
        fuel > b.len() - p,
    ensures
        members_spec(b, p, acc, fuel) == Ok::<(Map<Seq<char>, JsonView>, int), Seq<char>>(
            (fold_onto(acc, string_pairs(ps)), p + pretty_attrs(ps).len() + 4),
        ),
    decreases ps.len(),
{
    lemma_lits_ws();
    let k = ps[0].0;
    let v = ps[0].1;
    lemma_pretty_attrs_front(ps);
    let rest: Seq<char> = if ps.len() > 1 {
        ",\n"@ + pretty_attrs(ps.drop_first())
    } else {
        Seq::empty()
    };
    let whole = pretty_attrs(ps) + "\n  }"@;
    lemma_text_at_bounds(b, p, whole);
    assert(whole =~= "    "@ + ((quoted(k) + seq![':']) + ((seq![' '] + quoted(v)) + (rest + "\n  }"@))));
    lemma_text_at_split(b, p, "    "@, (quoted(k) + seq![':']) + ((seq![' '] + quoted(v)) + (rest
        + "\n  }"@)));
    let kp = p + 4;
    lemma_text_at_split(b, kp, quoted(k) + seq![':'], (seq![' '] + quoted(v)) + (rest + "\n  }"@));
    lemma_text_at_split(b, kp, quoted(k), seq![':']);
    lemma_text_at_byte(b, kp, quoted(k), 0);
    lemma_skip_ws_run(b, p, "    "@);
    lemma_members_same_start(b, p, kp, acc, fuel);
    let vs = kp + quoted(k).len() + 1;
    lemma_text_at_split(b, vs, seq![' '] + quoted(v), rest + "\n  }"@);
    lemma_quoted_len(k);
    lemma_quoted_len(v);
    lemma_value_string_sp(b, vs, (fuel - 1) as nat, v);
    let t = vs + 1 + quoted(v).len();
    let sp = string_pairs(ps);
    assert(sp[0] == (k, JsonView::String(v)));
    if ps.len() > 1 {
        let tail = ps.drop_first();
        assert(rest + "\n  }"@ =~= seq![','] + (seq!['\n'] + (pretty_attrs(tail) + "\n  }"@)));
        lemma_text_at_split(b, t, seq![','], seq!['\n'] + (pretty_attrs(tail) + "\n  }"@));
        lemma_text_at_byte(b, t, seq![','], 0);
        assert(text_at(b, t, Seq::<char>::empty())) by {
            reveal(text_at);
            assert(b.subrange(t, t) =~= ascii_bytes(Seq::<char>::empty()));
        }
        assert(all_ws(Seq::<char>::empty()));
        lemma_member_step_ws(b, kp, acc, fuel, k, JsonView::String(v), t, Seq::empty());
        lemma_text_at_split(b, t + 1, seq!['\n'], pretty_attrs(tail) + "\n  }"@);
        lemma_text_at_byte(b, t + 1, seq!['\n'], 0);
        assert(skip_ws_spec(b, t + 1) == skip_ws_spec(b, t + 2));
        lemma_members_same_start(
            b,
            t + 1,
            t + 2,
            acc.insert(k, JsonView::String(v)),
            (fuel - 1) as nat,
        );
        assert(pairs_safe(tail)) by {
            assert forall|i: int| 0 <= i < tail.len() implies json_safe(#[trigger] tail[i].0)
                && json_safe(tail[i].1) by {
                assert(tail[i] == ps[i + 1]);
                assert(json_safe(ps[i + 1].0) && json_safe(ps[i + 1].1));
            }
        }
        assert(string_pairs(tail) =~= sp.drop_first());
        lemma_members_pretty_attrs(b, t + 2, acc.insert(k, JsonView::String(v)), (fuel - 1) as nat, tail);
        assert(pretty_attrs(ps).len() == 4 + quoted(k).len() + 2 + quoted(v).len() + 2 + pretty_attrs(
            tail,
        ).len());
        assert(fold_onto(acc, sp) == fold_onto(acc.insert(k, JsonView::String(v)), sp.drop_first()));
    } else {
        assert(rest + "\n  }"@ =~= seq!['\n', ' ', ' '] + seq!['}']);
        lemma_text_at_split(b, t, seq!['\n', ' ', ' '], seq!['}']);
        lemma_text_at_byte(b, t + 3, seq!['}'], 0);
        lemma_member_step_ws(b, kp, acc, fuel, k, JsonView::String(v), t, seq!['\n', ' ', ' ']);
        assert(sp.drop_first() =~= Seq::<(Seq<char>, JsonView)>::empty());
        assert(pretty_attrs(ps).len() == 4 + quoted(k).len() + 2 + quoted(v).len());
        assert(fold_onto(acc, sp) == fold_onto(acc.insert(k, JsonView::String(v)), sp.drop_first()));
    }
}

/// A key with its `:` and a space, after a line feed and two spaces.
pub open spec fn pretty_key(k: Seq<char>) -> Seq<char> {
    nl_indent(2) + key_colon(k) + seq![' ']
}

/// The last members of the indented form: `preview` and `meta` when
/// present, then a line feed, `}` and a line feed.
pub open spec fn pretty_tail(m: Meta) -> Seq<char> {
    (if m.preview@.len() > 0 {
        seq![','] + pretty_key("preview"@) + quoted(m.preview@)
    } else {
        Seq::empty()
    }) + (if m.attrs.pairs().len() > 0 {
        seq![','] + pretty_key("meta"@) + seq!['{', '\n'] + (pretty_attrs(m.attrs.pairs()) + "\n  }"@)
    } else {
        Seq::empty()
    }) + seq!['\n', '}', '\n']
}

/// The pieces of the indented form of an entry.
#[verifier::rlimit(50)]
proof fn lemma_pretty_pieces(m: Meta)
    ensures
        pretty_spec(m) == seq!['{'] + pretty_key("id"@) + quoted(m.id@) + (seq![','] + pretty_key(
            "ts"@,
        ) + quoted(m.ts@)) + (seq![','] + pretty_key("size"@) + dec_int(m.size as int))
            + pretty_tail(m),
{
    lemma_keys_plain();
    reveal_strlit("id");
    reveal_strlit("ts");
    reveal_strlit("size");
    reveal_strlit("preview");
    reveal_strlit("meta");
    reveal_strlit("{\n");
    reveal_strlit("  \"id\": ");
    reveal_strlit(",\n");
    reveal_strlit("  \"ts\": ");
    reveal_strlit("  \"size\": ");
    reveal_strlit(",\n  \"preview\": ");
    reveal_strlit(",\n  \"meta\": {\n");
    reveal_strlit("\n  }");
    reveal_strlit("\n}\n");
    let nl2 = nl_indent(2);
    assert(nl2 =~= seq!['\n', ' ', ' ']);
    assert("{\n"@ + "  \"id\": "@ =~= seq!['{'] + pretty_key("id"@));
    assert(",\n"@ + "  \"ts\": "@ =~= seq![','] + pretty_key("ts"@));
    assert(",\n"@ + "  \"size\": "@ =~= seq![','] + pretty_key("size"@));
    assert(",\n  \"preview\": "@ =~= seq![','] + pretty_key("preview"@));
    assert(",\n  \"meta\": {\n"@ + pretty_attrs(m.attrs.pairs()) + "\n  }"@ =~= seq![','] + pretty_key(
        "meta"@,
    ) + seq!['{', '\n'] + (pretty_attrs(m.attrs.pairs()) + "\n  }"@));
    assert(pretty_spec(m) =~= seq!['{'] + pretty_key("id"@) + quoted(m.id@) + (seq![','] + pretty_key(
        "ts"@,
    ) + quoted(m.ts@)) + (seq![','] + pretty_key("size"@) + dec_int(m.size as int)) + pretty_tail(m));
}

#[verifier::rlimit(50)]
proof fn lemma_ws_ascii(w: Seq<char>)
    requires
        all_ws(w),
    ensures
        is_ascii_chars(w),
{
    assert forall|i: int| 0 <= i < w.len() implies '\0' <= #[trigger] w[i] <= '\u{7f}' by {
        assert(w[i] == ' ' || w[i] == '\n');
        lemma_char_ascii(w[i]);
    }
}

#[verifier::rlimit(50)]
proof fn lemma_one_ascii(c: char)
    requires
        (c as u32) < 128,
    ensures
        is_ascii_chars(seq![c]),
{
    lemma_char_ascii(c);
}

#[verifier::rlimit(50)]
proof fn lemma_pretty_key_ascii(k: Seq<char>)
    requires
        json_safe(k),
    ensures
        is_ascii_chars(pretty_key(k)),
{
    lemma_nl_indent_ws(2);
    lemma_ws_ascii(nl_indent(2));
    lemma_quoted_ascii(k);
    lemma_one_ascii(':');
    lemma_one_ascii(' ');
    lemma_ascii_concat(quoted(k), seq![':']);
    lemma_ascii_concat(nl_indent(2), key_colon(k));
    lemma_ascii_concat(nl_indent(2) + key_colon(k), seq![' ']);
}

#[verifier::rlimit(50)]
proof fn lemma_pretty_attrs_ascii(ps: Seq<(Seq<char>, Seq<char>)>)
    requires
        pairs_safe(ps),
    ensures
        is_ascii_chars(pretty_attrs(ps)),
    decreases ps.len(),
{
    lemma_lits_ws();
    lemma_ws_ascii("    "@);
    lemma_one_ascii(':');
    lemma_one_ascii(' ');
    lemma_one_ascii(',');
    lemma_one_ascii('\n');
    lemma_ascii_concat(seq![':'], seq![' ']);
    lemma_ascii_concat(seq![','], seq!['\n']);
    if ps.len() > 0 {
        let l = ps.last();
        assert(l == ps[ps.len() - 1]);
        lemma_quoted_ascii(l.0);
        lemma_quoted_ascii(l.1);
        let mem = "    "@ + quoted(l.0) + ": "@ + quoted(l.1);
        lemma_ascii_concat("    "@, quoted(l.0));
        lemma_ascii_concat("    "@ + quoted(l.0), ": "@);
        lemma_ascii_concat("    "@ + quoted(l.0) + ": "@, quoted(l.1));
        if ps.len() > 1 {
            assert(pairs_safe(ps.drop_last())) by {
                assert forall|i: int| 0 <= i < ps.drop_last().len() implies json_safe(
                    #[trigger] ps.drop_last()[i].0,
                ) && json_safe(ps.drop_last()[i].1) by {
                    assert(ps.drop_last()[i] == ps[i]);
                }
            }
            lemma_pretty_attrs_ascii(ps.drop_last());
            lemma_ascii_concat(pretty_attrs(ps.drop_last()), ",\n"@);
            lemma_ascii_concat(pretty_attrs(ps.drop_last()) + ",\n"@, "    "@);
            lemma_ascii_concat(pretty_attrs(ps.drop_last()) + ",\n"@ + "    "@, quoted(l.0));
            lemma_ascii_concat(pretty_attrs(ps.drop_last()) + ",\n"@ + "    "@ + quoted(l.0), ": "@);
            lemma_ascii_concat(
                pretty_attrs(ps.drop_last()) + ",\n"@ + "    "@ + quoted(l.0) + ": "@,
                quoted(l.1),
            );
        }
    }
}

#[verifier::rlimit(50)]
proof fn lemma_pretty_ascii(m: Meta)
    requires
        entry_safe(m),
    ensures
        is_ascii_chars(pretty_spec(m)),
{
    lemma_keys_plain();
    lemma_lits_ws();
    lemma_pretty_pieces(m);
    let ps = m.attrs.pairs();
    lemma_pretty_key_ascii("id"@);
    lemma_pretty_key_ascii("ts"@);
    lemma_pretty_key_ascii("size"@);
    lemma_pretty_key_ascii("preview"@);
    lemma_pretty_key_ascii("meta"@);
    lemma_quoted_ascii(m.id@);
    lemma_quoted_ascii(m.ts@);
    lemma_quoted_ascii(m.preview@);
    lemma_pretty_attrs_ascii(ps);
    crate::text::lemma_parse_dec_int(m.size);
    let d = dec_int(m.size as int);
    assert(is_ascii_chars(d)) by {
        assert forall|i: int| 0 <= i < d.len() implies '\0' <= #[trigger] d[i] <= '\u{7f}' by {
            assert(is_digit(d[i]) || d[i] == '-');
        }
    }
    lemma_one_ascii('{');
    lemma_one_ascii('}');
    lemma_one_ascii(',');
    lemma_one_ascii('\n');
    let a = seq!['{'] + pretty_key("id"@) + quoted(m.id@);
    lemma_ascii_concat(seq!['{'], pretty_key("id"@));
    lemma_ascii_concat(seq!['{'] + pretty_key("id"@), quoted(m.id@));
    let b2 = seq![','] + pretty_key("ts"@) + quoted(m.ts@);
    lemma_ascii_concat(seq![','], pretty_key("ts"@));
    lemma_ascii_concat(seq![','] + pretty_key("ts"@), quoted(m.ts@));
    let b3 = seq![','] + pretty_key("size"@) + d;
    lemma_ascii_concat(seq![','], pretty_key("size"@));
    lemma_ascii_concat(seq![','] + pretty_key("size"@), d);
    lemma_ascii_concat(seq![','], pretty_key("preview"@));
    lemma_ascii_concat(seq![','] + pretty_key("preview"@), quoted(m.preview@));
    lemma_ascii_concat(seq![','], pretty_key("meta"@));
    lemma_ascii_concat(seq!['{'], seq!['\n']);
    assert(seq!['{'] + seq!['\n'] =~= seq!['{', '\n']);
    lemma_ascii_concat(seq![','] + pretty_key("meta"@), seq!['{', '\n']);
    assert("\n  }"@ =~= seq!['\n', ' ', ' '] + seq!['}']);
    lemma_ws_ascii(seq!['\n', ' ', ' ']);
    lemma_ascii_concat(seq!['\n', ' ', ' '], seq!['}']);
    lemma_ascii_concat(pretty_attrs(ps), "\n  }"@);
    lemma_ascii_concat(seq![','] + pretty_key("meta"@) + seq!['{', '\n'], pretty_attrs(ps) + "\n  }"@);
    let bp: Seq<char> = if m.preview@.len() > 0 {
        seq![','] + pretty_key("preview"@) + quoted(m.preview@)
    } else {
        Seq::empty()
    };
    let bm: Seq<char> = if ps.len() > 0 {
        seq![','] + pretty_key("meta"@) + seq!['{', '\n'] + (pretty_attrs(ps) + "\n  }"@)
    } else {
        Seq::empty()
    };
    let end = seq!['\n', '}', '\n'];
    lemma_ascii_concat(seq!['\n'], seq!['}']);
    lemma_ascii_concat(seq!['\n'] + seq!['}'], seq!['\n']);
    assert(seq!['\n'] + seq!['}'] + seq!['\n'] =~= end);
    lemma_ascii_concat(a, b2);
    lemma_ascii_concat(a + b2, b3);
    lemma_ascii_concat(a + b2 + b3, bp);
    lemma_ascii_concat(a + b2 + b3 + bp, bm);
    lemma_ascii_concat(a + b2 + b3 + bp + bm, end);
    assert(pretty_spec(m) =~= a + b2 + b3 + bp + bm + end);
}

/// An indented string member followed by `,`.
#[verifier::rlimit(50)]
proof fn lemma_pretty_str_member(
    b: Seq<u8>,
    p: int,
    acc: Map<Seq<char>, JsonView>,
    fuel: nat,
    k: Seq<char>,
    v: Seq<char>,
)
    requires
        json_safe(k),
        json_safe(v),
        text_at(b, p, pretty_key(k) + quoted(v) + seq![',']),
        fuel >= 2,
    ensures
        members_spec(b, p, acc, fuel) == members_spec(
            b,
            p + pretty_key(k).len() + quoted(v).len() + 1,
            acc.insert(k, JsonView::String(v)),
            (fuel - 1) as nat,
        ),
{
    lemma_nl_indent_ws(2);
    let nl2 = nl_indent(2);
    let kc = key_colon(k);
    assert(pretty_key(k) + quoted(v) + seq![','] =~= nl2 + (kc + ((seq![' '] + quoted(v)) + seq![
        ',',
    ])));
    lemma_text_at_split(b, p, nl2, kc + ((seq![' '] + quoted(v)) + seq![',']));
    lemma_text_at_split(b, p + 3, kc, (seq![' '] + quoted(v)) + seq![',']);
    lemma_text_at_byte(b, p + 3, kc, 0);
    lemma_skip_ws_run(b, p, nl2);
    lemma_members_same_start(b, p, p + 3, acc, fuel);
    let vs = p + 3 + kc.len();
    lemma_text_at_split(b, vs, seq![' '] + quoted(v), seq![',']);
    lemma_value_string_sp(b, vs, (fuel - 1) as nat, v);
    let t = vs + 1 + quoted(v).len();
    lemma_text_at_byte(b, t, seq![','], 0);
    lemma_member_step(b, p + 3, acc, fuel, k, JsonView::String(v), t);
}

#[verifier::rlimit(50)]
proof fn lemma_ws_concat(x: Seq<char>, y: Seq<char>)
    requires
        all_ws(x),
        all_ws(y),
    ensures
        all_ws(x + y),
{
    assert forall|i: int| 0 <= i < (x + y).len() implies (#[trigger] (x + y)[i] == ' ' || (x
        + y)[i] == '\n') by {
        if i < x.len() {
            assert((x + y)[i] == x[i]);
        } else {
            assert((x + y)[i] == y[i - x.len()]);
        }
    }
}

/// The indented attribute object after `: ` reads back as the attributes.
#[verifier::spinoff_prover]
#[verifier::rlimit(80)]
proof fn lemma_pretty_meta_value(b: Seq<u8>, vs: int, fuel: nat, ps: Seq<(Seq<char>, Seq<char>)>)
    requires
        ps.len() > 0,
        pairs_safe(ps),
        text_at(b, vs, seq![' ', '{', '\n'] + (pretty_attrs(ps) + "\n  }"@)),
        fuel > b.len() - vs + 2,
    ensures
        value_spec(b, vs, fuel) == Ok::<(JsonView, int), Seq<char>>(
            (JsonView::Object(fold_pairs(string_pairs(ps))), vs + 3 + pretty_attrs(ps).len() + 4),
        ),
{
    lemma_lits_ws();
    let pa = pretty_attrs(ps);
    let pe = pa + "\n  }"@;
    assert(seq![' ', '{', '\n'] + pe =~= seq![' '] + (seq!['{'] + (seq!['\n'] + pe)));
    lemma_text_at_split(b, vs, seq![' '], seq!['{'] + (seq!['\n'] + pe));
    lemma_text_at_split(b, vs + 1, seq!['{'], seq!['\n'] + pe);
    lemma_text_at_split(b, vs + 2, seq!['\n'], pe);
    lemma_text_at_byte(b, vs + 1, seq!['{'], 0);
    lemma_skip_ws_run(b, vs, seq![' ']);
    lemma_pretty_attrs_front(ps);
    let q0 = quoted(ps[0].0);
    let after = pe.subrange((4 + q0.len()) as int, pe.len() as int);
    assert(pe =~= "    "@ + (q0 + after));
    lemma_text_at_split(b, vs + 3, "    "@, q0 + after);
    lemma_text_at_byte(b, vs + 7, q0 + after, 0);
    lemma_ws_concat(seq!['\n'], "    "@);
    assert(text_at(b, vs + 2, seq!['\n'] + "    "@)) by {
        assert(seq!['\n'] + pe =~= (seq!['\n'] + "    "@) + (q0 + after));
        lemma_text_at_split(b, vs + 2, seq!['\n'] + "    "@, q0 + after);
    }
    lemma_quoted_len(ps[0].0);
    lemma_skip_ws_run(b, vs + 2, seq!['\n'] + "    "@);
    lemma_skip_ws_run(b, vs + 3, "    "@);
    lemma_members_same_start(b, vs + 7, vs + 3, Map::empty(), (fuel - 1) as nat);
    lemma_members_pretty_attrs(b, vs + 3, Map::empty(), (fuel - 1) as nat, ps);
    lemma_fold_onto_empty(string_pairs(ps));
}

/// The indented `meta` member, a line feed and `}` read back as the
/// attributes.
#[verifier::rlimit(50)]
proof fn lemma_pretty_meta_member(
    b: Seq<u8>,
    p: int,
    acc: Map<Seq<char>, JsonView>,
    fuel: nat,
    ps: Seq<(Seq<char>, Seq<char>)>,
)
    requires
        ps.len() > 0,
        pairs_safe(ps),
        text_at(
            b,
            p,
            pretty_key("meta"@) + seq!['{', '\n'] + (pretty_attrs(ps) + "\n  }"@) + seq!['\n', '}'],
        ),
        fuel > b.len() - p + 2,
    ensures
        members_spec(b, p, acc, fuel) == Ok::<(Map<Seq<char>, JsonView>, int), Seq<char>>(
            (
                acc.insert("meta"@, JsonView::Object(fold_pairs(string_pairs(ps)))),
                p + pretty_key("meta"@).len() + 2 + pretty_attrs(ps).len() + 4 + 2,
            ),
        ),
{
    lemma_keys_plain();
    lemma_lits_ws();
    lemma_nl_indent_ws(2);
    let nl2 = nl_indent(2);
    let kc = key_colon("meta"@);
    let pa = pretty_attrs(ps);
    let pe = pa + "\n  }"@;
    let whole = pretty_key("meta"@) + seq!['{', '\n'] + pe + seq!['\n', '}'];
    lemma_text_at_bounds(b, p, whole);
    assert(whole =~= nl2 + (kc + ((seq![' ', '{', '\n'] + pe) + (seq!['\n'] + seq!['}']))));
    lemma_text_at_split(b, p, nl2, kc + ((seq![' ', '{', '\n'] + pe) + (seq!['\n'] + seq!['}'])));
    let kp = p + 3;
    lemma_text_at_split(b, kp, kc, (seq![' ', '{', '\n'] + pe) + (seq!['\n'] + seq!['}']));
    lemma_text_at_byte(b, kp, kc, 0);
    lemma_skip_ws_run(b, p, nl2);
    lemma_members_same_start(b, p, kp, acc, fuel);
    let vs = kp + kc.len();
    lemma_text_at_split(b, vs, seq![' ', '{', '\n'] + pe, seq!['\n'] + seq!['}']);
    lemma_pretty_meta_value(b, vs, (fuel - 1) as nat, ps);
    let t = vs + 3 + pa.len() + 4;
    lemma_text_at_split(b, t, seq!['\n'], seq!['}']);
    lemma_text_at_byte(b, t + 1, seq!['}'], 0);
    assert(all_ws(seq!['\n']));
    lemma_member_step_ws(
        b,
        kp,
        acc,
        fuel,
        "meta"@,
        JsonView::Object(fold_pairs(string_pairs(ps))),
        t,
        seq!['\n'],
    );
}

/// An indented string member that ends the object.
#[verifier::rlimit(50)]
proof fn lemma_pretty_last_str_member(
    b: Seq<u8>,
    p: int,
    acc: Map<Seq<char>, JsonView>,
    fuel: nat,
    k: Seq<char>,
    v: Seq<char>,
)
    requires
        json_safe(k),
        json_safe(v),
        text_at(b, p, pretty_key(k) + quoted(v) + seq!['\n', '}']),
        fuel >= 2,
    ensures
        members_spec(b, p, acc, fuel) == Ok::<(Map<Seq<char>, JsonView>, int), Seq<char>>(
            (acc.insert(k, JsonView::String(v)), p + pretty_key(k).len() + quoted(v).len() + 2),
        ),
{
    lemma_nl_indent_ws(2);
    let nl2 = nl_indent(2);
    let kc = key_colon(k);
    assert(pretty_key(k) + quoted(v) + seq!['\n', '}'] =~= nl2 + (kc + ((seq![' '] + quoted(v)) + (
    seq!['\n'] + seq!['}']))));
    lemma_text_at_split(b, p, nl2, kc + ((seq![' '] + quoted(v)) + (seq!['\n'] + seq!['}'])));
    lemma_text_at_split(b, p + 3, kc, (seq![' '] + quoted(v)) + (seq!['\n'] + seq!['}']));
    lemma_text_at_byte(b, p + 3, kc, 0);
    lemma_skip_ws_run(b, p, nl2);
    lemma_members_same_start(b, p, p + 3, acc, fuel);
    let vs = p + 3 + kc.len();
    lemma_text_at_split(b, vs, seq![' '] + quoted(v), seq!['\n'] + seq!['}']);
    lemma_value_string_sp(b, vs, (fuel - 1) as nat, v);
    let t = vs + 1 + quoted(v).len();
    lemma_text_at_split(b, t, seq!['\n'], seq!['}']);
    lemma_text_at_byte(b, t + 1, seq!['}'], 0);
    assert(all_ws(seq!['\n']));
    lemma_member_step_ws(b, p + 3, acc, fuel, k, JsonView::String(v), t, seq!['\n']);
}

/// The white space between the `size` value and what follows it.
pub open spec fn size_gap(m: Meta) -> Seq<char> {
    if m.preview@.len() > 0 || m.attrs.pairs().len() > 0 {
        Seq::empty()
    } else {
        seq!['\n']
    }
}

/// What follows the `size` member of the indented form reads back as the
/// rest of the members.
#[verifier::spinoff_prover]
#[verifier::rlimit(80)]
proof fn lemma_pretty_tail(b: Seq<u8>, t: int, acc: Map<Seq<char>, JsonView>, fuel: nat, m: Meta)
    requires
        entry_safe(m),
        text_at(b, t, pretty_tail(m)),
        fuel > b.len() - t + 4,
    ensures
        all_ws(size_gap(m)),
        text_at(b, t, size_gap(m)),
        0 <= t + size_gap(m).len() < b.len(),
        b[t + size_gap(m).len()] == 44 || b[t + size_gap(m).len()] == 125,
        (if b[t + size_gap(m).len()] == 44 {
            members_spec(b, t + size_gap(m).len() + 1, acc, fuel)
        } else {
            Ok::<(Map<Seq<char>, JsonView>, int), Seq<char>>((acc, t + size_gap(m).len() + 1))
        }) == Ok::<(Map<Seq<char>, JsonView>, int), Seq<char>>(
            (tail_fields(acc, m), t + pretty_tail(m).len() - 1),
        ),
{
    lemma_keys_plain();
    lemma_lits_ws();
    let ps = m.attrs.pairs();
    let pv = m.preview@;
    let tl = pretty_tail(m);
    lemma_text_at_bounds(b, t, tl);
    let kp = pretty_key("preview"@);
    let mp = pretty_key("meta"@) + seq!['{', '\n'] + (pretty_attrs(ps) + "\n  }"@);
    assert(all_ws(seq!['\n']));
    if pv.len() > 0 {
        assert(text_at(b, t, Seq::<char>::empty())) by {
            reveal(text_at);
            assert(b.subrange(t, t) =~= ascii_bytes(Seq::<char>::empty()));
        }
        if ps.len() > 0 {
            assert(tl =~= seq![','] + ((kp + quoted(pv) + seq![',']) + (mp + seq!['\n', '}'] + seq![
                '\n',
            ])));
            lemma_text_at_split(b, t, seq![','], (kp + quoted(pv) + seq![',']) + (mp + seq!['\n', '}']
                + seq!['\n']));
            lemma_text_at_byte(b, t, seq![','], 0);
            lemma_text_at_split(b, t + 1, kp + quoted(pv) + seq![','], mp + seq!['\n', '}'] + seq![
                '\n',
            ]);
            lemma_text_at_split(
                b,
                t + 1 + kp.len() + quoted(pv).len() + 1,
                mp + seq!['\n', '}'],
                seq!['\n'],
            );
            lemma_pretty_str_member(b, t + 1, acc, fuel, "preview"@, pv);
            lemma_pretty_meta_member(
                b,
                t + 1 + kp.len() + quoted(pv).len() + 1,
                acc.insert("preview"@, JsonView::String(pv)),
                (fuel - 1) as nat,
                ps,
            );
        } else {
            assert(tl =~= seq![','] + ((kp + quoted(pv) + seq!['\n', '}']) + seq!['\n']));
            lemma_text_at_split(b, t, seq![','], (kp + quoted(pv) + seq!['\n', '}']) + seq!['\n']);
            lemma_text_at_byte(b, t, seq![','], 0);
            lemma_text_at_split(b, t + 1, kp + quoted(pv) + seq!['\n', '}'], seq!['\n']);
            lemma_pretty_last_str_member(b, t + 1, acc, fuel, "preview"@, pv);
        }
    } else {
        if ps.len() > 0 {
            assert(text_at(b, t, Seq::<char>::empty())) by {
                reveal(text_at);
                assert(b.subrange(t, t) =~= ascii_bytes(Seq::<char>::empty()));
            }
            assert(tl =~= seq![','] + ((mp + seq!['\n', '}']) + seq!['\n']));
            lemma_text_at_split(b, t, seq![','], (mp + seq!['\n', '}']) + seq!['\n']);
            lemma_text_at_byte(b, t, seq![','], 0);
            lemma_text_at_split(b, t + 1, mp + seq!['\n', '}'], seq!['\n']);
            lemma_pretty_meta_member(b, t + 1, acc, fuel, ps);
        } else {
            assert(tl =~= seq!['\n'] + (seq!['}'] + seq!['\n']));
            lemma_text_at_split(b, t, seq!['\n'], seq!['}'] + seq!['\n']);
            lemma_text_at_byte(b, t + 1, seq!['}'] + seq!['\n'], 0);
        }
    }
}

/// The members of the indented form read back as the entry's members.
#[verifier::spinoff_prover]
#[verifier::rlimit(80)]
proof fn lemma_pretty_members(b: Seq<u8>, m: Meta)
    requires
        entry_safe(m),
        text_at(
            b,
            1,
            pretty_key("id"@) + quoted(m.id@) + (seq![','] + pretty_key("ts"@) + quoted(m.ts@)) + (seq![
                ',',
            ] + pretty_key("size"@) + dec_int(m.size as int)) + pretty_tail(m),
        ),
        1 + (pretty_key("id"@) + quoted(m.id@) + (seq![','] + pretty_key("ts"@) + quoted(m.ts@)) + (seq![
            ',',
        ] + pretty_key("size"@) + dec_int(m.size as int)) + pretty_tail(m)).len() == b.len(),
    ensures
        members_spec(b, 1, Map::empty(), b.len()) == Ok::<(Map<Seq<char>, JsonView>, int), Seq<char>>(
            (written_fields(m), b.len() - 1),
        ),
{
    lemma_keys_plain();
    lemma_nl_indent_ws(2);
    let L = b.len();
    let pid = pretty_key("id"@);
    let pts = pretty_key("ts"@);
    let psz = pretty_key("size"@);
    let nl2 = nl_indent(2);
    let kc = key_colon("size"@);
    let d = dec_int(m.size as int);
    let tl = pretty_tail(m);
    let p2: int = (1 + pid.len() + quoted(m.id@).len() + 1) as int;
    let p3: int = p2 + pts.len() + quoted(m.ts@).len() + 1;
    let body = pid + quoted(m.id@) + (seq![','] + pts + quoted(m.ts@)) + (seq![','] + psz + d) + tl;
    assert(body =~= (pid + quoted(m.id@) + seq![',']) + ((pts + quoted(m.ts@) + seq![',']) + (nl2 + (kc
        + ((seq![' '] + d) + tl)))));
    lemma_text_at_split(b, 1, pid + quoted(m.id@) + seq![','], (pts + quoted(m.ts@) + seq![',']) + (nl2
        + (kc + ((seq![' '] + d) + tl))));
    lemma_text_at_split(b, p2, pts + quoted(m.ts@) + seq![','], nl2 + (kc + ((seq![' '] + d) + tl)));
    lemma_pretty_str_member(b, 1, Map::empty(), L as nat, "id"@, m.id@);
    let m1 = Map::<Seq<char>, JsonView>::empty().insert("id"@, JsonView::String(m.id@));
    lemma_pretty_str_member(b, p2, m1, (L - 1) as nat, "ts"@, m.ts@);
    let m2 = m1.insert("ts"@, JsonView::String(m.ts@));
    let m3 = m2.insert("size"@, JsonView::Number(m.size));
    lemma_text_at_split(b, p3, nl2, kc + ((seq![' '] + d) + tl));
    let kp = p3 + 3;
    lemma_text_at_split(b, kp, kc, (seq![' '] + d) + tl);
    lemma_text_at_byte(b, kp, kc, 0);
    lemma_skip_ws_run(b, p3, nl2);
    lemma_members_same_start(b, p3, kp, m2, (L - 2) as nat);
    let vs = kp + kc.len();
    lemma_text_at_split(b, vs, seq![' '] + d, tl);
    lemma_text_at_split(b, vs, seq![' '], d);
    crate::text::lemma_parse_dec_int(m.size);
    lemma_text_at_byte(b, vs + 1, d, 0);
    lemma_text_at_byte(b, vs, seq![' '], 0);
    lemma_skip_ws_none(b, vs + 1);
    lemma_value_same_start(b, vs, vs + 1, (L - 3) as nat);
    let t = vs + 1 + d.len();
    lemma_pretty_tail(b, t, m3, (L - 3) as nat, m);
    lemma_text_at_bounds(b, t, tl);
    lemma_text_at_byte(b, t, tl, 0);
    assert(tl[0] == ',' || tl[0] == '\n');
    lemma_value_number(b, vs + 1, (L - 3) as nat, m.size);
    assert(kc =~= quoted("size"@) + seq![':']);
    lemma_member_step_ws(b, kp, m2, (L - 2) as nat, "size"@, JsonView::Number(m.size), t, size_gap(m));
    assert(tail_fields(m3, m) == written_fields(m));
}

/// The body of the indented form after `{`.
pub open spec fn pretty_body(m: Meta) -> Seq<char> {
    pretty_key("id"@) + quoted(m.id@) + (seq![','] + pretty_key("ts"@) + quoted(m.ts@)) + (seq![
        ',',
    ] + pretty_key("size"@) + dec_int(m.size as int)) + pretty_tail(m)
}

#[verifier::spinoff_prover]
#[verifier::rlimit(80)]
proof fn lemma_pretty_value(b: Seq<u8>, m: Meta)
    requires
        entry_safe(m),
        text_at(b, 0, seq!['{'] + pretty_body(m)),
        1 + pretty_body(m).len() == b.len(),
    ensures
        value_spec(b, 0, (b.len() + 1) as nat) == Ok::<(JsonView, int), Seq<char>>(
            (JsonView::Object(written_fields(m)), b.len() - 1),
        ),
        skip_ws_spec(b, b.len() - 1) == b.len(),
{
    lemma_keys_plain();
    lemma_nl_indent_ws(2);
    let L = b.len();
    let body = pretty_body(m);
    lemma_text_at_split(b, 0, seq!['{'], body);
    lemma_text_at_byte(b, 0, seq!['{'], 0);
    lemma_skip_ws_none(b, 0);
    let nl2 = nl_indent(2);
    let rest = body.subrange(3, body.len() as int);
    assert(body =~= nl2 + rest);
    lemma_text_at_split(b, 1, nl2, rest);
    lemma_text_at_byte(b, 1, body, 3);
    assert(body[3] == '"');
    lemma_skip_ws_run(b, 1, nl2);
    lemma_members_same_start(b, 4, 1, Map::empty(), L as nat);
    lemma_pretty_members(b, m);
    lemma_text_at_byte(b, 1, body, body.len() - 1);
    assert(body[body.len() - 1] == '\n');
    assert(b[L - 1] == 10u8);
    assert(skip_ws_spec(b, L as int) == L);
    assert(skip_ws_spec(b, L - 1) == skip_ws_spec(b, L as int));
}

/// The indented form of an entry reads back as its members.
#[verifier::spinoff_prover]
#[verifier::rlimit(80)]
proof fn lemma_pretty_parses(m: Meta)
    requires
        entry_safe(m),
    ensures
        parse_spec(encode_utf8(pretty_spec(m))) == Ok::<JsonView, Seq<char>>(
            JsonView::Object(written_fields(m)),
        ),
{
    lemma_pretty_pieces(m);
    lemma_pretty_ascii(m);
    let t = pretty_spec(m);
    lemma_ascii_bytes_of(t);
    assert(t =~= seq!['{'] + pretty_body(m));
    lemma_pretty_value(encode_utf8(t), m);
}

/// Writing an entry as indented JSON and reading it back gives the same
/// entry, when each of its texts holds only ASCII and control characters.
#[verifier::rlimit(50)]
pub proof fn lemma_json_pretty_roundtrip(m: Meta)
    requires
        m.wf(),
        entry_safe(m),
    ensures
        meta_json_spec(pretty_spec(m)) == Ok::<MetaView, Seq<char>>(m@),
{
    lemma_pretty_parses(m);
    lemma_fields_meta(m);
}

/// What `escape_string` writes holds no control character.
#[verifier::rlimit(50)]
pub proof fn lemma_escape_no_control(s: Seq<char>)
    ensures
        forall|j: int| 0 <= j < escape_spec(s).len() ==> !is_ctrl(#[trigger] escape_spec(s)[j]),
    decreases s.len(),
{
    if s.len() > 0 {
        let c = s.last();
        lemma_escape_no_control(s.drop_last());
        let u = c as u32;
        lemma_hex_char_val(((u / 4096) % 16) as nat);
        lemma_hex_char_val(((u / 256) % 16) as nat);
        lemma_hex_char_val(((u / 16) % 16) as nat);
        lemma_hex_char_val((u % 16) as nat);
        let a = escape_spec(s.drop_last());
        let e = esc_char(c);
        let t = escape_spec(s);
        assert(t == a + e);
        assert forall|j: int| 0 <= j < t.len() implies !is_ctrl(#[trigger] t[j]) by {
            if j < a.len() {
                assert(t[j] == a[j]);
            } else {
                assert(t[j] == e[j - a.len()]);
            }
        }
    }
}

/// A string of ASCII or control characters, escaped by `escape_string`
/// and put in quotes, reads back through `parse` as that string.
#[verifier::rlimit(50)]
pub proof fn lemma_escape_string_roundtrip(s: Seq<char>)
    requires
        json_safe(s),
    ensures
        parse_spec(encode_utf8(quoted(s))) == Ok::<JsonView, Seq<char>>(JsonView::String(s)),
{
    let q = quoted(s);
    lemma_quoted_ascii(s);
    lemma_ascii_bytes_of(q);
    let b = encode_utf8(q);
    assert(b.len() == q.len());
    lemma_value_string(b, 0, (b.len() + 1) as nat, s);
    assert(skip_ws_spec(b, q.len() as int) == q.len());
}

} // verus!
