//! Entry ids: ULIDs, 16 bytes (a 48-bit millisecond timestamp, big-endian,
//! then 10 random bytes) written as 26 characters of Crockford's base 32.
use vstd::prelude::*;
use vstd::arithmetic::div_mod::{
    lemma_basic_div, lemma_div_denominator, lemma_div_is_ordered, lemma_fundamental_div_mod,
    lemma_mod_breakdown, lemma_small_mod,
};

use crate::snapshot::bytes_lt;
use crate::text::{
    chars_of, lemma_lex_irrefl, lemma_lex_trichotomy, lex_lt, lower_char, lower_seq, to_lower,
};

verus! {

/// `b` to the power `e`.
pub open spec fn pow_nat(b: nat, e: nat) -> nat
    decreases e,
{
    if e == 0 {
        1
    } else {
        b * pow_nat(b, (e - 1) as nat)
    }
}

/// The number that bytes `b` write, most significant first.
pub open spec fn bytes_value(b: Seq<u8>) -> nat
    decreases b.len(),
{
    if b.len() == 0 {
        0
    } else {
        bytes_value(b.drop_last()) * 256 + b.last() as nat
    }
}

/// Crockford's base-32 digit `d` (upper case; no I, L, O or U).
pub open spec fn crockford(d: nat) -> char {
    "0123456789ABCDEFGHJKMNPQRSTVWXYZ"@[d as int]
}

/// The 26 base-32 digits of `v`, most significant first (the bits above
/// the 130th are dropped).
pub open spec fn ulid_text(v: nat) -> Seq<char> {
    Seq::new(26, |i: int| crockford((v / pow_nat(32, (25 - i) as nat)) % 32))
}

#[verifier::rlimit(50)]
pub proof fn lemma_pow_pos(b: nat, e: nat)
    requires
        b > 0,
    ensures
        pow_nat(b, e) > 0,
    decreases e,
{
    if e > 0 {
        lemma_pow_pos(b, (e - 1) as nat);
        assert(b * pow_nat(b, (e - 1) as nat) > 0) by (nonlinear_arith)
            requires
                b > 0,
                pow_nat(b, (e - 1) as nat) > 0,
        ;
    }
}

#[verifier::rlimit(50)]
proof fn lemma_bytes_value_bound(b: Seq<u8>)
    ensures
        bytes_value(b) < pow_nat(256, b.len()),
    decreases b.len(),
{
    if b.len() > 0 {
        let p = pow_nat(256, (b.len() - 1) as nat);
        lemma_bytes_value_bound(b.drop_last());
        let v = bytes_value(b.drop_last());
        let l = b.last() as nat;
        assert(v * 256 + l < p * 256) by (nonlinear_arith)
            requires
                v < p,
                l < 256,
        ;
    }
}

/// The ULID text of 16 bytes, in upper case (see [`ulid_text`]).
#[verifier::rlimit(50)]
pub fn encode_ulid(bytes: &[u8; 16]) -> (r: String)
    ensures
        r@ == ulid_text(bytes_value(bytes@)),
{
    let ghost bs = bytes@;
    proof {
        reveal_strlit("0123456789ABCDEFGHJKMNPQRSTVWXYZ");
    }
    let mut value: u128 = 0;
    let mut i: usize = 0;
    assert(bs.take(0) =~= Seq::<u8>::empty());
    while i < 16
        invariant
            i <= 16,
            bs == bytes@,
            bs.len() == 16,
            value == bytes_value(bs.take(i as int)),
        decreases 16 - i,
    {
        proof {
            assert(bs.take(i + 1).drop_last() =~= bs.take(i as int));
            lemma_bytes_value_bound(bs.take(i + 1));
            reveal_with_fuel(pow_nat, 2);
            lemma_pow_le_16(i + 1);
        }
        value = value * 256 + bytes[i] as u128;
        i += 1;
    }
    assert(bs.take(16) =~= bs);
    let ghost v = value as nat;
    let alphabet = chars_of("0123456789ABCDEFGHJKMNPQRSTVWXYZ");
    // Digits from the least significant up.
    let mut digits: Vec<char> = Vec::new();
    let mut k: usize = 0;
    assert(alphabet@.len() == 32);
    assert(pow_nat(32, 0) == 1);
    assert(v / 1 == v);
    while k < 26
        invariant
            k <= 26,
            digits@.len() == k,
            value as nat == v / pow_nat(32, k as nat),
            alphabet@ == "0123456789ABCDEFGHJKMNPQRSTVWXYZ"@,
            alphabet@.len() == 32,
            forall|j: int|
                0 <= j < k ==> #[trigger] digits@[j] == crockford((v / pow_nat(32, j as nat)) % 32),
        decreases 26 - k,
    {
        let d = (value % 32) as usize;
        let c = alphabet[d];
        proof {
            assert(c == crockford(d as nat));
            lemma_pow_pos(32, k as nat);
            lemma_div_denominator(v as int, pow_nat(32, k as nat) as int, 32);
            assert(pow_nat(32, (k + 1) as nat) == 32 * pow_nat(32, k as nat));
            assert(pow_nat(32, k as nat) * 32 == 32 * pow_nat(32, k as nat)) by (nonlinear_arith);
        }
        digits.push(c);
        value = value / 32;
        k += 1;
    }
    let mut out = String::new();
    let mut j: usize = 0;
    while j < 26
        invariant
            j <= 26,
            digits@.len() == 26,
            forall|q: int|
                0 <= q < 26 ==> #[trigger] digits@[q] == crockford((v / pow_nat(32, q as nat)) % 32),
            out@ == ulid_text(v).take(j as int),
        decreases 26 - j,
    {
        let c = digits[25 - j];
        crate::text::push_char(&mut out, c);
        assert(ulid_text(v).take(j + 1) =~= ulid_text(v).take(j as int).push(c));
        j += 1;
    }
    assert(ulid_text(v).take(26) =~= ulid_text(v));
    out
}

#[verifier::rlimit(50)]
proof fn lemma_pow_mono(b: nat, m: nat, n: nat)
    requires
        b >= 1,
        m <= n,
    ensures
        pow_nat(b, m) <= pow_nat(b, n),
    decreases n,
{
    if m < n {
        lemma_pow_mono(b, m, (n - 1) as nat);
        lemma_pow_pos(b, (n - 1) as nat);
        let p = pow_nat(b, (n - 1) as nat);
        assert(p <= b * p) by (nonlinear_arith)
            requires
                b >= 1,
                p > 0,
        ;
    }
}

#[verifier::rlimit(50)]
proof fn lemma_pow_le_16(n: int)
    requires
        1 <= n <= 16,
    ensures
        pow_nat(256, n as nat) <= 0x1_0000_0000_0000_0000_0000_0000_0000_0000,
{
    lemma_pow_mono(256, n as nat, 16);
    reveal_with_fuel(pow_nat, 17);
    assert(pow_nat(256, 16) == 0x1_0000_0000_0000_0000_0000_0000_0000_0000);
}

/// The 16 bytes of a ULID made at millisecond `now_ms` with random bytes
/// `rand`: the low 48 bits of `now_ms`, most significant first, then
/// `rand`.
pub open spec fn ulid_bytes_spec(now_ms: u64, rand: Seq<u8>) -> Seq<u8> {
    Seq::new(6, |i: int| ((now_ms as nat / pow_nat(256, (5 - i) as nat)) % 256) as u8) + rand
}

/// The id of a new entry made at millisecond `now_ms` with random bytes
/// `rand`: its ULID text in lower case.
#[verifier::rlimit(50)]
pub fn ulid_from_parts(now_ms: u64, rand: &[u8; 10]) -> (r: String)
    ensures
        r@ == lower_seq(
            ulid_text(bytes_value(ulid_bytes_spec(now_ms, rand@))),
        ),
{
    let mut bytes: [u8; 16] = [0u8; 16];
    let mut rest: u64 = now_ms;
    let mut k: usize = 0;
    assert(pow_nat(256, 0) == 1);
    assert(now_ms as nat / 1 == now_ms as nat);
    while k < 6
        invariant
            k <= 6,
            rest as nat == now_ms as nat / pow_nat(256, k as nat),
            bytes@.len() == 16,
            forall|q: int|
                6 - k <= q < 6 ==> #[trigger] bytes@[q] == ((now_ms as nat / pow_nat(256, (5 - q) as nat))
                    % 256) as u8,
        decreases 6 - k,
    {
        proof {
            lemma_pow_pos(256, k as nat);
            lemma_div_denominator(now_ms as int, pow_nat(256, k as nat) as int, 256);
            assert(pow_nat(256, (k + 1) as nat) == 256 * pow_nat(256, k as nat));
            assert(pow_nat(256, k as nat) * 256 == 256 * pow_nat(256, k as nat)) by (nonlinear_arith);
        }
        bytes[5 - k] = (rest % 256) as u8;
        rest = rest / 256;
        k += 1;
    }
    let mut j: usize = 0;
    while j < 10
        invariant
            j <= 10,
            bytes@.len() == 16,
            forall|q: int|
                0 <= q < 6 ==> #[trigger] bytes@[q] == ((now_ms as nat / pow_nat(256, (5 - q) as nat))
                    % 256) as u8,
            forall|q: int| 0 <= q < j ==> #[trigger] bytes@[6 + q] == rand@[q],
        decreases 10 - j,
    {
        bytes[6 + j] = rand[j];
        j += 1;
    }
    assert forall|q: int| 6 <= q < 16 implies bytes@[q] == ulid_bytes_spec(now_ms, rand@)[q] by {
        assert(bytes@[6 + (q - 6)] == rand@[q - 6]);
    }
    assert(bytes@ =~= ulid_bytes_spec(now_ms, rand@));
    let upper = encode_ulid(&bytes);
    to_lower(upper.as_str())
}

// ---------------------------------------------------------------------------
// Ids made later sort later
// ---------------------------------------------------------------------------

/// Base-32 digit `i` of a 26-digit number, the most significant first.
pub open spec fn digit32(v: nat, i: int) -> nat {
    (v / pow_nat(32, (25 - i) as nat)) % 32
}

/// The number the digits `0..=i` of `v` write (0 for `i == -1`).
spec fn prefix32(v: nat, i: int) -> nat {
    v / pow_nat(32, (25 - i) as nat)
}

#[verifier::rlimit(50)]
proof fn lemma_prefix_step(v: nat, i: int)
    requires
        0 <= i <= 25,
    ensures
        prefix32(v, i - 1) == prefix32(v, i) / 32,
        prefix32(v, i) == 32 * prefix32(v, i - 1) + digit32(v, i),
{
    let p = pow_nat(32, (25 - i) as nat);
    lemma_pow_pos(32, (25 - i) as nat);
    assert(pow_nat(32, (26 - i) as nat) == 32 * p);
    lemma_div_denominator(v as int, p as int, 32);
    assert(p * 32 == 32 * p) by (nonlinear_arith);
    lemma_fundamental_div_mod(prefix32(v, i) as int, 32);
}

/// The first digit where two numbers below `32^26` differ, from `k` on,
/// given that their digits before `k` agree.
#[verifier::rlimit(50)]
proof fn lemma_first_diff(v1: nat, v2: nat, k: int) -> (j: int)
    requires
        0 <= k <= 25,
        v1 < v2,
        prefix32(v1, k - 1) == prefix32(v2, k - 1),
    ensures
        k <= j <= 25,
        forall|i: int| k <= i < j ==> digit32(v1, i) == digit32(v2, i),
        digit32(v1, j) < digit32(v2, j),
    decreases 25 - k,
{
    lemma_prefix_step(v1, k);
    lemma_prefix_step(v2, k);
    let p = pow_nat(32, (25 - k) as nat);
    lemma_pow_pos(32, (25 - k) as nat);
    lemma_div_is_ordered(v1 as int, v2 as int, p as int);
    if prefix32(v1, k) == prefix32(v2, k) {
        if k == 25 {
            assert(pow_nat(32, 0) == 1);
            assert(prefix32(v1, 25) == v1 / 1);
            assert(prefix32(v2, 25) == v2 / 1);
            assert(v1 / 1 == v1 && v2 / 1 == v2) by (nonlinear_arith);
            assert(false);
        }
        let j = lemma_first_diff(v1, v2, k + 1);
        j
    } else {
        k
    }
}

/// The lower-case ULID character for digit `d`.
pub open spec fn low_digit(d: int) -> char {
    if d < 10 {
        (48 + d) as char
    } else if d < 18 {
        (87 + d) as char
    } else if d < 20 {
        (88 + d) as char
    } else if d < 22 {
        (89 + d) as char
    } else if d < 27 {
        (90 + d) as char
    } else {
        (91 + d) as char
    }
}

#[verifier::rlimit(50)]
proof fn lemma_low_digit(d: nat)
    requires
        d < 32,
    ensures
        lower_char(crockford(d)) == low_digit(d as int),
{
    reveal_strlit("0123456789ABCDEFGHJKMNPQRSTVWXYZ");
    assert("0123456789ABCDEFGHJKMNPQRSTVWXYZ"@ =~= seq![
        '0', '1', '2', '3', '4', '5', '6', '7', '8', '9', 'A', 'B', 'C', 'D', 'E', 'F', 'G', 'H',
        'J', 'K', 'M', 'N', 'P', 'Q', 'R', 'S', 'T', 'V', 'W', 'X', 'Y', 'Z',
    ]);
}

#[verifier::rlimit(50)]
proof fn lemma_lex_from_diff(a: Seq<char>, b: Seq<char>, k: int)
    requires
        a.len() == b.len(),
        0 <= k < a.len(),
        forall|i: int| 0 <= i < k ==> a[i] == b[i],
        a[k] < b[k],
    ensures
        lex_lt(a, b),
    decreases k,
{
    if k > 0 {
        assert(a[0] == b[0]);
        lemma_lex_from_diff(a.drop_first(), b.drop_first(), k - 1);
    }
}

/// Lower-case ULID texts are in the order of the numbers they write.
#[verifier::rlimit(50)]
proof fn lemma_text_order(v1: nat, v2: nat)
    requires
        v1 < v2 < pow_nat(32, 26),
    ensures
        lex_lt(lower_seq(ulid_text(v1)), lower_seq(ulid_text(v2))),
{
    lemma_pow_pos(32, 26);
    lemma_basic_div(v1 as int, pow_nat(32, 26) as int);
    lemma_basic_div(v2 as int, pow_nat(32, 26) as int);
    let j = lemma_first_diff(v1, v2, 0);
    let a = lower_seq(ulid_text(v1));
    let b = lower_seq(ulid_text(v2));
    assert forall|i: int| 0 <= i < j implies a[i] == b[i] by {
        assert(digit32(v1, i) == digit32(v2, i));
    }
    lemma_low_digit(digit32(v1, j));
    lemma_low_digit(digit32(v2, j));
    assert(a[j] == low_digit(digit32(v1, j) as int));
    assert(b[j] == low_digit(digit32(v2, j) as int));
    lemma_lex_from_diff(a, b, j);
}

/// The upper-case ULID character for digit `d`.
pub open spec fn up_digit(d: int) -> char {
    if d < 10 {
        (48 + d) as char
    } else if d < 18 {
        (55 + d) as char
    } else if d < 20 {
        (56 + d) as char
    } else if d < 22 {
        (57 + d) as char
    } else if d < 27 {
        (58 + d) as char
    } else {
        (59 + d) as char
    }
}

#[verifier::rlimit(50)]
proof fn lemma_up_digit(d: nat)
    requires
        d < 32,
    ensures
        crockford(d) == up_digit(d as int),
{
    reveal_strlit("0123456789ABCDEFGHJKMNPQRSTVWXYZ");
    assert("0123456789ABCDEFGHJKMNPQRSTVWXYZ"@ =~= seq![
        '0', '1', '2', '3', '4', '5', '6', '7', '8', '9', 'A', 'B', 'C', 'D', 'E', 'F', 'G', 'H',
        'J', 'K', 'M', 'N', 'P', 'Q', 'R', 'S', 'T', 'V', 'W', 'X', 'Y', 'Z',
    ]);
}

/// Upper-case ULID texts are in the order of the numbers they write.
#[verifier::rlimit(50)]
proof fn lemma_upper_text_order(v1: nat, v2: nat)
    requires
        v1 < v2 < pow_nat(32, 26),
    ensures
        lex_lt(ulid_text(v1), ulid_text(v2)),
{
    lemma_pow_pos(32, 26);
    lemma_basic_div(v1 as int, pow_nat(32, 26) as int);
    lemma_basic_div(v2 as int, pow_nat(32, 26) as int);
    let j = lemma_first_diff(v1, v2, 0);
    let a = ulid_text(v1);
    let b = ulid_text(v2);
    assert forall|i: int| 0 <= i < j implies a[i] == b[i] by {
        assert(digit32(v1, i) == digit32(v2, i));
    }
    lemma_up_digit(digit32(v1, j));
    lemma_up_digit(digit32(v2, j));
    lemma_lex_from_diff(a, b, j);
}

/// Byte strings of one length compare lexicographically as the numbers
/// they write.
#[verifier::rlimit(50)]
pub proof fn lemma_bytes_lt_value(a: Seq<u8>, b: Seq<u8>)
    requires
        a.len() == b.len(),
    ensures
        bytes_lt(a, b) <==> bytes_value(a) < bytes_value(b),
    decreases a.len(),
{
    if a.len() == 0 {
        assert(bytes_value(a) == 0 && bytes_value(b) == 0);
    } else {
        let n = (a.len() - 1) as nat;
        let a1 = a.drop_first();
        let b1 = b.drop_first();
        assert(seq![a[0]] + a1 =~= a);
        assert(seq![b[0]] + b1 =~= b);
        lemma_bytes_concat(seq![a[0]], a1);
        lemma_bytes_concat(seq![b[0]], b1);
        assert(seq![a[0]].drop_last() =~= Seq::<u8>::empty());
        assert(seq![b[0]].drop_last() =~= Seq::<u8>::empty());
        assert(bytes_value(Seq::<u8>::empty()) == 0);
        assert(seq![a[0]].last() == a[0] && seq![b[0]].last() == b[0]);
        assert(bytes_value(seq![a[0]]) == a[0] as nat);
        assert(bytes_value(seq![b[0]]) == b[0] as nat);
        let p = pow_nat(256, n);
        lemma_bytes_value_bound(a1);
        lemma_bytes_value_bound(b1);
        lemma_bytes_lt_value(a1, b1);
        let x = a[0] as nat;
        let y = b[0] as nat;
        let va1 = bytes_value(a1);
        let vb1 = bytes_value(b1);
        if x < y {
            assert(x * p + va1 < y * p + vb1) by (nonlinear_arith)
                requires
                    x < y,
                    va1 < p,
                    0 <= vb1,
            ;
        } else if y < x {
            assert(y * p + vb1 < x * p + va1) by (nonlinear_arith)
                requires
                    y < x,
                    vb1 < p,
                    0 <= va1,
            ;
        }
    }
}

/// The ULID texts of two 16-byte values compare as the bytes do
/// (lexicographically, which is the order of the 128-bit numbers they
/// write): `encode_ulid` keeps the order of ids.
#[verifier::rlimit(50)]
pub proof fn lemma_encode_ulid_order(a: Seq<u8>, b: Seq<u8>)
    requires
        a.len() == 16,
        b.len() == 16,
    ensures
        bytes_lt(a, b) <==> bytes_value(a) < bytes_value(b),
        bytes_value(a) < bytes_value(b) <==> lex_lt(
            ulid_text(bytes_value(a)),
            ulid_text(bytes_value(b)),
        ),
        bytes_value(a) == bytes_value(b) <==> ulid_text(bytes_value(a)) == ulid_text(bytes_value(b)),
{
    reveal_with_fuel(pow_nat, 27);
    assert(pow_nat(256, 16) == 0x1_0000_0000_0000_0000_0000_0000_0000_0000);
    assert(pow_nat(32, 26) == 0x4_0000_0000_0000_0000_0000_0000_0000_0000);
    lemma_bytes_value_bound(a);
    lemma_bytes_value_bound(b);
    let va = bytes_value(a);
    let vb = bytes_value(b);
    let ta = ulid_text(va);
    let tb = ulid_text(vb);
    lemma_bytes_lt_value(a, b);
    lemma_lex_trichotomy(ta, tb);
    lemma_lex_irrefl(ta);
    if va < vb {
        lemma_upper_text_order(va, vb);
    } else if vb < va {
        lemma_upper_text_order(vb, va);
    }
}

/// The ULID text of 16 bytes has 26 characters, each from Crockford's
/// alphabet, and the first is one of `0` to `7` (128 bits fill 26 digits
/// but the top two bits are zero).
#[verifier::rlimit(50)]
pub proof fn lemma_ulid_text_shape(a: Seq<u8>)
    requires
        a.len() == 16,
    ensures
        ulid_text(bytes_value(a)).len() == 26,
        forall|i: int|
            0 <= i < 26 ==> "0123456789ABCDEFGHJKMNPQRSTVWXYZ"@.contains(
                #[trigger] ulid_text(bytes_value(a))[i],
            ),
        '0' <= ulid_text(bytes_value(a))[0] <= '7',
{
    reveal_strlit("0123456789ABCDEFGHJKMNPQRSTVWXYZ");
    let v = bytes_value(a);
    let t = ulid_text(v);
    assert forall|i: int| 0 <= i < 26 implies "0123456789ABCDEFGHJKMNPQRSTVWXYZ"@.contains(
        #[trigger] t[i],
    ) by {
        let d = digit32(v, i);
        assert("0123456789ABCDEFGHJKMNPQRSTVWXYZ"@[d as int] == t[i]);
    }
    reveal_with_fuel(pow_nat, 27);
    assert(pow_nat(256, 16) == 0x1_0000_0000_0000_0000_0000_0000_0000_0000);
    let p = pow_nat(32, 25);
    assert(p == 0x2000_0000_0000_0000_0000_0000_0000_0000);
    lemma_bytes_value_bound(a);
    assert(v / p < 8) by (nonlinear_arith)
        requires
            v < 8 * p,
            p > 0,
    ;
    lemma_small_mod(v / p, 32);
    lemma_up_digit(digit32(v, 0));
}

#[verifier::rlimit(50)]
proof fn lemma_bytes_concat(a: Seq<u8>, b: Seq<u8>)
    ensures
        bytes_value(a + b) == bytes_value(a) * pow_nat(256, b.len()) + bytes_value(b),
    decreases b.len(),
{
    if b.len() == 0 {
        assert(a + b =~= a);
        assert(pow_nat(256, 0) == 1);
        assert(bytes_value(a) * 1 == bytes_value(a));
    } else {
        let b1 = b.drop_last();
        assert((a + b).len() > 0);
        assert(bytes_value(a + b) == bytes_value((a + b).drop_last()) * 256 + (a + b).last() as nat);
        assert(bytes_value(b) == bytes_value(b1) * 256 + b.last() as nat);
        assert((a + b).drop_last() =~= a + b1);
        assert((a + b).last() == b.last());
        lemma_bytes_concat(a, b1);
        let p = pow_nat(256, b1.len());
        let x = bytes_value(a);
        assert(pow_nat(256, b.len()) == 256 * p);
        assert((x * p + bytes_value(b1)) * 256 + b.last() == x * (256 * p) + (bytes_value(b1) * 256
            + b.last())) by (nonlinear_arith);
    }
}

/// The `n` base-256 digits of `x`, most significant first.
spec fn digits256(x: nat, n: nat) -> Seq<u8> {
    Seq::new(n, |i: int| ((x / pow_nat(256, (n - 1 - i) as nat)) % 256) as u8)
}

#[verifier::rlimit(50)]
proof fn lemma_digits256_value(x: nat, n: nat)
    ensures
        bytes_value(digits256(x, n)) == x % pow_nat(256, n),
    decreases n,
{
    lemma_pow_pos(256, n);
    if n == 0 {
        assert(x % 1 == 0) by (nonlinear_arith);
    } else {
        let m = (n - 1) as nat;
        lemma_digits256_value(x / 256, m);
        let d = digits256(x, n);
        assert forall|i: int| 0 <= i < m implies d.drop_last()[i] == digits256(x / 256, m)[i] by {
            let q = pow_nat(256, (m - 1 - i) as nat);
            lemma_pow_pos(256, (m - 1 - i) as nat);
            lemma_div_denominator(x as int, 256, q as int);
            assert(pow_nat(256, (n - 1 - i) as nat) == 256 * q);
        }
        assert(d.drop_last() =~= digits256(x / 256, m));
        assert(pow_nat(256, 0) == 1);
        assert(d.last() == ((x / 1) % 256) as u8);
        assert(x / 1 == x) by (nonlinear_arith);
        lemma_pow_pos(256, m);
        lemma_mod_breakdown(x as int, 256, pow_nat(256, m) as int);
        assert(pow_nat(256, n) == 256 * pow_nat(256, m));
    }
}

/// The number a ULID made at millisecond `now_ms` (below `2^48`) writes:
/// the time above the 80 random bits.
#[verifier::rlimit(50)]
proof fn lemma_ulid_value(now_ms: u64, rand: Seq<u8>)
    requires
        now_ms < pow_nat(256, 6),
        rand.len() == 10,
    ensures
        bytes_value(ulid_bytes_spec(now_ms, rand)) == now_ms * pow_nat(256, 10) + bytes_value(rand),
{
    let t = Seq::new(6, |i: int| ((now_ms as nat / pow_nat(256, (5 - i) as nat)) % 256) as u8);
    assert(t =~= digits256(now_ms as nat, 6));
    lemma_digits256_value(now_ms as nat, 6);
    lemma_small_mod(now_ms as nat, pow_nat(256, 6));
    lemma_bytes_concat(t, rand);
}

/// Entry ids made at a later millisecond sort after those made earlier,
/// whatever their random bytes (for times below `2^48` ms): listing the
/// ids in descending order lists the entries newest first.
#[verifier::rlimit(50)]
pub proof fn lemma_ulid_time_order(now1: u64, now2: u64, rand1: Seq<u8>, rand2: Seq<u8>)
    requires
        now1 < now2,
        now2 < 0x1_0000_0000_0000,
        rand1.len() == 10,
        rand2.len() == 10,
    ensures
        lex_lt(
            lower_seq(ulid_text(bytes_value(ulid_bytes_spec(now1, rand1)))),
            lower_seq(ulid_text(bytes_value(ulid_bytes_spec(now2, rand2)))),
        ),
{
    reveal_with_fuel(pow_nat, 27);
    assert(pow_nat(256, 6) == 0x1_0000_0000_0000);
    let p = pow_nat(256, 10);
    assert(p == 0x1_0000_0000_0000_0000_0000);
    assert(pow_nat(32, 26) == 0x4_0000_0000_0000_0000_0000_0000_0000_0000);
    lemma_ulid_value(now1, rand1);
    lemma_ulid_value(now2, rand2);
    lemma_bytes_value_bound(rand1);
    lemma_bytes_value_bound(rand2);
    let v1: nat = (now1 * p + bytes_value(rand1)) as nat;
    let v2: nat = (now2 * p + bytes_value(rand2)) as nat;
    assert(v1 < v2 < pow_nat(32, 26)) by (nonlinear_arith)
        requires
            now1 < now2,
            now2 < 0x1_0000_0000_0000,
            p == 0x1_0000_0000_0000_0000_0000,
            bytes_value(rand1) < p,
            bytes_value(rand2) < p,
            v1 == now1 * p + bytes_value(rand1),
            v2 == now2 * p + bytes_value(rand2),
            pow_nat(32, 26) == 0x4_0000_0000_0000_0000_0000_0000_0000_0000,
    ;
    lemma_text_order(v1, v2);
}

} // verus!
