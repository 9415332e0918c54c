//! Human-readable byte sizes: bytes below 1 KiB, otherwise KiB, MiB or
//! GiB with one decimal, rounded the way Rust formats an `f64` with `{:.1}`
//! (to nearest, ties to even, from the exact value of the `f64`).
use vstd::prelude::*;
use vstd::arithmetic::power2::pow2;

use crate::text::{dec_int, dec_nat, i64_to_dec, push_char, push_str, str_eq, u64_to_dec};

verus! {

/// `num / den` rounded to the nearest integer, ties to the even one.
pub open spec fn round_half_even(num: nat, den: nat) -> nat
    recommends
        den > 0,
{
    let q = num / den;
    let r = num % den;
    if 2 * r > den || (2 * r == den && q % 2 == 1) {
        q + 1
    } else {
        q
    }
}

/// Number of binary digits of `n` (0 for 0).
pub open spec fn bit_len(n: nat) -> nat
    decreases n,
{
    if n == 0 {
        0
    } else {
        1 + bit_len(n / 2)
    }
}

/// The value of `n as f64`: `n` rounded to 53 significant bits, ties to
/// even.
pub open spec fn f64_value(n: nat) -> nat {
    if bit_len(n) <= 53 {
        n
    } else {
        let unit = pow2((bit_len(n) - 53) as nat);
        round_half_even(n, unit) * unit
    }
}

/// A number of tenths written with one decimal: `12` is `1.2`.
pub open spec fn one_decimal(tenths: nat) -> Seq<char> {
    dec_nat(tenths / 10) + seq!['.'] + dec_nat(tenths % 10)
}

/// A size as `human_size` writes it: `NB` below 1024 bytes (negative sizes
/// included), otherwise the size in KiB, MiB or GiB with one decimal.
pub open spec fn human_size_spec(n: int) -> Seq<char> {
    if n < 1024 {
        dec_int(n) + seq!['B']
    } else if n < 1024 * 1024 {
        one_decimal(round_half_even((10 * n) as nat, 1024)) + seq!['K']
    } else if n < 1024 * 1024 * 1024 {
        one_decimal(round_half_even((10 * n) as nat, 1024 * 1024)) + seq!['M']
    } else {
        one_decimal(round_half_even(10 * f64_value(n as nat), 1024 * 1024 * 1024)) + seq!['G']
    }
}

/// `num / den` rounded half to even.
#[verifier::rlimit(50)]
fn round_half_even_u128(num: u128, den: u128) -> (r: u128)
    requires
        0 < den <= 0x1_0000_0000_0000_0000,
        num <= 0x1_0000_0000_0000_0000_0000_0000,
    ensures
        r == round_half_even(num as nat, den as nat),
{
    let q = num / den;
    let r = num % den;
    if 2 * r > den || (2 * r == den && q % 2 == 1) {
        q + 1
    } else {
        q
    }
}

#[verifier::rlimit(50)]
proof fn lemma_bit_len_bound(n: nat, k: nat)
    requires
        n < pow2(k),
    ensures
        bit_len(n) <= k,
    decreases k,
{
    vstd::arithmetic::power2::lemma2_to64();
    if n > 0 {
        if k == 0 {
            assert(false);
        } else {
            vstd::arithmetic::power2::lemma_pow2_unfold(k);
            assert(n / 2 < pow2((k - 1) as nat));
            lemma_bit_len_bound(n / 2, (k - 1) as nat);
        }
    }
}

#[verifier::rlimit(50)]
proof fn lemma_below_pow2_bit_len(n: nat)
    ensures
        n < pow2(bit_len(n)),
    decreases n,
{
    vstd::arithmetic::power2::lemma2_to64();
    if n > 0 {
        lemma_below_pow2_bit_len(n / 2);
        vstd::arithmetic::power2::lemma_pow2_unfold(bit_len(n));
    }
}

/// The value of `n as f64`, for `n` below 2^63.
#[verifier::rlimit(50)]
fn f64_round(n: u64) -> (r: u64)
    requires
        n < 0x8000_0000_0000_0000u64,
    ensures
        r == f64_value(n as nat),
{
    proof {
        vstd::arithmetic::power2::lemma2_to64();
        vstd::arithmetic::power2::lemma2_to64_rest();
        lemma_bit_len_bound(n as nat, 63);
    }
    let mut m: u64 = n;
    let mut len: u64 = 0;
    while m > 0
        invariant
            bit_len(n as nat) == len + bit_len(m as nat),
            bit_len(n as nat) <= 63,
        decreases m,
    {
        m = m / 2;
        len = len + 1;
    }
    if len <= 53 {
        return n;
    }
    let sh = len - 53;
    let mut unit: u64 = 1;
    let mut i: u64 = 0;
    while i < sh
        invariant
            i <= sh <= 10,
            unit as nat == pow2(i as nat),
        decreases sh - i,
    {
        proof {
            vstd::arithmetic::power2::lemma_pow2_unfold((i + 1) as nat);
            vstd::arithmetic::power2::lemma2_to64();
        }
        unit = unit * 2;
        i = i + 1;
    }
    let q = n / unit;
    let r = n % unit;
    proof {
        lemma_below_pow2_bit_len(n as nat);
        vstd::arithmetic::power2::lemma_pow2_adds(53, sh as nat);
        vstd::arithmetic::power2::lemma2_to64();
        vstd::arithmetic::power2::lemma2_to64_rest();
        vstd::arithmetic::power2::lemma_pow2_pos(sh as nat);
        assert(q + 1 <= pow2(53)) by (nonlinear_arith)
            requires
                q == n / unit,
                unit > 0,
                n < pow2(53) * unit,
        {
            assert(q * unit <= n);
        }
        if len < 63 {
            vstd::arithmetic::power2::lemma_pow2_strictly_increases(len as nat, 63);
        }
        assert((q + 1) * unit <= 0x8000_0000_0000_0000u64) by (nonlinear_arith)
            requires
                q + 1 <= pow2(53),
                pow2(53) * unit == pow2(len as nat),
                pow2(len as nat) <= 0x8000_0000_0000_0000u64,
                unit > 0,
        ;
    }
    let rounded = if 2 * r > unit || (2 * r == unit && q % 2 == 1) {
        q + 1
    } else {
        q
    };
    proof {
        assert(rounded * unit <= (q + 1) * unit) by (nonlinear_arith)
            requires
                rounded <= q + 1,
                unit > 0,
        ;
    }
    rounded * unit
}

/// A size for humans (see [`human_size_spec`]).
#[verifier::rlimit(50)]
pub fn human_size(n: i64) -> (r: String)
    ensures
        r@ == human_size_spec(n as int),
{
    if n < 1024 {
        let mut out = i64_to_dec(n);
        push_char(&mut out, 'B');
        return out;
    }
    let (tenths, unit): (u128, char) = if n < 1024 * 1024 {
        (round_half_even_u128(10 * (n as u128), 1024), 'K')
    } else if n < 1024 * 1024 * 1024 {
        (round_half_even_u128(10 * (n as u128), 1024 * 1024), 'M')
    } else {
        let v = f64_round(n as u64);
        (round_half_even_u128(10 * (v as u128), 1024 * 1024 * 1024), 'G')
    };
    proof {
        assert(tenths <= 0x1_0000_0000_0000_0000_0000u128) by (nonlinear_arith)
            requires
                tenths <= 10 * 0x8000_0000_0000_0000u128 / 1024 + 1,
        ;
    }
    let whole = tenths / 10;
    let frac = tenths % 10;
    let mut out = u64_to_dec(whole as u64);
    push_char(&mut out, '.');
    let f = u64_to_dec(frac as u64);
    push_str(&mut out, f.as_str());
    push_char(&mut out, unit);
    assert(out@ =~= one_decimal(tenths as nat) + seq![unit]);
    out
}

/// A size as listings show it: the exact number of bytes in `bytes` mode,
/// a size for humans otherwise.
pub open spec fn format_size_spec(size: int, mode: Seq<char>) -> Seq<char> {
    if mode == "bytes"@ {
        dec_int(size)
    } else {
        human_size_spec(size)
    }
}

/// A size in the given display mode (see [`format_size_spec`]).
#[verifier::rlimit(50)]
pub fn format_size(size: i64, mode: &str) -> (r: String)
    ensures
        r@ == format_size_spec(size as int, mode@),
{
    if str_eq(mode, "bytes") {
        i64_to_dec(size)
    } else {
        human_size(size)
    }
}

/// How many decimal digits `n` has (0 for 0).
pub open spec fn digit_count(n: nat) -> nat
    decreases n,
{
    if n == 0 {
        0
    } else {
        1 + digit_count(n / 10)
    }
}

/// The width of a size cell: with `bytes`, the number of digits of the
/// size without its sign (1 for 0); otherwise the length of its human
/// form.
pub open spec fn size_width_spec(size: i64, bytes: bool) -> nat {
    if bytes {
        if size == 0 {
            1
        } else if size < 0 {
            digit_count((-(size as int)) as nat)
        } else {
            digit_count(size as nat)
        }
    } else {
        human_size_spec(size as int).len()
    }
}

/// The width of a size cell (see [`size_width_spec`]).
#[verifier::rlimit(50)]
pub fn measure_size_width(size: i64, bytes: bool) -> (r: usize)
    ensures
        r == size_width_spec(size, bytes),
{
    if bytes {
        if size == 0 {
            return 1;
        }
        let mut n: u64 = if size < 0 {
            if size == i64::MIN {
                0x8000_0000_0000_0000u64
            } else {
                (-size) as u64
            }
        } else {
            size as u64
        };
        let ghost n0 = n as nat;
        assert(n0 == if size < 0 {
            (-(size as int)) as nat
        } else {
            size as nat
        });
        let mut digits: usize = 0;
        proof {
            lemma_digit_count_bound(n as nat);
        }
        while n > 0
            invariant
                digits + digit_count(n as nat) == digit_count(n0),
                digits <= 20 - digit_count(n as nat),
                digit_count(n as nat) <= 20,
            decreases n,
        {
            proof {
                lemma_digit_count_bound(n as nat);
            }
            n = n / 10;
            digits = digits + 1;
        }
        digits
    } else {
        let h = human_size(size);
        crate::text::chars_of(h.as_str()).len()
    }
}

#[verifier::rlimit(50)]
proof fn lemma_digit_count_bound(n: nat)
    requires
        n <= u64::MAX,
    ensures
        digit_count(n) <= 20,
{
    lemma_digit_count_mono(n, 0xFFFF_FFFF_FFFF_FFFF);
    reveal_with_fuel(digit_count, 21);
    assert(digit_count(0xFFFF_FFFF_FFFF_FFFF) == 20);
}

#[verifier::rlimit(50)]
proof fn lemma_digit_count_mono(a: nat, b: nat)
    requires
        a <= b,
    ensures
        digit_count(a) <= digit_count(b),
    decreases b,
{
    if a > 0 {
        lemma_digit_count_mono(a / 10, b / 10);
    }
}

} // verus!
