//! A bit-level model of IEEE 754 binary64 values.
//!
//! A finite binary64 value is an integer multiple of `2^-1074`, so every
//! finite value is modelled exactly by the integer [`val_scaled`], its value
//! in units of `2^-1074`.  [`wide_val`] extends that model with sentinels
//! for the two infinities, placed beyond every finite magnitude, so that
//! comparisons can be specified uniformly for every non-NaN pattern.

use vstd::prelude::*;

verus! {

use vstd::arithmetic::div_mod::lemma_fundamental_div_mod_converse;
use vstd::arithmetic::mul::lemma_mul_inequality;
use vstd::arithmetic::mul::lemma_mul_strict_inequality;
use vstd::arithmetic::mul::lemma_mul_strictly_positive;
use vstd::arithmetic::power2::lemma2_to64;
use vstd::arithmetic::power2::lemma_pow2_adds;
use vstd::arithmetic::power2::lemma_pow2_pos;
use vstd::arithmetic::power2::lemma_pow2_strictly_increases;
use vstd::arithmetic::power2::pow2;

/// The sign bit of a binary64 pattern: 0 for positive, 1 for negative.
pub open spec fn sign_bit(b: u64) -> u64 {
    b >> 63
}

/// The biased exponent field, 11 bits.
pub open spec fn biased_exp(b: u64) -> u64 {
    (b >> 52) & 0x7ff
}

/// The fraction field, 52 bits.
pub open spec fn frac_field(b: u64) -> u64 {
    b & 0xf_ffff_ffff_ffff
}

/// The sign and the two magnitude fields of every pattern are small.
pub proof fn lemma_field_bounds(b: u64)
    ensures
        sign_bit(b) == 0 || sign_bit(b) == 1,
        biased_exp(b) < 0x800,
        frac_field(b) < 0x10_0000_0000_0000,
{
    assert((b >> 63) == 0 || (b >> 63) == 1) by (bit_vector);
    assert(((b >> 52) & 0x7ff) < 0x800) by (bit_vector);
    assert((b & 0xf_ffff_ffff_ffff) < 0x10_0000_0000_0000) by (bit_vector);
}

/// Two patterns with equal sign, exponent and fraction fields are equal.
pub proof fn lemma_bits_from_fields(a: u64, b: u64)
    requires
        sign_bit(a) == sign_bit(b),
        biased_exp(a) == biased_exp(b),
        frac_field(a) == frac_field(b),
    ensures
        a == b,
{
    assert((a >> 63) == (b >> 63) && ((a >> 52) & 0x7ff) == ((b >> 52) & 0x7ff)
        && (a & 0xf_ffff_ffff_ffff) == (b & 0xf_ffff_ffff_ffff) ==> a == b) by (bit_vector);
}

/// A NaN pattern: exponent field all ones, fraction nonzero.
pub open spec fn is_nan(b: u64) -> bool {
    biased_exp(b) == 0x7ff && frac_field(b) != 0
}

/// A finite pattern (neither NaN nor an infinity).
pub open spec fn is_finite(b: u64) -> bool {
    biased_exp(b) != 0x7ff
}

/// The significand including the hidden bit, for a finite pattern.
pub open spec fn sig(b: u64) -> int {
    if biased_exp(b) == 0 {
        frac_field(b) as int
    } else {
        0x10_0000_0000_0000 + frac_field(b)
    }
}

/// The exponent of `2` applied to the significand, relative to `2^-1074`.
pub open spec fn eexp(b: u64) -> nat {
    if biased_exp(b) == 0 {
        0
    } else {
        (biased_exp(b) - 1) as nat
    }
}

/// The magnitude of a finite pattern, in units of `2^-1074`.
pub open spec fn mag_scaled(b: u64) -> int {
    sig(b) * pow2(eexp(b))
}

/// The value of a finite pattern, in units of `2^-1074`.
pub open spec fn val_scaled(b: u64) -> int {
    if sign_bit(b) == 1 {
        -mag_scaled(b)
    } else {
        mag_scaled(b)
    }
}

/// The value of any non-NaN pattern in units of `2^-1074`, with the two
/// infinities mapped to `±2^2100`, beyond every finite magnitude.
pub open spec fn wide_val(b: u64) -> int {
    if is_finite(b) {
        val_scaled(b)
    } else if sign_bit(b) == 0 {
        pow2(2100) as int
    } else {
        -(pow2(2100) as int)
    }
}

/// The magnitude of any non-NaN pattern under the same extension.
pub open spec fn wide_mag(b: u64) -> int {
    if is_finite(b) {
        mag_scaled(b)
    } else {
        pow2(2100) as int
    }
}

/// The magnitude payload of a pattern: everything but the sign bit.
pub open spec fn payload(b: u64) -> u64 {
    b & 0x7fff_ffff_ffff_ffff
}

/// A finite magnitude is nonnegative and below `2^2098`.
pub proof fn lemma_mag_bounds(b: u64)
    requires
        is_finite(b),
    ensures
        0 <= mag_scaled(b),
        mag_scaled(b) < pow2(2098),
        mag_scaled(b) == 0 <==> payload(b) == 0,
{
    lemma_field_bounds(b);
    lemma_pow2_pos(eexp(b));
    lemma2_to64();
    vstd::arithmetic::power2::lemma2_to64_rest();
    assert(sig(b) < 0x20_0000_0000_0000);
    assert(sig(b) >= 0);
    vstd::arithmetic::mul::lemma_mul_nonnegative(sig(b), pow2(eexp(b)) as int);
    // mag = sig * 2^eexp < 2^53 * 2^2045 = 2^2098
    assert(eexp(b) <= 2045);
    lemma_pow2_strictly_increases_or_eq(eexp(b), 2045);
    lemma_mul_upper_bound_both(sig(b), 0x20_0000_0000_0000, pow2(eexp(b)) as int, pow2(2045) as int);
    lemma_pow2_adds(53, 2045);
    assert(pow2(53) == 0x20_0000_0000_0000);
    assert(mag_scaled(b) < pow2(2098));
    // zero characterization
    assert(payload(b) == 0 ==> biased_exp(b) == 0 && frac_field(b) == 0) by {
        assert((b & 0x7fff_ffff_ffff_ffff) == 0 ==> ((b >> 52) & 0x7ff) == 0 && (b
            & 0xf_ffff_ffff_ffff) == 0) by (bit_vector);
    }
    assert(biased_exp(b) == 0 && frac_field(b) == 0 ==> payload(b) == 0) by {
        assert(((b >> 52) & 0x7ff) == 0 && (b & 0xf_ffff_ffff_ffff) == 0 ==> (b
            & 0x7fff_ffff_ffff_ffff) == 0) by (bit_vector);
    }
    if biased_exp(b) == 0 {
        assert(mag_scaled(b) == frac_field(b) * pow2(0));
        lemma2_to64();
    } else {
        assert(sig(b) > 0);
        lemma_mul_strictly_positive(sig(b), pow2(eexp(b)) as int);
    }
}

/// `pow2` is monotone (not necessarily strictly).
pub proof fn lemma_pow2_strictly_increases_or_eq(e1: nat, e2: nat)
    requires
        e1 <= e2,
    ensures
        pow2(e1) <= pow2(e2),
{
    if e1 < e2 {
        lemma_pow2_strictly_increases(e1, e2);
    }
}

/// `x * y <= xb * yb` for nonnegative factors below their bounds.
proof fn lemma_mul_upper_bound_both(x: int, xb: int, y: int, yb: int)
    requires
        0 <= x < xb,
        0 < y <= yb,
    ensures
        x * y < xb * yb,
{
    lemma_mul_strict_inequality(x, xb, y);
    lemma_mul_inequality(y, yb, xb);
    vstd::arithmetic::mul::lemma_mul_is_commutative(y, xb);
    vstd::arithmetic::mul::lemma_mul_is_commutative(yb, xb);
}

/// Ordering the payload bits as integers orders the magnitudes they denote:
/// the heart of every comparison in this crate.
pub proof fn lemma_payload_order(a: u64, b: u64)
    requires
        !is_nan(a),
        !is_nan(b),
        payload(a) < payload(b),
    ensures
        wide_mag(a) < wide_mag(b),
{
    lemma_field_bounds(a);
    lemma_field_bounds(b);
    let ea = biased_exp(a);
    let eb = biased_exp(b);
    let fa = frac_field(a);
    let fb = frac_field(b);
    assert((a & 0x7fff_ffff_ffff_ffff) < (b & 0x7fff_ffff_ffff_ffff) ==> (((a >> 52) & 0x7ff) < ((b
        >> 52) & 0x7ff) || (((a >> 52) & 0x7ff) == ((b >> 52) & 0x7ff) && (a & 0xf_ffff_ffff_ffff)
        < (b & 0xf_ffff_ffff_ffff)))) by (bit_vector);
    if !is_finite(b) {
        // b is an infinity; a must be finite since payload(a) < payload(b)
        assert(ea < 0x7ff || (ea == 0x7ff && fa < fb));
        assert(is_finite(a));
        lemma_mag_bounds(a);
        lemma_pow2_strictly_increases(2098, 2100);
    } else {
        assert(is_finite(a));
        lemma_mag_bounds(a);
        lemma_mag_bounds(b);
        lemma_pow2_pos(eexp(a));
        lemma_pow2_pos(eexp(b));
        lemma2_to64();
        vstd::arithmetic::power2::lemma2_to64_rest();
        if ea == eb {
            assert(fa < fb);
            assert(sig(a) < sig(b));
            lemma_mul_strict_inequality(sig(a), sig(b), pow2(eexp(a)) as int);
        } else {
            assert(ea < eb);
            if ea == 0 {
                // mag(a) = fa < 2^52 <= sig(b) <= mag(b)
                assert(mag_scaled(a) == fa * pow2(0));
                assert(mag_scaled(a) < 0x10_0000_0000_0000);
                assert(sig(b) >= 0x10_0000_0000_0000);
                lemma_mul_lower_bound_one(sig(b), pow2(eexp(b)) as int);
                assert(mag_scaled(b) >= sig(b));
            } else {
                // mag(a) < 2^53 * 2^eexp(a) <= 2^52 * 2^eexp(b) <= mag(b)
                assert(sig(a) < 0x20_0000_0000_0000);
                lemma_mul_upper_bound_both(
                    sig(a),
                    0x20_0000_0000_0000,
                    pow2(eexp(a)) as int,
                    pow2(eexp(a)) as int,
                );
                assert(pow2(53) == 0x20_0000_0000_0000);
                lemma_pow2_adds(53, eexp(a));
                assert(mag_scaled(a) < pow2(53 + eexp(a)));
                assert(53 + eexp(a) <= 52 + eexp(b));
                lemma_pow2_strictly_increases_or_eq(53 + eexp(a), 52 + eexp(b));
                lemma_pow2_adds(52, eexp(b));
                assert(pow2(52) == 0x10_0000_0000_0000);
                assert(sig(b) >= 0x10_0000_0000_0000);
                lemma_mul_inequality(pow2(52) as int, sig(b), pow2(eexp(b)) as int);
                vstd::arithmetic::mul::lemma_mul_is_commutative(
                    pow2(52) as int,
                    pow2(eexp(b)) as int,
                );
                assert(mag_scaled(b) >= pow2(52 + eexp(b)));
            }
        }
    }
}

/// `x * y >= x` for `y >= 1`, `x >= 0`.
proof fn lemma_mul_lower_bound_one(x: int, y: int)
    requires
        0 <= x,
        1 <= y,
    ensures
        x * y >= x,
{
    if 0 < x {
        vstd::arithmetic::mul::lemma_mul_increases(y, x);
        vstd::arithmetic::mul::lemma_mul_is_commutative(x, y);
    }
}

/// Computes `2^e` as a `u64`.
pub fn pow2_u64(e: u64) -> (r: u64)
    requires
        e < 64,
    ensures
        r == pow2(e as nat),
{
    let mut i: u64 = 0;
    let mut p: u64 = 1;
    proof {
        lemma2_to64();
    }
    while i < e
        invariant
            i <= e,
            e < 64,
            p == pow2(i as nat),
        decreases e - i,
    {
        proof {
            lemma_pow2_strictly_increases(i as nat, 63);
            vstd::arithmetic::power2::lemma2_to64_rest();
            assert(pow2(63) == 0x8000_0000_0000_0000);
            lemma_pow2_adds(i as nat, 1);
            lemma2_to64();
        }
        p = p * 2;
        i = i + 1;
    }
    p
}

/// Computes `2^e` as a `u128`.
pub fn pow2_u128(e: u64) -> (r: u128)
    requires
        e < 128,
    ensures
        r == pow2(e as nat),
{
    let mut i: u64 = 0;
    let mut p: u128 = 1;
    proof {
        lemma2_to64();
    }
    while i < e
        invariant
            i <= e,
            e < 128,
            p == pow2(i as nat),
        decreases e - i,
    {
        proof {
            lemma_pow2_strictly_increases(i as nat, 127);
            lemma_pow2_adds(64, 63);
            vstd::arithmetic::power2::lemma2_to64_rest();
            lemma2_to64();
            assert(pow2(127) == pow2(64) * pow2(63));
            lemma_pow2_adds(i as nat, 1);
        }
        p = p * 2;
        i = i + 1;
    }
    p
}

/// The index of the highest set bit: `2^r <= x < 2^(r+1)`.
pub fn top_bit(x: u128) -> (r: u64)
    requires
        x > 0,
    ensures
        r < 128,
        pow2(r as nat) <= x < pow2((r + 1) as nat),
{
    let mut t: u128 = x;
    let mut r: u64 = 0;
    proof {
        lemma2_to64();
    }
    while t >= 2
        invariant
            x > 0,
            r < 128,
            t == x as int / pow2(r as nat) as int,
            t >= 1,
        decreases t,
    {
        proof {
            lemma_pow2_pos(r as nat);
            lemma_pow2_adds(r as nat, 1);
            lemma2_to64();
            vstd::arithmetic::div_mod::lemma_div_denominator(
                x as int,
                pow2(r as nat) as int,
                2,
            );
            // r stays below 128: t >= 2 means 2^(r+1) <= x < 2^128
            vstd::arithmetic::div_mod::lemma_div_pos_is_pos(x as int, pow2(r as nat) as int);
            lemma_div_lower_bound(x as int, pow2(r as nat) as int, t as int);
            if r >= 127 {
                // t >= 2 at r == 127 would need x >= 2^128
                lemma_mul_inequality(2, t as int, pow2(127) as int);
                lemma_pow2_adds(64, 63);
                vstd::arithmetic::power2::lemma2_to64_rest();
                assert(pow2(127) == pow2(64) * pow2(63));
                assert(x as int >= 2 * pow2(127));
                assert(false);
            }
        }
        t = t / 2;
        r = r + 1;
    }
    proof {
        lemma_pow2_pos(r as nat);
        lemma_div_bounds_give_range(x as int, pow2(r as nat) as int);
        lemma_pow2_adds(r as nat, 1);
        lemma2_to64();
    }
    r
}

/// From `x / d == q` with `q >= 1` conclude `x >= q * d`.
proof fn lemma_div_lower_bound(x: int, d: int, q: int)
    requires
        0 < d,
        0 <= x,
        x / d == q,
    ensures
        x >= q * d,
        x < (q + 1) * d,
{
    vstd::arithmetic::div_mod::lemma_fundamental_div_mod(x, d);
    vstd::arithmetic::div_mod::lemma_mod_bound(x, d);
    assert(x == d * (x / d) + x % d);
    vstd::arithmetic::mul::lemma_mul_is_commutative(d, q);
    vstd::arithmetic::mul::lemma_mul_is_distributive_add_other_way(d, q, 1);
}

/// From `x / d == 1` conclude `d <= x < 2d`.
proof fn lemma_div_bounds_give_range(x: int, d: int)
    requires
        0 < d,
        0 <= x,
        x / d == 1,
    ensures
        d <= x < 2 * d,
{
    lemma_div_lower_bound(x, d, 1);
}

/// Establishes `n / d == q` and `n % d == r` from the defining identity.
pub proof fn lemma_div_mod_from_identity(n: int, d: int, q: int, r: int)
    requires
        n == q * d + r,
        0 <= r < d,
        0 < d,
    ensures
        n / d == q,
        n % d == r,
{
    lemma_fundamental_div_mod_converse(n, d, q, r);
}

} // verus!
