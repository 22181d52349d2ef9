//! Conversion between a duration and an unsigned whole-seconds /
//! sub-second-nanoseconds pair, the shape of a system duration.
//!
//! The conversion out truncates: the whole-second count is the seconds
//! value rounded toward zero, and the nanosecond count is the fractional
//! remainder scaled by `1e9` with any sub-nanosecond part discarded.  The
//! conversion back rounds the pair to the nearest representable binary64
//! seconds count.

use vstd::prelude::*;

verus! {

use crate::duration::FloatDuration;
use crate::error::DurationError;
use crate::ieee::biased_exp;
use crate::ieee::frac_field;
use crate::ieee::is_finite;
use crate::ieee::lemma_div_mod_from_identity;
use crate::ieee::lemma_field_bounds;
use crate::ieee::lemma_mag_bounds;
use crate::ieee::lemma_pow2_strictly_increases_or_eq;
use crate::ieee::mag_scaled;
use crate::ieee::pow2_u128;
use crate::ieee::pow2_u64;
use crate::ieee::sig;
use crate::ieee::sign_bit;
use vstd::arithmetic::div_mod::lemma_fundamental_div_mod;
use vstd::arithmetic::mul::lemma_mul_inequality;
use vstd::arithmetic::mul::lemma_mul_is_associative;
use vstd::arithmetic::mul::lemma_mul_is_commutative;
use vstd::arithmetic::mul::lemma_mul_is_distributive_add_other_way;
use vstd::arithmetic::mul::lemma_mul_strict_inequality;
use vstd::arithmetic::mul::lemma_mul_strictly_positive;
use vstd::arithmetic::power2::lemma2_to64;
use vstd::arithmetic::power2::lemma2_to64_rest;
use vstd::arithmetic::power2::lemma_pow2_adds;
use vstd::arithmetic::power2::lemma_pow2_pos;
use vstd::arithmetic::power2::lemma_pow2_strictly_increases;
use vstd::arithmetic::power2::pow2;

/// The whole-second part of a magnitude: the seconds value truncated
/// toward zero.
pub open spec fn whole_secs_of(b: u64) -> int {
    mag_scaled(b) / (pow2(1074) as int)
}

/// The sub-second nanosecond part of a magnitude: the fractional remainder
/// scaled by `1e9` and truncated.
pub open spec fn subsec_nanos_of(b: u64) -> int {
    (mag_scaled(b) % (pow2(1074) as int)) * 1_000_000_000 / (pow2(1074) as int)
}

impl FloatDuration {
    /// Split a duration into the whole-seconds and sub-second-nanoseconds
    /// pair of an unsigned system duration.
    ///
    /// Fails with [`DurationError::OutOfRange`] exactly when the seconds
    /// count is sign-negative (the target has no sign, and a negative zero
    /// is already rejected) or when its truncated whole-second count
    /// exceeds the unsigned 64-bit range, that is, when the seconds value
    /// reaches `2^64`.  On success the whole-second count is the seconds
    /// value truncated, and the nanosecond count is the fractional
    /// remainder times `1e9`, truncated.
    pub fn to_system_parts(&self) -> (r: Result<(u64, u32), DurationError>)
        requires
            !self.spec_is_nan(),
        ensures
            r is Err <==> (sign_bit(self.spec_bits()) == 1 || self.wide_secs_scaled() >= pow2(
                1138,
            )),
            r is Err ==> r == Err::<(u64, u32), DurationError>(DurationError::OutOfRange),
            r matches Ok(p) ==> p.0 == whole_secs_of(self.spec_bits()),
            r matches Ok(p) ==> p.1 == subsec_nanos_of(self.spec_bits()),
            r matches Ok(p) ==> p.1 < 1_000_000_000,
    {
        let b = self.bits;
        proof {
            crate::duration::lemma_spec_bits(*self);
            lemma_field_bounds(b);
        }
        if b >= 0x8000_0000_0000_0000 {
            proof {
                assert((b >> 63) == 1 <==> b >= 0x8000_0000_0000_0000) by (bit_vector);
            }
            return Err(DurationError::OutOfRange);
        }
        proof {
            assert((b >> 63) == 0 <==> b < 0x8000_0000_0000_0000) by (bit_vector);
        }
        let e: u64 = (b >> 52) & 0x7ff;
        let f: u64 = b & 0xf_ffff_ffff_ffff;
        proof {
            lemma2_to64();
            lemma2_to64_rest();
            lemma_pow2_pos(1074);
            lemma_pow2_pos(1138);
        }
        if e == 0x7ff {
            // not NaN, so an infinity: beyond every bound
            proof {
                lemma_pow2_strictly_increases(1138, 2100);
            }
            return Err(DurationError::OutOfRange);
        }
        proof {
            lemma_mag_bounds(b);
            lemma_pow2_pos(crate::ieee::eexp(b));
        }
        let m: u64 = if e == 0 {
            f
        } else {
            0x10_0000_0000_0000 + f
        };
        if e >= 1088 {
            // at least 2^52 * 2^1087 = 2^1139 seconds-scaled: out of range
            proof {
                lemma_pow2_strictly_increases_or_eq(1087, (e - 1) as nat);
                lemma_mul_inequality(pow2(52) as int, sig(b), pow2((e - 1) as nat) as int);
                lemma_mul_is_commutative(pow2(52) as int, pow2((e - 1) as nat) as int);
                lemma_mul_inequality(
                    pow2(1087) as int,
                    pow2((e - 1) as nat) as int,
                    pow2(52) as int,
                );
                lemma_mul_is_commutative(pow2(1087) as int, pow2(52) as int);
                lemma_pow2_adds(52, 1087);
                lemma_pow2_strictly_increases(1138, 1139);
                assert(mag_scaled(b) >= pow2(52) * pow2((e - 1) as nat));
                assert(pow2(52) * pow2((e - 1) as nat) >= pow2(52) * pow2(1087)) by {
                    lemma_mul_inequality(
                        pow2(1087) as int,
                        pow2((e - 1) as nat) as int,
                        pow2(52) as int,
                    );
                    lemma_mul_is_commutative(pow2(1087) as int, pow2(52) as int);
                    lemma_mul_is_commutative(pow2((e - 1) as nat) as int, pow2(52) as int);
                }
                assert(pow2(52) * pow2(1087) == pow2(1139));
            }
            return Err(DurationError::OutOfRange);
        }
        if e == 1087 {
            // at least 2^52 * 2^1086 = 2^1138 seconds-scaled: the whole
            // seconds reach 2^64, past the largest unsigned 64-bit count
            proof {
                lemma_pow2_adds(52, 1086);
                lemma_pow2_adds(64, 1074);
                lemma_mul_inequality(pow2(52) as int, sig(b), pow2(1086) as int);
                lemma_mul_is_commutative(pow2(52) as int, pow2(1086) as int);
                lemma_mul_is_commutative(sig(b), pow2(1086) as int);
                assert(mag_scaled(b) >= pow2(52) * pow2(1086));
            }
            return Err(DurationError::OutOfRange);
        }
        if e >= 1075 {
            // an integral number of seconds that fits u64
            let p: u64 = pow2_u64(e - 1075);
            proof {
                lemma_pow2_strictly_increases_or_eq((e - 1075) as nat, 11);
                vstd::arithmetic::mul::lemma_mul_upper_bound(
                    m as int,
                    0x1f_ffff_ffff_ffff,
                    p as int,
                    2048,
                );
                lemma_pow2_adds((e - 1075) as nat, 1074);
                lemma_mul_is_associative(sig(b), pow2((e - 1075) as nat) as int, pow2(1074) as int);
                assert(mag_scaled(b) == (sig(b) * pow2((e - 1075) as nat)) * pow2(1074));
            }
            let s: u64 = m * p;
            proof {
                lemma_div_mod_from_identity(mag_scaled(b), pow2(1074) as int, s as int, 0);
                lemma_div_mod_from_identity(0, pow2(1074) as int, 0, 0);
                // in range: s * 2^1074 < 2^64 * 2^1074
                lemma_mul_strict_inequality(s as int, pow2(64) as int, pow2(1074) as int);
                lemma_pow2_adds(64, 1074);
                assert(s < pow2(64));
                assert(whole_secs_of(b) < pow2(64));
            }
            return Ok((s, 0));
        }
        // a fractional part remains: e <= 1074
        let ep: u64 = if e == 0 {
            1
        } else {
            e
        };
        let shift: u64 = 1075 - ep;
        proof {
            assert(crate::ieee::eexp(b) == (ep - 1) as nat);
            lemma_pow2_adds((shift) as nat, (ep - 1) as nat);
            assert(pow2(shift as nat) * pow2((ep - 1) as nat) == pow2(1074));
        }
        let (w, rem): (u64, u64) = if shift >= 53 {
            proof {
                lemma_pow2_strictly_increases_or_eq(53, shift as nat);
                lemma_div_mod_from_identity(m as int, pow2(shift as nat) as int, 0, m as int);
            }
            (0u64, m)
        } else {
            let p: u64 = pow2_u64(shift);
            proof {
                lemma_pow2_pos(shift as nat);
                lemma_fundamental_div_mod(m as int, p as int);
                vstd::arithmetic::div_mod::lemma_mod_bound(m as int, p as int);
                vstd::arithmetic::div_mod::lemma_div_pos_is_pos(m as int, p as int);
            }
            (m / p, m % p)
        };
        proof {
            // mag = w * 2^1074 + rem * 2^(ep-1), with the tail below 2^1074
            assert(m == w * pow2(shift as nat) + rem) by {
                lemma_fundamental_div_mod(m as int, pow2(shift as nat) as int);
                lemma_mul_is_commutative(w as int, pow2(shift as nat) as int);
            }
            assert(mag_scaled(b) == (w * pow2(shift as nat) + rem) * pow2((ep - 1) as nat));
            lemma_mul_is_distributive_add_other_way(
                pow2((ep - 1) as nat) as int,
                (w * pow2(shift as nat)) as int,
                rem as int,
            );
            lemma_mul_is_associative(w as int, pow2(shift as nat) as int, pow2((ep - 1) as nat) as int);
            assert(mag_scaled(b) == w * pow2(1074) + rem * pow2((ep - 1) as nat));
            lemma_pow2_pos((ep - 1) as nat);
            vstd::arithmetic::mul::lemma_mul_nonnegative(rem as int, pow2((ep - 1) as nat) as int);
            lemma_mul_strict_inequality(rem as int, pow2(shift as nat) as int, pow2((ep - 1) as nat) as int);
            lemma_div_mod_from_identity(
                mag_scaled(b),
                pow2(1074) as int,
                w as int,
                rem * pow2((ep - 1) as nat),
            );
            assert(whole_secs_of(b) == w);
            // and the whole value is far below the 2^64-seconds bound
            lemma_mag_narrow_bound(b, ep);
            lemma_pow2_strictly_increases(1127, 1138);
        }
        let n: u32 = if shift >= 83 {
            proof {
                lemma_subsec_zero_when_tiny(b, ep, shift, rem);
            }
            0u32
        } else {
            proof {
                vstd::arithmetic::mul::lemma_mul_upper_bound(
                    rem as int,
                    0xffff_ffff_ffff_ffff,
                    1_000_000_000,
                    1_000_000_000,
                );
            }
            let num: u128 = (rem as u128) * 1_000_000_000;
            let pw: u128 = pow2_u128(shift);
            proof {
                lemma_pow2_pos(shift as nat);
            }
            let q128: u128 = num / pw;
            proof {
                lemma_subsec_value(b, ep, shift, rem, q128 as int);
            }
            q128 as u32
        };
        Ok((w, n))
    }
}

/// The absolute value of an integer.
pub open spec fn abs_of(x: int) -> int {
    if x >= 0 {
        x
    } else {
        -x
    }
}

/// The scaled rounding error of pattern `b` against a value of `n_nanos`
/// nanoseconds: `b`'s magnitude times `1e9` minus the exact value, both in
/// units of `2^-1074` seconds times `1e9`.
pub open spec fn round_err(n_nanos: int, b: u64) -> int {
    mag_scaled(b) * 1_000_000_000 - n_nanos * (pow2(1074) as int)
}

/// Pattern `b` rounds `n_nanos` nanoseconds to the nearest representable
/// binary64 seconds count: it is nonnegative, finite, zero exactly on
/// zero, within half an ulp of the exact value, and an exact half-ulp tie
/// lands on an even mantissa.
pub open spec fn rounds_to_nanos(n_nanos: int, b: u64) -> bool {
    &&& sign_bit(b) == 0
    &&& is_finite(b)
    &&& (n_nanos == 0 <==> b == 0)
    &&& 2 * abs_of(round_err(n_nanos, b)) <= 1_000_000_000 * pow2(crate::ieee::eexp(b))
    &&& (2 * abs_of(round_err(n_nanos, b)) == 1_000_000_000 * pow2(crate::ieee::eexp(b))
        ==> frac_field(b) % 2 == 0)
}

/// Pattern `b0` denotes exactly `n_nanos` nanoseconds.
pub open spec fn exact_nanos(n_nanos: int, b0: u64) -> bool {
    &&& is_finite(b0)
    &&& sign_bit(b0) == 0
    &&& mag_scaled(b0) * 1_000_000_000 == n_nanos * (pow2(1074) as int)
}

impl FloatDuration {
    /// Assemble a duration from the whole-seconds and
    /// sub-second-nanoseconds pair of an unsigned system duration.
    ///
    /// The result is the binary64 seconds count nearest
    /// `secs + nanos / 1e9`, ties going to the even mantissa; in
    /// particular, when that value is exactly representable the conversion
    /// is lossless, which is what the round-trip laws rely on.
    pub fn from_system_parts(secs: u64, nanos: u32) -> (r: FloatDuration)
        requires
            nanos < 1_000_000_000,
        ensures
            rounds_to_nanos(secs * 1_000_000_000 + nanos, r.spec_bits()),
            forall|b0: u64|
                #[trigger] exact_nanos(secs * 1_000_000_000 + nanos, b0) ==> r.spec_bits() == b0,
    {
        proof {
            lemma2_to64();
            lemma2_to64_rest();
        }
        if secs == 0 && nanos == 0 {
            proof {
                lemma_zero_exact();
            }
            return FloatDuration::from_bits(0);
        }
        let ghost nnv: int = secs * 1_000_000_000 + nanos;
        let nn: u128 = (secs as u128) * 1_000_000_000 + (nanos as u128);
        proof {
            vstd::arithmetic::mul::lemma_mul_upper_bound(
                secs as int,
                0xffff_ffff_ffff_ffff,
                1_000_000_000,
                1_000_000_000,
            );
            vstd::arithmetic::mul::lemma_mul_nonnegative(secs as int, 1_000_000_000);
            if secs == 0 {
            } else {
                vstd::arithmetic::mul::lemma_mul_increases(secs as int, 1_000_000_000);
            }
            assert(nn >= 1);
        }
        let tb: u64 = crate::ieee::top_bit(nn);
        proof {
            // nn < 2^64 * 1e9 < 2^94, so tb <= 93
            lemma_pow2_adds(64, 30);
            if tb >= 94 {
                lemma_pow2_strictly_increases_or_eq(94, tb as nat);
                assert(false);
            }
        }
        let (ash, bsh): (u64, u64) = if tb <= 82 {
            (82 - tb, 0u64)
        } else {
            (0u64, tb - 82)
        };
        let pa: u128 = pow2_u128(ash);
        let pb: u128 = pow2_u128(bsh);
        proof {
            lemma_pow2_pos(ash as nat);
            lemma_pow2_pos(bsh as nat);
            // num = nn * 2^ash < 2^(tb+1+ash) <= 2^84
            lemma_pow2_adds((tb + 1) as nat, ash as nat);
            vstd::arithmetic::mul::lemma_mul_strict_inequality(
                nn as int,
                pow2((tb + 1) as nat) as int,
                pow2(ash as nat) as int,
            );
            lemma_pow2_strictly_increases_or_eq((tb + 1 + ash) as nat, 96);
            lemma_pow2_adds(64, 32);
            // den = 1e9 * 2^bsh <= 1e9 * 2^11
            lemma_pow2_strictly_increases_or_eq(bsh as nat, 11);
            vstd::arithmetic::mul::lemma_mul_inequality(
                pow2(bsh as nat) as int,
                2048,
                1_000_000_000,
            );
        }
        let num: u128 = nn * pa;
        let den0: u128 = 1_000_000_000u128 * pb;
        let kb0: u64 = tb + 993;
        proof {
            vstd::arithmetic::mul::lemma_mul_strictly_positive(1_000_000_000, pb as int);
            lemma_m0_bounds(nn as int, num as int, den0 as int, ash as nat, bsh as nat, tb as nat);
        }
        let m0a: u128 = num / den0;
        let r0a: u128 = num % den0;
        proof {
            lemma_fundamental_div_mod(num as int, den0 as int);
            vstd::arithmetic::div_mod::lemma_mod_bound(num as int, den0 as int);
            vstd::arithmetic::div_mod::lemma_div_pos_is_pos(num as int, den0 as int);
        }
        let (m0, r0, den, kb): (u128, u128, u128, u64) = if m0a >= 0x20_0000_0000_0000 {
            let den2: u128 = den0 * 2;
            proof {
                lemma_fundamental_div_mod(num as int, den2 as int);
                vstd::arithmetic::div_mod::lemma_mod_bound(num as int, den2 as int);
                vstd::arithmetic::div_mod::lemma_div_pos_is_pos(num as int, den2 as int);
                lemma_bump_bounds(num as int, den0 as int, m0a as int);
            }
            (num / den2, num % den2, den2, kb0 + 1)
        } else {
            (m0a, r0a, den0, kb0)
        };
        proof {
            let bshf: nat = if kb == kb0 {
                bsh as nat
            } else {
                (bsh + 1) as nat
            };
            lemma_pow2_pos(bshf);
            if kb != kb0 {
                lemma_pow2_adds(bsh as nat, 1);
                vstd::arithmetic::mul::lemma_mul_is_associative(
                    1_000_000_000,
                    pow2(bsh as nat) as int,
                    2,
                );
            }
            assert(den as int == 1_000_000_000 * pow2(bshf) && kb == 1075 + bshf - ash as nat
                && pow2(bshf) >= 1);
            vstd::arithmetic::mul::lemma_mul_is_commutative(den as int, m0 as int);
            assert(num as int == (m0 as int) * (den as int) + r0 as int);
        }
        let rup: bool = 2 * r0 > den || (2 * r0 == den && m0 % 2 == 1);
        let (m, kbf): (u128, u64) = if rup {
            if m0 + 1 == 0x20_0000_0000_0000 {
                (0x10_0000_0000_0000u128, kb + 1)
            } else {
                (m0 + 1, kb)
            }
        } else {
            (m0, kb)
        };
        let fr: u64 = (m as u64) - 0x10_0000_0000_0000;
        let bits: u64 = (kbf << 52) | fr;
        proof {
            assert(kbf < 2047 && fr < 0x10_0000_0000_0000);
            lemma_compose_fields(kbf, fr);
            lemma_round_finish(
                nnv,
                num as int,
                den as int,
                ash as nat,
                kb,
                m0 as int,
                r0 as int,
                m as int,
                kbf,
                bits,
                rup,
            );
        }
        FloatDuration::from_bits(bits)
    }
}

/// Zero in, the zero pattern out: both direction of the zero clause, and
/// the zero pattern is the only exact representation of zero nanoseconds.
proof fn lemma_zero_exact()
    ensures
        rounds_to_nanos(0, 0),
        forall|b0: u64| #[trigger] exact_nanos(0, b0) ==> b0 == 0,
{
    assert((0u64 >> 63) == 0 && ((0u64 >> 52) & 0x7ff) == 0 && (0u64 & 0xf_ffff_ffff_ffff) == 0)
        by (bit_vector);
    vstd::arithmetic::mul::lemma_mul_by_zero_is_zero(pow2(0) as int);
    lemma_pow2_pos(1074);
    assert forall|b0: u64| #[trigger] exact_nanos(0, b0) implies b0 == 0 by {
        lemma_mag_bounds(b0);
        if mag_scaled(b0) > 0 {
            vstd::arithmetic::mul::lemma_mul_strictly_positive(mag_scaled(b0), 1_000_000_000);
        }
        assert(mag_scaled(b0) == 0);
        assert(crate::ieee::payload(b0) == 0);
        assert(b0 & 0x7fff_ffff_ffff_ffff == 0 && b0 >> 63 == 0 ==> b0 == 0) by (bit_vector);
    }
}

/// The first quotient lands in `[2^52, 2^54)`.
proof fn lemma_m0_bounds(nn: int, num: int, den: int, ash: nat, bsh: nat, tb: nat)
    requires
        nn >= 1,
        pow2(tb) <= nn < pow2((tb + 1) as nat),
        tb <= 93,
        (tb <= 82 && ash == 82 - tb && bsh == 0) || (tb > 82 && ash == 0 && bsh == tb - 82),
        num == nn * pow2(ash),
        den == 1_000_000_000 * pow2(bsh),
    ensures
        pow2(52) <= num / den,
        num / den < pow2(54),
        num < pow2(54) * den,
{
    lemma2_to64();
    lemma2_to64_rest();
    lemma_pow2_pos(ash);
    lemma_pow2_pos(bsh);
    vstd::arithmetic::mul::lemma_mul_strictly_positive(1_000_000_000, pow2(bsh) as int);
    // lower bound: 2^52 * den <= num
    lemma_pow2_adds(52, bsh);
    lemma_pow2_adds((52 + bsh) as nat, 30);
    vstd::arithmetic::mul::lemma_mul_inequality(
        1_000_000_000,
        pow2(30) as int,
        pow2((52 + bsh) as nat) as int,
    );
    vstd::arithmetic::mul::lemma_mul_is_commutative(1_000_000_000, pow2((52 + bsh) as nat) as int);
    vstd::arithmetic::mul::lemma_mul_is_commutative(pow2(30) as int, pow2((52 + bsh) as nat) as int);
    vstd::arithmetic::mul::lemma_mul_is_associative(pow2(52) as int, 1_000_000_000, pow2(bsh) as int);
    // pow2(52)*den == 1e9 * 2^(52+bsh) <= 2^(82+bsh) <= nn * 2^ash == num
    assert(pow2(52) * den <= pow2(30) * pow2((52 + bsh) as nat));
    lemma_pow2_adds(30, (52 + bsh) as nat);
    assert(pow2(52) * den <= pow2((82 + bsh) as nat));
    assert(82 + bsh == tb + ash);
    lemma_pow2_adds(tb, ash);
    vstd::arithmetic::mul::lemma_mul_inequality(pow2(tb) as int, nn, pow2(ash) as int);
    vstd::arithmetic::mul::lemma_mul_is_commutative(pow2(tb) as int, pow2(ash) as int);
    assert(pow2((82 + bsh) as nat) <= num);
    lemma_div_ordering_general(pow2(52) as int, num, den);
    // upper bound: num < 2^54 * den since 2^54 * den >= 2^(83+bsh) * 2 > num
    lemma_pow2_adds(54, bsh);
    lemma_pow2_adds((54 + bsh) as nat, 29);
    vstd::arithmetic::mul::lemma_mul_inequality(
        pow2(29) as int,
        1_000_000_000,
        pow2((54 + bsh) as nat) as int,
    );
    vstd::arithmetic::mul::lemma_mul_is_commutative(pow2(29) as int, pow2((54 + bsh) as nat) as int);
    vstd::arithmetic::mul::lemma_mul_is_commutative(1_000_000_000, pow2((54 + bsh) as nat) as int);
    vstd::arithmetic::mul::lemma_mul_is_associative(pow2(54) as int, 1_000_000_000, pow2(bsh) as int);
    assert(pow2(54) * den >= pow2(29) * pow2((54 + bsh) as nat));
    lemma_pow2_adds(29, (54 + bsh) as nat);
    assert(pow2(54) * den >= pow2((83 + bsh) as nat));
    // num = nn * 2^ash < 2^(tb+1) * 2^ash = 2^(tb+1+ash) <= 2^(83+bsh)
    vstd::arithmetic::mul::lemma_mul_strict_inequality(
        nn,
        pow2((tb + 1) as nat) as int,
        pow2(ash) as int,
    );
    lemma_pow2_adds((tb + 1) as nat, ash);
    assert(tb + 1 + ash <= 83 + bsh);
    lemma_pow2_strictly_increases_or_eq((tb + 1 + ash) as nat, (83 + bsh) as nat);
    assert(num < pow2(54) * den);
    lemma_div_strict_upper(num, pow2(54) as int, den);
}

/// `q * d <= x` gives `q <= x / d`.
pub(crate) proof fn lemma_div_ordering_general(q: int, x: int, d: int)
    requires
        0 < d,
        0 <= q,
        q * d <= x,
    ensures
        q <= x / d,
{
    lemma_fundamental_div_mod(x, d);
    vstd::arithmetic::div_mod::lemma_mod_bound(x, d);
    if x / d < q {
        vstd::arithmetic::mul::lemma_mul_inequality(x / d + 1, q, d);
        vstd::arithmetic::mul::lemma_mul_is_distributive_add_other_way(d, x / d, 1);
        vstd::arithmetic::mul::lemma_mul_is_commutative(x / d, d);
        vstd::arithmetic::div_mod::lemma_div_pos_is_pos(x, d);
    }
}

/// `x < a * d` gives `x / d < a`.
proof fn lemma_div_strict_upper(x: int, a: int, d: int)
    requires
        0 < d,
        0 <= x,
        x < a * d,
    ensures
        x / d < a,
{
    lemma_fundamental_div_mod(x, d);
    vstd::arithmetic::div_mod::lemma_mod_bound(x, d);
    vstd::arithmetic::div_mod::lemma_div_pos_is_pos(x, d);
    if x / d >= a {
        vstd::arithmetic::mul::lemma_mul_inequality(a, x / d, d);
        vstd::arithmetic::mul::lemma_mul_is_commutative(x / d, d);
    }
}

/// After doubling the denominator the quotient is back in `[2^52, 2^53)`.
proof fn lemma_bump_bounds(num: int, den0: int, m0a: int)
    requires
        0 < den0,
        0 <= num,
        m0a == num / den0,
        pow2(52) <= m0a < pow2(54),
        pow2(53) <= m0a,
        num < pow2(54) * den0,
    ensures
        pow2(52) <= num / (den0 * 2),
        num / (den0 * 2) < pow2(53),
{
    lemma2_to64_rest();
    lemma_fundamental_div_mod(num, den0);
    vstd::arithmetic::div_mod::lemma_mod_bound(num, den0);
    // num >= m0a * den0 >= 2^53 * den0 == 2^52 * (2 * den0)
    vstd::arithmetic::mul::lemma_mul_inequality(pow2(53) as int, m0a, den0);
    vstd::arithmetic::mul::lemma_mul_is_commutative(pow2(53) as int, den0);
    vstd::arithmetic::mul::lemma_mul_is_commutative(m0a, den0);
    assert(pow2(53) * den0 <= num);
    lemma_div_ordering_general(pow2(52) as int, num, den0 * 2);
    // num < 2^54 * den0 == 2^53 * (den0 * 2)
    lemma_div_strict_upper(num, pow2(53) as int, den0 * 2);
}

/// The central algebra of the rounding step: how the candidate mantissas
/// relate to the exact value, and the size of one ulp.
proof fn lemma_round_core(nn: int, num: int, den: int, ash: nat, bsh: nat, kb: u64, m0: int, r0: int)
    requires
        nn >= 1,
        ash <= 82,
        num == nn * pow2(ash),
        den == 1_000_000_000 * pow2(bsh),
        kb == 1075 + bsh - ash,
        num == m0 * den + r0,
        0 <= r0 < den,
        0 <= m0,
    ensures
        den * pow2((1074 - ash) as nat) == 1_000_000_000 * pow2((kb - 1) as nat),
        (m0 * 1_000_000_000) * pow2((kb - 1) as nat) == nn * pow2(1074) - r0 * pow2(
            (1074 - ash) as nat,
        ),
        ((m0 + 1) * 1_000_000_000) * pow2((kb - 1) as nat) == nn * pow2(1074) + (den - r0) * pow2(
            (1074 - ash) as nat,
        ),
{
    let c: nat = (1074 - ash) as nat;
    lemma_pow2_adds(bsh, c);
    vstd::arithmetic::mul::lemma_mul_is_associative(1_000_000_000, pow2(bsh) as int, pow2(c) as int);
    assert(den * pow2(c) == 1_000_000_000 * pow2((bsh + c) as nat));
    assert(bsh + c == kb - 1);
    // num * 2^c == nn * 2^1074
    lemma_pow2_adds(ash, c);
    vstd::arithmetic::mul::lemma_mul_is_associative(nn, pow2(ash) as int, pow2(c) as int);
    assert(num * pow2(c) == nn * pow2(1074));
    // expand (m0 * den + r0) * 2^c
    vstd::arithmetic::mul::lemma_mul_is_distributive_add_other_way(pow2(c) as int, m0 * den, r0);
    vstd::arithmetic::mul::lemma_mul_is_associative(m0, den, pow2(c) as int);
    assert((m0 * den) * pow2(c) + r0 * pow2(c) == nn * pow2(1074));
    vstd::arithmetic::mul::lemma_mul_is_associative(m0, 1_000_000_000, pow2((kb - 1) as nat) as int);
    vstd::arithmetic::mul::lemma_mul_is_associative(m0 + 1, 1_000_000_000, pow2((kb - 1) as nat) as int);
    assert(m0 * (den * pow2(c)) == (m0 * 1_000_000_000) * pow2((kb - 1) as nat)) by {
        vstd::arithmetic::mul::lemma_mul_is_associative(
            m0,
            1_000_000_000,
            pow2((kb - 1) as nat) as int,
        );
    }
    // and the (m0 + 1) form
    vstd::arithmetic::mul::lemma_mul_is_distributive_add_other_way(
        den * pow2(c),
        m0,
        1,
    );
    vstd::arithmetic::mul::lemma_mul_is_associative(m0 + 1, den, pow2(c) as int);
    vstd::arithmetic::mul::lemma_mul_is_distributive_add_other_way(pow2(c) as int, den, -r0);
    assert((m0 + 1) * (den * pow2(c)) == nn * pow2(1074) + (den - r0) * pow2(c)) by {
        vstd::arithmetic::mul::lemma_mul_is_distributive_add_other_way(
            den * pow2(c),
            m0,
            1,
        );
        vstd::arithmetic::mul::lemma_mul_is_distributive_sub_other_way(pow2(c) as int, den, r0);
        assert(m0 * (den * pow2(c)) + den * pow2(c) == nn * pow2(1074) - r0 * pow2(c) + den * pow2(
            c,
        ));
    }
}


/// THE SYSTEM ROUND-TRIP LAW.  A nonnegative duration of a whole number
/// of nanoseconds, strictly below `2^64` seconds, survives the trip
/// through the system-duration pair unchanged: the pair that
/// `to_system_parts` returns for it denotes it exactly, so any pattern
/// satisfying `from_system_parts`'s exactness contract for that pair is
/// the original pattern.
pub proof fn lemma_system_round_trip(b: u64, s: u64, n: u32, c: u64)
    requires
        is_finite(b),
        sign_bit(b) == 0,
        (mag_scaled(b) * 1_000_000_000) % (pow2(1074) as int) == 0,
        mag_scaled(b) < pow2(1138),
        s == whole_secs_of(b),
        n == subsec_nanos_of(b),
        forall|b0: u64| #[trigger] exact_nanos(s * 1_000_000_000 + n, b0) ==> c == b0,
    ensures
        c == b,
{
    lemma_pow2_pos(1074);
    lemma_mag_bounds(b);
    let mag = mag_scaled(b);
    let pp = pow2(1074) as int;
    lemma_fundamental_div_mod(mag, pp);
    vstd::arithmetic::div_mod::lemma_mod_bound(mag, pp);
    vstd::arithmetic::div_mod::lemma_div_pos_is_pos(mag, pp);
    let w = mag / pp;
    let rm = mag % pp;
    // mag * 1e9 == (w * 1e9) * pp + rm * 1e9, and the left side is a
    // multiple of pp, so rm * 1e9 is one too
    assert(mag * 1_000_000_000 == (w * 1_000_000_000) * pp + rm * 1_000_000_000) by {
        vstd::arithmetic::mul::lemma_mul_is_distributive_add_other_way(
            1_000_000_000,
            pp * w,
            rm,
        );
        vstd::arithmetic::mul::lemma_mul_is_commutative(pp * w, 1_000_000_000);
        vstd::arithmetic::mul::lemma_mul_is_commutative(mag, 1_000_000_000);
        vstd::arithmetic::mul::lemma_mul_is_commutative(rm, 1_000_000_000);
        vstd::arithmetic::mul::lemma_mul_is_associative(1_000_000_000, pp, w);
        vstd::arithmetic::mul::lemma_mul_is_commutative(1_000_000_000, pp);
        vstd::arithmetic::mul::lemma_mul_is_associative(pp, 1_000_000_000, w);
        vstd::arithmetic::mul::lemma_mul_is_commutative(1_000_000_000, w);
        vstd::arithmetic::mul::lemma_mul_is_associative(pp, w, 1_000_000_000);
        vstd::arithmetic::mul::lemma_mul_is_commutative(pp, w * 1_000_000_000);
    }
    assert((rm * 1_000_000_000) % pp == 0) by {
        vstd::arithmetic::div_mod::lemma_mod_multiples_vanish(
            w * 1_000_000_000,
            rm * 1_000_000_000,
            pp,
        );
        vstd::arithmetic::mul::lemma_mul_is_commutative(w * 1_000_000_000, pp);
    }
    // therefore rm * 1e9 == n * pp exactly
    lemma_fundamental_div_mod(rm * 1_000_000_000, pp);
    vstd::arithmetic::mul::lemma_mul_nonnegative(rm, 1_000_000_000);
    assert(rm * 1_000_000_000 == (n as int) * pp) by {
        vstd::arithmetic::mul::lemma_mul_is_commutative(pp, (rm * 1_000_000_000) / pp);
    }
    // the whole-second count stays below 2^64
    assert(w < pow2(64)) by {
        lemma_pow2_adds(64, 1074);
        lemma_div_strict_upper(mag, pow2(64) as int, pp);
    }
    // so (s, n) denotes b exactly
    assert(mag * 1_000_000_000 == (s * 1_000_000_000 + n) * pp) by {
        vstd::arithmetic::mul::lemma_mul_is_distributive_add_other_way(
            pp,
            s * 1_000_000_000,
            n as int,
        );
    }
    assert(exact_nanos(s * 1_000_000_000 + n, b));
}


/// THE SYSTEM ROUND-TRIP BOUND.  For any nonnegative in-range duration,
/// whole-nanosecond or not, the trip through the system pair lands within
/// one nanosecond plus half an ulp of the original: the split discards
/// less than a nanosecond, and the conversion back moves by at most half
/// an ulp of its result.  Scaled by `2 * 1e9`, with one nanosecond being
/// `2^1074 / 1e9` seconds-scaled and the ulp that of the result `c`.
pub proof fn lemma_system_round_trip_bound(b: u64, s: u64, n: u32, c: u64)
    requires
        is_finite(b),
        sign_bit(b) == 0,
        mag_scaled(b) < pow2(1138),
        s == whole_secs_of(b),
        n == subsec_nanos_of(b),
        rounds_to_nanos(s * 1_000_000_000 + n, c),
    ensures
        2 * abs_of(mag_scaled(c) - mag_scaled(b)) * 1_000_000_000 < 2 * pow2(1074)
            + 1_000_000_000 * pow2(crate::ieee::eexp(c)),
{
    lemma_pow2_pos(1074);
    lemma_mag_bounds(b);
    lemma_mag_bounds(c);
    let mag = mag_scaled(b);
    let magc = mag_scaled(c);
    let pp = pow2(1074) as int;
    let nn = s * 1_000_000_000 + n;
    lemma_fundamental_div_mod(mag, pp);
    vstd::arithmetic::div_mod::lemma_mod_bound(mag, pp);
    vstd::arithmetic::div_mod::lemma_div_pos_is_pos(mag, pp);
    let w = mag / pp;
    let rm = mag % pp;
    // mag * 1e9 == (w * 1e9) * pp + rm * 1e9
    assert(mag * 1_000_000_000 == (w * 1_000_000_000) * pp + rm * 1_000_000_000) by {
        vstd::arithmetic::mul::lemma_mul_is_distributive_add_other_way(
            1_000_000_000,
            pp * w,
            rm,
        );
        vstd::arithmetic::mul::lemma_mul_is_commutative(pp * w, 1_000_000_000);
        vstd::arithmetic::mul::lemma_mul_is_commutative(mag, 1_000_000_000);
        vstd::arithmetic::mul::lemma_mul_is_commutative(rm, 1_000_000_000);
        vstd::arithmetic::mul::lemma_mul_is_associative(1_000_000_000, pp, w);
        vstd::arithmetic::mul::lemma_mul_is_commutative(1_000_000_000, pp);
        vstd::arithmetic::mul::lemma_mul_is_associative(pp, 1_000_000_000, w);
        vstd::arithmetic::mul::lemma_mul_is_commutative(1_000_000_000, w);
        vstd::arithmetic::mul::lemma_mul_is_associative(pp, w, 1_000_000_000);
        vstd::arithmetic::mul::lemma_mul_is_commutative(pp, w * 1_000_000_000);
    }
    // rm * 1e9 == n * pp + r2 with 0 <= r2 < pp
    vstd::arithmetic::mul::lemma_mul_nonnegative(rm, 1_000_000_000);
    lemma_fundamental_div_mod(rm * 1_000_000_000, pp);
    vstd::arithmetic::div_mod::lemma_mod_bound(rm * 1_000_000_000, pp);
    let r2 = (rm * 1_000_000_000) % pp;
    assert(rm * 1_000_000_000 == (n as int) * pp + r2) by {
        vstd::arithmetic::mul::lemma_mul_is_commutative(pp, (rm * 1_000_000_000) / pp);
    }
    // so mag * 1e9 == nn * pp + r2: the split discards r2, below a nanosecond
    assert(mag * 1_000_000_000 == nn * pp + r2) by {
        vstd::arithmetic::mul::lemma_mul_is_distributive_add_other_way(
            pp,
            s * 1_000_000_000,
            n as int,
        );
    }
    // the rounding error of c against the pair
    let xx = magc * 1_000_000_000 - nn * pp;
    assert(2 * abs_of(xx) <= 1_000_000_000 * pow2(crate::ieee::eexp(c)));
    // difference of the two magnitudes, scaled
    let dd = magc - mag;
    assert(dd * 1_000_000_000 == xx - r2) by {
        vstd::arithmetic::mul::lemma_mul_is_distributive_sub_other_way(
            1_000_000_000,
            magc,
            mag,
        );
        vstd::arithmetic::mul::lemma_mul_is_commutative(magc, 1_000_000_000);
        vstd::arithmetic::mul::lemma_mul_is_commutative(mag, 1_000_000_000);
        vstd::arithmetic::mul::lemma_mul_is_commutative(dd, 1_000_000_000);
    }
    // |dd| * 1e9 == |dd * 1e9| <= |xx| + r2 < |xx| + pp
    assert(abs_of(dd) * 1_000_000_000 == abs_of(dd * 1_000_000_000)) by {
        if dd >= 0 {
            vstd::arithmetic::mul::lemma_mul_nonnegative(dd, 1_000_000_000);
        } else {
            vstd::arithmetic::mul::lemma_mul_unary_negation(dd, 1_000_000_000);
            vstd::arithmetic::mul::lemma_mul_nonnegative(-dd, 1_000_000_000);
        }
    }
    assert(abs_of(dd * 1_000_000_000) <= abs_of(xx) + r2);
    assert(2 * (abs_of(dd) * 1_000_000_000) < 2 * pp + 1_000_000_000 * pow2(
        crate::ieee::eexp(c),
    ));
    vstd::arithmetic::mul::lemma_mul_is_associative(2, abs_of(dd), 1_000_000_000);
}

/// Assembling a pattern from an exponent field and a fraction field.
proof fn lemma_compose_fields(kbf: u64, fr: u64)
    requires
        kbf < 2048,
        fr < 0x10_0000_0000_0000,
    ensures
        sign_bit((kbf << 52) | fr) == 0,
        biased_exp((kbf << 52) | fr) == kbf,
        frac_field((kbf << 52) | fr) == fr,
{
    assert(kbf < 2048 && fr < 0x10_0000_0000_0000 ==> (((kbf << 52) | fr) >> 63 == 0 && (((kbf
        << 52) | fr) >> 52) & 0x7ff == kbf && ((kbf << 52) | fr) & 0xf_ffff_ffff_ffff == fr))
        by (bit_vector);
}

/// `x * p <= y * p` cancels to `x <= y` for positive `p`, both ways.
proof fn lemma_cancel_le(x: int, y: int, p: int)
    requires
        0 < p,
        x * p <= y * p,
    ensures
        x <= y,
{
    if y < x {
        lemma_mul_strict_inequality(y, x, p);
    }
}

/// `x * p < y * p` cancels to `x < y` for positive `p`.
proof fn lemma_cancel_lt(x: int, y: int, p: int)
    requires
        0 < p,
        x * p < y * p,
    ensures
        x < y,
{
    if y <= x {
        lemma_mul_inequality(y, x, p);
    }
}

/// An exact representation pins the quotient: if `b0` denotes exactly the
/// value being rounded, the division was exact and `b0`'s fields are the
/// candidate mantissa and exponent.
proof fn lemma_exact_forces(
    nn: int,
    num: int,
    den: int,
    ash: nat,
    bshf: nat,
    kb: u64,
    m0: int,
    r0: int,
    b0: u64,
)
    requires
        nn >= 1,
        ash <= 82,
        num == nn * pow2(ash),
        den == 1_000_000_000 * pow2(bshf),
        kb == 1075 + bshf - ash,
        num == m0 * den + r0,
        0 <= r0 < den,
        pow2(52) <= m0 < pow2(53),
        exact_nanos(nn, b0),
    ensures
        biased_exp(b0) == kb,
        sig(b0) == m0,
        r0 == 0,
{
    lemma2_to64();
    lemma2_to64_rest();
    let c: nat = (1074 - ash) as nat;
    let pk: int = pow2((kb - 1) as nat) as int;
    lemma_round_core(nn, num, den, ash, bshf, kb, m0, r0);
    lemma_field_bounds(b0);
    lemma_mag_bounds(b0);
    lemma_pow2_pos(c);
    lemma_pow2_pos((kb - 1) as nat);
    lemma_pow2_pos(crate::ieee::eexp(b0));
    vstd::arithmetic::mul::lemma_mul_strictly_positive(1_000_000_000, pow2(bshf) as int);
    let mag0 = mag_scaled(b0);
    // nn >= 1 rules out the subnormal range for b0
    lemma_pow2_pos(1074);
    assert(nn * (pow2(1074) as int) >= pow2(1074)) by {
        vstd::arithmetic::mul::lemma_mul_increases(nn, pow2(1074) as int);
        vstd::arithmetic::mul::lemma_mul_is_commutative(nn, pow2(1074) as int);
    }
    if biased_exp(b0) == 0 {
        vstd::arithmetic::mul::lemma_mul_basics(frac_field(b0) as int);
        assert(mag0 == frac_field(b0));
        vstd::arithmetic::mul::lemma_mul_upper_bound(
            mag0,
            0xf_ffff_ffff_ffff,
            1_000_000_000,
            0x3fff_ffff,
        );
        lemma_pow2_strictly_increases(83, 1074);
        lemma_pow2_adds(53, 30);
        assert(false);
    }
    // bracket mag0 between the two candidate multiples of 2^(kb-1)
    assert(mag0 * 1_000_000_000 - (m0 * 1_000_000_000) * pk == r0 * pow2(c));
    vstd::arithmetic::mul::lemma_mul_is_associative(m0, 1_000_000_000, pk);
    vstd::arithmetic::mul::lemma_mul_is_commutative(m0, 1_000_000_000);
    vstd::arithmetic::mul::lemma_mul_is_associative(1_000_000_000, m0, pk);
    assert((mag0 - m0 * pk) * 1_000_000_000 == r0 * pow2(c)) by {
        vstd::arithmetic::mul::lemma_mul_is_distributive_sub_other_way(
            1_000_000_000,
            mag0,
            m0 * pk,
        );
        vstd::arithmetic::mul::lemma_mul_is_commutative(mag0, 1_000_000_000);
        vstd::arithmetic::mul::lemma_mul_is_commutative(mag0 - m0 * pk, 1_000_000_000);
    }
    vstd::arithmetic::mul::lemma_mul_nonnegative(r0, pow2(c) as int);
    let dd = mag0 - m0 * pk;
    assert(dd >= 0) by {
        if dd < 0 {
            vstd::arithmetic::mul::lemma_mul_strict_inequality(dd, 0, 1_000_000_000);
            vstd::arithmetic::mul::lemma_mul_is_commutative(dd, 1_000_000_000);
            vstd::arithmetic::mul::lemma_mul_by_zero_is_zero(1_000_000_000);
        }
    }
    assert(r0 * pow2(c) < den * pow2(c)) by {
        lemma_mul_strict_inequality(r0, den, pow2(c) as int);
    }
    assert(dd < pk) by {
        assert(den * pow2(c) == 1_000_000_000 * pk);
        assert(dd * 1_000_000_000 < 1_000_000_000 * pk);
        vstd::arithmetic::mul::lemma_mul_is_commutative(dd, 1_000_000_000);
        vstd::arithmetic::mul::lemma_mul_is_commutative(pk, 1_000_000_000);
        lemma_cancel_lt(dd, pk, 1_000_000_000);
    }
    // b0's exponent must be kb
    let e0 = biased_exp(b0);
    assert(mag0 == sig(b0) * pow2((e0 - 1) as nat));
    if e0 < kb {
        // mag0 < 2^53 * 2^(e0-1) <= 2^52 * 2^(kb-1) <= m0 * 2^(kb-1)
        lemma_mul_strict_inequality(sig(b0), pow2(53) as int, pow2((e0 - 1) as nat) as int);
        lemma_pow2_adds(53, (e0 - 1) as nat);
        lemma_pow2_adds(52, (kb - 1) as nat);
        lemma_pow2_strictly_increases_or_eq((53 + e0 - 1) as nat, (52 + kb - 1) as nat);
        vstd::arithmetic::mul::lemma_mul_inequality(pow2(52) as int, m0, pk);
        vstd::arithmetic::mul::lemma_mul_nonnegative(m0, pk);
        assert(false);
    }
    if e0 > kb {
        // mag0 >= 2^52 * 2^(e0-1) >= 2^53 * 2^(kb-1) >= (m0+1) * 2^(kb-1)
        vstd::arithmetic::mul::lemma_mul_inequality(
            pow2(52) as int,
            sig(b0),
            pow2((e0 - 1) as nat) as int,
        );
        lemma_pow2_adds(52, (e0 - 1) as nat);
        lemma_pow2_adds(53, (kb - 1) as nat);
        lemma_pow2_strictly_increases_or_eq((53 + kb - 1) as nat, (52 + e0 - 1) as nat);
        vstd::arithmetic::mul::lemma_mul_inequality(m0 + 1, pow2(53) as int, pk);
        vstd::arithmetic::mul::lemma_mul_is_distributive_add_other_way(pk, m0, 1);
        assert(false);
    }
    assert(e0 == kb);
    // the significands agree and the remainder vanishes
    assert(dd == (sig(b0) - m0) * pk) by {
        vstd::arithmetic::mul::lemma_mul_is_distributive_sub_other_way(pk, sig(b0), m0);
    }
    assert(sig(b0) >= m0) by {
        if sig(b0) < m0 {
            lemma_mul_strict_inequality(sig(b0), m0, pk);
        }
    }
    assert(sig(b0) <= m0) by {
        if sig(b0) >= m0 + 1 {
            vstd::arithmetic::mul::lemma_mul_inequality(m0 + 1, sig(b0), pk);
            vstd::arithmetic::mul::lemma_mul_is_distributive_add_other_way(pk, m0, 1);
        }
    }
    assert(dd == 0) by {
        vstd::arithmetic::mul::lemma_mul_by_zero_is_zero(pk);
    }
    assert(r0 == 0) by {
        if r0 > 0 {
            vstd::arithmetic::mul::lemma_mul_strictly_positive(r0, pow2(c) as int);
        }
    }
}

/// The rounded mantissa and exponent denote a pattern that satisfies the
/// rounding contract, and an exactly-representable value forces it.
proof fn lemma_round_finish(
    nn: int,
    num: int,
    den: int,
    ash: nat,
    kb: u64,
    m0: int,
    r0: int,
    m: int,
    kbf: u64,
    bits: u64,
    rup: bool,
)
    requires
        nn >= 1,
        ash <= 82,
        num == nn * pow2(ash),
        exists|bshf: nat|
            den == 1_000_000_000 * pow2(bshf) && kb == 1075 + bshf - ash && #[trigger] pow2(bshf)
                >= 1,
        993 <= kb <= 2000,
        num == m0 * den + r0,
        0 <= r0 < den,
        pow2(52) <= m0 < pow2(53),
        rup == (2 * r0 > den || (2 * r0 == den && m0 % 2 == 1)),
        rup && m0 + 1 == pow2(53) ==> m == pow2(52) && kbf == kb + 1,
        rup && m0 + 1 < pow2(53) ==> m == m0 + 1 && kbf == kb,
        !rup ==> m == m0 && kbf == kb,
        sign_bit(bits) == 0,
        biased_exp(bits) == kbf,
        frac_field(bits) == m - pow2(52),
    ensures
        rounds_to_nanos(nn, bits),
        forall|b0: u64| #[trigger] exact_nanos(nn, b0) ==> bits == b0,
{
    lemma2_to64();
    lemma2_to64_rest();
    let bshf: nat = choose|bshf: nat|
        den == 1_000_000_000 * pow2(bshf) && kb == 1075 + bshf - ash && #[trigger] pow2(bshf) >= 1;
    let c: nat = (1074 - ash) as nat;
    let pk: int = pow2((kb - 1) as nat) as int;
    lemma_round_core(nn, num, den, ash, bshf, kb, m0, r0);
    lemma_pow2_pos(c);
    lemma_pow2_pos((kb - 1) as nat);
    vstd::arithmetic::mul::lemma_mul_strictly_positive(1_000_000_000, pow2(bshf) as int);
    // the pattern is finite, normal, with significand m
    assert(is_finite(bits));
    assert(sig(bits) == m);
    assert(crate::ieee::eexp(bits) == (kbf - 1) as nat);
    // magnitude of the result
    if rup && m0 + 1 == pow2(53) {
        // 2^52 * 2^kb == 2^53 * 2^(kb-1)
        lemma_pow2_adds(1, (kb - 1) as nat);
        vstd::arithmetic::mul::lemma_mul_is_associative(pow2(52) as int, 2, pk);
        assert(pow2(52) * pow2(kb as nat) == (pow2(52) * 2) * pk);
        assert(mag_scaled(bits) == (m0 + 1) * pk);
    } else if rup {
        assert(mag_scaled(bits) == (m0 + 1) * pk);
    } else {
        assert(mag_scaled(bits) == m0 * pk);
    }
    // the rounding error is within half an ulp
    if rup {
        assert(mag_scaled(bits) * 1_000_000_000 == ((m0 + 1) * 1_000_000_000) * pk) by {
            vstd::arithmetic::mul::lemma_mul_is_associative(m0 + 1, 1_000_000_000, pk);
            vstd::arithmetic::mul::lemma_mul_is_commutative(m0 + 1, 1_000_000_000);
            vstd::arithmetic::mul::lemma_mul_is_associative(1_000_000_000, m0 + 1, pk);
            vstd::arithmetic::mul::lemma_mul_is_commutative(
                1_000_000_000,
                (m0 + 1) * pk,
            );
        }
        assert(round_err(nn, bits) == (den - r0) * pow2(c));
        vstd::arithmetic::mul::lemma_mul_nonnegative(den - r0, pow2(c) as int);
        // 2 * (den - r0) <= den
        assert(2 * (den - r0) <= den);
        assert(2 * ((den - r0) * pow2(c)) <= den * pow2(c)) by {
            lemma_mul_inequality(2 * (den - r0), den, pow2(c) as int);
            vstd::arithmetic::mul::lemma_mul_is_associative(2, den - r0, pow2(c) as int);
        }
        assert(den * pow2(c) == 1_000_000_000 * pk);
        lemma_pow2_le_kbf(kb, kbf);
        vstd::arithmetic::mul::lemma_mul_inequality(
            pk,
            pow2((kbf - 1) as nat) as int,
            1_000_000_000,
        );
        vstd::arithmetic::mul::lemma_mul_is_commutative(pk, 1_000_000_000);
        vstd::arithmetic::mul::lemma_mul_is_commutative(pow2((kbf - 1) as nat) as int, 1_000_000_000);
    } else {
        assert(mag_scaled(bits) * 1_000_000_000 == (m0 * 1_000_000_000) * pk) by {
            vstd::arithmetic::mul::lemma_mul_is_associative(m0, 1_000_000_000, pk);
            vstd::arithmetic::mul::lemma_mul_is_commutative(m0, 1_000_000_000);
            vstd::arithmetic::mul::lemma_mul_is_associative(1_000_000_000, m0, pk);
            vstd::arithmetic::mul::lemma_mul_is_commutative(1_000_000_000, m0 * pk);
        }
        assert(round_err(nn, bits) == -(r0 * pow2(c)));
        vstd::arithmetic::mul::lemma_mul_nonnegative(r0, pow2(c) as int);
        assert(2 * r0 <= den);
        assert(2 * (r0 * pow2(c)) <= den * pow2(c)) by {
            lemma_mul_inequality(2 * r0, den, pow2(c) as int);
            vstd::arithmetic::mul::lemma_mul_is_associative(2, r0, pow2(c) as int);
        }
        assert(den * pow2(c) == 1_000_000_000 * pk);
    }
    // an exact half-ulp tie lands on an even mantissa
    if 2 * abs_of(round_err(nn, bits)) == 1_000_000_000 * pow2(crate::ieee::eexp(bits)) {
        if rup && m0 + 1 == pow2(53) {
            assert(frac_field(bits) == 0);
        } else if rup {
            // 2 * (den - r0) * 2^c == den * 2^c, so den == 2 * r0, and the
            // rounding rule took this branch only on an odd m0
            vstd::arithmetic::mul::lemma_mul_is_associative(2, den - r0, pow2(c) as int);
            lemma_cancel_eq(2 * (den - r0), den, pow2(c) as int);
            assert(m0 % 2 == 1);
            lemma_even_minus_pow52(m);
        } else {
            vstd::arithmetic::mul::lemma_mul_is_associative(2, r0, pow2(c) as int);
            lemma_cancel_eq(2 * r0, den, pow2(c) as int);
            assert(m0 % 2 == 0);
            lemma_even_minus_pow52(m);
        }
    }
    // a nonzero value gives a nonzero pattern
    assert(bits != 0) by {
        if bits == 0 {
            assert(((0u64 >> 52) & 0x7ff) == 0) by (bit_vector);
        }
    }
    // exactness forces the pattern
    assert forall|b0: u64| #[trigger] exact_nanos(nn, b0) implies bits == b0 by {
        lemma_exact_forces(nn, num, den, ash, bshf, kb, m0, r0, b0);
        assert(!rup);
        crate::ieee::lemma_bits_from_fields(bits, b0);
    }
}

/// `x * p == y * p` cancels to `x == y` for positive `p`.
proof fn lemma_cancel_eq(x: int, y: int, p: int)
    requires
        0 < p,
        x * p == y * p,
    ensures
        x == y,
{
    lemma_cancel_le(x, y, p);
    lemma_cancel_le(y, x, p);
}

/// Subtracting the even `2^52` keeps an even number even.
proof fn lemma_even_minus_pow52(m: int)
    requires
        m % 2 == 0,
        pow2(52) <= m,
    ensures
        (m - pow2(52)) % 2 == 0,
{
    lemma2_to64_rest();
    lemma_fundamental_div_mod(m, 2);
    lemma_pow2_adds(1, 51);
    lemma2_to64();
    vstd::arithmetic::mul::lemma_mul_is_distributive_sub(2, m / 2, pow2(51) as int);
    lemma_div_mod_from_identity(m - pow2(52), 2, m / 2 - pow2(51), 0);
}

/// The final exponent is at least the candidate exponent.
proof fn lemma_pow2_le_kbf(kb: u64, kbf: u64)
    requires
        1 <= kb <= kbf,
    ensures
        pow2((kb - 1) as nat) <= pow2((kbf - 1) as nat),
{
    lemma_pow2_strictly_increases_or_eq((kb - 1) as nat, (kbf - 1) as nat);
}

/// For `e <= 1074` the magnitude stays below the `2^64`-seconds bound.
proof fn lemma_mag_narrow_bound(b: u64, ep: u64)
    requires
        is_finite(b),
        1 <= ep <= 1075,
        crate::ieee::eexp(b) == (ep - 1) as nat,
    ensures
        mag_scaled(b) < pow2(1127),
{
    lemma_field_bounds(b);
    lemma2_to64_rest();
    lemma_pow2_pos((ep - 1) as nat);
    assert(sig(b) < pow2(53));
    vstd::arithmetic::mul::lemma_mul_nonnegative(sig(b), pow2((ep - 1) as nat) as int);
    lemma_mul_strict_inequality(sig(b), pow2(53) as int, pow2((ep - 1) as nat) as int);
    lemma_mul_is_commutative(pow2(53) as int, pow2((ep - 1) as nat) as int);
    lemma_pow2_adds(53, (ep - 1) as nat);
    lemma_pow2_strictly_increases_or_eq((53 + ep - 1) as nat, 1127);
}

/// When the scale shift is at least 83 bits the nanosecond part vanishes.
proof fn lemma_subsec_zero_when_tiny(b: u64, ep: u64, shift: u64, rem: u64)
    requires
        is_finite(b),
        1 <= ep,
        shift == 1075 - ep,
        83 <= shift <= 1074,
        crate::ieee::eexp(b) == (ep - 1) as nat,
        rem < pow2(53),
        mag_scaled(b) % (pow2(1074) as int) == rem * pow2((ep - 1) as nat),
    ensures
        subsec_nanos_of(b) == 0,
{
    lemma2_to64();
    lemma2_to64_rest();
    lemma_pow2_pos((ep - 1) as nat);
    lemma_pow2_pos(shift as nat);
    lemma_pow2_pos(1074);
    // rem * 1e9 < 2^53 * 2^30 = 2^83 <= 2^shift
    vstd::arithmetic::mul::lemma_mul_nonnegative(rem as int, 1_000_000_000);
    vstd::arithmetic::mul::lemma_mul_upper_bound(
        rem as int,
        0x1f_ffff_ffff_ffff,
        1_000_000_000,
        0x3fff_ffff,
    );
    lemma_pow2_adds(53, 30);
    lemma_pow2_strictly_increases_or_eq(83, shift as nat);
    assert(0x1f_ffff_ffff_ffffu128 * 0x3fff_ffffu128 < pow2(83));
    // (rem * 2^(ep-1)) * 1e9 == (rem * 1e9) * 2^(ep-1) < 2^shift * 2^(ep-1) = 2^1074
    lemma_mul_is_associative(rem as int, pow2((ep - 1) as nat) as int, 1_000_000_000);
    lemma_mul_is_commutative(pow2((ep - 1) as nat) as int, 1_000_000_000);
    lemma_mul_is_associative(rem as int, 1_000_000_000, pow2((ep - 1) as nat) as int);
    vstd::arithmetic::mul::lemma_mul_nonnegative(
        (rem * 1_000_000_000) as int,
        pow2((ep - 1) as nat) as int,
    );
    lemma_mul_strict_inequality(
        (rem * 1_000_000_000) as int,
        pow2(shift as nat) as int,
        pow2((ep - 1) as nat) as int,
    );
    lemma_pow2_adds(shift as nat, (ep - 1) as nat);
    lemma_div_mod_from_identity(
        (rem * pow2((ep - 1) as nat)) * 1_000_000_000,
        pow2(1074) as int,
        0,
        (rem * pow2((ep - 1) as nat)) * 1_000_000_000,
    );
}

/// The nanosecond part is the remainder times `1e9`, shifted down.
proof fn lemma_subsec_value(b: u64, ep: u64, shift: u64, rem: u64, q: int)
    requires
        is_finite(b),
        1 <= ep,
        shift == 1075 - ep,
        1 <= shift <= 82,
        crate::ieee::eexp(b) == (ep - 1) as nat,
        rem < pow2(shift as nat),
        mag_scaled(b) % (pow2(1074) as int) == rem * pow2((ep - 1) as nat),
        q == (rem * 1_000_000_000) as int / (pow2(shift as nat) as int),
    ensures
        subsec_nanos_of(b) == q,
        0 <= q < 1_000_000_000,
{
    lemma2_to64();
    lemma_pow2_pos((ep - 1) as nat);
    lemma_pow2_pos(shift as nat);
    lemma_pow2_pos(1074);
    vstd::arithmetic::mul::lemma_mul_nonnegative(rem as int, 1_000_000_000);
    let num = (rem * 1_000_000_000) as int;
    let p = pow2(shift as nat) as int;
    lemma_fundamental_div_mod(num, p);
    vstd::arithmetic::div_mod::lemma_mod_bound(num, p);
    vstd::arithmetic::div_mod::lemma_div_pos_is_pos(num, p);
    let r0 = num % p;
    assert(num == q * p + r0) by {
        lemma_mul_is_commutative(q, p);
    }
    // q < 1e9 since num < 2^shift * 1e9
    lemma_mul_strict_inequality(rem as int, p, 1_000_000_000);
    assert(q < 1_000_000_000) by {
        if q >= 1_000_000_000 {
            lemma_mul_inequality(1_000_000_000, q, p);
            lemma_mul_is_commutative(1_000_000_000, p);
            lemma_mul_is_commutative(q, p);
            assert(num >= 1_000_000_000 * p);
            assert(num < p * 1_000_000_000);
        }
    }
    // (rem * 2^(ep-1)) * 1e9 == q * 2^1074 + r0 * 2^(ep-1)
    lemma_mul_is_associative(rem as int, pow2((ep - 1) as nat) as int, 1_000_000_000);
    lemma_mul_is_commutative(pow2((ep - 1) as nat) as int, 1_000_000_000);
    lemma_mul_is_associative(rem as int, 1_000_000_000, pow2((ep - 1) as nat) as int);
    assert((rem * pow2((ep - 1) as nat)) * 1_000_000_000 == num * pow2((ep - 1) as nat));
    lemma_mul_is_distributive_add_other_way(pow2((ep - 1) as nat) as int, q * p, r0);
    assert(num * pow2((ep - 1) as nat) == (q * p) * pow2((ep - 1) as nat) + r0 * pow2(
        (ep - 1) as nat,
    ));
    lemma_mul_is_associative(q, p, pow2((ep - 1) as nat) as int);
    lemma_pow2_adds(shift as nat, (ep - 1) as nat);
    vstd::arithmetic::mul::lemma_mul_nonnegative(r0, pow2((ep - 1) as nat) as int);
    lemma_mul_strict_inequality(r0, p, pow2((ep - 1) as nat) as int);
    lemma_div_mod_from_identity(
        (rem * pow2((ep - 1) as nat)) * 1_000_000_000,
        pow2(1074) as int,
        q,
        r0 * pow2((ep - 1) as nat),
    );
}

} // verus!
