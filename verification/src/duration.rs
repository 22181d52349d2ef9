//! The duration value type and its exact operations.

use vstd::prelude::*;

verus! {

use crate::ieee::biased_exp;
use crate::ieee::frac_field;
use crate::ieee::is_finite;
use crate::ieee::is_nan;
use crate::ieee::lemma_bits_from_fields;
use crate::ieee::lemma_field_bounds;
use crate::ieee::lemma_mag_bounds;
use crate::ieee::lemma_payload_order;
use crate::ieee::mag_scaled;
use crate::ieee::payload;
use crate::ieee::sig;
use crate::ieee::sign_bit;
use crate::ieee::val_scaled;
use crate::ieee::wide_mag;
use crate::ieee::wide_val;
use vstd::arithmetic::power2::pow2;

/// A specific point in time.
///
/// Types implementing `TimePoint` can have a `FloatDuration` computed between
/// them via `float_duration_since` in either direction.
pub trait TimePoint<Rhs = Self>: Sized {
    /// The type returned if there is an error computing the duration.
    type Err;

    /// The amount of time between two `TimePoint`s.
    fn float_duration_since(self, rhs: Rhs) -> Result<FloatDuration, Self::Err>;
}

/// A time duration stored as a floating point quantity.
///
/// A `FloatDuration` is one IEEE 754 binary64 number of seconds, held as its
/// 64-bit pattern.  Equality, ordering, sign tests, negation, absolute value
/// and the conversions to whole-second / sub-second-nanosecond pairs are
/// exact operations on that pattern and are verified here; the operations
/// that round (unit constructors and accessors, arithmetic, numeric
/// formatting) are floating point and live with the embedding program.
///
/// A NaN pattern is not a meaningful duration; the operations that a NaN
/// would make unspecified require `!is_nan` of their inputs.
#[derive(Debug, Clone, Copy)]
pub struct FloatDuration {
    pub(crate) bits: u64,
}

impl FloatDuration {
    /// The bit pattern of the underlying binary64 seconds count.
    pub closed spec fn spec_bits(self) -> u64 {
        self.bits
    }

    /// The value of this duration in seconds, in units of `2^-1074`, for a
    /// finite pattern.
    pub open spec fn secs_scaled(self) -> int {
        val_scaled(self.spec_bits())
    }

    /// The value extended with sentinels for the infinities.
    pub open spec fn wide_secs_scaled(self) -> int {
        wide_val(self.spec_bits())
    }

    /// Whether the underlying pattern is a NaN.
    pub open spec fn spec_is_nan(self) -> bool {
        is_nan(self.spec_bits())
    }

    /// Whether the underlying pattern is finite.
    pub open spec fn spec_is_finite(self) -> bool {
        is_finite(self.spec_bits())
    }

    /// Assembles a duration from the bit pattern of a binary64 seconds count.
    pub fn from_bits(bits: u64) -> (r: FloatDuration)
        ensures
            r.spec_bits() == bits,
    {
        FloatDuration { bits }
    }

    /// The bit pattern of the binary64 seconds count.
    pub fn to_bits(&self) -> (r: u64)
        ensures
            r == self.spec_bits(),
    {
        self.bits
    }

    /// Return a new `FloatDuration` that represents zero elapsed time.
    pub fn zero() -> (r: FloatDuration)
        ensures
            r.spec_is_finite(),
            r.secs_scaled() == 0,
            sign_bit(r.spec_bits()) == 0,
            r.spec_bits() == 0,
    {
        proof {
            assert((0u64 >> 63) == 0 && ((0u64 >> 52) & 0x7ff) == 0 && (0u64
                & 0xf_ffff_ffff_ffff) == 0) by (bit_vector);
            vstd::arithmetic::mul::lemma_mul_by_zero_is_zero(
                vstd::arithmetic::power2::pow2(0) as int,
            );
        }
        FloatDuration { bits: 0 }
    }

    /// Returns true if this duration represents zero elapsed time (equals
    /// `FloatDuration::zero()`), that is, if the seconds count is a signed
    /// zero.
    pub fn is_zero(&self) -> (r: bool)
        ensures
            r <==> (self.spec_is_finite() && self.secs_scaled() == 0),
    {
        proof {
            lemma_field_bounds(self.bits);
            if is_finite(self.bits) {
                lemma_mag_bounds(self.bits);
            } else {
                assert(payload(self.bits) != 0) by {
                    let b = self.bits;
                    assert(((b >> 52) & 0x7ff) == 0x7ff ==> (b & 0x7fff_ffff_ffff_ffff) != 0)
                        by (bit_vector);
                }
            }
        }
        (self.bits & 0x7fff_ffff_ffff_ffff) == 0
    }

    /// Returns true if the `FloatDuration` holds a positive amount of time.
    ///
    /// This is a sign-bit test, exactly as for the underlying floating-point
    /// representation: a positive zero is positive and a negative zero is
    /// not.
    pub fn is_positive(&self) -> (r: bool)
        ensures
            r <==> sign_bit(self.spec_bits()) == 0,
    {
        proof {
            lemma_field_bounds(self.bits);
            let b = self.bits;
            assert((b >> 63) == 0 <==> b < 0x8000_0000_0000_0000) by (bit_vector);
        }
        self.bits < 0x8000_0000_0000_0000
    }

    /// Returns true if the `FloatDuration` holds a negative amount of time.
    ///
    /// This is a sign-bit test: a negative zero is negative.
    pub fn is_negative(&self) -> (r: bool)
        ensures
            r <==> sign_bit(self.spec_bits()) == 1,
    {
        proof {
            lemma_field_bounds(self.bits);
            let b = self.bits;
            assert((b >> 63) == 1 <==> b >= 0x8000_0000_0000_0000) by (bit_vector);
        }
        self.bits >= 0x8000_0000_0000_0000
    }

    /// The negation of this duration: the sign of the seconds count flips
    /// and nothing else changes.
    pub fn neg(&self) -> (r: FloatDuration)
        ensures
            r == self.neg_spec(),
            r.spec_bits() == self.spec_bits() ^ 0x8000_0000_0000_0000u64,
            sign_bit(r.spec_bits()) == 1 - sign_bit(self.spec_bits()),
            biased_exp(r.spec_bits()) == biased_exp(self.spec_bits()),
            frac_field(r.spec_bits()) == frac_field(self.spec_bits()),
            r.spec_is_finite() == self.spec_is_finite(),
            r.spec_is_nan() == self.spec_is_nan(),
            !self.spec_is_nan() ==> r.wide_secs_scaled() == -self.wide_secs_scaled(),
    {
        proof {
            lemma_neg_fields(self.bits);
            lemma_field_bounds(self.bits);
            if !is_nan(self.bits) && is_finite(self.bits) {
                lemma_mag_bounds(self.bits);
            }
        }
        FloatDuration { bits: self.bits ^ 0x8000_0000_0000_0000 }
    }

    /// Compute the absolute value of this duration: the sign bit clears and
    /// nothing else changes.
    pub fn abs(&self) -> (r: FloatDuration)
        ensures
            r.spec_bits() == self.spec_bits() & 0x7fff_ffff_ffff_ffffu64,
            sign_bit(r.spec_bits()) == 0,
            biased_exp(r.spec_bits()) == biased_exp(self.spec_bits()),
            frac_field(r.spec_bits()) == frac_field(self.spec_bits()),
            r.spec_is_finite() == self.spec_is_finite(),
            r.spec_is_nan() == self.spec_is_nan(),
            !self.spec_is_nan() ==> r.wide_secs_scaled() == wide_mag(self.spec_bits()),
    {
        proof {
            lemma_abs_fields(self.bits);
        }
        FloatDuration { bits: self.bits & 0x7fff_ffff_ffff_ffff }
    }

    /// Return a new `FloatDuration` with the minimum possible value: the
    /// most negative finite binary64 seconds count.
    pub fn min_value() -> (r: FloatDuration)
        ensures
            r.spec_is_finite(),
            sign_bit(r.spec_bits()) == 1,
            r.secs_scaled() == -((pow2(53) - 1) * pow2(2045)),
    {
        proof {
            lemma_extreme_value_fields();
        }
        FloatDuration { bits: 0xffef_ffff_ffff_ffff }
    }

    /// Return a new `FloatDuration` with the maximum possible value: the
    /// largest finite binary64 seconds count.
    pub fn max_value() -> (r: FloatDuration)
        ensures
            r.spec_is_finite(),
            sign_bit(r.spec_bits()) == 0,
            r.secs_scaled() == (pow2(53) - 1) * pow2(2045),
    {
        proof {
            lemma_extreme_value_fields();
        }
        FloatDuration { bits: 0x7fef_ffff_ffff_ffff }
    }

    /// Whether this duration is strictly less than `other`, by the ordering
    /// of the underlying seconds counts.  Every comparison against a NaN
    /// pattern is false, as for the floating-point ordering itself.
    pub fn lt(&self, other: &FloatDuration) -> (r: bool)
        ensures
            r <==> (!self.spec_is_nan() && !other.spec_is_nan() && self.wide_secs_scaled()
                < other.wide_secs_scaled()),
    {
        let a = self.bits;
        let b = other.bits;
        if is_nan_exec(a) || is_nan_exec(b) {
            false
        } else {
            proof {
                lemma_field_bounds(a);
                lemma_field_bounds(b);
                lemma_cmp_semantics(a, b);
            }
            let pa = a & 0x7fff_ffff_ffff_ffff;
            let pb = b & 0x7fff_ffff_ffff_ffff;
            let sa = a >> 63;
            let sb = b >> 63;
            if sa == 0 && sb == 0 {
                pa < pb
            } else if sa == 1 && sb == 1 {
                pb < pa
            } else if sa == 1 {
                pa != 0 || pb != 0
            } else {
                false
            }
        }
    }

    /// Whether this duration equals `other`, by the equality of the
    /// underlying seconds counts: the two zeros are equal, and a NaN
    /// pattern equals nothing.
    pub fn eq_value(&self, other: &FloatDuration) -> (r: bool)
        ensures
            r <==> (!self.spec_is_nan() && !other.spec_is_nan() && self.wide_secs_scaled()
                == other.wide_secs_scaled()),
    {
        let a = self.bits;
        let b = other.bits;
        if is_nan_exec(a) || is_nan_exec(b) {
            false
        } else if a == b {
            true
        } else {
            proof {
                lemma_cmp_semantics(a, b);
                assert(((a | b) & 0x7fff_ffff_ffff_ffff) == 0 <==> ((a & 0x7fff_ffff_ffff_ffff)
                    == 0 && (b & 0x7fff_ffff_ffff_ffff) == 0)) by (bit_vector);
            }
            ((a | b) & 0x7fff_ffff_ffff_ffff) == 0
        }
    }
}

/// Negating a duration twice gives back the duration it started from,
/// bit for bit.
pub proof fn lemma_neg_involutive(d: FloatDuration)
    ensures
        d.neg_spec().neg_spec() == d,
{
    let b = d.spec_bits();
    assert((b ^ 0x8000_0000_0000_0000) ^ 0x8000_0000_0000_0000 == b) by (bit_vector);
}

impl FloatDuration {
    /// The bit pattern `neg` returns, as a specification-level function.
    pub closed spec fn neg_spec(self) -> FloatDuration {
        FloatDuration { bits: self.spec_bits() ^ 0x8000_0000_0000_0000 }
    }
}

/// Within the crate, the specification-level pattern is the stored field.
pub(crate) proof fn lemma_spec_bits(d: FloatDuration)
    ensures
        d.spec_bits() == d.bits,
{
}

/// Executable test for a NaN pattern.
fn is_nan_exec(b: u64) -> (r: bool)
    ensures
        r == is_nan(b),
{
    ((b >> 52) & 0x7ff) == 0x7ff && (b & 0xf_ffff_ffff_ffff) != 0
}

/// The sign bit flips under xor with the sign mask; the other fields stay.
proof fn lemma_neg_fields(b: u64)
    ensures
        sign_bit(b ^ 0x8000_0000_0000_0000) == 1 - sign_bit(b),
        biased_exp(b ^ 0x8000_0000_0000_0000) == biased_exp(b),
        frac_field(b ^ 0x8000_0000_0000_0000) == frac_field(b),
{
    assert(((b ^ 0x8000_0000_0000_0000u64) >> 52) & 0x7ff == (b >> 52) & 0x7ff) by (bit_vector);
    assert((b ^ 0x8000_0000_0000_0000u64) & 0xf_ffff_ffff_ffff == b & 0xf_ffff_ffff_ffff)
        by (bit_vector);
    assert((b >> 63 == 0 ==> (b ^ 0x8000_0000_0000_0000u64) >> 63 == 1) && (b >> 63 == 1 ==> (b
        ^ 0x8000_0000_0000_0000u64) >> 63 == 0) && (b >> 63 == 0 || b >> 63 == 1)) by (bit_vector);
}

/// The sign bit clears under and with the payload mask; the other fields
/// stay.
proof fn lemma_abs_fields(b: u64)
    ensures
        sign_bit(b & 0x7fff_ffff_ffff_ffff) == 0,
        biased_exp(b & 0x7fff_ffff_ffff_ffff) == biased_exp(b),
        frac_field(b & 0x7fff_ffff_ffff_ffff) == frac_field(b),
        payload(b & 0x7fff_ffff_ffff_ffff) == payload(b),
{
    assert(((b & 0x7fff_ffff_ffff_ffffu64) >> 52) & 0x7ff == (b >> 52) & 0x7ff) by (bit_vector);
    assert((b & 0x7fff_ffff_ffff_ffffu64) & 0xf_ffff_ffff_ffff == b & 0xf_ffff_ffff_ffff)
        by (bit_vector);
    assert((b & 0x7fff_ffff_ffff_ffffu64) >> 63 == 0) by (bit_vector);
    assert((b & 0x7fff_ffff_ffff_ffffu64) & 0x7fff_ffff_ffff_ffff == b & 0x7fff_ffff_ffff_ffff)
        by (bit_vector);
}

/// Field values of the two extreme finite patterns.
proof fn lemma_extreme_value_fields()
    ensures
        sign_bit(0x7fef_ffff_ffff_ffffu64) == 0,
        biased_exp(0x7fef_ffff_ffff_ffffu64) == 0x7fe,
        frac_field(0x7fef_ffff_ffff_ffffu64) == 0xf_ffff_ffff_ffff,
        sign_bit(0xffef_ffff_ffff_ffffu64) == 1,
        biased_exp(0xffef_ffff_ffff_ffffu64) == 0x7fe,
        frac_field(0xffef_ffff_ffff_ffffu64) == 0xf_ffff_ffff_ffff,
        mag_scaled(0x7fef_ffff_ffff_ffffu64) == (pow2(53) - 1) * pow2(2045),
        mag_scaled(0xffef_ffff_ffff_ffffu64) == (pow2(53) - 1) * pow2(2045),
{
    assert(0x7fef_ffff_ffff_ffffu64 >> 63 == 0 && (0x7fef_ffff_ffff_ffffu64 >> 52) & 0x7ff
        == 0x7fe && 0x7fef_ffff_ffff_ffffu64 & 0xf_ffff_ffff_ffff == 0xf_ffff_ffff_ffff)
        by (bit_vector);
    assert(0xffef_ffff_ffff_ffffu64 >> 63 == 1 && (0xffef_ffff_ffff_ffffu64 >> 52) & 0x7ff
        == 0x7fe && 0xffef_ffff_ffff_ffffu64 & 0xf_ffff_ffff_ffff == 0xf_ffff_ffff_ffff)
        by (bit_vector);
    vstd::arithmetic::power2::lemma2_to64_rest();
    assert(pow2(53) == 0x20_0000_0000_0000);
}

/// The bit-level form of floating-point equality and ordering on non-NaN
/// patterns.
proof fn lemma_cmp_semantics(a: u64, b: u64)
    requires
        !is_nan(a),
        !is_nan(b),
    ensures
        wide_val(a) == wide_val(b) <==> (a == b || (payload(a) == 0 && payload(b) == 0)),
        sign_bit(a) == 0 && sign_bit(b) == 0 ==> (wide_val(a) < wide_val(b) <==> payload(a)
            < payload(b)),
        sign_bit(a) == 1 && sign_bit(b) == 1 ==> (wide_val(a) < wide_val(b) <==> payload(b)
            < payload(a)),
        sign_bit(a) == 1 && sign_bit(b) == 0 ==> (wide_val(a) < wide_val(b) <==> !(payload(a) == 0
            && payload(b) == 0)),
        sign_bit(a) == 0 && sign_bit(b) == 1 ==> !(wide_val(a) < wide_val(b)),
{
    lemma_field_bounds(a);
    lemma_field_bounds(b);
    lemma_wide_mag_shape(a);
    lemma_wide_mag_shape(b);
    if payload(a) < payload(b) {
        lemma_payload_order(a, b);
    } else if payload(b) < payload(a) {
        lemma_payload_order(b, a);
    } else {
        lemma_payload_eq_fields(a, b);
    }
    if sign_bit(a) == sign_bit(b) && payload(a) == payload(b) {
        lemma_bits_from_fields(a, b);
    }
}

/// Equal payloads mean equal magnitude fields.
proof fn lemma_payload_eq_fields(a: u64, b: u64)
    requires
        payload(a) == payload(b),
    ensures
        biased_exp(a) == biased_exp(b),
        frac_field(a) == frac_field(b),
{
    assert((a & 0x7fff_ffff_ffff_ffff) == (b & 0x7fff_ffff_ffff_ffff) ==> ((a >> 52) & 0x7ff) == (
    (b >> 52) & 0x7ff) && (a & 0xf_ffff_ffff_ffff) == (b & 0xf_ffff_ffff_ffff)) by (bit_vector);
}

/// The wide value is the sign-adjusted wide magnitude, the wide magnitude
/// is nonnegative, and it is zero exactly on the zero payload.
proof fn lemma_wide_mag_shape(b: u64)
    requires
        !is_nan(b),
    ensures
        wide_val(b) == if sign_bit(b) == 1 {
            -wide_mag(b)
        } else {
            wide_mag(b)
        },
        wide_mag(b) >= 0,
        wide_mag(b) == 0 <==> payload(b) == 0,
{
    lemma_field_bounds(b);
    if is_finite(b) {
        lemma_mag_bounds(b);
    } else {
        vstd::arithmetic::power2::lemma_pow2_pos(2100);
        assert(payload(b) != 0) by {
            assert(((b >> 52) & 0x7ff) == 0x7ff ==> (b & 0x7fff_ffff_ffff_ffff) != 0)
                by (bit_vector);
        }
    }
}

/// The unit a duration is displayed in.
#[derive(Debug, Clone, Copy, PartialEq, Eq, Structural)]
pub enum TimeUnit {
    /// Days of 86400 seconds.
    Days,
    /// Hours of 3600 seconds.
    Hours,
    /// Minutes of 60 seconds.
    Minutes,
    /// Seconds.
    Seconds,
    /// Thousandths of a second.
    Milliseconds,
    /// Millionths of a second.
    Microseconds,
    /// Billionths of a second.
    Nanoseconds,
}

impl TimeUnit {
    /// The plural English name of the unit, as used when formatting a
    /// duration.
    pub fn name(&self) -> (r: &'static str)
        ensures
            (*self is Days ==> r@ == "days"@),
            (*self is Hours ==> r@ == "hours"@),
            (*self is Minutes ==> r@ == "minutes"@),
            (*self is Seconds ==> r@ == "seconds"@),
            (*self is Milliseconds ==> r@ == "milliseconds"@),
            (*self is Microseconds ==> r@ == "microseconds"@),
            (*self is Nanoseconds ==> r@ == "nanoseconds"@),
    {
        match self {
            TimeUnit::Days => "days",
            TimeUnit::Hours => "hours",
            TimeUnit::Minutes => "minutes",
            TimeUnit::Seconds => "seconds",
            TimeUnit::Milliseconds => "milliseconds",
            TimeUnit::Microseconds => "microseconds",
            TimeUnit::Nanoseconds => "nanoseconds",
        }
    }
}

/// The display threshold for days: one day of seconds, scaled.
pub open spec fn days_threshold() -> int {
    mag_scaled(0x40f5_1800_0000_0000)
}

/// The display threshold for hours: one hour of seconds, scaled.
pub open spec fn hours_threshold() -> int {
    mag_scaled(0x40ac_2000_0000_0000)
}

/// The display threshold for minutes: one minute of seconds, scaled.
pub open spec fn minutes_threshold() -> int {
    mag_scaled(0x404e_0000_0000_0000)
}

/// The display threshold for seconds: one second, scaled.
pub open spec fn seconds_threshold() -> int {
    mag_scaled(0x3ff0_0000_0000_0000)
}

/// The display threshold for milliseconds: the binary64 value nearest
/// `1e-3` seconds, scaled.
pub open spec fn millis_threshold() -> int {
    mag_scaled(0x3f50_624d_d2f1_a9fc)
}

/// The display threshold for microseconds: the binary64 value nearest
/// `1e-6` seconds, scaled.
pub open spec fn micros_threshold() -> int {
    mag_scaled(0x3eb0_c6f7_a0b5_ed8d)
}

/// The four exactly-representable thresholds denote exactly one day, one
/// hour, one minute and one second; and the six thresholds are positive
/// and strictly increase from microseconds up to days.
pub proof fn lemma_threshold_values()
    ensures
        days_threshold() == 86400 * pow2(1074),
        hours_threshold() == 3600 * pow2(1074),
        minutes_threshold() == 60 * pow2(1074),
        seconds_threshold() == pow2(1074),
        0 < micros_threshold(),
        micros_threshold() < millis_threshold(),
        millis_threshold() < seconds_threshold(),
        seconds_threshold() < minutes_threshold(),
        minutes_threshold() < hours_threshold(),
        hours_threshold() < days_threshold(),
{
    lemma_display_constant_fields();
    vstd::arithmetic::power2::lemma2_to64();
    vstd::arithmetic::power2::lemma2_to64_rest();
    // one day: sig = 86400 * 2^36, eexp = 1038
    assert(sig(0x40f5_1800_0000_0000) == 86400 * 0x10_0000_0000);
    vstd::arithmetic::power2::lemma_pow2_adds(36, 1038);
    assert((86400 * pow2(36)) * pow2(1038) == 86400 * pow2(1074)) by {
        vstd::arithmetic::mul::lemma_mul_is_associative(86400, pow2(36) as int, pow2(1038) as int);
    }
    // one hour: sig = 3600 * 2^41, eexp = 1033
    assert(sig(0x40ac_2000_0000_0000) == 3600 * 0x200_0000_0000);
    vstd::arithmetic::power2::lemma_pow2_adds(41, 1033);
    assert((3600 * pow2(41)) * pow2(1033) == 3600 * pow2(1074)) by {
        vstd::arithmetic::mul::lemma_mul_is_associative(3600, pow2(41) as int, pow2(1033) as int);
    }
    // one minute: sig = 60 * 2^47, eexp = 1027
    assert(sig(0x404e_0000_0000_0000) == 60 * 0x8000_0000_0000);
    vstd::arithmetic::power2::lemma_pow2_adds(47, 1027);
    assert((60 * pow2(47)) * pow2(1027) == 60 * pow2(1074)) by {
        vstd::arithmetic::mul::lemma_mul_is_associative(60, pow2(47) as int, pow2(1027) as int);
    }
    // one second: sig = 2^52, eexp = 1022
    vstd::arithmetic::power2::lemma_pow2_adds(52, 1022);
    // positivity and order
    vstd::arithmetic::power2::lemma_pow2_pos(1002);
    vstd::arithmetic::mul::lemma_mul_strictly_positive(
        sig(0x3eb0_c6f7_a0b5_ed8d),
        pow2(1002) as int,
    );
    lemma_payload_order(0x3eb0_c6f7_a0b5_ed8d, 0x3f50_624d_d2f1_a9fc);
    lemma_payload_order(0x3f50_624d_d2f1_a9fc, 0x3ff0_0000_0000_0000);
    lemma_payload_order(0x3ff0_0000_0000_0000, 0x404e_0000_0000_0000);
    lemma_payload_order(0x404e_0000_0000_0000, 0x40ac_2000_0000_0000);
    lemma_payload_order(0x40ac_2000_0000_0000, 0x40f5_1800_0000_0000);
}

/// Fields of the six display threshold patterns.
proof fn lemma_display_constant_fields()
    ensures
        sign_bit(0x40f5_1800_0000_0000u64) == 0,
        biased_exp(0x40f5_1800_0000_0000u64) == 0x40f,
        frac_field(0x40f5_1800_0000_0000u64) == 0x5_1800_0000_0000,
        payload(0x40f5_1800_0000_0000u64) == 0x40f5_1800_0000_0000,
        sign_bit(0x40ac_2000_0000_0000u64) == 0,
        biased_exp(0x40ac_2000_0000_0000u64) == 0x40a,
        frac_field(0x40ac_2000_0000_0000u64) == 0xc_2000_0000_0000,
        payload(0x40ac_2000_0000_0000u64) == 0x40ac_2000_0000_0000,
        sign_bit(0x404e_0000_0000_0000u64) == 0,
        biased_exp(0x404e_0000_0000_0000u64) == 0x404,
        frac_field(0x404e_0000_0000_0000u64) == 0xe_0000_0000_0000,
        payload(0x404e_0000_0000_0000u64) == 0x404e_0000_0000_0000,
        sign_bit(0x3ff0_0000_0000_0000u64) == 0,
        biased_exp(0x3ff0_0000_0000_0000u64) == 0x3ff,
        frac_field(0x3ff0_0000_0000_0000u64) == 0,
        payload(0x3ff0_0000_0000_0000u64) == 0x3ff0_0000_0000_0000,
        sign_bit(0x3f50_624d_d2f1_a9fcu64) == 0,
        biased_exp(0x3f50_624d_d2f1_a9fcu64) == 0x3f5,
        frac_field(0x3f50_624d_d2f1_a9fcu64) == 0x0_624d_d2f1_a9fc,
        payload(0x3f50_624d_d2f1_a9fcu64) == 0x3f50_624d_d2f1_a9fc,
        sign_bit(0x3eb0_c6f7_a0b5_ed8du64) == 0,
        biased_exp(0x3eb0_c6f7_a0b5_ed8du64) == 0x3eb,
        frac_field(0x3eb0_c6f7_a0b5_ed8du64) == 0x0_c6f7_a0b5_ed8d,
        payload(0x3eb0_c6f7_a0b5_ed8du64) == 0x3eb0_c6f7_a0b5_ed8d,
{
    assert(0x40f5_1800_0000_0000u64 >> 63 == 0 && (0x40f5_1800_0000_0000u64 >> 52) & 0x7ff == 0x40f
        && 0x40f5_1800_0000_0000u64 & 0xf_ffff_ffff_ffff == 0x5_1800_0000_0000
        && 0x40f5_1800_0000_0000u64 & 0x7fff_ffff_ffff_ffff == 0x40f5_1800_0000_0000)
        by (bit_vector);
    assert(0x40ac_2000_0000_0000u64 >> 63 == 0 && (0x40ac_2000_0000_0000u64 >> 52) & 0x7ff == 0x40a
        && 0x40ac_2000_0000_0000u64 & 0xf_ffff_ffff_ffff == 0xc_2000_0000_0000
        && 0x40ac_2000_0000_0000u64 & 0x7fff_ffff_ffff_ffff == 0x40ac_2000_0000_0000)
        by (bit_vector);
    assert(0x404e_0000_0000_0000u64 >> 63 == 0 && (0x404e_0000_0000_0000u64 >> 52) & 0x7ff == 0x404
        && 0x404e_0000_0000_0000u64 & 0xf_ffff_ffff_ffff == 0xe_0000_0000_0000
        && 0x404e_0000_0000_0000u64 & 0x7fff_ffff_ffff_ffff == 0x404e_0000_0000_0000)
        by (bit_vector);
    assert(0x3ff0_0000_0000_0000u64 >> 63 == 0 && (0x3ff0_0000_0000_0000u64 >> 52) & 0x7ff == 0x3ff
        && 0x3ff0_0000_0000_0000u64 & 0xf_ffff_ffff_ffff == 0
        && 0x3ff0_0000_0000_0000u64 & 0x7fff_ffff_ffff_ffff == 0x3ff0_0000_0000_0000)
        by (bit_vector);
    assert(0x3f50_624d_d2f1_a9fcu64 >> 63 == 0 && (0x3f50_624d_d2f1_a9fcu64 >> 52) & 0x7ff == 0x3f5
        && 0x3f50_624d_d2f1_a9fcu64 & 0xf_ffff_ffff_ffff == 0x0_624d_d2f1_a9fc
        && 0x3f50_624d_d2f1_a9fcu64 & 0x7fff_ffff_ffff_ffff == 0x3f50_624d_d2f1_a9fc)
        by (bit_vector);
    assert(0x3eb0_c6f7_a0b5_ed8du64 >> 63 == 0 && (0x3eb0_c6f7_a0b5_ed8du64 >> 52) & 0x7ff == 0x3eb
        && 0x3eb0_c6f7_a0b5_ed8du64 & 0xf_ffff_ffff_ffff == 0x0_c6f7_a0b5_ed8d
        && 0x3eb0_c6f7_a0b5_ed8du64 & 0x7fff_ffff_ffff_ffff == 0x3eb0_c6f7_a0b5_ed8d)
        by (bit_vector);
}

/// How payload comparison decides magnitude comparison, in both directions.
proof fn lemma_payload_cmp(a: u64, b: u64)
    requires
        !is_nan(a),
        !is_nan(b),
    ensures
        payload(a) < payload(b) <==> wide_mag(a) < wide_mag(b),
        payload(a) == payload(b) ==> wide_mag(a) == wide_mag(b),
{
    if payload(a) < payload(b) {
        lemma_payload_order(a, b);
    } else if payload(b) < payload(a) {
        lemma_payload_order(b, a);
    } else {
        lemma_payload_eq_fields(a, b);
        lemma_field_bounds(a);
        lemma_field_bounds(b);
    }
}

impl FloatDuration {
    /// The unit this duration is displayed in: the largest unit whose
    /// threshold the seconds count strictly exceeds, the thresholds being
    /// tried in strictly descending order, and every threshold comparison
    /// being strict.  A duration of exactly one hour therefore displays in
    /// minutes, and a negative or zero duration displays in nanoseconds.
    pub fn display_unit(&self) -> (r: TimeUnit)
        requires
            !self.spec_is_nan(),
        ensures
            (r == TimeUnit::Days <==> self.wide_secs_scaled() > days_threshold()),
            (r == TimeUnit::Hours <==> hours_threshold() < self.wide_secs_scaled()
                <= days_threshold()),
            (r == TimeUnit::Minutes <==> minutes_threshold() < self.wide_secs_scaled()
                <= hours_threshold()),
            (r == TimeUnit::Seconds <==> seconds_threshold() < self.wide_secs_scaled()
                <= minutes_threshold()),
            (r == TimeUnit::Milliseconds <==> millis_threshold() < self.wide_secs_scaled()
                <= seconds_threshold()),
            (r == TimeUnit::Microseconds <==> micros_threshold() < self.wide_secs_scaled()
                <= millis_threshold()),
            (r == TimeUnit::Nanoseconds <==> self.wide_secs_scaled() <= micros_threshold()),
    {
        let b = self.bits;
        proof {
            lemma_field_bounds(b);
            lemma_display_constant_fields();
            lemma_threshold_values();
            lemma_wide_mag_shape(b);
            assert((b >> 63 == 0) <==> b < 0x8000_0000_0000_0000) by (bit_vector);
            if sign_bit(b) == 0 {
                assert(b >> 63 == 0 ==> b & 0x7fff_ffff_ffff_ffff == b) by (bit_vector);
                lemma_payload_cmp(b, 0x40f5_1800_0000_0000);
                lemma_payload_cmp(b, 0x40ac_2000_0000_0000);
                lemma_payload_cmp(b, 0x404e_0000_0000_0000);
                lemma_payload_cmp(b, 0x3ff0_0000_0000_0000);
                lemma_payload_cmp(b, 0x3f50_624d_d2f1_a9fc);
                lemma_payload_cmp(b, 0x3eb0_c6f7_a0b5_ed8d);
                lemma_payload_cmp(0x40f5_1800_0000_0000, b);
                lemma_payload_cmp(0x40ac_2000_0000_0000, b);
                lemma_payload_cmp(0x404e_0000_0000_0000, b);
                lemma_payload_cmp(0x3ff0_0000_0000_0000, b);
                lemma_payload_cmp(0x3f50_624d_d2f1_a9fc, b);
                lemma_payload_cmp(0x3eb0_c6f7_a0b5_ed8d, b);
            } else {
                assert(b >> 63 == 1 ==> b >= 0x8000_0000_0000_0000) by (bit_vector);
            }
        }
        if b >= 0x8000_0000_0000_0000 {
            // sign-negative: no positive threshold is exceeded
            TimeUnit::Nanoseconds
        } else if b > 0x40f5_1800_0000_0000 {
            TimeUnit::Days
        } else if b > 0x40ac_2000_0000_0000 {
            TimeUnit::Hours
        } else if b > 0x404e_0000_0000_0000 {
            TimeUnit::Minutes
        } else if b > 0x3ff0_0000_0000_0000 {
            TimeUnit::Seconds
        } else if b > 0x3f50_624d_d2f1_a9fc {
            TimeUnit::Milliseconds
        } else if b > 0x3eb0_c6f7_a0b5_ed8d {
            TimeUnit::Microseconds
        } else {
            TimeUnit::Nanoseconds
        }
    }
}

impl PartialEq for FloatDuration {
    /// Equality of the underlying seconds counts: the two zeros are equal,
    /// and a NaN pattern equals nothing, itself included.
    fn eq(&self, other: &FloatDuration) -> (r: bool) {
        self.eq_value(other)
    }
}

impl vstd::std_specs::cmp::PartialEqSpecImpl for FloatDuration {
    open spec fn obeys_eq_spec() -> bool {
        true
    }

    open spec fn eq_spec(&self, other: &FloatDuration) -> bool {
        !self.spec_is_nan() && !other.spec_is_nan() && self.wide_secs_scaled()
            == other.wide_secs_scaled()
    }
}

impl PartialOrd for FloatDuration {
    /// The ordering of the underlying seconds counts: `None` against a
    /// NaN pattern, and the two zeros compare equal.
    fn partial_cmp(&self, other: &FloatDuration) -> (r: Option<core::cmp::Ordering>) {
        if is_nan_exec(self.bits) || is_nan_exec(other.bits) {
            None
        } else if self.eq_value(other) {
            Some(core::cmp::Ordering::Equal)
        } else if self.lt(other) {
            Some(core::cmp::Ordering::Less)
        } else {
            Some(core::cmp::Ordering::Greater)
        }
    }
}

impl vstd::std_specs::cmp::PartialOrdSpecImpl for FloatDuration {
    open spec fn obeys_partial_cmp_spec() -> bool {
        true
    }

    open spec fn partial_cmp_spec(&self, other: &FloatDuration) -> Option<core::cmp::Ordering> {
        if self.spec_is_nan() || other.spec_is_nan() {
            None
        } else if self.wide_secs_scaled() == other.wide_secs_scaled() {
            Some(core::cmp::Ordering::Equal)
        } else if self.wide_secs_scaled() < other.wide_secs_scaled() {
            Some(core::cmp::Ordering::Less)
        } else {
            Some(core::cmp::Ordering::Greater)
        }
    }
}

impl Default for FloatDuration {
    /// The default duration is `FloatDuration::zero()`.
    fn default() -> (r: FloatDuration)
        ensures
            r.spec_bits() == 0,
            r.spec_is_finite(),
            r.secs_scaled() == 0,
    {
        FloatDuration::zero()
    }
}

} // verus!
