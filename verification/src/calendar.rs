//! Conversion to and from a signed calendar duration.
//!
//! The calendar library's duration type constructs from an unsigned
//! source, so the conversion out handles the sign explicitly: it converts
//! the absolute value through the system-duration pair and negates the
//! result if the duration was negative.  The conversion back reads the
//! calendar duration's total nanosecond count when that fits a signed
//! 64-bit integer and falls back to its whole-millisecond count when it
//! does not, losing sub-millisecond precision only for such magnitudes.

use vstd::prelude::*;

verus! {

use crate::duration::FloatDuration;
use crate::error::DurationError;
use crate::ieee::is_finite;
use crate::ieee::lemma_field_bounds;
use crate::ieee::mag_scaled;
use crate::ieee::payload;
use crate::ieee::sign_bit;
use crate::system::abs_of;
use crate::system::exact_nanos;
use crate::system::rounds_to_nanos;
use crate::system::subsec_nanos_of;
use crate::system::whole_secs_of;
use vstd::arithmetic::div_mod::lemma_fundamental_div_mod;
use vstd::arithmetic::power2::lemma_pow2_pos;
use vstd::arithmetic::power2::pow2;

/// The calendar library's signed duration type, opaque to the verifier.
#[verifier::external_type_specification]
#[verifier::external_body]
pub struct ExTimeDelta(chrono::TimeDelta);

/// The largest total nanosecond count the calendar duration can hold:
/// `i64::MAX` whole milliseconds.
pub open spec fn calendar_max_nanos() -> int {
    (9_223_372_036_854_775_807 as int) * 1_000_000
}

/// The truncated total nanosecond count of a pattern's magnitude.
pub open spec fn trunc_total_nanos(b: u64) -> int {
    whole_secs_of(b) * 1_000_000_000 + subsec_nanos_of(b)
}

/// The calendar duration that the conversion out builds on success: the
/// one made of the magnitude's truncated pair, negated when the duration
/// is sign-negative.
pub open spec fn spec_to_chrono(b: u64) -> chrono::TimeDelta {
    let c = delta_of_parts(
        whole_secs_of(payload(b)) as u64,
        subsec_nanos_of(payload(b)) as u32,
    );
    if sign_bit(b) == 1 {
        delta_neg(c)
    } else {
        c
    }
}

/// The calendar duration that `chrono::TimeDelta::from_std` builds from a
/// whole-seconds / sub-second-nanoseconds pair, a function of the pair
/// alone.
pub uninterp spec fn delta_of_parts(s: u64, n: u32) -> chrono::TimeDelta;

/// The negation of a calendar duration, a function of the value alone.
pub uninterp spec fn delta_neg(d: chrono::TimeDelta) -> chrono::TimeDelta;

/// The total nanosecond count that `chrono::TimeDelta::num_nanoseconds`
/// reads, a function of the value alone.
pub uninterp spec fn delta_num_nanos(d: chrono::TimeDelta) -> Option<i64>;

/// The whole-millisecond count that `chrono::TimeDelta::num_milliseconds`
/// reads, a function of the value alone.
pub uninterp spec fn delta_num_millis(d: chrono::TimeDelta) -> i64;

/// Relies on `chrono::TimeDelta::from_std`: building a calendar duration
/// from nonnegative whole seconds and sub-second nanoseconds succeeds
/// exactly when the total is at most `i64::MAX` milliseconds, the type's
/// documented range.
#[verifier::external_body]
fn calendar_from_parts(s: u64, n: u32) -> (r: Result<chrono::TimeDelta, DurationError>)
    requires
        n < 1_000_000_000,
    ensures
        r is Ok <==> s * 1_000_000_000 + n <= calendar_max_nanos(),
        r matches Ok(c) ==> c == delta_of_parts(s, n),
        r matches Err(e) ==> e == DurationError::OutOfRange,
{
    match chrono::TimeDelta::from_std(std::time::Duration::new(s, n)) {
        Ok(d) => Ok(d),
        Err(_) => Err(DurationError::OutOfRange),
    }
}

/// Relies on the negation operator of `chrono::TimeDelta`, total on the
/// type's symmetric range.
#[verifier::external_body]
fn calendar_neg(d: chrono::TimeDelta) -> (r: chrono::TimeDelta)
    ensures
        r == delta_neg(d),
{
    -d
}

/// Relies on `chrono::TimeDelta::num_nanoseconds`: the total nanosecond
/// count, or `None` when it exceeds a signed 64-bit integer.
#[verifier::external_body]
fn calendar_num_nanoseconds(d: &chrono::TimeDelta) -> (r: Option<i64>)
    ensures
        r == delta_num_nanos(*d),
{
    d.num_nanoseconds()
}

/// Relies on `chrono::TimeDelta::num_milliseconds`: the total count of
/// whole milliseconds, truncated toward zero.
#[verifier::external_body]
fn calendar_num_milliseconds(d: &chrono::TimeDelta) -> (r: i64)
    ensures
        r == delta_num_millis(*d),
{
    d.num_milliseconds()
}

impl FloatDuration {
    /// Assemble a duration from a signed count of whole nanoseconds: the
    /// magnitude rounds to the nearest representable seconds count and the
    /// sign is reapplied.
    pub fn from_calendar_nanos(ns: i64) -> (r: FloatDuration)
        ensures
            rounds_to_nanos(abs_of(ns as int), payload(r.spec_bits())),
            sign_bit(r.spec_bits()) == (if ns < 0 {
                1int
            } else {
                0int
            }),
            forall|b0: u64|
                #[trigger] exact_nanos(abs_of(ns as int), b0) ==> payload(r.spec_bits()) == b0,
    {
        let a: u64 = if ns < 0 {
            (-(ns as i128)) as u64
        } else {
            ns as u64
        };
        let s: u64 = a / 1_000_000_000;
        let n: u32 = (a % 1_000_000_000) as u32;
        proof {
            lemma_fundamental_div_mod(a as int, 1_000_000_000);
            vstd::arithmetic::div_mod::lemma_mod_bound(a as int, 1_000_000_000);
            vstd::arithmetic::div_mod::lemma_div_pos_is_pos(a as int, 1_000_000_000);
            vstd::arithmetic::mul::lemma_mul_is_commutative(1_000_000_000, s as int);
        }
        let d = FloatDuration::from_system_parts(s, n);
        proof {
            assert(s * 1_000_000_000 + n == a);
            let db = d.spec_bits();
            assert(db >> 63 == 0 ==> db & 0x7fff_ffff_ffff_ffff == db) by (bit_vector);
        }
        if ns < 0 {
            let nd = d.neg();
            proof {
                let db = d.spec_bits();
                assert((db ^ 0x8000_0000_0000_0000u64) & 0x7fff_ffff_ffff_ffff == db
                    & 0x7fff_ffff_ffff_ffff) by (bit_vector);
            }
            nd
        } else {
            d
        }
    }

    /// Assemble a duration from a signed count of whole milliseconds: the
    /// fallback used when a calendar duration's nanosecond count does not
    /// fit, with precision below one millisecond already gone.
    pub fn from_calendar_millis(ms: i64) -> (r: FloatDuration)
        ensures
            rounds_to_nanos(abs_of(ms as int) * 1_000_000, payload(r.spec_bits())),
            sign_bit(r.spec_bits()) == (if ms < 0 {
                1int
            } else {
                0int
            }),
            forall|b0: u64|
                #[trigger] exact_nanos(abs_of(ms as int) * 1_000_000, b0) ==> payload(
                    r.spec_bits(),
                ) == b0,
    {
        let a: u64 = if ms < 0 {
            (-(ms as i128)) as u64
        } else {
            ms as u64
        };
        let s: u64 = a / 1000;
        let n: u32 = ((a % 1000) as u32) * 1_000_000;
        proof {
            lemma_fundamental_div_mod(a as int, 1000);
            vstd::arithmetic::div_mod::lemma_mod_bound(a as int, 1000);
            vstd::arithmetic::div_mod::lemma_div_pos_is_pos(a as int, 1000);
            // a * 1e6 == s * 1e9 + (a % 1000) * 1e6
            vstd::arithmetic::mul::lemma_mul_is_commutative(1000, s as int);
            vstd::arithmetic::mul::lemma_mul_is_distributive_add_other_way(
                1_000_000,
                s * 1000,
                a as int % 1000,
            );
            vstd::arithmetic::mul::lemma_mul_is_associative(s as int, 1000, 1_000_000);
            vstd::arithmetic::mul::lemma_mul_is_commutative(s * 1000, 1_000_000);
            vstd::arithmetic::mul::lemma_mul_is_commutative(a as int % 1000, 1_000_000);
            vstd::arithmetic::mul::lemma_mul_is_commutative(a as int, 1_000_000);
            assert(a * 1_000_000 == s * 1_000_000_000 + n);
        }
        let d = FloatDuration::from_system_parts(s, n);
        proof {
            let db = d.spec_bits();
            assert(db >> 63 == 0 ==> db & 0x7fff_ffff_ffff_ffff == db) by (bit_vector);
        }
        if ms < 0 {
            let nd = d.neg();
            proof {
                let db = d.spec_bits();
                assert((db ^ 0x8000_0000_0000_0000u64) & 0x7fff_ffff_ffff_ffff == db
                    & 0x7fff_ffff_ffff_ffff) by (bit_vector);
            }
            nd
        } else {
            d
        }
    }

    /// Create a calendar duration from a `FloatDuration`.
    ///
    /// The conversion goes through the system-duration pair of the
    /// absolute value and reapplies the sign, so it fails with
    /// [`DurationError::OutOfRange`] exactly when the magnitude, truncated
    /// to whole nanoseconds, exceeds the calendar duration's range of
    /// `i64::MAX` milliseconds (an infinite duration included); on success
    /// it returns the calendar duration of the magnitude's pair, negated
    /// when the duration is sign-negative.
    pub fn to_chrono(&self) -> (r: Result<chrono::TimeDelta, DurationError>)
        requires
            !self.spec_is_nan(),
        ensures
            r is Ok <==> (self.spec_is_finite() && trunc_total_nanos(payload(self.spec_bits()))
                <= calendar_max_nanos()),
            r matches Ok(c) ==> c == spec_to_chrono(self.spec_bits()),
            r matches Err(e) ==> e == DurationError::OutOfRange,
    {
        let negf = self.is_negative();
        let a = self.abs();
        proof {
            lemma_field_bounds(a.spec_bits());
            vstd::arithmetic::power2::lemma2_to64();
            vstd::arithmetic::power2::lemma2_to64_rest();
        }
        match a.to_system_parts() {
            Err(e) => {
                proof {
                    if is_finite(a.spec_bits()) {
                        lemma_out_of_range_exceeds(a.spec_bits());
                    }
                }
                Err(e)
            },
            Ok((s, n)) => {
                proof {
                    if !is_finite(a.spec_bits()) {
                        vstd::arithmetic::power2::lemma_pow2_strictly_increases(1138, 2100);
                    }
                    assert(s * 1_000_000_000 + n == trunc_total_nanos(a.spec_bits()));
                    assert(whole_secs_of(a.spec_bits()) as u64 == s);
                    assert(subsec_nanos_of(a.spec_bits()) as u32 == n);
                }
                match calendar_from_parts(s, n) {
                    Err(e) => Err(e),
                    Ok(cd) => {
                        if negf {
                            Ok(calendar_neg(cd))
                        } else {
                            Ok(cd)
                        }
                    },
                }
            },
        }
    }

    /// Create a `FloatDuration` from a calendar duration.
    ///
    /// The calendar type gives no way to read sub-millisecond precision
    /// once the total nanosecond count no longer fits a signed 64-bit
    /// integer, so beyond that range only whole milliseconds are captured;
    /// within it the conversion rounds the nanosecond count to the nearest
    /// representable seconds count.  The result is pinned over the named
    /// accessor counts: it is [`FloatDuration::from_calendar_nanos`] of the
    /// duration's nanosecond count when that exists, else
    /// [`FloatDuration::from_calendar_millis`] of its millisecond count.
    pub fn from_chrono(d: &chrono::TimeDelta) -> (r: FloatDuration)
        ensures
            r.spec_is_finite(),
            delta_num_nanos(*d) matches Some(ns) ==> ({
                &&& rounds_to_nanos(abs_of(ns as int), payload(r.spec_bits()))
                &&& sign_bit(r.spec_bits()) == (if ns < 0 {
                    1int
                } else {
                    0int
                })
                &&& (forall|b0: u64|
                    #[trigger] exact_nanos(abs_of(ns as int), b0) ==> payload(r.spec_bits()) == b0)
            }),
            delta_num_nanos(*d) is None ==> ({
                &&& rounds_to_nanos(
                    abs_of(delta_num_millis(*d) as int) * 1_000_000,
                    payload(r.spec_bits()),
                )
                &&& sign_bit(r.spec_bits()) == (if delta_num_millis(*d) < 0 {
                    1int
                } else {
                    0int
                })
                &&& (forall|b0: u64|
                    #[trigger] exact_nanos(abs_of(delta_num_millis(*d) as int) * 1_000_000, b0)
                        ==> payload(r.spec_bits()) == b0)
            }),
    {
        let r = match calendar_num_nanoseconds(d) {
            Some(ns) => FloatDuration::from_calendar_nanos(ns),
            None => FloatDuration::from_calendar_millis(calendar_num_milliseconds(d)),
        };
        proof {
            let rb = r.spec_bits();
            assert(((rb & 0x7fff_ffff_ffff_ffff) >> 52) & 0x7ff == (rb >> 52) & 0x7ff)
                by (bit_vector);
        }
        r
    }
}

/// A magnitude at or beyond the system-duration range also exceeds the
/// calendar range, with room to spare.
proof fn lemma_out_of_range_exceeds(b: u64)
    requires
        is_finite(b),
        mag_scaled(b) >= pow2(1138),
    ensures
        trunc_total_nanos(b) > calendar_max_nanos(),
{
    lemma_pow2_pos(1074);
    vstd::arithmetic::power2::lemma_pow2_adds(64, 1074);
    let pp = pow2(1074) as int;
    let mag = mag_scaled(b);
    // whole >= 2^64
    crate::system::lemma_div_ordering_general(pow2(64) as int, mag, pp);
    assert(vstd::arithmetic::power2::pow2(64) * pp <= mag) by {
        vstd::arithmetic::mul::lemma_mul_is_commutative(pow2(64) as int, pp);
    }
    vstd::arithmetic::power2::lemma2_to64();
    vstd::arithmetic::power2::lemma2_to64_rest();
    vstd::arithmetic::mul::lemma_mul_inequality(
        pow2(64) as int,
        whole_secs_of(b),
        1_000_000_000,
    );
    // subsec is nonnegative
    lemma_fundamental_div_mod(mag, pp);
    vstd::arithmetic::div_mod::lemma_mod_bound(mag, pp);
    vstd::arithmetic::mul::lemma_mul_nonnegative(mag % pp, 1_000_000_000);
    vstd::arithmetic::div_mod::lemma_div_pos_is_pos((mag % pp) * 1_000_000_000, pp);
    assert(pow2(64) * 1_000_000_000 > calendar_max_nanos()) by {
        vstd::arithmetic::power2::lemma2_to64_rest();
    }
}

/// THE CALENDAR ROUND-TRIP LAW.  A duration of a whole number of
/// nanoseconds within the system range splits into a sign and the system
/// pair of its magnitude; any pattern meeting the exactness contract of
/// the conversion back for that pair is the magnitude pattern itself, and
/// restoring the recorded sign reproduces the original duration bit for
/// bit.
pub proof fn lemma_calendar_round_trip(b: u64, s: u64, n: u32, c: u64)
    requires
        is_finite(b),
        (mag_scaled(b) * 1_000_000_000) % (pow2(1074) as int) == 0,
        mag_scaled(b) < pow2(1138),
        s == whole_secs_of(b),
        n == subsec_nanos_of(b),
        forall|b0: u64| #[trigger] exact_nanos(s * 1_000_000_000 + n, b0) ==> c == b0,
    ensures
        c == payload(b),
        sign_bit(b) == 0 ==> c == b,
        sign_bit(b) == 1 ==> (c ^ 0x8000_0000_0000_0000u64) == b,
{
    let p = payload(b);
    assert((b & 0x7fff_ffff_ffff_ffff) >> 63 == 0 && ((b & 0x7fff_ffff_ffff_ffff) >> 52) & 0x7ff
        == (b >> 52) & 0x7ff && (b & 0x7fff_ffff_ffff_ffff) & 0xf_ffff_ffff_ffff == b
        & 0xf_ffff_ffff_ffff) by (bit_vector);
    crate::system::lemma_system_round_trip(p, s, n, c);
    assert(b >> 63 == 0 ==> (b & 0x7fff_ffff_ffff_ffff) == b) by (bit_vector);
    assert(b >> 63 == 1 ==> ((b & 0x7fff_ffff_ffff_ffff) ^ 0x8000_0000_0000_0000u64) == b)
        by (bit_vector);
    lemma_field_bounds(b);
}

} // verus!
