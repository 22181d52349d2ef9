//! Tests for the bit-level duration library.
//!
//! The library stores a duration as the IEEE 754 bit pattern of an `f64`
//! seconds count, so these tests build inputs with ordinary floating-point
//! arithmetic (the unit scalings of the embedding API) and hand the
//! patterns to the verified core.

use float_duration::DurationError;
use float_duration::FloatDuration;
use float_duration::TimeUnit;

const SECS_PER_MINUTE: f64 = 60.0;
const SECS_PER_HOUR: f64 = 3600.0;
const SECS_PER_DAY: f64 = 86400.0;
const MILLIS_PER_SEC: f64 = 1.0e3;
const MICROS_PER_SEC: f64 = 1.0e6;
const NANOS_PER_SEC: f64 = 1.0e9;

fn seconds(x: f64) -> FloatDuration {
    FloatDuration::from_bits(x.to_bits())
}

fn minutes(x: f64) -> FloatDuration {
    seconds(x * SECS_PER_MINUTE)
}

fn hours(x: f64) -> FloatDuration {
    seconds(x * SECS_PER_HOUR)
}

fn days(x: f64) -> FloatDuration {
    seconds(x * SECS_PER_DAY)
}

fn milliseconds(x: f64) -> FloatDuration {
    seconds(x / MILLIS_PER_SEC)
}

fn microseconds(x: f64) -> FloatDuration {
    seconds(x / MICROS_PER_SEC)
}

fn nanoseconds(x: f64) -> FloatDuration {
    seconds(x / NANOS_PER_SEC)
}

fn as_seconds(d: &FloatDuration) -> f64 {
    f64::from_bits(d.to_bits())
}

#[test]
fn test_construct() {
    let duration1 = hours(3.0);
    assert_eq!(as_seconds(&duration1) / SECS_PER_HOUR, 3.0);
    assert_eq!(as_seconds(&duration1) / SECS_PER_MINUTE, 180.0);
    assert_eq!(as_seconds(&duration1), 180.0 * 60.0);
    assert_eq!(as_seconds(&duration1) / SECS_PER_DAY, 3.0 / 24.0);
    assert_eq!(as_seconds(&duration1) * MILLIS_PER_SEC, 180.0 * 60.0 * 1000.0);
    assert!(duration1.is_positive());

    let duration2 = milliseconds(55.0);
    assert_eq!(as_seconds(&duration2), 0.055);
    assert_eq!(as_seconds(&duration2) * MILLIS_PER_SEC, 55.0);
    assert_eq!(as_seconds(&duration2) * MICROS_PER_SEC, 55000.0);
    assert_eq!(as_seconds(&duration2) * NANOS_PER_SEC, 55000000.0);
    assert!(!duration2.is_zero());

    let duration3 = FloatDuration::zero();
    assert!(duration3.is_zero());
    assert_eq!(as_seconds(&duration3), 0.0);

    assert_eq!(days(1.5), hours(36.0));
    assert_eq!(minutes(30.0), hours(0.5));
    assert_eq!(seconds(180.0), minutes(3.0));
    assert_eq!(seconds(3.5), milliseconds(3500.0));
    assert_eq!(microseconds(300.0), milliseconds(0.30));
    assert_eq!(nanoseconds(1000.0), microseconds(1.0));

    let duration4 = minutes(-3.0);
    assert_eq!(as_seconds(&duration4) / SECS_PER_MINUTE, -3.0);
    assert_eq!(as_seconds(&duration4) / SECS_PER_HOUR, -0.05);
    assert!(duration4.is_negative());
}

#[test]
fn test_arithmetic() {
    assert_eq!(
        seconds(as_seconds(&minutes(5.0)) + as_seconds(&seconds(30.0))),
        seconds(330.0)
    );

    assert_eq!(seconds(as_seconds(&hours(3.0)) * 2.5), hours(7.5));

    assert_eq!(
        seconds(as_seconds(&days(3.0)) / 3.0 - as_seconds(&hours(2.0))),
        hours(22.0)
    );

    assert_eq!(
        seconds(0.0 + as_seconds(&milliseconds(500.0)) + as_seconds(&microseconds(500.0))),
        microseconds(500500.0)
    );

    assert_eq!(seconds(2.0 * as_seconds(&milliseconds(150.0))), milliseconds(300.0));

    assert_eq!(as_seconds(&minutes(10.0)) / as_seconds(&seconds(60.0)), 10.0);
    assert_eq!(minutes(5.0), seconds(as_seconds(&minutes(5.0).neg()) * -1.0));

    assert_eq!(
        seconds(as_seconds(&seconds(10.0)) - as_seconds(&minutes(1.0))),
        seconds(-50.0)
    );
}

#[test]
fn test_std_conversion() {
    let duration1 = minutes(5.0);
    assert!(duration1.is_positive());
    assert_eq!(duration1.to_system_parts(), Ok((300, 0)));
    assert_eq!(FloatDuration::from_system_parts(300, 0), duration1);

    let duration2 = hours(-2.0);
    assert!(duration2.is_negative());
    assert!(duration2.to_system_parts().is_err());
    assert_eq!(duration2.neg().to_system_parts(), Ok((3600 * 2, 0)));
    assert_eq!(FloatDuration::from_system_parts(3600 * 2, 0), duration2.neg());

    assert_eq!(FloatDuration::zero().to_system_parts(), Ok((0, 0)));
    assert_eq!(
        nanoseconds(-1.0).to_system_parts(),
        Err(DurationError::OutOfRange)
    );
    assert_eq!(
        FloatDuration::max_value().to_system_parts(),
        Err(DurationError::OutOfRange)
    );

    assert_eq!(FloatDuration::from_system_parts(0, 1), nanoseconds(1.0));

    // sub-nanosecond fractions are discarded, not rounded
    assert_eq!(nanoseconds(1.5).to_system_parts(), Ok((0, 1)));

    // a whole-second count must fit u64: exactly 2^64 seconds is out of
    // range, the largest representable value below it converts
    assert_eq!(
        seconds(18446744073709551616.0).to_system_parts(),
        Err(DurationError::OutOfRange)
    );
    assert_eq!(
        seconds(18446744073709549568.0).to_system_parts(),
        Ok((18446744073709549568, 0))
    );
}

#[test]
fn test_system_round_trips() {
    for (s, n) in [
        (0u64, 1u32),
        (1, 0),
        (300, 0),
        (0, 500_000_000),
        (0, 1_953_125),
        (86400, 250_000_000),
        (0, 999_999_999),
        (1, 1),
    ] {
        let d = FloatDuration::from_system_parts(s, n);
        assert_eq!(d.to_system_parts(), Ok((s, n)));
    }
}

#[test]
fn test_display() {
    assert_eq!(minutes(3.5).display_unit(), TimeUnit::Minutes);
    assert_eq!(
        seconds(as_seconds(&days(3.0)) + as_seconds(&hours(12.0))).display_unit(),
        TimeUnit::Days
    );
    assert_eq!(microseconds(100.0).display_unit(), TimeUnit::Microseconds);
    assert_eq!(milliseconds(12.5).display_unit(), TimeUnit::Milliseconds);
    assert_eq!(
        seconds(as_seconds(&days(365.0)) + as_seconds(&hours(6.0))).display_unit(),
        TimeUnit::Days
    );
    assert_eq!(
        seconds(as_seconds(&milliseconds(50.0)) + as_seconds(&microseconds(500.0))).display_unit(),
        TimeUnit::Milliseconds
    );
    assert_eq!(nanoseconds(25.25).display_unit(), TimeUnit::Nanoseconds);
    // 90 minutes is 5400 s, past the 3600 s threshold: hours, not minutes
    assert_eq!(minutes(90.0).display_unit(), TimeUnit::Hours);

    assert_eq!(minutes(3.5).display_unit().name(), "minutes");
    assert_eq!(microseconds(100.0).display_unit().name(), "microseconds");
}

#[test]
fn test_display_thresholds_are_strict() {
    // a duration of exactly one unit displays in the next smaller unit
    assert_eq!(seconds(SECS_PER_DAY).display_unit(), TimeUnit::Hours);
    assert_eq!(seconds(SECS_PER_HOUR).display_unit(), TimeUnit::Minutes);
    assert_eq!(seconds(SECS_PER_MINUTE).display_unit(), TimeUnit::Seconds);
    assert_eq!(seconds(1.0).display_unit(), TimeUnit::Milliseconds);
    // negative and zero durations fall through to nanoseconds
    assert_eq!(minutes(-3.5).display_unit(), TimeUnit::Nanoseconds);
    assert_eq!(FloatDuration::zero().display_unit(), TimeUnit::Nanoseconds);
}

#[test]
fn test_sign_and_negation() {
    assert!(minutes(-3.0).is_negative());
    assert!(!minutes(-3.0).is_positive());
    assert!(FloatDuration::zero().is_zero());
    assert!(FloatDuration::zero().is_positive());

    // negation round-trips bit for bit
    for d in [minutes(5.0), seconds(-0.25), FloatDuration::zero(), days(3.5)] {
        assert_eq!(d.neg().neg().to_bits(), d.to_bits());
    }

    // a negative zero is negative, not positive, and still zero
    let neg_zero = FloatDuration::zero().neg();
    assert!(neg_zero.is_negative());
    assert!(neg_zero.is_zero());
    assert_eq!(neg_zero, FloatDuration::zero());
    assert_eq!(
        neg_zero.to_system_parts(),
        Err(DurationError::OutOfRange)
    );

    // abs clears the sign
    assert_eq!(minutes(-3.0).abs(), minutes(3.0));
    assert_eq!(minutes(3.0).abs(), minutes(3.0));
}

#[test]
fn test_min_max_and_ordering() {
    assert!(FloatDuration::min_value().is_negative());
    assert!(FloatDuration::max_value().is_positive());
    assert_eq!(FloatDuration::min_value().neg(), FloatDuration::max_value());
    assert!(FloatDuration::min_value().lt(&FloatDuration::max_value()));
    assert!(minutes(1.0).lt(&minutes(2.0)));
    assert!(minutes(-2.0).lt(&minutes(-1.0)));
    assert!(minutes(-1.0).lt(&seconds(1.0)));
    assert!(!minutes(1.0).lt(&minutes(1.0)));
    assert!(minutes(1.0) < minutes(2.0));
    assert!(minutes(2.0) > minutes(1.0));
    assert!(seconds(-0.5) <= seconds(-0.5));
    // the two zeros compare equal
    assert!(!FloatDuration::zero().neg().lt(&FloatDuration::zero()));
    assert_eq!(FloatDuration::zero().neg(), FloatDuration::zero());
    assert_eq!(FloatDuration::default(), FloatDuration::zero());
}

#[test]
fn test_chrono_conversion() {
    assert_eq!(
        FloatDuration::from_chrono(&chrono::Duration::minutes(10)),
        minutes(10.0)
    );
    assert_eq!(
        FloatDuration::from_chrono(&chrono::Duration::hours(72)),
        days(3.0)
    );
    assert_eq!(
        FloatDuration::from_chrono(&chrono::Duration::nanoseconds(500)),
        nanoseconds(500.0)
    );
    assert_eq!(
        FloatDuration::from_chrono(&chrono::Duration::microseconds(-20000)),
        milliseconds(-20.0)
    );
    assert_eq!(
        FloatDuration::from_chrono(&chrono::Duration::zero()),
        FloatDuration::zero()
    );
    assert_eq!(
        FloatDuration::from_chrono(&chrono::Duration::hours(10000)),
        hours(10000.0)
    );

    assert_eq!(
        minutes(2.5).to_chrono().unwrap(),
        chrono::Duration::seconds(150)
    );
    // 62.5 ms is exactly representable, so the microsecond count is exact
    assert_eq!(
        milliseconds(62.5).to_chrono().unwrap(),
        chrono::Duration::microseconds(62500)
    );
    assert!(FloatDuration::max_value().to_chrono().is_err());
    assert_eq!(
        nanoseconds(-20.0).to_chrono().unwrap(),
        chrono::Duration::nanoseconds(-20)
    );
}

#[test]
fn test_chrono_range() {
    // the calendar type holds at most i64::MAX milliseconds
    assert!(seconds(9.0e15).to_chrono().is_ok());
    assert_eq!(
        seconds(9.3e15).to_chrono(),
        Err(DurationError::OutOfRange)
    );
    assert_eq!(
        seconds(-9.3e15).to_chrono(),
        Err(DurationError::OutOfRange)
    );
    // a negative duration within range converts with its sign
    assert_eq!(
        seconds(-9.0e15).to_chrono().unwrap(),
        -chrono::Duration::seconds(9_000_000_000_000_000)
    );
}

#[test]
fn test_calendar_round_trip() {
    // a representative positive and negative whole-nanosecond duration
    for d in [milliseconds(20.0), milliseconds(-20.0), seconds(150.0), seconds(-150.0)] {
        let cd = d.to_chrono().unwrap();
        assert_eq!(FloatDuration::from_chrono(&cd), d);
    }
    // beyond the signed 64-bit nanosecond range only whole milliseconds
    // survive: 2^63 ns is about 9.22e9 s, so 1e10 s exceeds it
    let big = seconds(1.0e10);
    let cd = big.to_chrono().unwrap();
    assert_eq!(FloatDuration::from_chrono(&cd), big);
}

#[test]
fn test_nan_is_not_a_duration() {
    // a NaN seconds count equals nothing and orders with nothing, as for
    // the underlying floating-point comparisons
    let nan = seconds(f64::NAN);
    assert!(nan != nan);
    assert!(nan != seconds(1.0));
    assert!(!(nan < seconds(1.0)));
    assert!(!(nan > seconds(1.0)));
    assert_eq!(nan.partial_cmp(&nan), None);
    assert!(!nan.is_zero());
}

#[test]
fn test_calendar_counts() {
    // the signed whole-nanosecond and whole-millisecond entry points
    assert_eq!(
        FloatDuration::from_calendar_nanos(-1_500_000_000),
        seconds(-1.5)
    );
    assert_eq!(FloatDuration::from_calendar_nanos(0), FloatDuration::zero());
    assert_eq!(FloatDuration::from_calendar_millis(1500), seconds(1.5));
    assert_eq!(FloatDuration::from_calendar_millis(-250), seconds(-0.25));
    // the most negative nanosecond count still converts
    assert_eq!(
        FloatDuration::from_calendar_nanos(i64::MIN),
        seconds(-(9223372036854775808.0 / 1.0e9))
    );
}
