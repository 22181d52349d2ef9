//! A floating-point duration value type, verified at the bit level.
//!
//! A `FloatDuration` stores a single IEEE 754 binary64 count of seconds,
//! held here as its 64-bit pattern so that the exact parts of the type's
//! behaviour — sign handling, equality and ordering, display unit
//! selection, and the truncating conversion to and from a whole-seconds /
//! sub-second-nanoseconds pair — can be specified and proved.  The
//! operations that round (unit constructors, arithmetic, formatting of the
//! numeric value) are floating-point and live outside the verified core.

pub mod calendar;
pub mod duration;
pub mod error;
pub mod ieee;
pub mod system;

pub use duration::FloatDuration;
pub use duration::TimePoint;
pub use duration::TimeUnit;

pub use error::DurationError;
