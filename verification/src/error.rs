//! Error type for the fallible duration conversions.

use vstd::prelude::*;

verus! {

/// The error raised by the fallible conversions of [`crate::FloatDuration`].
///
/// Every operation of the duration type is total except the conversions to
/// the two external duration representations and the wall-clock elapsed-time
/// computation, so these two variants are the only failures the library
/// surfaces.
#[derive(Debug, Clone, Copy, PartialEq, Eq, Structural)]
pub enum DurationError {
    /// Converting to an unsigned system duration or to a signed calendar
    /// duration was asked of a value outside the target's range (a negative
    /// duration, or one whose magnitude the target cannot hold).
    OutOfRange,
    /// A wall-clock elapsed-time computation ran backwards: the "since"
    /// instant is chronologically after the instant it is measured from.
    WallClockOrdering,
}

} // verus!
