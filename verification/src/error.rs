//! The ways in which a sweep can fail.

use vstd::prelude::*;

verus! {

/// Why the input of a sweep was refused, or why a sweep stopped.
#[derive(Clone, Copy, Debug, PartialEq, Eq, Structural)]
pub enum SweepError {
    /// A coordinate of a segment lies outside the range of coordinates.
    OutOfRange,
    /// A segment has both endpoints at the same `x`.
    VerticalSegment,
    /// A segment has its two endpoints at one point.
    ZeroLengthSegment,
    /// An endpoint of a segment is also an endpoint of an earlier segment.
    DuplicatePoint,
    /// Two segments lie on one line.
    CollinearSegments,
    /// An event names a segment that the sweep line does not hold.
    InactiveSegment,
}

} // verus!
