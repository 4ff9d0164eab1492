//! The coordinate axis on which intervals live.

use vstd::prelude::*;

verus! {

/// A value on a totally ordered axis.
///
/// Every coordinate has a position on the integer line, and two coordinates
/// are ordered as their positions are. The eight fixed-width integer types up
/// to 64 bits are coordinates, each at its own value.
pub trait Coordinate: Copy {
    /// Where the coordinate lies on the integer line.
    spec fn position(&self) -> int;

    /// Whether `self` lies strictly before `other`.
    fn precedes(&self, other: &Self) -> (b: bool)
        ensures
            b == (self.position() < other.position()),
    ;
}

impl Coordinate for i8 {
    open spec fn position(&self) -> int {
        *self as int
    }

    fn precedes(&self, other: &Self) -> (b: bool) {
        *self < *other
    }
}

impl Coordinate for i16 {
    open spec fn position(&self) -> int {
        *self as int
    }

    fn precedes(&self, other: &Self) -> (b: bool) {
        *self < *other
    }
}

impl Coordinate for i32 {
    open spec fn position(&self) -> int {
        *self as int
    }

    fn precedes(&self, other: &Self) -> (b: bool) {
        *self < *other
    }
}

impl Coordinate for i64 {
    open spec fn position(&self) -> int {
        *self as int
    }

    fn precedes(&self, other: &Self) -> (b: bool) {
        *self < *other
    }
}

impl Coordinate for u8 {
    open spec fn position(&self) -> int {
        *self as int
    }

    fn precedes(&self, other: &Self) -> (b: bool) {
        *self < *other
    }
}

impl Coordinate for u16 {
    open spec fn position(&self) -> int {
        *self as int
    }

    fn precedes(&self, other: &Self) -> (b: bool) {
        *self < *other
    }
}

impl Coordinate for u32 {
    open spec fn position(&self) -> int {
        *self as int
    }

    fn precedes(&self, other: &Self) -> (b: bool) {
        *self < *other
    }
}

impl Coordinate for u64 {
    open spec fn position(&self) -> int {
        *self as int
    }

    fn precedes(&self, other: &Self) -> (b: bool) {
        *self < *other
    }
}

} // verus!
