//! Totally ordered values.
//!
//! Every comparison the library makes, on box endpoints and on identifiers,
//! goes through [`Ordered`]. The order of a type is given by an integer
//! `rank`, so that contracts can speak of `<` and `<=` on mathematical
//! integers.
use crate::HasInfinity;
use vstd::prelude::*;

verus! {

/// A copyable type whose values are totally ordered.
///
/// Two values are taken to be the same where their ranks are equal.
pub trait Ordered: Copy {
    /// The position of this value in the order.
    spec fn rank(self) -> int;

    /// Returns `true` if `self` comes strictly before `other`.
    fn less_than(self, other: Self) -> (b: bool)
        ensures
            b == (self.rank() < other.rank()),
    ;

    /// Returns `true` if neither value comes before the other.
    fn equals(self, other: Self) -> (b: bool)
        ensures
            b == (self.rank() == other.rank()),
    {
        !self.less_than(other) && !other.less_than(self)
    }

    /// Returns `true` if `self` does not come after `other`.
    fn at_most(self, other: Self) -> (b: bool)
        ensures
            b == (self.rank() <= other.rank()),
    {
        !other.less_than(self)
    }
}

impl Ordered for u8 {
    open spec fn rank(self) -> int {
        self as int
    }

    fn less_than(self, other: Self) -> (b: bool) {
        self < other
    }
}

impl Ordered for u16 {
    open spec fn rank(self) -> int {
        self as int
    }

    fn less_than(self, other: Self) -> (b: bool) {
        self < other
    }
}

impl Ordered for u32 {
    open spec fn rank(self) -> int {
        self as int
    }

    fn less_than(self, other: Self) -> (b: bool) {
        self < other
    }
}

impl Ordered for u64 {
    open spec fn rank(self) -> int {
        self as int
    }

    fn less_than(self, other: Self) -> (b: bool) {
        self < other
    }
}

impl Ordered for usize {
    open spec fn rank(self) -> int {
        self as int
    }

    fn less_than(self, other: Self) -> (b: bool) {
        self < other
    }
}

impl Ordered for i8 {
    open spec fn rank(self) -> int {
        self as int
    }

    fn less_than(self, other: Self) -> (b: bool) {
        self < other
    }
}

impl Ordered for i16 {
    open spec fn rank(self) -> int {
        self as int
    }

    fn less_than(self, other: Self) -> (b: bool) {
        self < other
    }
}

impl Ordered for i32 {
    open spec fn rank(self) -> int {
        self as int
    }

    fn less_than(self, other: Self) -> (b: bool) {
        self < other
    }
}

impl Ordered for i64 {
    open spec fn rank(self) -> int {
        self as int
    }

    fn less_than(self, other: Self) -> (b: bool) {
        self < other
    }
}

impl Ordered for isize {
    open spec fn rank(self) -> int {
        self as int
    }

    fn less_than(self, other: Self) -> (b: bool) {
        self < other
    }
}

impl HasInfinity for u8 {
    const NINFTY: Self = u8::MIN;

    const INFTY: Self = u8::MAX;

    proof fn bounds(x: Self) {
    }
}

impl HasInfinity for u16 {
    const NINFTY: Self = u16::MIN;

    const INFTY: Self = u16::MAX;

    proof fn bounds(x: Self) {
    }
}

impl HasInfinity for u32 {
    const NINFTY: Self = u32::MIN;

    const INFTY: Self = u32::MAX;

    proof fn bounds(x: Self) {
    }
}

impl HasInfinity for u64 {
    const NINFTY: Self = u64::MIN;

    const INFTY: Self = u64::MAX;

    proof fn bounds(x: Self) {
    }
}

impl HasInfinity for usize {
    const NINFTY: Self = usize::MIN;

    const INFTY: Self = usize::MAX;

    proof fn bounds(x: Self) {
    }
}

impl HasInfinity for i8 {
    const NINFTY: Self = i8::MIN;

    const INFTY: Self = i8::MAX;

    proof fn bounds(x: Self) {
    }
}

impl HasInfinity for i16 {
    const NINFTY: Self = i16::MIN;

    const INFTY: Self = i16::MAX;

    proof fn bounds(x: Self) {
    }
}

impl HasInfinity for i32 {
    const NINFTY: Self = i32::MIN;

    const INFTY: Self = i32::MAX;

    proof fn bounds(x: Self) {
    }
}

impl HasInfinity for i64 {
    const NINFTY: Self = i64::MIN;

    const INFTY: Self = i64::MAX;

    proof fn bounds(x: Self) {
    }
}

impl HasInfinity for isize {
    const NINFTY: Self = isize::MIN;

    const INFTY: Self = isize::MAX;

    proof fn bounds(x: Self) {
    }
}

} // verus!
