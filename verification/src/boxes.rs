//! Boxes of various types and dimensions that can be checked for intersection.
use crate::order::Ordered;
use vstd::prelude::*;

verus! {

/// A `DIM`-dimensional box with bounds of type `Num`: the cartesian product
/// of `DIM` half-open intervals `[lo, hi)`, one on each axis.
///
/// The box types below implement it; an implementation for another type has
/// to return from `lo` and `hi` what `lo_at` and `hi_at` say.
pub trait BBox: Copy {
    /// The number of axes.
    const DIM: usize;

    /// The type of the bounds.
    type Num: Ordered;

    /// The low boundary of this box on axis `dim`.
    spec fn lo_at(&self, dim: int) -> Self::Num;

    /// The high boundary of this box on axis `dim`.
    spec fn hi_at(&self, dim: int) -> Self::Num;

    /// Returns the low boundary of this box in dimension `dim`.
    fn lo(&self, dim: usize) -> (r: Self::Num)
        requires
            dim < Self::DIM,
        ensures
            r == self.lo_at(dim as int),
    ;

    /// Returns the high boundary of this box in dimension `dim`.
    fn hi(&self, dim: usize) -> (r: Self::Num)
        requires
            dim < Self::DIM,
        ensures
            r == self.hi_at(dim as int),
    ;

    /// Returns `true` if the projection of this box in dimension `dim` contains `point`.
    fn contains_in(&self, dim: usize, point: Self::Num) -> (r: bool)
        requires
            dim < Self::DIM,
        ensures
            r == (self.lo_at(dim as int).rank() <= point.rank() < self.hi_at(dim as int).rank()),
    {
        self.lo(dim).at_most(point) && point.less_than(self.hi(dim))
    }

    /// Returns `true` if the projection of this box in dimension `dim` intersects [`lo`, `hi`).
    fn intersects_in(&self, dim: usize, lo: Self::Num, hi: Self::Num) -> (r: bool)
        requires
            dim < Self::DIM,
        ensures
            r == (self.lo_at(dim as int).rank() < hi.rank() && lo.rank() < self.hi_at(
                dim as int,
            ).rank()),
    {
        self.lo(dim).less_than(hi) && lo.less_than(self.hi(dim))
    }

    /// Returns `true` if the box intersects the given other box.
    fn intersects(&self, other: &Self) -> (r: bool)
        ensures
            r == (forall|k: int|
                0 <= k < Self::DIM ==> self.lo_at(k).rank() < other.hi_at(k).rank()
                    && other.lo_at(k).rank() < self.hi_at(k).rank()),
    {
        let mut dim: usize = 0;
        while dim < Self::DIM
            invariant
                dim <= Self::DIM,
                forall|k: int|
                    0 <= k < dim ==> self.lo_at(k).rank() < other.hi_at(k).rank()
                        && other.lo_at(k).rank() < self.hi_at(k).rank(),
            decreases Self::DIM - dim,
        {
            if !self.intersects_in(dim, other.lo(dim), other.hi(dim)) {
                return false;
            }
            dim += 1;
        }
        true
    }
}

/// The projections of `a` and `b` on axis `k` have a point in common.
pub open spec fn overlap_at<B: BBox>(a: B, b: B, k: int) -> bool {
    a.lo_at(k).rank() < b.hi_at(k).rank() && b.lo_at(k).rank() < a.hi_at(k).rank()
}

/// `a` and `b` overlap on every axis from `from` up to, not including, `to`.
pub open spec fn overlap_on<B: BBox>(a: B, b: B, from: int, to: int) -> bool {
    forall|k: int| from <= k < to ==> overlap_at(a, b, k)
}

/// `a` and `b` intersect: they overlap on every axis.
pub open spec fn meet<B: BBox>(a: B, b: B) -> bool {
    overlap_on(a, b, 0, B::DIM as int)
}

/// On every axis the low boundary of `a` lies strictly below the high one.
pub open spec fn proper<B: BBox>(a: B) -> bool {
    forall|k: int| 0 <= k < B::DIM ==> a.lo_at(k).rank() < a.hi_at(k).rank()
}

/// A generic `N`-dimensional box with bounds of type `B`.
#[derive(Clone, Copy, Debug)]
pub struct BoxND<B, const N: usize> {
    min: [B; N],
    max: [B; N],
}

impl<B: Ordered, const N: usize> BoxND<B, N> {
    /// Creates a new box. The low and high boundaries of the box
    /// will be `min` and `max`, indexed by dimension.
    pub fn new(min: [B; N], max: [B; N]) -> (r: Self)
        ensures
            Self::DIM == N,
            forall|k: int| 0 <= k < N ==> r.lo_at(k) == min@[k] && r.hi_at(k) == max@[k],
    {
        Self { min, max }
    }

    /// A box of this type has `N` axes.
    pub proof fn lemma_dim()
        ensures
            Self::DIM == N,
    {
    }
}

impl<B: Ordered, const N: usize> BBox for BoxND<B, N> {
    const DIM: usize = N;

    type Num = B;

    closed spec fn lo_at(&self, dim: int) -> B {
        self.min@[dim]
    }

    closed spec fn hi_at(&self, dim: int) -> B {
        self.max@[dim]
    }

    fn lo(&self, dim: usize) -> (r: B) {
        self.min[dim]
    }

    fn hi(&self, dim: usize) -> (r: B) {
        self.max[dim]
    }
}

/// A 2-dimensional box with generic bounds of type `B`.
pub type Box2D<B> = BoxND<B, 2>;

/// A 3-dimensional box with generic bounds of type `B`.
pub type Box3D<B> = BoxND<B, 3>;

} // verus!
