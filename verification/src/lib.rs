//! Provides algorithms for broad phase collision detection. Specifically, implements
//! Zomorodian and Edelsbrunner's hybrid algorithm using streamed segment trees, pruning and scanning,
//! described in [Fast software for box intersections](https://dl.acm.org/doi/10.1145/336154.336192),
//! beside a plain scan and a brute force search.
//!
//! The functions are verified: each ends, without a panic, on every input
//! that its contract admits, and what it gives to its sink is what the
//! contract says. Four are believed instead, each a single call into code
//! that was not verified: the test whether two references name one set
//! (`eq` of `core::ptr`), the sort of a set (`sort_by` of the standard
//! library), and the draw of a position from each of the two generators of
//! the `rand` family in [`random`] (`gen_range`). Their contracts say what is
//! believed of them.
//!
//! The contracts of the algorithms say which pairs of boxes are reported, and
//! that each is reported once; [`laws`] holds what follows for the algorithms
//! taken together. Bounds and identifiers are ordered through
//! [`order::Ordered`], which the integer types implement.
//!
//! # Examples
//! ```
//! use box_intersect_ze::set::BBoxSet;
//! use box_intersect_ze::boxes::Box3D;
//! use rand_chacha::ChaCha8Rng;
//! use rand::SeedableRng;
//!
//! // create some boxes
//! let box0 = Box3D::<i32>::new([0, 0, 0], [10, 10, 10]);
//! let box1 = Box3D::<i32>::new([5, 5, 5], [15, 15, 15]);
//! let box2 = Box3D::<i32>::new([10, 10, 10], [20, 20, 20]);
//!
//! // add them to a BBoxSet
//! let mut boxes = BBoxSet::with_capacity(3);
//! boxes.push(0usize, box0);
//! boxes.push(1usize, box1);
//! boxes.push(2usize, box2);
//! boxes.sort(); // sort it in dimension 0
//!
//! let mut result = Vec::with_capacity(2); // set capacity according to expected number of intersections to avoid resizing
//! box_intersect_ze::intersect_ze(&boxes, &boxes, &mut result, &mut ChaCha8Rng::seed_from_u64(1234)); // get the intersections
//!
//! assert!(result.contains(&(0,1)));
//! assert!(result.contains(&(1,2)));
//! assert!(!result.contains(&(2,0)));
//! assert!(!result.contains(&(0,2)));
//! ```
use crate::boxes::BBox;
use crate::internals::{brute_force, scan, stream};
use crate::order::Ordered;
use crate::pairs::{
    brute_force_listing, idents, no_self_pair, read_off, scan_listing, spots, tree_report,
};
use crate::set::BBoxSet;
use vstd::prelude::*;

pub mod boxes;
pub mod internals;
pub mod laws;
pub mod median;
pub mod order;
pub mod pairs;
pub mod random;
pub mod set;
pub mod sorting;
pub mod tree;

verus! {

/// Trait for box boundary types: the two values between which all others lie.
pub trait HasInfinity: Ordered {
    /// Value representing negative infinity
    const NINFTY: Self;

    /// Value representing positive infinity
    const INFTY: Self;

    /// No value lies below `NINFTY` or above `INFTY`.
    proof fn bounds(x: Self)
        ensures
            Self::NINFTY.rank() <= x.rank() <= Self::INFTY.rank(),
    ;
}

/// Trait for random number generator used for approximate median calculation.
pub trait Rng {
    /// Returns a random `usize` between 0 (inclusive) and `high` (exclusive).
    fn rand_usize(&mut self, high: usize) -> (r: usize)
        requires
            high > 0,
        ensures
            r < high,
    ;
}

/// One reported pair: the positions of the two boxes, then their identifiers.
pub type Rec<ID> = ((usize, usize), (ID, ID));

/// Where the pairs go, in the shape that the caller asks for.
#[derive(Debug)]
pub enum AnswerFormat<'a, ID> {
    /// Pairs of positions.
    Index(&'a mut Vec<(usize, usize)>),
    /// Pairs of identifiers.
    Ident(&'a mut Vec<(ID, ID)>),
    /// Pairs of positions, each with the pair of identifiers.
    Both(&'a mut Vec<((usize, usize), (ID, ID))>),
}

/// What an [`AnswerFormat`] holds.
pub enum Answers<ID> {
    /// Pairs of positions.
    Index(Seq<(usize, usize)>),
    /// Pairs of identifiers.
    Ident(Seq<(ID, ID)>),
    /// Pairs of positions, each with the pair of identifiers.
    Both(Seq<((usize, usize), (ID, ID))>),
}

impl<ID> Answers<ID> {
    /// These answers with `rec` at the end, in their shape.
    pub open spec fn with(self, rec: Rec<ID>) -> Answers<ID> {
        match self {
            Answers::Index(s) => Answers::Index(s.push(rec.0)),
            Answers::Ident(s) => Answers::Ident(s.push(rec.1)),
            Answers::Both(s) => Answers::Both(s.push(rec)),
        }
    }

    /// These answers with `recs` at the end, in their shape.
    pub open spec fn extended(self, recs: Seq<Rec<ID>>) -> Answers<ID> {
        match self {
            Answers::Index(s) => Answers::Index(s + recs.map_values(|r: Rec<ID>| r.0)),
            Answers::Ident(s) => Answers::Ident(s + recs.map_values(|r: Rec<ID>| r.1)),
            Answers::Both(s) => Answers::Both(s + recs),
        }
    }

    /// Adding nothing changes nothing.
    pub proof fn lemma_extended_empty(self)
        ensures
            self.extended(Seq::empty()) == self,
    {
        match self {
            Answers::Index(s) => {
                assert(s + Seq::<Rec<ID>>::empty().map_values(|r: Rec<ID>| r.0) =~= s);
            },
            Answers::Ident(s) => {
                assert(s + Seq::<Rec<ID>>::empty().map_values(|r: Rec<ID>| r.1) =~= s);
            },
            Answers::Both(s) => {
                assert(s + Seq::<Rec<ID>>::empty() =~= s);
            },
        }
    }

    /// Adding one after some is adding all of them.
    pub proof fn lemma_extended_with(self, recs: Seq<Rec<ID>>, rec: Rec<ID>)
        ensures
            self.extended(recs).with(rec) == self.extended(recs.push(rec)),
    {
        match self {
            Answers::Index(s) => {
                assert((s + recs.map_values(|r: Rec<ID>| r.0)).push(rec.0) =~= s + recs.push(
                    rec,
                ).map_values(|r: Rec<ID>| r.0));
            },
            Answers::Ident(s) => {
                assert((s + recs.map_values(|r: Rec<ID>| r.1)).push(rec.1) =~= s + recs.push(
                    rec,
                ).map_values(|r: Rec<ID>| r.1));
            },
            Answers::Both(s) => {
                assert((s + recs).push(rec) =~= s + recs.push(rec));
            },
        }
    }

    /// Adding some after others is adding all of them.
    pub proof fn lemma_extended_twice(self, first: Seq<Rec<ID>>, then: Seq<Rec<ID>>)
        ensures
            self.extended(first).extended(then) == self.extended(first + then),
    {
        match self {
            Answers::Index(s) => {
                assert((s + first.map_values(|r: Rec<ID>| r.0)) + then.map_values(
                    |r: Rec<ID>| r.0,
                ) =~= s + (first + then).map_values(|r: Rec<ID>| r.0));
            },
            Answers::Ident(s) => {
                assert((s + first.map_values(|r: Rec<ID>| r.1)) + then.map_values(
                    |r: Rec<ID>| r.1,
                ) =~= s + (first + then).map_values(|r: Rec<ID>| r.1));
            },
            Answers::Both(s) => {
                assert((s + first) + then =~= s + (first + then));
            },
        }
    }
}

impl<'a, ID> View for AnswerFormat<'a, ID> {
    type V = Answers<ID>;

    open spec fn view(&self) -> Answers<ID> {
        match self {
            AnswerFormat::Index(v) => Answers::Index(v@),
            AnswerFormat::Ident(v) => Answers::Ident(v@),
            AnswerFormat::Both(v) => Answers::Both(v@),
        }
    }
}

impl<'a, ID> AnswerFormat<'a, ID> {
    /// Lends the sink out for a while: what the result is given is found in
    /// `self` afterwards.
    #[inline]
    pub fn reborrow<'r>(&'r mut self) -> (r: AnswerFormat<'r, ID>)
        ensures
            r@ == old(self)@,
            final(self)@ == (match r {
                AnswerFormat::Index(v) => Answers::<ID>::Index(final(v)@),
                AnswerFormat::Ident(v) => Answers::Ident(final(v)@),
                AnswerFormat::Both(v) => Answers::Both(final(v)@),
            }),
            (match *final(self) {
                AnswerFormat::Index(v) => Answers::<ID>::Index(final(v)@),
                AnswerFormat::Ident(v) => Answers::Ident(final(v)@),
                AnswerFormat::Both(v) => Answers::Both(final(v)@),
            }) == (match *old(self) {
                AnswerFormat::Index(v) => Answers::<ID>::Index(final(v)@),
                AnswerFormat::Ident(v) => Answers::Ident(final(v)@),
                AnswerFormat::Both(v) => Answers::Both(final(v)@),
            }),
    {
        match self {
            AnswerFormat::Index(s) => AnswerFormat::Index(s),
            AnswerFormat::Ident(s) => AnswerFormat::Ident(s),
            AnswerFormat::Both(s) => AnswerFormat::Both(s),
        }
    }

    /// Appends one pair, in the shape of this sink.
    pub fn push(&mut self, positions: (usize, usize), ids: (ID, ID))
        ensures
            final(self)@ == old(self)@.with((positions, ids)),
            (match *final(self) {
                AnswerFormat::Index(v) => Answers::<ID>::Index(final(v)@),
                AnswerFormat::Ident(v) => Answers::Ident(final(v)@),
                AnswerFormat::Both(v) => Answers::Both(final(v)@),
            }) == (match *old(self) {
                AnswerFormat::Index(v) => Answers::<ID>::Index(final(v)@),
                AnswerFormat::Ident(v) => Answers::Ident(final(v)@),
                AnswerFormat::Both(v) => Answers::Both(final(v)@),
            }),
    {
        match self {
            AnswerFormat::Index(v) => {
                v.push(positions);
            },
            AnswerFormat::Ident(v) => {
                v.push(ids);
            },
            AnswerFormat::Both(v) => {
                v.push((positions, ids));
            },
        }
    }
}

/// Tells whether `a` and `b` are one and the same set, with `eq` of
/// `core::ptr`, which compares the two addresses. Believed of it: two
/// references to one address refer to one value.
#[verifier::external_body]
fn same_set<B: BBox, ID>(a: &BBoxSet<B, ID>, b: &BBoxSet<B, ID>) -> (same: bool)
    ensures
        same ==> a == b,
{
    core::ptr::eq(a, b)
}

/// Finds all intersections between boxes in `a` and `b` using Zomorodian and Edelsbrunner's
/// hybrid algorithm (streamed segment trees pruned with a cutoff).
/// * `a` and `b` may be either the same or distinct [`BBoxSet`]s and must be sorted before calling.
/// * `out` will contain pairs of `ID`s of intersecting boxes.
/// Choose capacity according to the number of intersections you expect to avoid resizing.
/// * `rand` must be a random number generator implementing the [`Rng`] trait. (used for approximate median selection)
///
/// The two sets count as the same where `a` and `b` refer to one set, not
/// where two sets hold the same boxes. Sets of fewer than 1000 boxes are
/// scanned, and `rand` is left as it was.
pub fn intersect_ze<B, ID, R>(
    a: &BBoxSet<B, ID>,
    b: &BBoxSet<B, ID>,
    out: &mut Vec<(ID, ID)>,
    rand: &mut R,
) where B: BBox, B::Num: HasInfinity, ID: Ordered, R: Rng
    requires
        0 < B::DIM,
    ensures
        exists|same: bool, w: Seq<(int, int)>, ids: Seq<(ID, ID)>|
            {
                &&& same ==> a@ == b@
                &&& final(out)@ == old(out)@ + ids
                &&& no_self_pair(ids)
                &&& #[trigger] tree_report(a@, b@, same, w, ids)
            },
        (B::DIM == 1 || a@.len() == 0 || b@.len() == 0 || a@.len() < 1000 || b@.len() < 1000)
            ==> *final(rand) == *old(rand),
{
    // should give reasonable performance for up to 100,000 boxes
    intersect_ze_custom::<B, ID, R, 1000>(a, b, out, rand);
}

/// Like `intersect_ze` but with a customizable cutoff: a tree that is left
/// with fewer than `CUTOFF` intervals or points is scanned.
pub fn intersect_ze_custom<B, ID, R, const CUTOFF: usize>(
    a: &BBoxSet<B, ID>,
    b: &BBoxSet<B, ID>,
    out: &mut Vec<(ID, ID)>,
    rand: &mut R,
) where B: BBox, B::Num: HasInfinity, ID: Ordered, R: Rng
    requires
        0 < B::DIM,
    ensures
        exists|same: bool, w: Seq<(int, int)>, ids: Seq<(ID, ID)>|
            {
                &&& same ==> a@ == b@
                &&& final(out)@ == old(out)@ + ids
                &&& no_self_pair(ids)
                &&& #[trigger] tree_report(a@, b@, same, w, ids)
            },
        (B::DIM == 1 || a@.len() == 0 || b@.len() == 0 || a@.len() < CUTOFF || b@.len() < CUTOFF)
            ==> *final(rand) == *old(rand),
{
    let same = same_set(a, b);
    stream::<B, ID, R, CUTOFF>(a, b, same, out, rand);
}

/// Finds all intersections between boxes in `a` and `b` using a scanning algorithm.
/// Should perform reasonably up to approximately 1,000 boxes
/// * `a` and `b` may be either the same or distinct [`BBoxSet`]s and must be sorted before calling.
/// * `out` will contain pairs of `ID`s of intersecting boxes.
pub fn intersect_scan<B, ID>(a: &BBoxSet<B, ID>, b: &BBoxSet<B, ID>, out: &mut Vec<(ID, ID)>) where
    B: BBox,
    ID: Ordered,

    requires
        0 < B::DIM,
    ensures
        exists|same: bool, recs: Seq<Rec<ID>>|
            {
                &&& same ==> a@ == b@
                &&& final(out)@ == old(out)@ + idents(recs)
                &&& read_off(a@, b@, recs)
                &&& no_self_pair(idents(recs))
                &&& #[trigger] scan_listing(a@, b@, same, recs)
            },
{
    intersect_scan_flex(a, b, AnswerFormat::Ident(out));
}

/// Like `intersect_scan`, but `out` will contain pairs of positions: of a
/// box in `a`, then of a box in `b`.
pub fn intersect_scan_idx<B, ID>(
    a: &BBoxSet<B, ID>,
    b: &BBoxSet<B, ID>,
    out: &mut Vec<(usize, usize)>,
) where B: BBox, ID: Ordered
    requires
        0 < B::DIM,
    ensures
        exists|same: bool, recs: Seq<Rec<ID>>|
            {
                &&& same ==> a@ == b@
                &&& final(out)@ == old(out)@ + spots(recs)
                &&& read_off(a@, b@, recs)
                &&& no_self_pair(idents(recs))
                &&& #[trigger] scan_listing(a@, b@, same, recs)
            },
{
    intersect_scan_flex(a, b, AnswerFormat::Index(out));
}

/// Like `intersect_scan`, for a sink of any shape.
pub fn intersect_scan_flex<'a, B, ID>(
    a: &BBoxSet<B, ID>,
    b: &BBoxSet<B, ID>,
    out: AnswerFormat<'a, ID>,
) where
    B: BBox,
    ID: Ordered,

    requires
        0 < B::DIM,
    ensures
        exists|same: bool, recs: Seq<Rec<ID>>|
            {
                &&& same ==> a@ == b@
                &&& (match out {
                    AnswerFormat::Index(v) => Answers::<ID>::Index(final(v)@),
                    AnswerFormat::Ident(v) => Answers::Ident(final(v)@),
                    AnswerFormat::Both(v) => Answers::Both(final(v)@),
                }) == out@.extended(recs)
                &&& read_off(a@, b@, recs)
                &&& no_self_pair(idents(recs))
                &&& #[trigger] scan_listing(a@, b@, same, recs)
            },
{
    // check if a and b refer to the same BBoxSet
    let same = same_set(a, b);
    scan(a, b, same, out);
}

/// Finds box intersections by checking every box in `a` against every box in `b`.
/// Performs well for on the order of 100 boxes. *O*(*n^2*)
/// * `a` and `b` may be either the same or distinct [`BBoxSet`]s
/// * `out` will contain pairs of `ID`s of intersecting boxes.
pub fn intersect_brute_force<B, ID>(
    a: &BBoxSet<B, ID>,
    b: &BBoxSet<B, ID>,
    out: &mut Vec<(ID, ID)>,
) where B: BBox, ID: Copy
    ensures
        exists|same: bool, recs: Seq<Rec<ID>>|
            {
                &&& same ==> a@ == b@
                &&& final(out)@ == old(out)@ + idents(recs)
                &&& #[trigger] brute_force_listing(a@, b@, same, recs)
            },
{
    intersect_brute_force_flex(a, b, AnswerFormat::Ident(out));
}

/// Finds box intersections by checking every box in `a` against every box in `b`.
/// Performs well for on the order of 100 boxes. *O*(*n^2*)
/// * `a` and `b` may be either the same or distinct [`BBoxSet`]s
/// * `out` will contain pairs of positions: of a box in `a`, then of a box in `b`.
pub fn intersect_brute_force_idx<B, ID>(
    a: &BBoxSet<B, ID>,
    b: &BBoxSet<B, ID>,
    out: &mut Vec<(usize, usize)>,
) where B: BBox, ID: Copy
    ensures
        exists|same: bool, recs: Seq<Rec<ID>>|
            {
                &&& same ==> a@ == b@
                &&& final(out)@ == old(out)@ + spots(recs)
                &&& #[trigger] brute_force_listing(a@, b@, same, recs)
            },
{
    intersect_brute_force_flex(a, b, AnswerFormat::Index(out));
}

/// Finds box intersections by checking every box in `a` against every box in `b`,
/// for a sink of any shape.
pub fn intersect_brute_force_flex<'a, B, ID>(
    a: &BBoxSet<B, ID>,
    b: &BBoxSet<B, ID>,
    out: AnswerFormat<'a, ID>,
) where B: BBox, ID: Copy
    ensures
        exists|same: bool, recs: Seq<Rec<ID>>|
            {
                &&& same ==> a@ == b@
                &&& (match out {
                    AnswerFormat::Index(v) => Answers::<ID>::Index(final(v)@),
                    AnswerFormat::Ident(v) => Answers::Ident(final(v)@),
                    AnswerFormat::Both(v) => Answers::Both(final(v)@),
                }) == out@.extended(recs)
                &&& #[trigger] brute_force_listing(a@, b@, same, recs)
            },
{
    // check if a and b refer to the same BBoxSet
    let same = same_set(a, b);
    brute_force(a, b, same, out);
}

} // verus!
