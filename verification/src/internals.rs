//! Implementations of the algorithms provided by this crate. You probably want to call
//! the wrappers at the top level of the crate instead.
use crate::boxes::{meet, overlap_at, overlap_on, BBox};
use crate::order::Ordered;
use crate::pairs::{
    lemma_listing, lemma_listing_alike, listing, one_way_hit, simulated_hit, sweep_hit,
    two_way_hit,
};
use crate::pairs::{
    brute_force_listing, brute_force_picks, hybrid_report, idents, in_rows,
    lemma_no_self_pair_join, no_self_pair, places, read_off, scan_listing, scan_picks,
    tree_report,
};
use crate::set::{ascending, decided, picked, BBoxSet};
use crate::tree::{
    lemma_empty_report, lemma_node, lemma_one_tree, lemma_one_way_report, lemma_simulated_report,
    lemma_split, lemma_split_shrinks, lemma_two_trees, level, node_places, spans, split_places,
};
use crate::{AnswerFormat, Answers, HasInfinity, Rec, Rng};
use vstd::prelude::*;

verus! {

/// Returns `true` if `a` and `b` overlap on every axis from `from` up to,
/// not including, `to`.
pub fn overlap_between<B: BBox>(a: &B, b: &B, from: usize, to: usize) -> (r: bool)
    requires
        to <= B::DIM,
    ensures
        r == overlap_on(*a, *b, from as int, to as int),
{
    let mut dim: usize = from;
    while dim < to
        invariant
            to <= B::DIM,
            from <= dim,
            overlap_on(*a, *b, from as int, dim as int),
        decreases to - dim,
    {
        if !a.intersects_in(dim, b.lo(dim), b.hi(dim)) {
            assert(!overlap_at(*a, *b, dim as int));
            return false;
        }
        dim += 1;
    }
    true
}

/// Reports intersections between `intervals` and `points` by scanning in dimension 0,
/// treating boxes in `points` as points: intersections are only reported when the low
/// endpoint in dimension 0 of a box in `points` is inside the projection of a box in `intervals`.
/// * `intervals` and `points` must be sorted before calling: of sets that are
///   not, the scan reports some pairs or none
/// * `max_dim_check`: highest dimension that should be checked for intersection
/// * `out` is given, for each such pair, the interval and then the point.
pub fn one_way_scan<'a, B, ID>(
    intervals: &BBoxSet<B, ID>,
    points: &BBoxSet<B, ID>,
    max_dim_check: usize,
    out: AnswerFormat<'a, ID>,
) where B: BBox, ID: Ordered
    requires
        max_dim_check < B::DIM,
    ensures
        exists|recs: Seq<Rec<ID>>|
            {
                &&& (match out {
                    AnswerFormat::Index(v) => Answers::<ID>::Index(final(v)@),
                    AnswerFormat::Ident(v) => Answers::Ident(final(v)@),
                    AnswerFormat::Both(v) => Answers::Both(final(v)@),
                }) == #[trigger] out@.extended(recs)
                &&& read_off(intervals@, points@, recs)
                &&& no_self_pair(idents(recs))
                &&& in_rows(recs)
                &&& ascending(intervals@) && ascending(points@) ==> listing(
                    intervals@,
                    points@,
                    recs,
                    |x: int, y: int| one_way_hit(intervals@[x], points@[y], max_dim_check as int),
                )
            },
{
    let ghost start = out@;
    let ghost end = (match &out {
        AnswerFormat::Index(v) => Answers::<ID>::Index(final(*v)@),
        AnswerFormat::Ident(v) => Answers::Ident(final(*v)@),
        AnswerFormat::Both(v) => Answers::Both(final(*v)@),
    });
    let mut out = out;
    let ghost iv = intervals@;
    let ghost pt = points@;
    let ghost top = max_dim_check as int;
    let ghost ok = ascending(iv) && ascending(pt);
    let ghost mut recs: Seq<Rec<ID>> = Seq::empty();
    proof {
        start.lemma_extended_empty();
    }
    let i_len = intervals.len();
    let p_len = points.len();
    let mut p_min_idx: usize = 0;
    let mut i_idx: usize = 0;
    while i_idx < i_len && p_min_idx < p_len
        invariant
            i_idx <= i_len,
            p_min_idx <= p_len,
            i_len == iv.len(),
            p_len == pt.len(),
            iv == intervals@,
            pt == points@,
            top == max_dim_check,
            max_dim_check < B::DIM,
            ok == (ascending(iv) && ascending(pt)),
            (match out {
                AnswerFormat::Index(v) => Answers::<ID>::Index(final(v)@),
                AnswerFormat::Ident(v) => Answers::Ident(final(v)@),
                AnswerFormat::Both(v) => Answers::Both(final(v)@),
            }) == end,
            out@ == start.extended(recs),
            ok ==> forall|x: int, y: int|
                i_idx <= x < i_len && 0 <= y < p_min_idx ==> (#[trigger] pt[y]).0.lo_at(0).rank()
                    < (#[trigger] iv[x]).0.lo_at(0).rank(),
            forall|j: int|
                0 <= j < recs.len() ==> {
                    &&& (#[trigger] recs[j]).0.0 < i_idx
                    &&& recs[j].0.1 < p_len
                    &&& recs[j].1 == (iv[recs[j].0.0 as int].1, pt[recs[j].0.1 as int].1)
                    &&& recs[j].1.0.rank() != recs[j].1.1.rank()
                },
            in_rows(recs),
            ok ==> forall|j: int|
                0 <= j < recs.len() ==> {
                    &&& (#[trigger] recs[j]).0.0 < i_idx
                    &&& recs[j].0.1 < p_len
                    &&& one_way_hit(iv[recs[j].0.0 as int], pt[recs[j].0.1 as int], top)
                    &&& recs[j].1 == (iv[recs[j].0.0 as int].1, pt[recs[j].0.1 as int].1)
                },
            ok ==> forall|j: int, l: int|
                0 <= j < l < recs.len() ==> (#[trigger] recs[j]).0 != (#[trigger] recs[l]).0,
            ok ==> forall|x: int, y: int|
                0 <= x < i_idx && 0 <= y < p_len && #[trigger] one_way_hit(iv[x], pt[y], top)
                    ==> exists|j: int|
                    0 <= j < recs.len() && (#[trigger] recs[j]).0.0 == x && recs[j].0.1 == y,
        decreases i_len - i_idx,
    {
        let (i, i_id) = intervals.get(i_idx);
        let i_min = i.lo(0);
        let i_max = i.hi(0);

        //skip all points that don't have a chance to be in `i`
        while p_min_idx < p_len && points.get(p_min_idx).0.lo(0).less_than(i_min)
            invariant
                p_min_idx <= p_len,
                p_len == pt.len(),
                pt == points@,
                0 < B::DIM,
                i_min == iv[i_idx as int].0.lo_at(0),
                ok ==> forall|y: int|
                    0 <= y < p_min_idx ==> (#[trigger] pt[y]).0.lo_at(0).rank() < i_min.rank(),
            decreases p_len - p_min_idx,
        {
            p_min_idx += 1;
        }

        // the points from here on start in or after `i`; those before start before it
        let mut p_idx: usize = p_min_idx;
        while p_idx < p_len && points.get(p_idx).0.lo(0).less_than(i_max)
            invariant
                i_idx < i_len,
                p_min_idx <= p_idx <= p_len,
                i_len == iv.len(),
                p_len == pt.len(),
                iv == intervals@,
                pt == points@,
                top == max_dim_check,
                max_dim_check < B::DIM,
                ok == (ascending(iv) && ascending(pt)),
                (i, i_id) == iv[i_idx as int],
                i_min == i.lo_at(0),
                i_max == i.hi_at(0),
                (match out {
                    AnswerFormat::Index(v) => Answers::<ID>::Index(final(v)@),
                    AnswerFormat::Ident(v) => Answers::Ident(final(v)@),
                    AnswerFormat::Both(v) => Answers::Both(final(v)@),
                }) == end,
                out@ == start.extended(recs),
                ok ==> forall|y: int|
                    0 <= y < p_min_idx ==> (#[trigger] pt[y]).0.lo_at(0).rank() < i_min.rank(),
                p_min_idx < p_len ==> pt[p_min_idx as int].0.lo_at(0).rank() >= i_min.rank(),
                ok ==> forall|y: int|
                    p_min_idx <= y < p_idx ==> (#[trigger] pt[y]).0.lo_at(0).rank() < i_max.rank(),
                forall|j: int|
                    0 <= j < recs.len() ==> {
                        &&& (#[trigger] recs[j]).0.0 <= i_idx
                        &&& recs[j].0.1 < p_len
                        &&& recs[j].0.0 == i_idx ==> recs[j].0.1 < p_idx
                        &&& recs[j].1 == (iv[recs[j].0.0 as int].1, pt[recs[j].0.1 as int].1)
                        &&& recs[j].1.0.rank() != recs[j].1.1.rank()
                    },
                in_rows(recs),
                ok ==> forall|j: int|
                    0 <= j < recs.len() ==> {
                        &&& (#[trigger] recs[j]).0.0 <= i_idx
                        &&& recs[j].0.1 < p_len
                        &&& recs[j].0.0 == i_idx ==> recs[j].0.1 < p_idx
                        &&& one_way_hit(iv[recs[j].0.0 as int], pt[recs[j].0.1 as int], top)
                        &&& recs[j].1 == (iv[recs[j].0.0 as int].1, pt[recs[j].0.1 as int].1)
                    },
                ok ==> forall|j: int, l: int|
                    0 <= j < l < recs.len() ==> (#[trigger] recs[j]).0 != (#[trigger] recs[l]).0,
                ok ==> forall|x: int, y: int|
                    0 <= x <= i_idx && 0 <= y < p_len && (x == i_idx ==> y < p_idx)
                        && #[trigger] one_way_hit(iv[x], pt[y], top) ==> exists|j: int|
                        0 <= j < recs.len() && (#[trigger] recs[j]).0.0 == x && recs[j].0.1 == y,
            decreases p_len - p_idx,
        {
            let (p, p_id) = points.get(p_idx);
            let p_min = p.lo(0);
            proof {
                assert(ok ==> pt[p_min_idx as int].0.lo_at(0).rank() <= pt[p_idx as int].0.lo_at(
                    0,
                ).rank());
            }
            //if low endpoints are not pairwise different, the last test is needed to avoid duplicates
            if !p_id.equals(i_id) && overlap_between(&i, &p, 1, max_dim_check + 1) && !(
                p_min.equals(i_min) && i_id.less_than(p_id)) {
                let ghost before = recs;
                out.push((i_idx, p_idx), (i_id, p_id));
                proof {
                    start.lemma_extended_with(recs, ((i_idx, p_idx), (i_id, p_id)));
                    recs = recs.push(((i_idx, p_idx), (i_id, p_id)));
                    assert(forall|j: int| 0 <= j < before.len() ==> recs[j] == before[j]);
                    assert forall|x: int, y: int| ok &&
                        0 <= x <= i_idx && 0 <= y < p_len && (x == i_idx ==> y < p_idx + 1)
                            && #[trigger] one_way_hit(iv[x], pt[y], top) implies exists|j: int|
                        0 <= j < recs.len() && (#[trigger] recs[j]).0.0 == x && recs[j].0.1 == y by {
                        if x == i_idx && y == p_idx {
                            assert(recs[before.len() as int].0.0 == x && recs[before.len() as int].0.1 == y);
                        } else {
                            let j = choose|j: int|
                                0 <= j < before.len() && (#[trigger] before[j]).0.0 == x && before[j].0.1 == y;
                            assert(recs[j].0.0 == x && recs[j].0.1 == y);
                        }
                    }
                }
            }
            p_idx += 1;
        }
        proof {
            assert forall|x: int, y: int| ok &&
                0 <= x < i_idx + 1 && 0 <= y < p_len && #[trigger] one_way_hit(
                    iv[x],
                    pt[y],
                    top,
                ) implies exists|j: int|
                0 <= j < recs.len() && (#[trigger] recs[j]).0.0 == x && recs[j].0.1 == y by {
                if x == i_idx && y >= p_idx {
                    assert(pt[p_idx as int].0.lo_at(0).rank() <= pt[y].0.lo_at(0).rank());
                    assert(false);
                }
            }
            assert forall|x: int, y: int| ok &&
                i_idx + 1 <= x < i_len && 0 <= y < p_min_idx implies (#[trigger] pt[y]).0.lo_at(
                0,
            ).rank() < (#[trigger] iv[x]).0.lo_at(0).rank() by {
                assert(iv[i_idx as int].0.lo_at(0).rank() <= iv[x].0.lo_at(0).rank());
            }
        }
        i_idx += 1;
    }
    proof {
        // no point is left for the intervals that were not looked at
        assert forall|x: int, y: int| ok &&
            0 <= x < i_len && 0 <= y < p_len && #[trigger] one_way_hit(
                iv[x],
                pt[y],
                top,
            ) implies exists|j: int|
            0 <= j < recs.len() && (#[trigger] recs[j]).0.0 == x && recs[j].0.1 == y by {
            if x >= i_idx {
                assert(pt[y].0.lo_at(0).rank() < iv[x].0.lo_at(0).rank());
                assert(false);
            }
        }
        if ok {
            lemma_listing(iv, pt, recs, |x: int, y: int| one_way_hit(iv[x], pt[y], top));
        }
        assert(no_self_pair(idents(recs))) by {
            assert forall|j: int| 0 <= j < idents(recs).len() implies (#[trigger] idents(
                recs,
            )[j]).0.rank() != idents(recs)[j].1.rank() by {
                assert(recs[j].1.0.rank() != recs[j].1.1.rank());
            }
        }
    }
}


/// Reports intersections between `intervals` and `points` by scanning in dimension 0 (because that's where boxes are sorted),
/// but pretends it was scanning in dimension `max_dim_check` by treating `points` as points there, as in [`one_way_scan`]
/// * `intervals` and `points` must be sorted before calling: of sets that are
///   not, the scan reports some pairs or none
/// * `out` is given, for each such pair, the interval and then the point.
pub fn simulated_one_way_scan<'a, B, ID>(
    intervals: &BBoxSet<B, ID>,
    points: &BBoxSet<B, ID>,
    max_dim_check: usize,
    out: AnswerFormat<'a, ID>,
) where B: BBox, ID: Ordered
    requires
        max_dim_check < B::DIM,
    ensures
        exists|recs: Seq<Rec<ID>>|
            {
                &&& (match out {
                    AnswerFormat::Index(v) => Answers::<ID>::Index(final(v)@),
                    AnswerFormat::Ident(v) => Answers::Ident(final(v)@),
                    AnswerFormat::Both(v) => Answers::Both(final(v)@),
                }) == #[trigger] out@.extended(recs)
                &&& read_off(intervals@, points@, recs)
                &&& no_self_pair(idents(recs))
                &&& ascending(intervals@) && ascending(points@) ==> listing(
                    intervals@,
                    points@,
                    recs,
                    |x: int, y: int| simulated_hit(intervals@[x], points@[y], max_dim_check as int),
                )
            },
{
    let ghost start = out@;
    _two_way_scan::<B, ID, true>(intervals, points, max_dim_check, out);
    proof {
        let recs = choose|recs: Seq<Rec<ID>>|
            {
                &&& (match out {
                    AnswerFormat::Index(v) => Answers::<ID>::Index(final(v)@),
                    AnswerFormat::Ident(v) => Answers::Ident(final(v)@),
                    AnswerFormat::Both(v) => Answers::Both(final(v)@),
                }) == #[trigger] start.extended(recs)
                &&& read_off(intervals@, points@, recs)
                &&& no_self_pair(idents(recs))
                &&& ascending(intervals@) && ascending(points@) ==> listing(
                    intervals@,
                    points@,
                    recs,
                    |x: int, y: int|
                        sweep_hit(intervals@[x], points@[y], max_dim_check as int, true),
                )
            };
        if ascending(intervals@) && ascending(points@) {
            lemma_listing_alike(
                intervals@,
                points@,
                recs,
                |x: int, y: int| sweep_hit(intervals@[x], points@[y], max_dim_check as int, true),
                |x: int, y: int| simulated_hit(intervals@[x], points@[y], max_dim_check as int),
            );
        }
    }
}

/// Reports intersections between boxes in `a` and `b` by scanning in dimension 0, treating each
/// as intervals and points in turn, as if [`one_way_scan`] was called twice, once with intervals and points switched
/// * `a` and `b` must be distinct [`BBoxSet`]s and must be sorted before calling:
///   of sets that are not, the scan reports some pairs or none
/// * `out` is given, for each such pair, the box of `a` and then the box of `b`.
pub fn two_way_scan<'a, B, ID>(a: &BBoxSet<B, ID>, b: &BBoxSet<B, ID>, out: AnswerFormat<'a, ID>) where
    B: BBox,
    ID: Ordered,

    requires
        0 < B::DIM,
    ensures
        exists|recs: Seq<Rec<ID>>|
            {
                &&& (match out {
                    AnswerFormat::Index(v) => Answers::<ID>::Index(final(v)@),
                    AnswerFormat::Ident(v) => Answers::Ident(final(v)@),
                    AnswerFormat::Both(v) => Answers::Both(final(v)@),
                }) == #[trigger] out@.extended(recs)
                &&& read_off(a@, b@, recs)
                &&& no_self_pair(idents(recs))
                &&& ascending(a@) && ascending(b@) ==> listing(
                    a@,
                    b@,
                    recs,
                    |x: int, y: int| two_way_hit(a@[x], b@[y]),
                )
            },
{
    let ghost start = out@;
    _two_way_scan::<B, ID, false>(a, b, B::DIM - 1, out);
    proof {
        let recs = choose|recs: Seq<Rec<ID>>|
            {
                &&& (match out {
                    AnswerFormat::Index(v) => Answers::<ID>::Index(final(v)@),
                    AnswerFormat::Ident(v) => Answers::Ident(final(v)@),
                    AnswerFormat::Both(v) => Answers::Both(final(v)@),
                }) == #[trigger] start.extended(recs)
                &&& read_off(a@, b@, recs)
                &&& no_self_pair(idents(recs))
                &&& ascending(a@) && ascending(b@) ==> listing(
                    a@,
                    b@,
                    recs,
                    |x: int, y: int| sweep_hit(a@[x], b@[y], (B::DIM - 1) as usize as int, false),
                )
            };
        if ascending(a@) && ascending(b@) {
            lemma_listing_alike(
                a@,
                b@,
                recs,
                |x: int, y: int| sweep_hit(a@[x], b@[y], (B::DIM - 1) as usize as int, false),
                |x: int, y: int| two_way_hit(a@[x], b@[y]),
            );
        }
    }
}

/// Sweeps along dimension 0 over `intervals` and `points` at once: the one
/// that starts first is held against those of the other set that start
/// inside it. With `SIMULATE_ONE_WAY` a pair is reported only where the
/// point starts inside the interval in dimension `max_dim_check` too.
pub fn _two_way_scan<'a, B, ID, const SIMULATE_ONE_WAY: bool>(
    intervals: &BBoxSet<B, ID>,
    points: &BBoxSet<B, ID>,
    max_dim_check: usize,
    out: AnswerFormat<'a, ID>,
) where B: BBox, ID: Ordered
    requires
        max_dim_check < B::DIM,
    ensures
        exists|recs: Seq<Rec<ID>>|
            {
                &&& (match out {
                    AnswerFormat::Index(v) => Answers::<ID>::Index(final(v)@),
                    AnswerFormat::Ident(v) => Answers::Ident(final(v)@),
                    AnswerFormat::Both(v) => Answers::Both(final(v)@),
                }) == #[trigger] out@.extended(recs)
                &&& read_off(intervals@, points@, recs)
                &&& no_self_pair(idents(recs))
                &&& ascending(intervals@) && ascending(points@) ==> listing(
                    intervals@,
                    points@,
                    recs,
                    |x: int, y: int|
                        sweep_hit(
                            intervals@[x],
                            points@[y],
                            max_dim_check as int,
                            SIMULATE_ONE_WAY,
                        ),
                )
            },
{
    let ghost start = out@;
    let ghost end = (match &out {
        AnswerFormat::Index(v) => Answers::<ID>::Index(final(*v)@),
        AnswerFormat::Ident(v) => Answers::Ident(final(*v)@),
        AnswerFormat::Both(v) => Answers::Both(final(*v)@),
    });
    let mut out = out;
    let ghost iv = intervals@;
    let ghost pt = points@;
    let ghost top = max_dim_check as int;
    let ghost ok = ascending(iv) && ascending(pt);
    let ghost mut recs: Seq<Rec<ID>> = Seq::empty();
    proof {
        start.lemma_extended_empty();
    }
    let mut i_min_idx: usize = 0;
    let i_len = intervals.len();
    let mut p_min_idx: usize = 0;
    let p_len = points.len();

    // exclusive upper bound of dimensions to be checked for intersection
    let dim_range_upper = if SIMULATE_ONE_WAY {
        max_dim_check  // simulated one way scan employs a stricter check than just intersection for the highest dimension
    } else {
        max_dim_check + 1
    };

    while i_min_idx < i_len && p_min_idx < p_len
        invariant
            i_min_idx <= i_len,
            p_min_idx <= p_len,
            i_len == iv.len(),
            p_len == pt.len(),
            iv == intervals@,
            pt == points@,
            top == max_dim_check,
            max_dim_check < B::DIM,
            dim_range_upper == if SIMULATE_ONE_WAY {
                max_dim_check
            } else {
                (max_dim_check + 1) as usize
            },
            ok == (ascending(iv) && ascending(pt)),
            (match out {
                AnswerFormat::Index(v) => Answers::<ID>::Index(final(v)@),
                AnswerFormat::Ident(v) => Answers::Ident(final(v)@),
                AnswerFormat::Both(v) => Answers::Both(final(v)@),
            }) == end,
            out@ == start.extended(recs),
            forall|j: int|
                0 <= j < recs.len() ==> {
                    &&& (#[trigger] recs[j]).0.0 < i_len
                    &&& recs[j].0.1 < p_len
                    &&& recs[j].1 == (iv[recs[j].0.0 as int].1, pt[recs[j].0.1 as int].1)
                    &&& recs[j].1.0.rank() != recs[j].1.1.rank()
                },
            ok ==> forall|j: int|
                0 <= j < recs.len() ==> {
                    &&& (#[trigger] recs[j]).0.0 < i_len
                    &&& recs[j].0.1 < p_len
                    &&& (recs[j].0.0 < i_min_idx || recs[j].0.1 < p_min_idx)
                    &&& sweep_hit(
                        iv[recs[j].0.0 as int],
                        pt[recs[j].0.1 as int],
                        top,
                        SIMULATE_ONE_WAY,
                    )
                    &&& recs[j].1 == (iv[recs[j].0.0 as int].1, pt[recs[j].0.1 as int].1)
                },
            ok ==> forall|j: int, l: int|
                0 <= j < l < recs.len() ==> (#[trigger] recs[j]).0 != (#[trigger] recs[l]).0,
            ok ==> forall|x: int, y: int|
                0 <= x < i_len && 0 <= y < p_len && (x < i_min_idx || y < p_min_idx)
                    && #[trigger] sweep_hit(iv[x], pt[y], top, SIMULATE_ONE_WAY) ==> exists|j: int|
                    0 <= j < recs.len() && (#[trigger] recs[j]).0.0 == x && recs[j].0.1 == y,
        decreases (i_len - i_min_idx) + (p_len - p_min_idx),
    {
        let (i_min, i_min_id) = intervals.get(i_min_idx);
        let (p_min, p_min_id) = points.get(p_min_idx);
        if i_min.lo(0).less_than(p_min.lo(0)) {
            // the interval starts first: the points from here on may start inside it

            let mut p_idx: usize = p_min_idx;
            while p_idx < p_len && points.get(p_idx).0.lo(0).less_than(i_min.hi(0))
                invariant
                    i_min_idx < i_len,
                    p_min_idx < p_len,
                    p_min_idx <= p_idx <= p_len,
                    i_len == iv.len(),
                    p_len == pt.len(),
                    iv == intervals@,
                    pt == points@,
                    top == max_dim_check,
                    max_dim_check < B::DIM,
                    dim_range_upper == if SIMULATE_ONE_WAY {
                        max_dim_check
                    } else {
                        (max_dim_check + 1) as usize
                    },
                    ok == (ascending(iv) && ascending(pt)),
                    (i_min, i_min_id) == iv[i_min_idx as int],
                    (p_min, p_min_id) == pt[p_min_idx as int],
                    i_min.lo_at(0).rank() < p_min.lo_at(0).rank(),
                    (match out {
                        AnswerFormat::Index(v) => Answers::<ID>::Index(final(v)@),
                        AnswerFormat::Ident(v) => Answers::Ident(final(v)@),
                        AnswerFormat::Both(v) => Answers::Both(final(v)@),
                    }) == end,
                    out@ == start.extended(recs),
                    ok ==> forall|y: int| p_min_idx <= y < p_idx ==> (#[trigger] pt[y]).0.lo_at(0).rank() < i_min.hi_at(0).rank(),
                    forall|j: int|
                        0 <= j < recs.len() ==> {
                            &&& (#[trigger] recs[j]).0.0 < i_len
                            &&& recs[j].0.1 < p_len
                            &&& recs[j].1 == (iv[recs[j].0.0 as int].1, pt[recs[j].0.1 as int].1)
                            &&& recs[j].1.0.rank() != recs[j].1.1.rank()
                        },
                    ok ==> forall|j: int|
                        0 <= j < recs.len() ==> {
                            &&& (#[trigger] recs[j]).0.0 < i_len
                            &&& recs[j].0.1 < p_len
                            &&& ({
                                let x = recs[j].0.0;
                                let y = recs[j].0.1;
                                x < i_min_idx || y < p_min_idx || (x == i_min_idx && p_min_idx <= y < p_idx)
                            })
                            &&& sweep_hit(
                                iv[recs[j].0.0 as int],
                                pt[recs[j].0.1 as int],
                                top,
                                SIMULATE_ONE_WAY,
                            )
                            &&& recs[j].1 == (iv[recs[j].0.0 as int].1, pt[recs[j].0.1 as int].1)
                        },
                    ok ==> forall|j: int, l: int|
                        0 <= j < l < recs.len() ==> (#[trigger] recs[j]).0 != (
                        #[trigger] recs[l]).0,
                    ok ==> forall|x: int, y: int|
                        0 <= x < i_len && 0 <= y < p_len && (x < i_min_idx || y < p_min_idx
                            || (x == i_min_idx && p_min_idx <= y < p_idx)) && #[trigger] sweep_hit(
                            iv[x],
                            pt[y],
                            top,
                            SIMULATE_ONE_WAY,
                        ) ==> exists|j: int|
                            0 <= j < recs.len() && (#[trigger] recs[j]).0.0 == x && recs[j].0.1
                                == y,
                decreases p_len - p_idx,
            {
                let (p, p_id) = points.get(p_idx);
                proof {
                    assert(ok ==> pt[p_min_idx as int].0.lo_at(0).rank() <= pt[p_idx as int].0.lo_at(
                    0,
                ).rank());
                }
                if !i_min_id.equals(p_id) && overlap_between(&i_min, &p, 1, dim_range_upper) && !(
                    SIMULATE_ONE_WAY && (!i_min.contains_in(max_dim_check, p.lo(max_dim_check))
                        || (i_min.lo(max_dim_check).equals(p.lo(max_dim_check))
                        && p_id.less_than(i_min_id)))) {
                    let ghost before = recs;
                    out.push((i_min_idx, p_idx), (i_min_id, p_id));
                    proof {
                        start.lemma_extended_with(recs, ((i_min_idx, p_idx), (i_min_id, p_id)));
                        recs = recs.push(((i_min_idx, p_idx), (i_min_id, p_id)));
                        assert(forall|j: int| 0 <= j < before.len() ==> recs[j] == before[j]);
                        assert forall|x: int, y: int| ok &&
                            0 <= x < i_len && 0 <= y < p_len && (x < i_min_idx || y < p_min_idx
                                || (x == i_min_idx && p_min_idx <= y < p_idx + 1)) && #[trigger] sweep_hit(
                                iv[x],
                                pt[y],
                                top,
                                SIMULATE_ONE_WAY,
                            ) implies exists|j: int|
                            0 <= j < recs.len() && (#[trigger] recs[j]).0.0 == x && recs[j].0.1
                                == y by {
                            if x == i_min_idx && y == p_idx {
                                assert(recs[before.len() as int].0.0 == x && recs[before.len() as int].0.1
                                    == y);
                            } else {
                                let j = choose|j: int|
                                    0 <= j < before.len() && (#[trigger] before[j]).0.0 == x
                                        && before[j].0.1 == y;
                                assert(recs[j].0.0 == x && recs[j].0.1 == y);
                            }
                        }
                    }
                }
                p_idx += 1;
            }

            proof {
                assert forall|x: int, y: int| ok &&
                    0 <= x < i_len && 0 <= y < p_len && (x < i_min_idx + 1 || y < p_min_idx)
                        && #[trigger] sweep_hit(
                        iv[x],
                        pt[y],
                        top,
                        SIMULATE_ONE_WAY,
                    ) implies exists|j: int|
                    0 <= j < recs.len() && (#[trigger] recs[j]).0.0 == x && recs[j].0.1 == y by {
                    if x == i_min_idx && y >= p_idx {
                        assert(pt[p_min_idx as int].0.lo_at(0).rank() <= pt[y].0.lo_at(0).rank());
                        assert(pt[p_idx as int].0.lo_at(0).rank() <= pt[y].0.lo_at(0).rank());
                        assert(false);
                    }
                }
            }
            i_min_idx += 1;
        } else {
            // the point starts first, or with the interval: switch the roles of intervals and points

            let mut i_idx: usize = i_min_idx;
            while i_idx < i_len && intervals.get(i_idx).0.lo(0).less_than(p_min.hi(0))
                invariant
                    i_min_idx < i_len,
                    p_min_idx < p_len,
                    i_min_idx <= i_idx <= i_len,
                    i_len == iv.len(),
                    p_len == pt.len(),
                    iv == intervals@,
                    pt == points@,
                    top == max_dim_check,
                    max_dim_check < B::DIM,
                    dim_range_upper == if SIMULATE_ONE_WAY {
                        max_dim_check
                    } else {
                        (max_dim_check + 1) as usize
                    },
                    ok == (ascending(iv) && ascending(pt)),
                    (i_min, i_min_id) == iv[i_min_idx as int],
                    (p_min, p_min_id) == pt[p_min_idx as int],
                    p_min.lo_at(0).rank() <= i_min.lo_at(0).rank(),
                    (match out {
                        AnswerFormat::Index(v) => Answers::<ID>::Index(final(v)@),
                        AnswerFormat::Ident(v) => Answers::Ident(final(v)@),
                        AnswerFormat::Both(v) => Answers::Both(final(v)@),
                    }) == end,
                    out@ == start.extended(recs),
                    ok ==> forall|x: int| i_min_idx <= x < i_idx ==> (#[trigger] iv[x]).0.lo_at(0).rank() < p_min.hi_at(0).rank(),
                    forall|j: int|
                        0 <= j < recs.len() ==> {
                            &&& (#[trigger] recs[j]).0.0 < i_len
                            &&& recs[j].0.1 < p_len
                            &&& recs[j].1 == (iv[recs[j].0.0 as int].1, pt[recs[j].0.1 as int].1)
                            &&& recs[j].1.0.rank() != recs[j].1.1.rank()
                        },
                    ok ==> forall|j: int|
                        0 <= j < recs.len() ==> {
                            &&& (#[trigger] recs[j]).0.0 < i_len
                            &&& recs[j].0.1 < p_len
                            &&& ({
                                let x = recs[j].0.0;
                                let y = recs[j].0.1;
                                x < i_min_idx || y < p_min_idx || (y == p_min_idx && i_min_idx <= x < i_idx)
                            })
                            &&& sweep_hit(
                                iv[recs[j].0.0 as int],
                                pt[recs[j].0.1 as int],
                                top,
                                SIMULATE_ONE_WAY,
                            )
                            &&& recs[j].1 == (iv[recs[j].0.0 as int].1, pt[recs[j].0.1 as int].1)
                        },
                    ok ==> forall|j: int, l: int|
                        0 <= j < l < recs.len() ==> (#[trigger] recs[j]).0 != (
                        #[trigger] recs[l]).0,
                    ok ==> forall|x: int, y: int|
                        0 <= x < i_len && 0 <= y < p_len && (x < i_min_idx || y < p_min_idx
                            || (y == p_min_idx && i_min_idx <= x < i_idx)) && #[trigger] sweep_hit(
                            iv[x],
                            pt[y],
                            top,
                            SIMULATE_ONE_WAY,
                        ) ==> exists|j: int|
                            0 <= j < recs.len() && (#[trigger] recs[j]).0.0 == x && recs[j].0.1
                                == y,
                decreases i_len - i_idx,
            {
                let (i, i_id) = intervals.get(i_idx);
                proof {
                    assert(ok ==> iv[i_min_idx as int].0.lo_at(0).rank() <= iv[i_idx as int].0.lo_at(
                        0,
                    ).rank());
                }
                if !i_id.equals(p_min_id) && overlap_between(&i, &p_min, 1, dim_range_upper) && !(
                    SIMULATE_ONE_WAY && (!i.contains_in(max_dim_check, p_min.lo(max_dim_check))
                        || (i.lo(max_dim_check).equals(p_min.lo(max_dim_check))
                        && p_min_id.less_than(i_id)))) {
                    let ghost before = recs;
                    out.push((i_idx, p_min_idx), (i_id, p_min_id));
                    proof {
                        start.lemma_extended_with(recs, ((i_idx, p_min_idx), (i_id, p_min_id)));
                        recs = recs.push(((i_idx, p_min_idx), (i_id, p_min_id)));
                        assert(forall|j: int| 0 <= j < before.len() ==> recs[j] == before[j]);
                        assert forall|x: int, y: int| ok &&
                            0 <= x < i_len && 0 <= y < p_len && (x < i_min_idx || y < p_min_idx
                                || (y == p_min_idx && i_min_idx <= x < i_idx + 1)) && #[trigger] sweep_hit(
                                iv[x],
                                pt[y],
                                top,
                                SIMULATE_ONE_WAY,
                            ) implies exists|j: int|
                            0 <= j < recs.len() && (#[trigger] recs[j]).0.0 == x && recs[j].0.1
                                == y by {
                            if x == i_idx && y == p_min_idx {
                                assert(recs[before.len() as int].0.0 == x && recs[before.len() as int].0.1
                                    == y);
                            } else {
                                let j = choose|j: int|
                                    0 <= j < before.len() && (#[trigger] before[j]).0.0 == x
                                        && before[j].0.1 == y;
                                assert(recs[j].0.0 == x && recs[j].0.1 == y);
                            }
                        }
                    }
                }
                i_idx += 1;
            }

            proof {
                assert forall|x: int, y: int| ok &&
                    0 <= x < i_len && 0 <= y < p_len && (x < i_min_idx || y < p_min_idx + 1)
                        && #[trigger] sweep_hit(
                        iv[x],
                        pt[y],
                        top,
                        SIMULATE_ONE_WAY,
                    ) implies exists|j: int|
                    0 <= j < recs.len() && (#[trigger] recs[j]).0.0 == x && recs[j].0.1 == y by {
                    if y == p_min_idx && x >= i_idx {
                        assert(iv[i_min_idx as int].0.lo_at(0).rank() <= iv[x].0.lo_at(0).rank());
                        assert(iv[i_idx as int].0.lo_at(0).rank() <= iv[x].0.lo_at(0).rank());
                        assert(false);
                    }
                }
            }
            p_min_idx += 1;
        }
    }
    proof {
        if ok {
            lemma_listing(
                iv,
                pt,
                recs,
                |x: int, y: int| sweep_hit(iv[x], pt[y], top, SIMULATE_ONE_WAY),
            );
        }
        assert(no_self_pair(idents(recs))) by {
            assert forall|j: int| 0 <= j < idents(recs).len() implies (#[trigger] idents(
                recs,
            )[j]).0.rank() != idents(recs)[j].1.rank() by {
                assert(recs[j].1.0.rank() != recs[j].1.1.rank());
            }
        }
    }
}

/// Streams a segment tree to check if the boxes in `intervals` intersect those in `points`,
/// treating the latter as points in dimension `dim`: intersections are only reported when the low
/// endpoint in dimension `dim` of a box in `points` is inside the projection of a box in `intervals`.
/// If `dim > 0`, will recursively stream two segment trees in dimension `dim - 1`, so that
/// each box will be treated both as an `interval` and as a `point`.
/// * `intervals` and `points` must be sorted before calling, and their boxes proper
/// * [`lo`, `hi`) is the segment belonging to this node of the streamed segment tree:
///   the boxes in `points` must start in it in dimension `dim`
/// * `out` will contain pairs of `ID`s of intersecting boxes.
///
/// Where a set is empty or the segment holds nothing, nothing is reported. On
/// dimension 0 the sets are handed to [`one_way_scan`], and where one of them
/// has fewer than `CUTOFF` boxes, to [`simulated_one_way_scan`]. In all these
/// cases `rand` is left as it was.
///
/// Where one of the three points above does not hold, the tree still comes
/// to an end, and reports some pairs or none, no box with itself.
pub fn hybrid<B, ID, R, const CUTOFF: usize>(
    intervals: &BBoxSet<B, ID>,
    points: &BBoxSet<B, ID>,
    lo: B::Num,
    hi: B::Num,
    dim: usize,
    out: &mut Vec<(ID, ID)>,
    rand: &mut R,
) where B: BBox, ID: Ordered, B::Num: HasInfinity, R: Rng
    requires
        dim < B::DIM,
    ensures
        exists|w: Seq<(int, int)>, recs: Seq<Rec<ID>>|
            {
                &&& final(out)@ == old(out)@ + idents(recs)
                &&& no_self_pair(idents(recs))
                &&& (intervals@.len() == 0 || points@.len() == 0 || hi.rank() <= lo.rank())
                    ==> recs.len() == 0 && final(out)@ == old(out)@
                &&& (intervals@.len() > 0 && points@.len() > 0 && lo.rank() < hi.rank() && dim == 0
                    && ascending(intervals@) && ascending(points@)) ==> listing(
                    intervals@,
                    points@,
                    recs,
                    |x: int, y: int| one_way_hit(intervals@[x], points@[y], 0),
                )
                &&& (intervals@.len() > 0 && points@.len() > 0 && lo.rank() < hi.rank() && dim > 0 && (
                intervals@.len() < CUTOFF || points@.len() < CUTOFF) && ascending(intervals@)
                    && ascending(points@)) ==> listing(
                    intervals@,
                    points@,
                    recs,
                    |x: int, y: int| simulated_hit(intervals@[x], points@[y], dim as int),
                )
                &&& #[trigger] hybrid_report(
                    intervals@,
                    points@,
                    dim as int,
                    lo,
                    hi,
                    w,
                    idents(recs),
                )
            },
        (intervals@.len() == 0 || points@.len() == 0 || hi.rank() <= lo.rank() || dim == 0
            || intervals@.len() < CUTOFF || points@.len() < CUTOFF) ==> *final(rand) == *old(rand),
{
    let ghost start = Answers::Ident(out@);
    hybrid_flex::<B, ID, R, CUTOFF>(intervals, points, lo, hi, dim, AnswerFormat::Ident(out), rand);
    proof {
        let c = choose|w: Seq<(int, int)>, recs: Seq<Rec<ID>>|
            {
                &&& Answers::Ident(out@) == start.extended(recs)
                &&& no_self_pair(idents(recs))
                &&& (intervals@.len() == 0 || points@.len() == 0 || hi.rank() <= lo.rank())
                    ==> recs.len() == 0 && Answers::Ident(out@) == start
                &&& (intervals@.len() > 0 && points@.len() > 0 && lo.rank() < hi.rank() && dim == 0
                    && ascending(intervals@) && ascending(points@)) ==> listing(
                    intervals@,
                    points@,
                    recs,
                    |x: int, y: int| one_way_hit(intervals@[x], points@[y], 0),
                )
                &&& (intervals@.len() > 0 && points@.len() > 0 && lo.rank() < hi.rank() && dim > 0 && (
                intervals@.len() < CUTOFF || points@.len() < CUTOFF) && ascending(intervals@)
                    && ascending(points@)) ==> listing(
                    intervals@,
                    points@,
                    recs,
                    |x: int, y: int| simulated_hit(intervals@[x], points@[y], dim as int),
                )
                &&& #[trigger] hybrid_report(
                    intervals@,
                    points@,
                    dim as int,
                    lo,
                    hi,
                    w,
                    idents(recs),
                )
            };
        assert(out@ == old(out)@ + idents(c.1));
    }
}

/// Like [`hybrid`], for a sink of any shape. The positions that a sink is
/// given are those in the sets that a scan at the leaves of the tree worked on.
pub fn hybrid_flex<'a, B, ID, R, const CUTOFF: usize>(
    intervals: &BBoxSet<B, ID>,
    points: &BBoxSet<B, ID>,
    lo: B::Num,
    hi: B::Num,
    dim: usize,
    out: AnswerFormat<'a, ID>,
    rand: &mut R,
) where B: BBox, ID: Ordered, B::Num: HasInfinity, R: Rng
    requires
        dim < B::DIM,
    ensures
        exists|w: Seq<(int, int)>, recs: Seq<Rec<ID>>|
            {
                &&& (match out {
                    AnswerFormat::Index(v) => Answers::<ID>::Index(final(v)@),
                    AnswerFormat::Ident(v) => Answers::Ident(final(v)@),
                    AnswerFormat::Both(v) => Answers::Both(final(v)@),
                }) == out@.extended(recs)
                &&& no_self_pair(idents(recs))
                &&& (intervals@.len() == 0 || points@.len() == 0 || hi.rank() <= lo.rank())
                    ==> recs.len() == 0 && (match out {
                    AnswerFormat::Index(v) => Answers::<ID>::Index(final(v)@),
                    AnswerFormat::Ident(v) => Answers::Ident(final(v)@),
                    AnswerFormat::Both(v) => Answers::Both(final(v)@),
                }) == out@
                &&& (intervals@.len() > 0 && points@.len() > 0 && lo.rank() < hi.rank() && dim == 0
                    && ascending(intervals@) && ascending(points@)) ==> listing(
                    intervals@,
                    points@,
                    recs,
                    |x: int, y: int| one_way_hit(intervals@[x], points@[y], 0),
                )
                &&& (intervals@.len() > 0 && points@.len() > 0 && lo.rank() < hi.rank() && dim > 0 && (
                intervals@.len() < CUTOFF || points@.len() < CUTOFF) && ascending(intervals@)
                    && ascending(points@)) ==> listing(
                    intervals@,
                    points@,
                    recs,
                    |x: int, y: int| simulated_hit(intervals@[x], points@[y], dim as int),
                )
                &&& #[trigger] hybrid_report(
                    intervals@,
                    points@,
                    dim as int,
                    lo,
                    hi,
                    w,
                    idents(recs),
                )
            },
        (intervals@.len() == 0 || points@.len() == 0 || hi.rank() <= lo.rank() || dim == 0
            || intervals@.len() < CUTOFF || points@.len() < CUTOFF) ==> *final(rand) == *old(rand),
    decreases dim, points@.len(), level(points@, dim as int, lo),
{
    let ghost start = out@;
    let ghost end = (match &out {
        AnswerFormat::Index(v) => Answers::<ID>::Index(final(*v)@),
        AnswerFormat::Ident(v) => Answers::Ident(final(*v)@),
        AnswerFormat::Both(v) => Answers::Both(final(*v)@),
    });
    let ghost iv = intervals@;
    let ghost pt = points@;
    let ghost k = dim as int;
    let mut out = out;

    // return if input is empty
    if intervals.empty() || points.empty() || !lo.less_than(hi) {
        proof {
            lemma_empty_report(iv, pt, k, lo, hi);
            start.lemma_extended_empty();
            assert(idents(Seq::<Rec<ID>>::empty()) =~= Seq::<(ID, ID)>::empty());
            assert(hybrid_report(
                iv,
                pt,
                k,
                lo,
                hi,
                Seq::empty(),
                idents(Seq::<Rec<ID>>::empty()),
            ));
        }
        return;
    }

    // first hybridization method: scan if only dimension 0 is left to check
    if dim == 0 {
        one_way_scan(intervals, points, dim, out);
        proof {
            let recs = choose|recs: Seq<Rec<ID>>|
                end == #[trigger] start.extended(recs) && no_self_pair(idents(recs)) && (
                ascending(iv) && ascending(pt) ==> listing(
                    iv,
                    pt,
                    recs,
                    |x: int, y: int| one_way_hit(iv[x], pt[y], k),
                ));
            lemma_one_way_report(iv, pt, k, lo, hi, recs);
            if ascending(iv) && ascending(pt) {
                lemma_listing_alike(
                    iv,
                    pt,
                    recs,
                    |x: int, y: int| one_way_hit(iv[x], pt[y], k),
                    |x: int, y: int| one_way_hit(iv[x], pt[y], 0),
                );
            }
        }
        return;
    }

    // second hybridization method: scan if size of input is smaller than cutoff
    if intervals.len() < CUTOFF || points.len() < CUTOFF {
        simulated_one_way_scan(intervals, points, dim, out);
        proof {
            let recs = choose|recs: Seq<Rec<ID>>|
                end == #[trigger] start.extended(recs) && no_self_pair(idents(recs)) && (
                ascending(iv) && ascending(pt) ==> listing(
                    iv,
                    pt,
                    recs,
                    |x: int, y: int| simulated_hit(iv[x], pt[y], k),
                ));
            lemma_simulated_report(iv, pt, k, lo, hi, recs);
        }
        return;
    }

    // let intervals_m contain the intervals that would be stored at this node of the segment tree
    // because they span the segment [lo, hi), meaning it is one of their canonical segments
    // let intervals_lr contain the intervals not stored at this node
    let spanning = |e: &(B, ID)| -> (b: bool)
        ensures
            b == spans(*e, dim as int, lo, hi),
        {
            let from = e.0.lo(dim);
            let to = e.0.hi(dim);
            from.less_than(lo) && hi.less_than(to)
        };
    let (intervals_m, intervals_lr) = intervals.partition(spanning);
    let ghost flags = choose|flags: Seq<bool>| #[trigger]
        decided(spanning, iv, flags) && intervals_m@ == picked(iv, flags, true) && intervals_lr@
            == picked(iv, flags, false);
    let ghost im = intervals_m@;
    let ghost ilr = intervals_lr@;
    let (ninfty, infty) = (B::Num::NINFTY, B::Num::INFTY);
    proof {
        assert forall|x: int| 0 <= x < iv.len() implies #[trigger] flags[x] == spans(
            iv[x],
            k,
            lo,
            hi,
        ) by {
            assert(call_ensures(spanning, (&iv[x],), flags[x]));
        }
    }

    // stream two segment trees in the next dimension for the intervals stored at this node
    hybrid_flex::<B, ID, R, CUTOFF>(
        &intervals_m,
        points,
        ninfty,
        infty,
        dim - 1,
        out.reborrow(),
        rand,
    );
    let ghost c1 = choose|w: Seq<(int, int)>, recs: Seq<Rec<ID>>|
        out@ == start.extended(recs) && no_self_pair(idents(recs)) && #[trigger] hybrid_report(
            im,
            pt,
            k - 1,
            ninfty,
            infty,
            w,
            idents(recs),
        );
    let ghost after1 = out@;
    hybrid_flex::<B, ID, R, CUTOFF>(
        points,
        &intervals_m,
        ninfty,
        infty,
        dim - 1,
        out.reborrow(),
        rand,
    );
    let ghost c2 = choose|w: Seq<(int, int)>, recs: Seq<Rec<ID>>|
        out@ == after1.extended(recs) && no_self_pair(idents(recs)) && #[trigger] hybrid_report(
            pt,
            im,
            k - 1,
            ninfty,
            infty,
            w,
            idents(recs),
        );
    let ghost after2 = out@;
    proof {
        start.lemma_extended_twice(c1.1, c2.1);
    }

    // divide the segment [lo, hi) into segments [lo, mi) and [mi, hi) by computing an approximate median
    let mi = points.approx_median(dim, rand);

    // if we failed to divide the segment into subsegments, just scan instead
    if mi.equals(hi) || mi.equals(lo) {
        simulated_one_way_scan(&intervals_lr, points, dim, out.reborrow());
        proof {
            let recs3 = choose|recs: Seq<Rec<ID>>|
                out@ == #[trigger] after2.extended(recs) && no_self_pair(idents(recs)) && (ascending(
                    ilr,
                ) && ascending(pt)
                    ==> listing(ilr, pt, recs, |x: int, y: int| simulated_hit(ilr[x], pt[y], k)));
            lemma_simulated_report(ilr, pt, k, lo, hi, recs3);
            lemma_node(
                iv,
                pt,
                k,
                lo,
                hi,
                flags,
                c1.0,
                idents(c1.1),
                c2.0,
                idents(c2.1),
                places(recs3),
                idents(recs3),
            );
            let all = c1.1 + c2.1 + recs3;
            start.lemma_extended_twice(c1.1 + c2.1, recs3);
            assert(idents(all) =~= idents(c1.1) + idents(c2.1) + idents(recs3));
            lemma_no_self_pair_join(idents(c1.1), idents(c2.1));
            lemma_no_self_pair_join(idents(c1.1) + idents(c2.1), idents(recs3));
            assert(hybrid_report(
                iv,
                pt,
                k,
                lo,
                hi,
                node_places(flags, pt.len(), c1.0, c2.0, places(recs3)),
                idents(all),
            ));
        }
        return;
    }

    // let points_l contain the points in the left subsegment [lo, mi),
    // points_r those in the right subsegment [mi, hi)
    let starts_left = |e: &(B, ID)| -> (b: bool)
        ensures
            b == (e.0.lo_at(dim as int).rank() < mi.rank()),
        {
            let from = e.0.lo(dim);
            from.less_than(mi)
        };
    let ends_right = |e: &(B, ID)| -> (b: bool)
        ensures
            b == (mi.rank() < e.0.hi_at(dim as int).rank()),
        {
            let to = e.0.hi(dim);
            mi.less_than(to)
        };
    let (points_l, points_r) = points.partition(starts_left);
    let ghost low = choose|flags: Seq<bool>| #[trigger]
        decided(starts_left, pt, flags) && points_l@ == picked(pt, flags, true) && points_r@
            == picked(pt, flags, false);

    // let intervals_l/r contain the intervals stored somewhere in the left/right subtree
    // because they intersect [lo, mi)/[mi, hi) but don't span [lo, hi)
    // intervals_l and intervals_r are not usually disjoint!
    let intervals_l = intervals_lr.filter(starts_left);
    let ghost left = choose|flags: Seq<bool>| #[trigger]
        decided(starts_left, ilr, flags) && intervals_l@ == picked(ilr, flags, true);
    let intervals_r = intervals_lr.filter(ends_right);
    let ghost right = choose|flags: Seq<bool>| #[trigger]
        decided(ends_right, ilr, flags) && intervals_r@ == picked(ilr, flags, true);
    proof {
        assert forall|y: int| 0 <= y < pt.len() implies #[trigger] low[y] == (pt[y].0.lo_at(
            k,
        ).rank() < mi.rank()) by {
            assert(call_ensures(starts_left, (&pt[y],), low[y]));
        }
        assert forall|x: int| 0 <= x < ilr.len() implies #[trigger] left[x] == (ilr[x].0.lo_at(
            k,
        ).rank() < mi.rank()) by {
            assert(call_ensures(starts_left, (&ilr[x],), left[x]));
        }
        assert forall|x: int| 0 <= x < ilr.len() implies #[trigger] right[x] == (mi.rank()
            < ilr[x].0.hi_at(k).rank()) by {
            assert(call_ensures(ends_right, (&ilr[x],), right[x]));
        }
        let at = choose|j: int| 0 <= j < pt.len() && mi == (#[trigger] pt[j]).0.lo_at(k);
        lemma_split_shrinks(pt, k, lo, mi, low, at);
    }

    // left subtree
    hybrid_flex::<B, ID, R, CUTOFF>(&intervals_l, &points_l, lo, mi, dim, out.reborrow(), rand);
    let ghost c3 = choose|w: Seq<(int, int)>, recs: Seq<Rec<ID>>|
        out@ == after2.extended(recs) && no_self_pair(idents(recs)) && #[trigger] hybrid_report(
            intervals_l@,
            points_l@,
            k,
            lo,
            mi,
            w,
            idents(recs),
        );
    let ghost after3 = out@;
    // right subtree
    hybrid_flex::<B, ID, R, CUTOFF>(&intervals_r, &points_r, mi, hi, dim, out.reborrow(), rand);
    proof {
        let c4 = choose|w: Seq<(int, int)>, recs: Seq<Rec<ID>>|
            out@ == after3.extended(recs) && no_self_pair(idents(recs)) && #[trigger] hybrid_report(
                intervals_r@,
                points_r@,
                k,
                mi,
                hi,
                w,
                idents(recs),
            );
        lemma_split(
            ilr,
            pt,
            k,
            lo,
            hi,
            mi,
            left,
            right,
            low,
            c3.0,
            idents(c3.1),
            c4.0,
            idents(c4.1),
        );
        lemma_node(
            iv,
            pt,
            k,
            lo,
            hi,
            flags,
            c1.0,
            idents(c1.1),
            c2.0,
            idents(c2.1),
            split_places(left, right, low, c3.0, c4.0),
            idents(c3.1) + idents(c4.1),
        );
        let all = c1.1 + c2.1 + c3.1 + c4.1;
        start.lemma_extended_twice(c1.1 + c2.1, c3.1);
        start.lemma_extended_twice(c1.1 + c2.1 + c3.1, c4.1);
        assert(idents(all) =~= idents(c1.1) + idents(c2.1) + (idents(c3.1) + idents(c4.1)));
        lemma_no_self_pair_join(idents(c1.1), idents(c2.1));
        lemma_no_self_pair_join(idents(c3.1), idents(c4.1));
        lemma_no_self_pair_join(idents(c1.1) + idents(c2.1), idents(c3.1) + idents(c4.1));
        assert(hybrid_report(
            iv,
            pt,
            k,
            lo,
            hi,
            node_places(flags, pt.len(), c1.0, c2.0, split_places(left, right, low, c3.0, c4.0)),
            idents(all),
        ));
    }
}

/// Reports intersections by checking every box in `a` against every box in `b`.
/// With `same`, `a` and `b` are one set, and each box is checked against those
/// after it only.
/// * `out` is given, for each pair of intersecting boxes, the box of `a` and
///   then the box of `b`.
pub fn brute_force<'a, B, ID>(
    a: &BBoxSet<B, ID>,
    b: &BBoxSet<B, ID>,
    same: bool,
    out: AnswerFormat<'a, ID>,
) where B: BBox, ID: Copy
    requires
        same ==> a@ == b@,
    ensures
        exists|recs: Seq<Rec<ID>>|
            {
                &&& (match out {
                    AnswerFormat::Index(v) => Answers::<ID>::Index(final(v)@),
                    AnswerFormat::Ident(v) => Answers::Ident(final(v)@),
                    AnswerFormat::Both(v) => Answers::Both(final(v)@),
                }) == #[trigger] out@.extended(recs)
                &&& brute_force_listing(a@, b@, same, recs)
            },
{
    let ghost start = out@;
    let ghost end = (match &out {
        AnswerFormat::Index(v) => Answers::<ID>::Index(final(*v)@),
        AnswerFormat::Ident(v) => Answers::Ident(final(*v)@),
        AnswerFormat::Both(v) => Answers::Both(final(*v)@),
    });
    let mut out = out;
    let ghost mut recs: Seq<Rec<ID>> = Seq::empty();
    proof {
        start.lemma_extended_empty();
    }
    let a_len = a.len();
    let b_len = b.len();
    let mut aidx: usize = 0;
    while aidx < a_len
        invariant
            aidx <= a_len,
            a_len == a@.len(),
            b_len == b@.len(),
            same ==> a@ == b@,
            (match out {
                AnswerFormat::Index(v) => Answers::<ID>::Index(final(v)@),
                AnswerFormat::Ident(v) => Answers::Ident(final(v)@),
                AnswerFormat::Both(v) => Answers::Both(final(v)@),
            }) == end,
            out@ == start.extended(recs),
            in_rows(recs),
            forall|j: int|
                0 <= j < recs.len() ==> {
                    &&& (#[trigger] recs[j]).0.0 < aidx
                    &&& recs[j].0.1 < b_len
                    &&& brute_force_picks(a@, b@, same, recs[j].0.0 as int, recs[j].0.1 as int)
                    &&& recs[j].1 == (a@[recs[j].0.0 as int].1, b@[recs[j].0.1 as int].1)
                },
            forall|j: int, l: int|
                0 <= j < l < recs.len() ==> (#[trigger] recs[j]).0 != (#[trigger] recs[l]).0,
            forall|x: int, y: int|
                0 <= x < aidx && 0 <= y < b_len && #[trigger] brute_force_picks(a@, b@, same, x, y)
                    ==> exists|j: int|
                    0 <= j < recs.len() && (#[trigger] recs[j]).0.0 == x && recs[j].0.1 == y,
        decreases a_len - aidx,
    {
        let (bbox, id) = a.get(aidx);
        // in one set, the pairs with an earlier box have been reported from its side
        let mut bidx: usize = if same {
            aidx + 1
        } else {
            0
        };
        let ghost first = bidx;
        while bidx < b_len
            invariant
                aidx < a_len,
                first <= bidx,
                first == if same {
                    (aidx + 1) as usize
                } else {
                    0usize
                },
                a_len == a@.len(),
                b_len == b@.len(),
                same ==> a@ == b@,
                (bbox, id) == a@[aidx as int],
                (match out {
                    AnswerFormat::Index(v) => Answers::<ID>::Index(final(v)@),
                    AnswerFormat::Ident(v) => Answers::Ident(final(v)@),
                    AnswerFormat::Both(v) => Answers::Both(final(v)@),
                }) == end,
                out@ == start.extended(recs),
                forall|j: int|
                    0 <= j < recs.len() ==> {
                        &&& (#[trigger] recs[j]).0.0 <= aidx
                        &&& recs[j].0.1 < b_len
                        &&& recs[j].0.0 == aidx ==> recs[j].0.1 < bidx
                        &&& brute_force_picks(a@, b@, same, recs[j].0.0 as int, recs[j].0.1 as int)
                        &&& recs[j].1 == (a@[recs[j].0.0 as int].1, b@[recs[j].0.1 as int].1)
                    },
                in_rows(recs),
                forall|j: int, l: int|
                    0 <= j < l < recs.len() ==> (#[trigger] recs[j]).0 != (#[trigger] recs[l]).0,
                forall|x: int, y: int|
                    0 <= x <= aidx && 0 <= y < b_len && (x == aidx ==> y < bidx)
                        && #[trigger] brute_force_picks(a@, b@, same, x, y) ==> exists|j: int|
                        0 <= j < recs.len() && (#[trigger] recs[j]).0.0 == x && recs[j].0.1 == y,
            decreases b_len - bidx,
        {
            let (bbox2, id2) = b.get(bidx);
            let hit = bbox.intersects(&bbox2);
            proof {
                if meet(bbox, bbox2) {
                    assert forall|k: int| 0 <= k < B::DIM implies bbox.lo_at(k).rank()
                        < bbox2.hi_at(k).rank() && bbox2.lo_at(k).rank() < bbox.hi_at(k).rank() by {
                        assert(overlap_at(bbox, bbox2, k));
                    }
                }
                assert(hit == meet(bbox, bbox2));
            }
            if hit {
                let ghost before = recs;
                out.push((aidx, bidx), (id, id2));
                proof {
                    start.lemma_extended_with(recs, ((aidx, bidx), (id, id2)));
                    recs = recs.push(((aidx, bidx), (id, id2)));
                    assert(forall|j: int| 0 <= j < before.len() ==> recs[j] == before[j]);
                    assert forall|x: int, y: int|
                        0 <= x <= aidx && 0 <= y < b_len && (x == aidx ==> y < bidx + 1)
                            && #[trigger] brute_force_picks(
                            a@,
                            b@,
                            same,
                            x,
                            y,
                        ) implies exists|j: int|
                        0 <= j < recs.len() && (#[trigger] recs[j]).0.0 == x && recs[j].0.1 == y by {
                        if x == aidx && y == bidx {
                            assert(recs[before.len() as int].0.0 == x && recs[before.len() as int].0.1
                                == y);
                        } else {
                            let j = choose|j: int|
                                0 <= j < before.len() && (#[trigger] before[j]).0.0 == x
                                    && before[j].0.1 == y;
                            assert(recs[j].0.0 == x && recs[j].0.1 == y);
                        }
                    }
                }
            }
            bidx += 1;
        }
        aidx += 1;
    }
    proof {
        lemma_listing(a@, b@, recs, |x: int, y: int| brute_force_picks(a@, b@, same, x, y));
    }
}

/// Reports intersections between boxes in `a` and `b` by scanning: with
/// `same`, `a` and `b` are one set and one one-way scan over all axes does
/// it, else a two-way scan.
/// * `a` and `b` must be sorted before calling.
/// * `out` is given, for each pair, the box of `a` and then the box of `b`.
pub fn scan<'a, B, ID>(
    a: &BBoxSet<B, ID>,
    b: &BBoxSet<B, ID>,
    same: bool,
    out: AnswerFormat<'a, ID>,
) where B: BBox, ID: Ordered
    requires
        0 < B::DIM,
        same ==> a@ == b@,
    ensures
        exists|recs: Seq<Rec<ID>>|
            {
                &&& (match out {
                    AnswerFormat::Index(v) => Answers::<ID>::Index(final(v)@),
                    AnswerFormat::Ident(v) => Answers::Ident(final(v)@),
                    AnswerFormat::Both(v) => Answers::Both(final(v)@),
                }) == #[trigger] out@.extended(recs)
                &&& read_off(a@, b@, recs)
                &&& no_self_pair(idents(recs))
                &&& scan_listing(a@, b@, same, recs)
            },
{
    let ghost start = out@;
    let ghost end = (match &out {
        AnswerFormat::Index(v) => Answers::<ID>::Index(final(*v)@),
        AnswerFormat::Ident(v) => Answers::Ident(final(*v)@),
        AnswerFormat::Both(v) => Answers::Both(final(*v)@),
    });
    let top = B::DIM - 1;
    if same {
        one_way_scan(a, b, top, out);
        proof {
            let recs = choose|recs: Seq<Rec<ID>>|
                end == #[trigger] start.extended(recs) && read_off(a@, b@, recs) && no_self_pair(
                    idents(recs),
                ) && (ascending(a@) && ascending(b@) ==> listing(
                    a@,
                    b@,
                    recs,
                    |x: int, y: int| one_way_hit(a@[x], b@[y], top as int),
                ));
            if ascending(a@) && ascending(b@) {
                lemma_listing_alike(
                    a@,
                    b@,
                    recs,
                    |x: int, y: int| one_way_hit(a@[x], b@[y], top as int),
                    |x: int, y: int| scan_picks(a@, b@, same, x, y),
                );
            }
        }
    } else {
        two_way_scan(a, b, out);
        proof {
            let recs = choose|recs: Seq<Rec<ID>>|
                end == #[trigger] start.extended(recs) && read_off(a@, b@, recs) && no_self_pair(
                    idents(recs),
                ) && (ascending(a@) && ascending(b@) ==> listing(
                    a@,
                    b@,
                    recs,
                    |x: int, y: int| two_way_hit(a@[x], b@[y]),
                ));
            if ascending(a@) && ascending(b@) {
                lemma_listing_alike(
                    a@,
                    b@,
                    recs,
                    |x: int, y: int| two_way_hit(a@[x], b@[y]),
                    |x: int, y: int| scan_picks(a@, b@, same, x, y),
                );
            }
        }
    }
}

/// Finds the intersections between boxes in `a` and `b` by streaming segment
/// trees from the last axis down: with `same`, `a` and `b` are one set and one
/// tree does it, else two trees, each set once in the place of the intervals.
/// * `a` and `b` must be sorted before calling.
/// * `out` will contain pairs of `ID`s of intersecting boxes.
pub fn stream<B, ID, R, const CUTOFF: usize>(
    a: &BBoxSet<B, ID>,
    b: &BBoxSet<B, ID>,
    same: bool,
    out: &mut Vec<(ID, ID)>,
    rand: &mut R,
) where B: BBox, ID: Ordered, B::Num: HasInfinity, R: Rng
    requires
        0 < B::DIM,
        same ==> a@ == b@,
    ensures
        exists|w: Seq<(int, int)>, ids: Seq<(ID, ID)>|
            final(out)@ == old(out)@ + ids && no_self_pair(ids) && #[trigger] tree_report(
                a@,
                b@,
                same,
                w,
                ids,
            ),
        (B::DIM == 1 || a@.len() == 0 || b@.len() == 0 || a@.len() < CUTOFF || b@.len() < CUTOFF)
            ==> *final(rand) == *old(rand),
{
    let top = B::DIM - 1;
    let (ninfty, infty) = (B::Num::NINFTY, B::Num::INFTY);
    if same {
        // one tree is enough to have every box represented as both an interval and a point
        hybrid::<B, ID, R, CUTOFF>(a, a, ninfty, infty, top, out, rand);
        proof {
            let c = choose|w: Seq<(int, int)>, ids: Seq<(ID, ID)>|
                out@ == old(out)@ + ids && no_self_pair(ids) && #[trigger] hybrid_report(
                    a@,
                    a@,
                    top as int,
                    ninfty,
                    infty,
                    w,
                    ids,
                );
            lemma_one_tree(a@, c.0, c.1);
        }
    } else {
        // need two trees so that every box is represented as both an interval and a point
        hybrid::<B, ID, R, CUTOFF>(a, b, ninfty, infty, top, out, rand);
        let ghost c1 = choose|w: Seq<(int, int)>, ids: Seq<(ID, ID)>|
            out@ == old(out)@ + ids && no_self_pair(ids) && #[trigger] hybrid_report(
                a@,
                b@,
                top as int,
                ninfty,
                infty,
                w,
                ids,
            );
        let ghost mid = out@;
        hybrid::<B, ID, R, CUTOFF>(b, a, ninfty, infty, top, out, rand);
        proof {
            let c2 = choose|w: Seq<(int, int)>, ids: Seq<(ID, ID)>|
                out@ == mid + ids && no_self_pair(ids) && #[trigger] hybrid_report(
                    b@,
                    a@,
                    top as int,
                    ninfty,
                    infty,
                    w,
                    ids,
                );
            lemma_two_trees(a@, b@, c1.0, c1.1, c2.0, c2.1);
            lemma_no_self_pair_join(c1.1, c2.1);
            assert(out@ =~= old(out)@ + (c1.1 + c2.1));
        }
    }
}

} // verus!
