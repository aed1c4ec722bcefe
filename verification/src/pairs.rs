//! What the algorithms report: which pairs of positions, how often, and with
//! which identifiers.
use crate::boxes::{meet, overlap_on, proper, BBox};
use crate::order::Ordered;
use crate::set::ascending;
use crate::{HasInfinity, Rec};
use vstd::prelude::*;

verus! {

/// `(x, y)` is a position in a set of `m` entries beside one in a set of `n`.
pub open spec fn in_grid(x: int, y: int, m: int, n: int) -> bool {
    0 <= x < m && 0 <= y < n
}

/// `w` holds exactly the pairs of positions that `sel` selects, each once.
pub open spec fn enumerates(w: Seq<(int, int)>, m: int, n: int, sel: spec_fn(int, int) -> bool) -> bool {
    &&& forall|j: int|
        0 <= j < w.len() ==> in_grid((#[trigger] w[j]).0, w[j].1, m, n) && sel(w[j].0, w[j].1)
    &&& forall|j: int, l: int| 0 <= j < l < w.len() ==> #[trigger] w[j] != #[trigger] w[l]
    &&& forall|x: int, y: int|
        in_grid(x, y, m, n) && #[trigger] sel(x, y) ==> exists|j: int|
            0 <= j < w.len() && #[trigger] w[j] == (x, y)
}

/// The pairs of positions of `recs`, in order.
pub open spec fn places<ID>(recs: Seq<Rec<ID>>) -> Seq<(int, int)> {
    recs.map_values(|r: Rec<ID>| (r.0.0 as int, r.0.1 as int))
}

/// The pairs of identifiers of `recs`, in order.
pub open spec fn idents<ID>(recs: Seq<Rec<ID>>) -> Seq<(ID, ID)> {
    recs.map_values(|r: Rec<ID>| r.1)
}

/// `recs` reports exactly the pairs of positions that `sel` selects, each
/// once: the first position is one in `iv`, the second one in `pt`, and the
/// identifiers are those of the two entries, in that order.
pub open spec fn listing<B, ID>(
    iv: Seq<(B, ID)>,
    pt: Seq<(B, ID)>,
    recs: Seq<Rec<ID>>,
    sel: spec_fn(int, int) -> bool,
) -> bool {
    &&& enumerates(places(recs), iv.len() as int, pt.len() as int, sel)
    &&& forall|j: int|
        0 <= j < recs.len() ==> (#[trigger] recs[j]).1 == (
            iv[recs[j].0.0 as int].1,
            pt[recs[j].0.1 as int].1,
        )
}

/// Each report of `recs` names a position in `iv` and one in `pt`, and holds
/// the identifiers of the two entries found there, in that order.
pub open spec fn read_off<B, ID>(iv: Seq<(B, ID)>, pt: Seq<(B, ID)>, recs: Seq<Rec<ID>>) -> bool {
    forall|j: int|
        0 <= j < recs.len() ==> {
            &&& (#[trigger] recs[j]).0.0 < iv.len()
            &&& recs[j].0.1 < pt.len()
            &&& recs[j].1 == (iv[recs[j].0.0 as int].1, pt[recs[j].0.1 as int].1)
        }
}

/// The reports of `recs` come row by row: by the first position, and for
/// one first position by the second.
pub open spec fn in_rows<ID>(recs: Seq<Rec<ID>>) -> bool {
    forall|j: int, l: int|
        0 <= j < l < recs.len() ==> (#[trigger] recs[j]).0.0 < (#[trigger] recs[l]).0.0 || (
        recs[j].0.0 == recs[l].0.0 && recs[j].0.1 < recs[l].0.1)
}

/// No pair of `ids` holds one identifier twice.
pub open spec fn no_self_pair<ID: Ordered>(ids: Seq<(ID, ID)>) -> bool {
    forall|j: int| 0 <= j < ids.len() ==> (#[trigger] ids[j]).0.rank() != ids[j].1.rank()
}

/// Pairs without an identifier beside itself, put after others, make such pairs.
pub proof fn lemma_no_self_pair_join<ID: Ordered>(first: Seq<(ID, ID)>, then: Seq<(ID, ID)>)
    requires
        no_self_pair(first),
        no_self_pair(then),
    ensures
        no_self_pair(first + then),
{
    let all = first + then;
    assert forall|j: int| 0 <= j < all.len() implies (#[trigger] all[j]).0.rank()
        != all[j].1.rank() by {
        if j < first.len() {
            assert(all[j] == first[j]);
        } else {
            assert(all[j] == then[j - first.len()]);
        }
    }
}

/// `e` holds `u` and `v`, in either order.
pub open spec fn paired<ID>(e: (ID, ID), u: ID, v: ID) -> bool {
    e == (u, v) || e == (v, u)
}

/// `ids` reports exactly the pairs of positions that `sel` selects, each
/// once: `w` holds the positions, the first in `iv` and the second in `pt`,
/// and `ids` the identifiers of the two entries, in either order.
pub open spec fn tally<B, ID>(
    iv: Seq<(B, ID)>,
    pt: Seq<(B, ID)>,
    w: Seq<(int, int)>,
    ids: Seq<(ID, ID)>,
    sel: spec_fn(int, int) -> bool,
) -> bool {
    &&& w.len() == ids.len()
    &&& enumerates(w, iv.len() as int, pt.len() as int, sel)
    &&& forall|j: int|
        0 <= j < w.len() ==> paired(#[trigger] ids[j], iv[w[j].0].1, pt[w[j].1].1)
}

/// Every box of `s` is proper.
pub open spec fn all_proper<B: BBox, ID>(s: Seq<(B, ID)>) -> bool {
    forall|x: int| 0 <= x < s.len() ==> proper((#[trigger] s[x]).0)
}

/// Both sets are sorted and hold proper boxes only.
pub open spec fn ready<B: BBox, ID>(iv: Seq<(B, ID)>, pt: Seq<(B, ID)>) -> bool {
    ascending(iv) && ascending(pt) && all_proper(iv) && all_proper(pt)
}

/// On axis `k` every box of `pt` starts in the segment from `lo` up to `hi`.
/// The segment does not hold `hi` itself, unless `hi` is the positive infinity.
pub open spec fn within<B: BBox, ID>(pt: Seq<(B, ID)>, k: int, lo: B::Num, hi: B::Num) -> bool where
    B::Num: HasInfinity,
 {
    forall|y: int|
        0 <= y < pt.len() ==> lo.rank() <= (#[trigger] pt[y]).0.lo_at(k).rank() && (pt[y].0.lo_at(
            k,
        ).rank() < hi.rank() || hi.rank() == B::Num::INFTY.rank())
}

/// The two entries carry different identifiers.
pub open spec fn distinct<B, ID: Ordered>(i: (B, ID), p: (B, ID)) -> bool {
    i.1.rank() != p.1.rank()
}

/// On axis 0 the low boundary of `p` lies in the projection of `i`; where the
/// two low boundaries are equal, `p` carries the lesser identifier.
pub open spec fn stabs_first<B: BBox, ID: Ordered>(i: (B, ID), p: (B, ID)) -> bool {
    &&& i.0.lo_at(0).rank() <= p.0.lo_at(0).rank() < i.0.hi_at(0).rank()
    &&& !(p.0.lo_at(0).rank() == i.0.lo_at(0).rank() && p.1.rank() > i.1.rank())
}

/// On axis `k` the low boundary of `p` lies in the projection of `i`; where
/// the two low boundaries are equal, `i` carries the lesser identifier.
pub open spec fn stabs_at<B: BBox, ID: Ordered>(i: (B, ID), p: (B, ID), k: int) -> bool {
    &&& i.0.lo_at(k).rank() <= p.0.lo_at(k).rank() < i.0.hi_at(k).rank()
    &&& !(i.0.lo_at(k).rank() == p.0.lo_at(k).rank() && i.1.rank() > p.1.rank())
}

/// On axis 0, the one of `i` and `p` that starts later starts inside the
/// other; where both start together, `i` counts as the later.
pub open spec fn sweep_meets<B: BBox, ID>(i: (B, ID), p: (B, ID)) -> bool {
    ||| (i.0.lo_at(0).rank() < p.0.lo_at(0).rank() && p.0.lo_at(0).rank() < i.0.hi_at(0).rank())
    ||| (p.0.lo_at(0).rank() <= i.0.lo_at(0).rank() && i.0.lo_at(0).rank() < p.0.hi_at(0).rank())
}

/// What a one-way scan reports of interval `i` and point `p` when it checks
/// the axes up to `top`.
pub open spec fn one_way_hit<B: BBox, ID: Ordered>(i: (B, ID), p: (B, ID), top: int) -> bool {
    &&& distinct(i, p)
    &&& stabs_first(i, p)
    &&& overlap_on(i.0, p.0, 1, top + 1)
}

/// What a sweep along axis 0 reports of interval `i` and point `p`. With
/// `simulate` it stands for a one-way scan along axis `top`; without, it
/// asks only for an overlap on the axes up to `top`.
pub open spec fn sweep_hit<B: BBox, ID: Ordered>(
    i: (B, ID),
    p: (B, ID),
    top: int,
    simulate: bool,
) -> bool {
    &&& distinct(i, p)
    &&& sweep_meets(i, p)
    &&& if simulate {
        overlap_on(i.0, p.0, 1, top) && stabs_at(i, p, top)
    } else {
        overlap_on(i.0, p.0, 1, top + 1)
    }
}

/// What a simulated one-way scan along axis `top` reports of interval `i`
/// and point `p`.
pub open spec fn simulated_hit<B: BBox, ID: Ordered>(i: (B, ID), p: (B, ID), top: int) -> bool {
    sweep_hit(i, p, top, true)
}

/// What a two-way scan reports of `i` and `p`.
pub open spec fn two_way_hit<B: BBox, ID: Ordered>(i: (B, ID), p: (B, ID)) -> bool {
    sweep_hit(i, p, B::DIM - 1, false)
}

/// On axis `k` the low boundary of `p` lies in the projection of `i`, with
/// the rule for equal low boundaries that belongs to that axis.
pub open spec fn stabs<B: BBox, ID: Ordered>(i: (B, ID), p: (B, ID), k: int) -> bool {
    if k == 0 {
        stabs_first(i, p)
    } else {
        stabs_at(i, p, k)
    }
}

/// What the hybrid algorithm reports of interval `i` and point `p` on axis
/// `top`: they overlap on the axes below, and on axis `top` the low boundary
/// of `p` lies in the projection of `i`.
pub open spec fn hybrid_hit<B: BBox, ID: Ordered>(i: (B, ID), p: (B, ID), top: int) -> bool {
    &&& distinct(i, p)
    &&& overlap_on(i.0, p.0, 0, top)
    &&& stabs(i, p, top)
}

/// Where both sets are sorted and hold proper boxes only, and the points
/// start in the segment from `lo` to `hi` on axis `top`, `w` and `ids` report
/// exactly the pairs that the hybrid algorithm is to report on that axis,
/// each once.
pub open spec fn hybrid_report<B: BBox, ID: Ordered>(
    iv: Seq<(B, ID)>,
    pt: Seq<(B, ID)>,
    top: int,
    lo: B::Num,
    hi: B::Num,
    w: Seq<(int, int)>,
    ids: Seq<(ID, ID)>,
) -> bool where B::Num: HasInfinity {
    ready(iv, pt) && within(pt, top, lo, hi) ==> tally(
        iv,
        pt,
        w,
        ids,
        |x: int, y: int| hybrid_hit(iv[x], pt[y], top),
    )
}

/// The two entries carry different identifiers and their boxes intersect.
pub open spec fn cross_hit<B: BBox, ID: Ordered>(i: (B, ID), p: (B, ID)) -> bool {
    distinct(i, p) && meet(i.0, p.0)
}

/// What a brute force search reports of the positions `x` in `a` and `y` in
/// `b`: the two boxes intersect. Where `a` and `b` are the same set, only the
/// pairs with `x` before `y` are reported.
pub open spec fn brute_force_picks<B: BBox, ID>(
    a: Seq<(B, ID)>,
    b: Seq<(B, ID)>,
    same: bool,
    x: int,
    y: int,
) -> bool {
    meet(a[x].0, b[y].0) && (same ==> x < y)
}

/// What a scan reports of the positions `x` in `a` and `y` in `b`: where `a`
/// and `b` are the same set, what a one-way scan over all axes reports, else
/// what a two-way scan reports.
pub open spec fn scan_picks<B: BBox, ID: Ordered>(
    a: Seq<(B, ID)>,
    b: Seq<(B, ID)>,
    same: bool,
    x: int,
    y: int,
) -> bool {
    if same {
        one_way_hit(a[x], b[y], B::DIM - 1)
    } else {
        two_way_hit(a[x], b[y])
    }
}

/// `recs` is the listing of a brute force search over `a` and `b`, row by row.
pub open spec fn brute_force_listing<B: BBox, ID>(
    a: Seq<(B, ID)>,
    b: Seq<(B, ID)>,
    same: bool,
    recs: Seq<Rec<ID>>,
) -> bool {
    &&& listing(a, b, recs, |x: int, y: int| brute_force_picks(a, b, same, x, y))
    &&& in_rows(recs)
}

/// Where `a` and `b` are sorted, `recs` is the listing of a scan over them.
pub open spec fn scan_listing<B: BBox, ID: Ordered>(
    a: Seq<(B, ID)>,
    b: Seq<(B, ID)>,
    same: bool,
    recs: Seq<Rec<ID>>,
) -> bool {
    ascending(a) && ascending(b) ==> listing(
        a,
        b,
        recs,
        |x: int, y: int| scan_picks(a, b, same, x, y),
    )
}

/// The pairs of positions of `recs`, as a sink of positions is given them.
pub open spec fn spots<ID>(recs: Seq<Rec<ID>>) -> Seq<(usize, usize)> {
    recs.map_values(|r: Rec<ID>| r.0)
}

/// What the streamed segment trees report of the positions `x` in `a` and `y`
/// in `b`: where `a` and `b` are the same set, what one tree reports on the
/// last axis, else every pair of intersecting boxes with different identifiers.
pub open spec fn tree_picks<B: BBox, ID: Ordered>(
    a: Seq<(B, ID)>,
    b: Seq<(B, ID)>,
    same: bool,
    x: int,
    y: int,
) -> bool {
    if same {
        hybrid_hit(a[x], b[y], B::DIM - 1)
    } else {
        cross_hit(a[x], b[y])
    }
}

/// Where both sets are sorted and hold proper boxes only, `w` and `ids`
/// report exactly the pairs that the streamed segment trees are to report,
/// each once.
pub open spec fn tree_report<B: BBox, ID: Ordered>(
    a: Seq<(B, ID)>,
    b: Seq<(B, ID)>,
    same: bool,
    w: Seq<(int, int)>,
    ids: Seq<(ID, ID)>,
) -> bool {
    ready(a, b) ==> tally(
        a,
        b,
        w,
        ids,
        |x: int, y: int| tree_picks(a, b, same, x, y),
    )
}

/// A selection that agrees with another on every pair of positions is
/// enumerated by the same sequence.
pub proof fn lemma_enumerates_alike(
    w: Seq<(int, int)>,
    m: int,
    n: int,
    sel: spec_fn(int, int) -> bool,
    other: spec_fn(int, int) -> bool,
)
    requires
        enumerates(w, m, n, sel),
        forall|x: int, y: int| in_grid(x, y, m, n) ==> #[trigger] sel(x, y) == other(x, y),
    ensures
        enumerates(w, m, n, other),
{
    assert forall|j: int| 0 <= j < w.len() implies in_grid((#[trigger] w[j]).0, w[j].1, m, n)
        && other(w[j].0, w[j].1) by {
        assert(sel(w[j].0, w[j].1));
    }
    assert forall|x: int, y: int| in_grid(x, y, m, n) && #[trigger] other(x, y) implies exists|
        j: int,
    |
        0 <= j < w.len() && #[trigger] w[j] == (x, y) by {
        assert(sel(x, y));
    }
}

/// A listing for one selection is a listing for every selection that agrees with it.
pub proof fn lemma_listing_alike<B, ID>(
    iv: Seq<(B, ID)>,
    pt: Seq<(B, ID)>,
    recs: Seq<Rec<ID>>,
    sel: spec_fn(int, int) -> bool,
    other: spec_fn(int, int) -> bool,
)
    requires
        listing(iv, pt, recs, sel),
        forall|x: int, y: int|
            in_grid(x, y, iv.len() as int, pt.len() as int) ==> #[trigger] sel(x, y) == other(
                x,
                y,
            ),
    ensures
        listing(iv, pt, recs, other),
{
    lemma_enumerates_alike(places(recs), iv.len() as int, pt.len() as int, sel, other);
}

/// A tally for one selection is a tally for every selection that agrees with it.
pub proof fn lemma_tally_alike<B, ID>(
    iv: Seq<(B, ID)>,
    pt: Seq<(B, ID)>,
    w: Seq<(int, int)>,
    ids: Seq<(ID, ID)>,
    sel: spec_fn(int, int) -> bool,
    other: spec_fn(int, int) -> bool,
)
    requires
        tally(iv, pt, w, ids, sel),
        forall|x: int, y: int|
            in_grid(x, y, iv.len() as int, pt.len() as int) ==> #[trigger] sel(x, y) == other(
                x,
                y,
            ),
    ensures
        tally(iv, pt, w, ids, other),
{
    lemma_enumerates_alike(w, iv.len() as int, pt.len() as int, sel, other);
}

/// A sequence of reports that is sound, free of repetitions and complete is a listing.
pub proof fn lemma_listing<B, ID>(
    iv: Seq<(B, ID)>,
    pt: Seq<(B, ID)>,
    recs: Seq<Rec<ID>>,
    sel: spec_fn(int, int) -> bool,
)
    requires
        forall|j: int|
            0 <= j < recs.len() ==> {
                &&& (#[trigger] recs[j]).0.0 < iv.len()
                &&& recs[j].0.1 < pt.len()
                &&& sel(recs[j].0.0 as int, recs[j].0.1 as int)
                &&& recs[j].1 == (iv[recs[j].0.0 as int].1, pt[recs[j].0.1 as int].1)
            },
        forall|j: int, l: int|
            0 <= j < l < recs.len() ==> (#[trigger] recs[j]).0 != (#[trigger] recs[l]).0,
        forall|x: int, y: int|
            0 <= x < iv.len() && 0 <= y < pt.len() && #[trigger] sel(x, y) ==> exists|j: int|
                0 <= j < recs.len() && (#[trigger] recs[j]).0.0 == x && recs[j].0.1 == y,
    ensures
        listing(iv, pt, recs, sel),
{
    let w = places(recs);
    assert forall|x: int, y: int|
        in_grid(x, y, iv.len() as int, pt.len() as int) && #[trigger] sel(x, y) implies exists|
        j: int,
    |
        0 <= j < w.len() && #[trigger] w[j] == (x, y) by {
        let j = choose|j: int|
            0 <= j < recs.len() && (#[trigger] recs[j]).0.0 == x && recs[j].0.1 == y;
        assert(w[j] == (x, y));
    }
    assert forall|j: int, l: int| 0 <= j < l < w.len() implies #[trigger] w[j] != #[trigger] w[l] by {
        assert(recs[j].0 != recs[l].0);
    }
}

/// A listing is a tally of its positions and identifiers.
pub proof fn lemma_listing_tally<B, ID>(
    iv: Seq<(B, ID)>,
    pt: Seq<(B, ID)>,
    recs: Seq<Rec<ID>>,
    sel: spec_fn(int, int) -> bool,
)
    requires
        listing(iv, pt, recs, sel),
    ensures
        tally(iv, pt, places(recs), idents(recs), sel),
{
    let w = places(recs);
    let ids = idents(recs);
    assert forall|j: int| 0 <= j < w.len() implies paired(
        #[trigger] ids[j],
        iv[w[j].0].1,
        pt[w[j].1].1,
    ) by {
        assert(recs[j].1 == (iv[recs[j].0.0 as int].1, pt[recs[j].0.1 as int].1));
    }
}

} // verus!
