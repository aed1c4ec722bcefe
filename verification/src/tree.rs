//! The reasoning behind the streamed segment tree: how the reports of the
//! parts of a node make up the report of the node.
use crate::boxes::{overlap_at, overlap_on, proper, BBox};
use crate::order::Ordered;
use crate::pairs::{
    all_proper, distinct, hybrid_hit, hybrid_report, idents, in_grid, lemma_listing_tally,
    lemma_tally_alike, listing, one_way_hit, paired, places, ready, simulated_hit, stabs,
    sweep_meets, tally, tree_picks, tree_report, within,
};
use crate::set::{ascending, lemma_positions, lemma_positions_split, picked, positions};
use crate::{HasInfinity, Rec};
use vstd::prelude::*;

verus! {

/// The projection of `e` on axis `k` reaches beyond the segment from `lo` to
/// `hi` on both sides.
pub open spec fn spans<B: BBox, ID>(e: (B, ID), k: int, lo: B::Num, hi: B::Num) -> bool {
    e.0.lo_at(k).rank() < lo.rank() && hi.rank() < e.0.hi_at(k).rank()
}

/// How far the points are from being split further on axis `k`, above the
/// low end `lo` of their segment: two where a box of `pt` starts below `lo`,
/// else nought where one starts at `lo`, else one.
pub open spec fn level<B: BBox, ID>(pt: Seq<(B, ID)>, k: int, lo: B::Num) -> nat {
    if exists|y: int| 0 <= y < pt.len() && (#[trigger] pt[y]).0.lo_at(k).rank() < lo.rank() {
        2
    } else if exists|y: int| 0 <= y < pt.len() && (#[trigger] pt[y]).0.lo_at(k).rank() == lo.rank() {
        0
    } else {
        1
    }
}

/// The pairs of `w`, each turned round.
pub open spec fn flipped(w: Seq<(int, int)>) -> Seq<(int, int)> {
    w.map_values(|q: (int, int)| (q.1, q.0))
}

/// The pairs of `w`, their first positions taken through `fx` and their
/// second positions through `fy`.
pub open spec fn carried(w: Seq<(int, int)>, fx: Seq<int>, fy: Seq<int>) -> Seq<(int, int)> {
    w.map_values(|q: (int, int)| (fx[q.0], fy[q.1]))
}

/// The positions from 0 up to `n`, in order.
pub open spec fn count_up(n: nat) -> Seq<int> {
    Seq::new(n, |j: int| j)
}

/// `part` holds the items of `whole` at the positions `f`, which increase.
pub open spec fn embeds<T>(part: Seq<T>, whole: Seq<T>, f: Seq<int>) -> bool {
    &&& f.len() == part.len()
    &&& forall|j: int|
        0 <= j < f.len() ==> 0 <= #[trigger] f[j] < whole.len() && whole[f[j]] == part[j]
    &&& forall|j: int, l: int| 0 <= j < l < f.len() ==> #[trigger] f[j] < #[trigger] f[l]
}

/// The positions of a node's report: what came of the spanning intervals
/// against the points (`w1`), of the points against the spanning intervals
/// (`w2`), and of the other intervals against the points (`w3`). `flags`
/// says which intervals span, and `n` is the number of points.
pub open spec fn node_places(
    flags: Seq<bool>,
    n: nat,
    w1: Seq<(int, int)>,
    w2: Seq<(int, int)>,
    w3: Seq<(int, int)>,
) -> Seq<(int, int)> {
    carried(w1, positions(flags, true), count_up(n)) + carried(
        flipped(w2),
        positions(flags, true),
        count_up(n),
    ) + carried(w3, positions(flags, false), count_up(n))
}

/// The positions of the report of two subtrees: `w3` came of the intervals
/// flagged in `left` against the points flagged in `low`, `w4` of those
/// flagged in `right` against the other points.
pub open spec fn split_places(
    left: Seq<bool>,
    right: Seq<bool>,
    low: Seq<bool>,
    w3: Seq<(int, int)>,
    w4: Seq<(int, int)>,
) -> Seq<(int, int)> {
    carried(w3, positions(left, true), positions(low, true)) + carried(
        w4,
        positions(right, true),
        positions(low, false),
    )
}

/// Two tallies of selections that exclude each other make one of their union.
pub proof fn lemma_tally_join<B, ID>(
    iv: Seq<(B, ID)>,
    pt: Seq<(B, ID)>,
    w1: Seq<(int, int)>,
    ids1: Seq<(ID, ID)>,
    s1: spec_fn(int, int) -> bool,
    w2: Seq<(int, int)>,
    ids2: Seq<(ID, ID)>,
    s2: spec_fn(int, int) -> bool,
    s: spec_fn(int, int) -> bool,
)
    requires
        tally(iv, pt, w1, ids1, s1),
        tally(iv, pt, w2, ids2, s2),
        forall|x: int, y: int|
            in_grid(x, y, iv.len() as int, pt.len() as int) ==> !(#[trigger] s1(x, y)
                && #[trigger] s2(x, y)),
        forall|x: int, y: int|
            in_grid(x, y, iv.len() as int, pt.len() as int) ==> #[trigger] s(x, y) == (s1(x, y)
                || s2(x, y)),
    ensures
        tally(iv, pt, w1 + w2, ids1 + ids2, s),
{
    let w = w1 + w2;
    let ids = ids1 + ids2;
    let m = iv.len() as int;
    let n = pt.len() as int;
    assert forall|j: int| 0 <= j < w.len() implies in_grid((#[trigger] w[j]).0, w[j].1, m, n) && s(
        w[j].0,
        w[j].1,
    ) by {
        if j < w1.len() {
            assert(w[j] == w1[j]);
            assert(s1(w1[j].0, w1[j].1));
        } else {
            assert(w[j] == w2[j - w1.len()]);
            assert(s2(w2[j - w1.len()].0, w2[j - w1.len()].1));
        }
    }
    assert forall|j: int, l: int| 0 <= j < l < w.len() implies #[trigger] w[j] != #[trigger] w[l] by {
        if l < w1.len() {
            assert(w[j] == w1[j] && w[l] == w1[l]);
        } else if j >= w1.len() {
            assert(w[j] == w2[j - w1.len()] && w[l] == w2[l - w1.len()]);
        } else {
            assert(w[j] == w1[j] && w[l] == w2[l - w1.len()]);
            assert(s1(w1[j].0, w1[j].1));
            assert(s2(w2[l - w1.len()].0, w2[l - w1.len()].1));
        }
    }
    assert forall|x: int, y: int| in_grid(x, y, m, n) && #[trigger] s(x, y) implies exists|j: int|
        0 <= j < w.len() && #[trigger] w[j] == (x, y) by {
        if s1(x, y) {
            let j = choose|j: int| 0 <= j < w1.len() && #[trigger] w1[j] == (x, y);
            assert(w[j] == (x, y));
        } else {
            assert(s2(x, y));
            let j = choose|j: int| 0 <= j < w2.len() && #[trigger] w2[j] == (x, y);
            assert(w[j + w1.len()] == (x, y));
        }
    }
    assert forall|j: int| 0 <= j < w.len() implies paired(
        #[trigger] ids[j],
        iv[w[j].0].1,
        pt[w[j].1].1,
    ) by {
        if j < w1.len() {
            assert(w[j] == w1[j] && ids[j] == ids1[j]);
        } else {
            assert(w[j] == w2[j - w1.len()] && ids[j] == ids2[j - w1.len()]);
        }
    }
}

/// A tally with the two sets in each other's place.
pub proof fn lemma_tally_flip<B, ID>(
    iv: Seq<(B, ID)>,
    pt: Seq<(B, ID)>,
    w: Seq<(int, int)>,
    ids: Seq<(ID, ID)>,
    s: spec_fn(int, int) -> bool,
    t: spec_fn(int, int) -> bool,
)
    requires
        tally(iv, pt, w, ids, s),
        forall|x: int, y: int|
            in_grid(x, y, iv.len() as int, pt.len() as int) ==> #[trigger] s(x, y) == t(y, x),
    ensures
        tally(pt, iv, flipped(w), ids, t),
{
    let v = flipped(w);
    assert forall|j: int| 0 <= j < v.len() implies in_grid(
        (#[trigger] v[j]).0,
        v[j].1,
        pt.len() as int,
        iv.len() as int,
    ) && t(v[j].0, v[j].1) by {
        assert(s(w[j].0, w[j].1));
    }
    assert forall|j: int, l: int| 0 <= j < l < v.len() implies #[trigger] v[j] != #[trigger] v[l] by {
        assert(w[j] != w[l]);
    }
    assert forall|y: int, x: int|
        in_grid(y, x, pt.len() as int, iv.len() as int) && #[trigger] t(y, x) implies exists|
        j: int,
    |
        0 <= j < v.len() && #[trigger] v[j] == (y, x) by {
        assert(s(x, y));
        let j = choose|j: int| 0 <= j < w.len() && #[trigger] w[j] == (x, y);
        assert(v[j] == (y, x));
    }
    assert forall|j: int| 0 <= j < v.len() implies paired(
        #[trigger] ids[j],
        pt[v[j].0].1,
        iv[v[j].1].1,
    ) by {
        assert(paired(ids[j], iv[w[j].0].1, pt[w[j].1].1));
    }
}

/// A tally over parts of two sets is one over the sets themselves, of the
/// selection that holds at the parts' positions what the first held.
pub proof fn lemma_tally_carry<B, ID>(
    part_iv: Seq<(B, ID)>,
    part_pt: Seq<(B, ID)>,
    w: Seq<(int, int)>,
    ids: Seq<(ID, ID)>,
    s: spec_fn(int, int) -> bool,
    iv: Seq<(B, ID)>,
    pt: Seq<(B, ID)>,
    fx: Seq<int>,
    fy: Seq<int>,
    t: spec_fn(int, int) -> bool,
)
    requires
        tally(part_iv, part_pt, w, ids, s),
        embeds(part_iv, iv, fx),
        embeds(part_pt, pt, fy),
        forall|x: int, y: int|
            in_grid(x, y, part_iv.len() as int, part_pt.len() as int) ==> #[trigger] s(x, y) == t(
                fx[x],
                fy[y],
            ),
        forall|x: int, y: int|
            in_grid(x, y, iv.len() as int, pt.len() as int) && #[trigger] t(x, y) ==> fx.contains(
                x,
            ) && fy.contains(y),
    ensures
        tally(iv, pt, carried(w, fx, fy), ids, t),
{
    let v = carried(w, fx, fy);
    let m = iv.len() as int;
    let n = pt.len() as int;
    assert forall|j: int| 0 <= j < v.len() implies in_grid((#[trigger] v[j]).0, v[j].1, m, n) && t(
        v[j].0,
        v[j].1,
    ) by {
        assert(s(w[j].0, w[j].1));
    }
    assert forall|j: int, l: int| 0 <= j < l < v.len() implies #[trigger] v[j] != #[trigger] v[l] by {
        assert(w[j] != w[l]);
        assert(s(w[j].0, w[j].1) && s(w[l].0, w[l].1));
        if v[j] == v[l] {
            let a = w[j].0;
            let b = w[l].0;
            assert(fx[a] == fx[b]);
            if a < b {
                assert(fx[a] < fx[b]);
            } else if b < a {
                assert(fx[b] < fx[a]);
            }
            let c = w[j].1;
            let d = w[l].1;
            assert(fy[c] == fy[d]);
            if c < d {
                assert(fy[c] < fy[d]);
            } else if d < c {
                assert(fy[d] < fy[c]);
            }
            assert(false);
        }
    }
    assert forall|x: int, y: int| in_grid(x, y, m, n) && #[trigger] t(x, y) implies exists|j: int|
        0 <= j < v.len() && #[trigger] v[j] == (x, y) by {
        let a = choose|a: int| 0 <= a < fx.len() && fx[a] == x;
        let b = choose|b: int| 0 <= b < fy.len() && fy[b] == y;
        assert(s(a, b));
        let j = choose|j: int| 0 <= j < w.len() && #[trigger] w[j] == (a, b);
        assert(v[j] == (x, y));
    }
    assert forall|j: int| 0 <= j < v.len() implies paired(
        #[trigger] ids[j],
        iv[v[j].0].1,
        pt[v[j].1].1,
    ) by {
        assert(s(w[j].0, w[j].1));
        assert(paired(ids[j], part_iv[w[j].0].1, part_pt[w[j].1].1));
    }
}

/// What is picked from a sequence lies in it at the picked positions.
pub proof fn lemma_picked_embeds<T>(s: Seq<T>, flags: Seq<bool>, want: bool)
    requires
        flags.len() == s.len(),
    ensures
        embeds(picked(s, flags, want), s, positions(flags, want)),
        forall|j: int|
            0 <= j < positions(flags, want).len() ==> flags[#[trigger] positions(flags, want)[j]]
                == want,
        forall|x: int|
            0 <= x < flags.len() && #[trigger] flags[x] == want ==> positions(
                flags,
                want,
            ).contains(x),
{
    lemma_positions(flags, want);
}

/// A sequence lies in itself at the positions counted up.
pub proof fn lemma_whole_embeds<T>(s: Seq<T>)
    ensures
        embeds(s, s, count_up(s.len())),
        forall|y: int| 0 <= y < s.len() ==> count_up(s.len()).contains(y),
{
    let f = count_up(s.len());
    assert forall|y: int| 0 <= y < s.len() implies f.contains(y) by {
        assert(f[y] == y);
    }
}

/// A part of an ascending sequence ascends.
pub proof fn lemma_part_ascends<B: BBox, ID>(part: Seq<(B, ID)>, whole: Seq<(B, ID)>, f: Seq<int>)
    requires
        embeds(part, whole, f),
        ascending(whole),
    ensures
        ascending(part),
{
    assert forall|x: int, y: int| 0 <= x <= y < part.len() implies (#[trigger] part[x]).0.lo_at(
        0,
    ).rank() <= (#[trigger] part[y]).0.lo_at(0).rank() by {
        if x < y {
            assert(f[x] < f[y]);
        }
        assert(whole[f[x]] == part[x] && whole[f[y]] == part[y]);
    }
}

/// The boxes of a part of a set of proper boxes are proper.
pub proof fn lemma_part_proper<B: BBox, ID>(part: Seq<(B, ID)>, whole: Seq<(B, ID)>, f: Seq<int>)
    requires
        embeds(part, whole, f),
        all_proper(whole),
    ensures
        all_proper(part),
{
    assert forall|x: int| 0 <= x < part.len() implies proper((#[trigger] part[x]).0) by {
        assert(whole[f[x]] == part[x]);
    }
}

/// Every box starts between the two infinities.
pub proof fn lemma_within_all<B: BBox, ID>(pt: Seq<(B, ID)>, k: int) where B::Num: HasInfinity
    ensures
        within(pt, k, B::Num::NINFTY, B::Num::INFTY),
{
    assert forall|y: int| 0 <= y < pt.len() implies B::Num::NINFTY.rank() <= (#[trigger] pt[y]).0.lo_at(
        k,
    ).rank() && (pt[y].0.lo_at(k).rank() < B::Num::INFTY.rank() || B::Num::INFTY.rank()
        == B::Num::INFTY.rank()) by {
        B::Num::bounds(pt[y].0.lo_at(k));
    }
}

/// Overlap does not depend on the order in which the two boxes are named.
pub proof fn lemma_overlap_flip<B: BBox>(a: B, b: B, from: int, to: int)
    ensures
        overlap_on(a, b, from, to) == overlap_on(b, a, from, to),
{
    if overlap_on(a, b, from, to) {
        assert forall|k: int| from <= k < to implies overlap_at(b, a, k) by {
            assert(overlap_at(a, b, k));
        }
    }
    if overlap_on(b, a, from, to) {
        assert forall|k: int| from <= k < to implies overlap_at(a, b, k) by {
            assert(overlap_at(b, a, k));
        }
    }
}

/// Two proper boxes with different identifiers overlap on an axis exactly
/// where one of them starts inside the other, and then only one does.
pub proof fn lemma_stabs_either<B: BBox, ID: Ordered>(i: (B, ID), p: (B, ID), k: int)
    requires
        0 <= k < B::DIM,
        proper(i.0),
        proper(p.0),
        distinct(i, p),
    ensures
        (stabs(i, p, k) || stabs(p, i, k)) == overlap_at(i.0, p.0, k),
        !(stabs(i, p, k) && stabs(p, i, k)),
{
}

/// For two proper boxes with different identifiers, the hybrid algorithm is
/// to report on axis `k - 1`, of one as interval or of the other, exactly
/// where they overlap on all axes below `k`; and never of both.
pub proof fn lemma_hit_either<B: BBox, ID: Ordered>(i: (B, ID), p: (B, ID), k: int)
    requires
        1 <= k <= B::DIM,
        proper(i.0),
        proper(p.0),
    ensures
        (hybrid_hit(i, p, k - 1) || hybrid_hit(p, i, k - 1)) == (distinct(i, p) && overlap_on(
            i.0,
            p.0,
            0,
            k,
        )),
        !(hybrid_hit(i, p, k - 1) && hybrid_hit(p, i, k - 1)),
{
    lemma_overlap_flip(i.0, p.0, 0, k - 1);
    if distinct(i, p) {
        lemma_stabs_either(i, p, k - 1);
        if overlap_on(i.0, p.0, 0, k) {
            assert(overlap_at(i.0, p.0, k - 1));
            assert forall|d: int| 0 <= d < k - 1 implies overlap_at(i.0, p.0, d) by {
            }
        }
        if overlap_on(i.0, p.0, 0, k - 1) && overlap_at(i.0, p.0, k - 1) {
            assert forall|d: int| 0 <= d < k implies overlap_at(i.0, p.0, d) by {
            }
        }
    }
}

/// On proper boxes a sweep along axis 0 meets exactly the overlaps on that axis.
pub proof fn lemma_sweep_overlap<B: BBox, ID>(i: (B, ID), p: (B, ID))
    requires
        0 < B::DIM,
        proper(i.0),
        proper(p.0),
    ensures
        sweep_meets(i, p) == overlap_at(i.0, p.0, 0),
{
}

/// On proper boxes a simulated one-way scan along an axis above the first
/// reports what the hybrid algorithm is to report on that axis.
pub proof fn lemma_simulated_hit<B: BBox, ID: Ordered>(i: (B, ID), p: (B, ID), k: int)
    requires
        1 <= k < B::DIM,
        proper(i.0),
        proper(p.0),
    ensures
        simulated_hit(i, p, k) == hybrid_hit(i, p, k),
{
    lemma_sweep_overlap(i, p);
    if overlap_on(i.0, p.0, 0, k) {
        assert(overlap_at(i.0, p.0, 0));
        assert forall|d: int| 1 <= d < k implies overlap_at(i.0, p.0, d) by {
        }
    }
    if overlap_at(i.0, p.0, 0) && overlap_on(i.0, p.0, 1, k) {
        assert forall|d: int| 0 <= d < k implies overlap_at(i.0, p.0, d) by {
        }
    }
}

/// The listing of a one-way scan that checks axis 0 alone is the report of
/// the hybrid algorithm on axis 0.
pub proof fn lemma_one_way_report<B: BBox, ID: Ordered>(
    iv: Seq<(B, ID)>,
    pt: Seq<(B, ID)>,
    k: int,
    lo: B::Num,
    hi: B::Num,
    recs: Seq<Rec<ID>>,
) where B::Num: HasInfinity
    requires
        k == 0,
        ascending(iv) && ascending(pt) ==> listing(
            iv,
            pt,
            recs,
            |x: int, y: int| one_way_hit(iv[x], pt[y], k),
        ),
    ensures
        hybrid_report(iv, pt, k, lo, hi, places(recs), idents(recs)),
{
    if ready(iv, pt) {
        let s = |x: int, y: int| one_way_hit(iv[x], pt[y], k);
        let t = |x: int, y: int| hybrid_hit(iv[x], pt[y], k);
        lemma_listing_tally(iv, pt, recs, s);
        lemma_tally_alike(iv, pt, places(recs), idents(recs), s, t);
    }
}

/// The listing of a simulated one-way scan along an axis above the first is
/// the report of the hybrid algorithm on that axis.
pub proof fn lemma_simulated_report<B: BBox, ID: Ordered>(
    iv: Seq<(B, ID)>,
    pt: Seq<(B, ID)>,
    k: int,
    lo: B::Num,
    hi: B::Num,
    recs: Seq<Rec<ID>>,
) where B::Num: HasInfinity
    requires
        1 <= k < B::DIM,
        ascending(iv) && ascending(pt) ==> listing(
            iv,
            pt,
            recs,
            |x: int, y: int| simulated_hit(iv[x], pt[y], k),
        ),
    ensures
        hybrid_report(iv, pt, k, lo, hi, places(recs), idents(recs)),
{
    if ready(iv, pt) {
        let s = |x: int, y: int| simulated_hit(iv[x], pt[y], k);
        let t = |x: int, y: int| hybrid_hit(iv[x], pt[y], k);
        lemma_listing_tally(iv, pt, recs, s);
        assert forall|x: int, y: int|
            in_grid(x, y, iv.len() as int, pt.len() as int) implies #[trigger] s(x, y) == t(
            x,
            y,
        ) by {
            lemma_simulated_hit(iv[x], pt[y], k);
        }
        lemma_tally_alike(iv, pt, places(recs), idents(recs), s, t);
    }
}

/// No report is the report where there is no interval, no point, or no
/// room in the segment.
pub proof fn lemma_empty_report<B: BBox, ID: Ordered>(
    iv: Seq<(B, ID)>,
    pt: Seq<(B, ID)>,
    k: int,
    lo: B::Num,
    hi: B::Num,
) where B::Num: HasInfinity
    requires
        0 <= k < B::DIM,
        iv.len() == 0 || pt.len() == 0 || hi.rank() <= lo.rank(),
    ensures
        hybrid_report(iv, pt, k, lo, hi, Seq::empty(), Seq::empty()),
{
    if ready(iv, pt) && within(pt, k, lo, hi) {
        if iv.len() > 0 && pt.len() > 0 {
            B::Num::bounds(pt[0].0.hi_at(k));
            assert(proper(pt[0].0));
            assert(false);
        }
    }
}

/// The report of a node, made up of the reports of its parts.
pub proof fn lemma_node<B: BBox, ID: Ordered>(
    iv: Seq<(B, ID)>,
    pt: Seq<(B, ID)>,
    k: int,
    lo: B::Num,
    hi: B::Num,
    flags: Seq<bool>,
    w1: Seq<(int, int)>,
    ids1: Seq<(ID, ID)>,
    w2: Seq<(int, int)>,
    ids2: Seq<(ID, ID)>,
    w3: Seq<(int, int)>,
    ids3: Seq<(ID, ID)>,
) where B::Num: HasInfinity
    requires
        1 <= k < B::DIM,
        flags.len() == iv.len(),
        forall|x: int| 0 <= x < iv.len() ==> #[trigger] flags[x] == spans(iv[x], k, lo, hi),
        hybrid_report(
            picked(iv, flags, true),
            pt,
            k - 1,
            B::Num::NINFTY,
            B::Num::INFTY,
            w1,
            ids1,
        ),
        hybrid_report(
            pt,
            picked(iv, flags, true),
            k - 1,
            B::Num::NINFTY,
            B::Num::INFTY,
            w2,
            ids2,
        ),
        hybrid_report(picked(iv, flags, false), pt, k, lo, hi, w3, ids3),
    ensures
        hybrid_report(
            iv,
            pt,
            k,
            lo,
            hi,
            node_places(flags, pt.len(), w1, w2, w3),
            ids1 + ids2 + ids3,
        ),
{
    if ready(iv, pt) && within(pt, k, lo, hi) {
        lemma_picked_ascends(iv, flags, true);
        lemma_picked_ascends(iv, flags, false);
        lemma_within_all(pt, k - 1);
        lemma_within_all(picked(iv, flags, true), k - 1);
        let im = picked(iv, flags, true);
        let ilr = picked(iv, flags, false);
        let fm = positions(flags, true);
        let flr = positions(flags, false);
        let idn = count_up(pt.len());
        lemma_picked_embeds(iv, flags, true);
        lemma_picked_embeds(iv, flags, false);
        lemma_whole_embeds(pt);
        lemma_part_proper(im, iv, fm);
        lemma_part_proper(ilr, iv, flr);

        let s1 = |x: int, y: int| hybrid_hit(im[x], pt[y], k - 1);
        let t1 = |x: int, y: int| flags[x] && hybrid_hit(iv[x], pt[y], k - 1);
        assert forall|x: int, y: int|
            in_grid(x, y, im.len() as int, pt.len() as int) implies #[trigger] s1(x, y) == t1(
            fm[x],
            idn[y],
        ) by {
            assert(iv[fm[x]] == im[x]);
        }
        lemma_tally_carry(im, pt, w1, ids1, s1, iv, pt, fm, idn, t1);

        let s2 = |y: int, x: int| hybrid_hit(pt[y], im[x], k - 1);
        let r2 = |x: int, y: int| hybrid_hit(pt[y], im[x], k - 1);
        let t2 = |x: int, y: int| flags[x] && hybrid_hit(pt[y], iv[x], k - 1);
        lemma_tally_flip(pt, im, w2, ids2, s2, r2);
        assert forall|x: int, y: int|
            in_grid(x, y, im.len() as int, pt.len() as int) implies #[trigger] r2(x, y) == t2(
            fm[x],
            idn[y],
        ) by {
            assert(iv[fm[x]] == im[x]);
        }
        lemma_tally_carry(im, pt, flipped(w2), ids2, r2, iv, pt, fm, idn, t2);

        let t12 = |x: int, y: int| flags[x] && hybrid_hit(iv[x], pt[y], k);
        assert forall|x: int, y: int|
            in_grid(x, y, iv.len() as int, pt.len() as int) implies !(#[trigger] t1(x, y)
            && #[trigger] t2(x, y)) by {
            lemma_hit_either(iv[x], pt[y], k);
        }
        assert forall|x: int, y: int|
            in_grid(x, y, iv.len() as int, pt.len() as int) implies #[trigger] t12(x, y) == (t1(
            x,
            y,
        ) || t2(x, y)) by {
            lemma_hit_either(iv[x], pt[y], k);
            if flags[x] {
                B::Num::bounds(iv[x].0.hi_at(k));
                assert(proper(iv[x].0) && proper(pt[y].0));
            }
        }
        lemma_tally_join(
            iv,
            pt,
            carried(w1, fm, idn),
            ids1,
            t1,
            carried(flipped(w2), fm, idn),
            ids2,
            t2,
            t12,
        );

        let s3 = |x: int, y: int| hybrid_hit(ilr[x], pt[y], k);
        let t3 = |x: int, y: int| !flags[x] && hybrid_hit(iv[x], pt[y], k);
        assert forall|x: int, y: int|
            in_grid(x, y, ilr.len() as int, pt.len() as int) implies #[trigger] s3(x, y) == t3(
            flr[x],
            idn[y],
        ) by {
            assert(iv[flr[x]] == ilr[x]);
        }
        lemma_tally_carry(ilr, pt, w3, ids3, s3, iv, pt, flr, idn, t3);

        let t = |x: int, y: int| hybrid_hit(iv[x], pt[y], k);
        lemma_tally_join(
            iv,
            pt,
            carried(w1, fm, idn) + carried(flipped(w2), fm, idn),
            ids1 + ids2,
            t12,
            carried(w3, flr, idn),
            ids3,
            t3,
            t,
        );
    }
}

/// The report of the intervals that do not span the segment, made up of the
/// reports of the two subtrees.
pub proof fn lemma_split<B: BBox, ID: Ordered>(
    iv: Seq<(B, ID)>,
    pt: Seq<(B, ID)>,
    k: int,
    lo: B::Num,
    hi: B::Num,
    mi: B::Num,
    left: Seq<bool>,
    right: Seq<bool>,
    low: Seq<bool>,
    w3: Seq<(int, int)>,
    ids3: Seq<(ID, ID)>,
    w4: Seq<(int, int)>,
    ids4: Seq<(ID, ID)>,
) where B::Num: HasInfinity
    requires
        0 <= k < B::DIM,
        left.len() == iv.len(),
        right.len() == iv.len(),
        low.len() == pt.len(),
        forall|x: int|
            0 <= x < iv.len() ==> #[trigger] left[x] == (iv[x].0.lo_at(k).rank() < mi.rank()),
        forall|x: int|
            0 <= x < iv.len() ==> #[trigger] right[x] == (mi.rank() < iv[x].0.hi_at(k).rank()),
        forall|y: int|
            0 <= y < pt.len() ==> #[trigger] low[y] == (pt[y].0.lo_at(k).rank() < mi.rank()),
        hybrid_report(picked(iv, left, true), picked(pt, low, true), k, lo, mi, w3, ids3),
        hybrid_report(picked(iv, right, true), picked(pt, low, false), k, mi, hi, w4, ids4),
    ensures
        hybrid_report(iv, pt, k, lo, hi, split_places(left, right, low, w3, w4), ids3 + ids4),
{
    if ready(iv, pt) && within(pt, k, lo, hi) {
        lemma_split_within(pt, k, lo, hi, mi, low);
        lemma_picked_ascends(iv, left, true);
        lemma_picked_ascends(iv, right, true);
        lemma_picked_ascends(pt, low, true);
        lemma_picked_ascends(pt, low, false);
        let il = picked(iv, left, true);
        let ir = picked(iv, right, true);
        let pl = picked(pt, low, true);
        let pr = picked(pt, low, false);
        let fl = positions(left, true);
        let fr = positions(right, true);
        let gl = positions(low, true);
        let gr = positions(low, false);
        lemma_picked_embeds(iv, left, true);
        lemma_picked_embeds(iv, right, true);
        lemma_picked_embeds(pt, low, true);
        lemma_picked_embeds(pt, low, false);
        lemma_part_proper(il, iv, fl);
        lemma_part_proper(ir, iv, fr);
        lemma_part_proper(pl, pt, gl);
        lemma_part_proper(pr, pt, gr);

        let s3 = |x: int, y: int| hybrid_hit(il[x], pl[y], k);
        let t3 = |x: int, y: int| left[x] && low[y] && hybrid_hit(iv[x], pt[y], k);
        assert forall|x: int, y: int|
            in_grid(x, y, il.len() as int, pl.len() as int) implies #[trigger] s3(x, y) == t3(
            fl[x],
            gl[y],
        ) by {
            assert(iv[fl[x]] == il[x]);
            assert(pt[gl[y]] == pl[y]);
        }
        lemma_tally_carry(il, pl, w3, ids3, s3, iv, pt, fl, gl, t3);

        let s4 = |x: int, y: int| hybrid_hit(ir[x], pr[y], k);
        let t4 = |x: int, y: int| right[x] && !low[y] && hybrid_hit(iv[x], pt[y], k);
        assert forall|x: int, y: int|
            in_grid(x, y, ir.len() as int, pr.len() as int) implies #[trigger] s4(x, y) == t4(
            fr[x],
            gr[y],
        ) by {
            assert(iv[fr[x]] == ir[x]);
            assert(pt[gr[y]] == pr[y]);
        }
        lemma_tally_carry(ir, pr, w4, ids4, s4, iv, pt, fr, gr, t4);

        let t = |x: int, y: int| hybrid_hit(iv[x], pt[y], k);
        lemma_tally_join(
            iv,
            pt,
            carried(w3, fl, gl),
            ids3,
            t3,
            carried(w4, fr, gr),
            ids4,
            t4,
            t,
        );
    }
}

/// One tree over a set and itself reports what is asked of a set beside itself.
pub proof fn lemma_one_tree<B: BBox, ID: Ordered>(
    a: Seq<(B, ID)>,
    w: Seq<(int, int)>,
    ids: Seq<(ID, ID)>,
) where B::Num: HasInfinity
    requires
        0 < B::DIM,
        hybrid_report(a, a, B::DIM - 1, B::Num::NINFTY, B::Num::INFTY, w, ids),
    ensures
        tree_report(a, a, true, w, ids),
{
    if ready(a, a) {
        lemma_within_all(a, B::DIM - 1);
        lemma_tally_alike(
            a,
            a,
            w,
            ids,
            |x: int, y: int| hybrid_hit(a[x], a[y], B::DIM - 1),
            |x: int, y: int| tree_picks(a, a, true, x, y),
        );
    }
}

/// Two trees over two sets, each set once in the place of the intervals,
/// report every pair of intersecting boxes with different identifiers.
pub proof fn lemma_two_trees<B: BBox, ID: Ordered>(
    a: Seq<(B, ID)>,
    b: Seq<(B, ID)>,
    w1: Seq<(int, int)>,
    ids1: Seq<(ID, ID)>,
    w2: Seq<(int, int)>,
    ids2: Seq<(ID, ID)>,
) where B::Num: HasInfinity
    requires
        0 < B::DIM,
        hybrid_report(a, b, B::DIM - 1, B::Num::NINFTY, B::Num::INFTY, w1, ids1),
        hybrid_report(b, a, B::DIM - 1, B::Num::NINFTY, B::Num::INFTY, w2, ids2),
    ensures
        tree_report(a, b, false, w1 + flipped(w2), ids1 + ids2),
{
    if ready(a, b) {
        let k = B::DIM - 1;
        lemma_within_all(a, k);
        lemma_within_all(b, k);
        let t1 = |x: int, y: int| hybrid_hit(a[x], b[y], k);
        let s2 = |y: int, x: int| hybrid_hit(b[y], a[x], k);
        let t2 = |x: int, y: int| hybrid_hit(b[y], a[x], k);
        let t = |x: int, y: int| tree_picks(a, b, false, x, y);
        lemma_tally_flip(b, a, w2, ids2, s2, t2);
        assert forall|x: int, y: int|
            in_grid(x, y, a.len() as int, b.len() as int) implies !(#[trigger] t1(x, y)
            && #[trigger] t2(x, y)) by {
            lemma_hit_either(a[x], b[y], B::DIM as int);
        }
        assert forall|x: int, y: int|
            in_grid(x, y, a.len() as int, b.len() as int) implies #[trigger] t(x, y) == (t1(x, y)
            || t2(x, y)) by {
            lemma_hit_either(a[x], b[y], B::DIM as int);
        }
        lemma_tally_join(a, b, w1, ids1, t1, flipped(w2), ids2, t2, t);
    }
}

/// The two parts of the points, split at `mi`, start in the two parts of the segment.
pub proof fn lemma_split_within<B: BBox, ID>(
    pt: Seq<(B, ID)>,
    k: int,
    lo: B::Num,
    hi: B::Num,
    mi: B::Num,
    low: Seq<bool>,
) where B::Num: HasInfinity
    requires
        within(pt, k, lo, hi),
        low.len() == pt.len(),
        forall|y: int|
            0 <= y < pt.len() ==> #[trigger] low[y] == (pt[y].0.lo_at(k).rank() < mi.rank()),
    ensures
        within(picked(pt, low, true), k, lo, mi),
        within(picked(pt, low, false), k, mi, hi),
{
    let pl = picked(pt, low, true);
    let pr = picked(pt, low, false);
    let gl = positions(low, true);
    let gr = positions(low, false);
    lemma_picked_embeds(pt, low, true);
    lemma_picked_embeds(pt, low, false);
    assert forall|y: int| 0 <= y < pl.len() implies lo.rank() <= (#[trigger] pl[y]).0.lo_at(
        k,
    ).rank() && (pl[y].0.lo_at(k).rank() < mi.rank() || mi.rank() == B::Num::INFTY.rank()) by {
        assert(pt[gl[y]] == pl[y]);
        assert(low[gl[y]]);
    }
    assert forall|y: int| 0 <= y < pr.len() implies mi.rank() <= (#[trigger] pr[y]).0.lo_at(
        k,
    ).rank() && (pr[y].0.lo_at(k).rank() < hi.rank() || hi.rank() == B::Num::INFTY.rank()) by {
        assert(pt[gr[y]] == pr[y]);
        assert(!low[gr[y]]);
    }
}

/// What is picked from an ascending sequence ascends.
pub proof fn lemma_picked_ascends<B: BBox, ID>(s: Seq<(B, ID)>, flags: Seq<bool>, want: bool)
    requires
        flags.len() == s.len(),
        ascending(s),
    ensures
        ascending(picked(s, flags, want)),
{
    lemma_picked_embeds(s, flags, want);
    lemma_part_ascends(picked(s, flags, want), s, positions(flags, want));
}

/// Splitting the points at the low boundary of one of them, which is not
/// the low end of the segment, leaves both subtrees less to do.
pub proof fn lemma_split_shrinks<B: BBox, ID>(
    pt: Seq<(B, ID)>,
    k: int,
    lo: B::Num,
    mi: B::Num,
    low: Seq<bool>,
    at: int,
)
    requires
        low.len() == pt.len(),
        forall|y: int|
            0 <= y < pt.len() ==> #[trigger] low[y] == (pt[y].0.lo_at(k).rank() < mi.rank()),
        0 <= at < pt.len(),
        pt[at].0.lo_at(k).rank() == mi.rank(),
        lo.rank() != mi.rank(),
    ensures
        picked(pt, low, true).len() < pt.len(),
        picked(pt, low, false).len() <= pt.len(),
        picked(pt, low, false).len() == pt.len() ==> level(picked(pt, low, false), k, mi) < level(
            pt,
            k,
            lo,
        ),
{
    let pr = picked(pt, low, false);
    let gr = positions(low, false);
    lemma_positions_split(low);
    lemma_picked_embeds(pt, low, true);
    lemma_picked_embeds(pt, low, false);
    assert(low[at] == false);
    assert(gr.contains(at));
    let j = choose|j: int| 0 <= j < gr.len() && gr[j] == at;
    assert(pr[j] == pt[at]);
    assert forall|y: int| 0 <= y < pr.len() implies !((#[trigger] pr[y]).0.lo_at(k).rank()
        < mi.rank()) by {
        assert(pt[gr[y]] == pr[y]);
        assert(!low[gr[y]]);
    }
    assert(level(pr, k, mi) == 0);
    if pr.len() == pt.len() {
        assert(positions(low, true).len() == 0);
        assert forall|y: int| 0 <= y < pt.len() implies mi.rank() <= (#[trigger] pt[y]).0.lo_at(
            k,
        ).rank() by {
            if low[y] {
                assert(positions(low, true).contains(y));
            }
        }
        if level(pt, k, lo) == 0 {
            let y0 = choose|y: int|
                0 <= y < pt.len() && (#[trigger] pt[y]).0.lo_at(k).rank() == lo.rank();
            assert(mi.rank() <= pt[y0].0.lo_at(k).rank());
            assert(!(pt[at].0.lo_at(k).rank() < lo.rank()));
            assert(false);
        }
    }
}

} // verus!
