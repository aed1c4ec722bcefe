//! What holds of the reports of the algorithms, whatever the boxes.
//!
//! The laws speak of sets of boxes whose identifiers are unique and whose
//! boxes are proper. They compare reports by the pairs of identifiers in
//! them, each pair taken in both orders.
use crate::boxes::{meet, overlap_at, proper, BBox};
use crate::order::Ordered;
use crate::set::ascending;
use crate::pairs::{
    all_proper, brute_force_listing, brute_force_picks, distinct, enumerates, idents, in_grid,
    lemma_enumerates_alike, lemma_listing_alike, lemma_listing_tally, lemma_tally_alike, listing, no_self_pair, paired,
    places,
    scan_listing, scan_picks, simulated_hit, stabs_at, tally, tree_picks, tree_report,
};
use crate::tree::{lemma_hit_either, lemma_overlap_flip, lemma_stabs_either, lemma_sweep_overlap};
use crate::Rec;
use vstd::prelude::*;

verus! {

/// No two entries of `a` carry the same identifier.
pub open spec fn unique_ids<B, ID: Ordered>(a: Seq<(B, ID)>) -> bool {
    forall|x: int, y: int|
        0 <= x < a.len() && 0 <= y < a.len() && x != y ==> distinct(#[trigger] a[x], #[trigger] a[y])
}

/// No entry of `a` carries the identifier of an entry of `b`.
pub open spec fn apart<B, ID: Ordered>(a: Seq<(B, ID)>, b: Seq<(B, ID)>) -> bool {
    forall|x: int, y: int|
        0 <= x < a.len() && 0 <= y < b.len() ==> distinct(#[trigger] a[x], #[trigger] b[y])
}

/// The ranks of a pair of identifiers.
pub open spec fn rank_pair<ID: Ordered>(e: (ID, ID)) -> (int, int) {
    (e.0.rank(), e.1.rank())
}

/// The entries at `x` and `y` carry different identifiers and their boxes
/// intersect.
pub open spec fn meets_at<B: BBox, ID: Ordered>(a: Seq<(B, ID)>, x: int, y: int) -> bool {
    0 <= x < a.len() && 0 <= y < a.len() && distinct(a[x], a[y]) && meet(a[x].0, a[y].0)
}

/// The pairs of identifiers of `a` whose boxes intersect, each in both orders.
pub open spec fn meeting_ids<B: BBox, ID: Ordered>(a: Seq<(B, ID)>) -> Set<(int, int)> {
    Set::new(
        |q: (int, int)|
            exists|x: int, y: int| #[trigger]
                meets_at(a, x, y) && q == (a[x].1.rank(), a[y].1.rank()),
    )
}

/// The pairs of identifiers in `ids`, each in both orders.
pub open spec fn reported_ids<ID: Ordered>(ids: Seq<(ID, ID)>) -> Set<(int, int)> {
    Set::new(
        |q: (int, int)|
            exists|j: int|
                0 <= j < ids.len() && (q == rank_pair(#[trigger] ids[j]) || q == rank_pair(
                    (ids[j].1, ids[j].0),
                )),
    )
}

/// No two pairs of `ids` hold the same two identifiers, in whichever order.
pub open spec fn no_pair_twice<ID: Ordered>(ids: Seq<(ID, ID)>) -> bool {
    forall|j: int, l: int|
        0 <= j < l < ids.len() ==> rank_pair(#[trigger] ids[j]) != rank_pair(#[trigger] ids[l])
            && rank_pair(ids[j]) != rank_pair((ids[l].1, ids[l].0))
}

/// The pairs of `w`, each with its lesser position first.
pub open spec fn lesser_first(w: Seq<(int, int)>) -> Seq<(int, int)> {
    w.map_values(
        |q: (int, int)|
            if q.0 <= q.1 {
                q
            } else {
                (q.1, q.0)
            },
    )
}

/// `w` holds every two positions of `a` that meet once, in one order or the
/// other, and nothing else.
pub open spec fn each_once<B: BBox, ID: Ordered>(a: Seq<(B, ID)>, w: Seq<(int, int)>) -> bool {
    enumerates(
        lesser_first(w),
        a.len() as int,
        a.len() as int,
        |x: int, y: int| x < y && meets_at(a, x, y),
    )
}

/// A report over one set that selects only pairs that meet, every pair that
/// meets in one of its two orders and none in both, holds every two
/// positions that meet once.
pub proof fn lemma_each_once<B: BBox, ID: Ordered>(
    a: Seq<(B, ID)>,
    w: Seq<(int, int)>,
    ids: Seq<(ID, ID)>,
    sel: spec_fn(int, int) -> bool,
)
    requires
        tally(a, a, w, ids, sel),
        forall|x: int, y: int|
            in_grid(x, y, a.len() as int, a.len() as int) && #[trigger] sel(x, y) ==> meets_at(
                a,
                x,
                y,
            ) && !sel(y, x),
        forall|x: int, y: int| #[trigger] meets_at(a, x, y) ==> sel(x, y) || sel(y, x),
    ensures
        each_once(a, w),
{
    let v = lesser_first(w);
    let n = a.len() as int;
    let up = |x: int, y: int| x < y && meets_at(a, x, y);
    assert forall|j: int| 0 <= j < v.len() implies in_grid((#[trigger] v[j]).0, v[j].1, n, n) && up(
        v[j].0,
        v[j].1,
    ) by {
        assert(sel(w[j].0, w[j].1));
        lemma_overlap_flip(a[w[j].0].0, a[w[j].1].0, 0, B::DIM as int);
    }
    assert forall|j: int, l: int| 0 <= j < l < v.len() implies #[trigger] v[j] != #[trigger] v[l] by {
        assert(w[j] != w[l]);
        assert(sel(w[j].0, w[j].1) && sel(w[l].0, w[l].1));
    }
    assert forall|x: int, y: int| in_grid(x, y, n, n) && #[trigger] up(x, y) implies exists|j: int|
        0 <= j < v.len() && #[trigger] v[j] == (x, y) by {
        if sel(x, y) {
            let j = choose|j: int| 0 <= j < w.len() && #[trigger] w[j] == (x, y);
            assert(v[j] == (x, y));
        } else {
            assert(sel(y, x));
            let j = choose|j: int| 0 <= j < w.len() && #[trigger] w[j] == (y, x);
            assert(v[j] == (x, y));
        }
    }
}

/// A report over one set that selects only pairs that meet, and every pair
/// that meets in one of its two orders, holds the identifiers of the pairs
/// that meet.
pub proof fn lemma_covering<B: BBox, ID: Ordered>(
    a: Seq<(B, ID)>,
    w: Seq<(int, int)>,
    ids: Seq<(ID, ID)>,
    sel: spec_fn(int, int) -> bool,
)
    requires
        tally(a, a, w, ids, sel),
        forall|x: int, y: int|
            in_grid(x, y, a.len() as int, a.len() as int) && #[trigger] sel(x, y) ==> meets_at(
                a,
                x,
                y,
            ),
        forall|x: int, y: int| #[trigger] meets_at(a, x, y) ==> sel(x, y) || sel(y, x),
    ensures
        reported_ids(ids) == meeting_ids(a),
{
    assert forall|q: (int, int)| reported_ids(ids).contains(q) implies meeting_ids(a).contains(
        q,
    ) by {
        let j = choose|j: int|
            0 <= j < ids.len() && (q == rank_pair(#[trigger] ids[j]) || q == rank_pair(
                (ids[j].1, ids[j].0),
            ));
        let x = w[j].0;
        let y = w[j].1;
        assert(sel(x, y));
        assert(meets_at(a, x, y));
        lemma_overlap_flip(a[x].0, a[y].0, 0, B::DIM as int);
        assert(meets_at(a, y, x));
        assert(paired(ids[j], a[x].1, a[y].1));
    }
    assert forall|q: (int, int)| meeting_ids(a).contains(q) implies reported_ids(ids).contains(
        q,
    ) by {
        let c = choose|x: int, y: int| #[trigger]
            meets_at(a, x, y) && q == (a[x].1.rank(), a[y].1.rank());
        let x = c.0;
        let y = c.1;
        if sel(x, y) {
            let j = choose|j: int| 0 <= j < w.len() && #[trigger] w[j] == (x, y);
            assert(paired(ids[j], a[x].1, a[y].1));
            assert(q == rank_pair(ids[j]) || q == rank_pair((ids[j].1, ids[j].0)));
        } else {
            assert(sel(y, x));
            let j = choose|j: int| 0 <= j < w.len() && #[trigger] w[j] == (y, x);
            assert(paired(ids[j], a[y].1, a[x].1));
            assert(q == rank_pair(ids[j]) || q == rank_pair((ids[j].1, ids[j].0)));
        }
    }
    assert(reported_ids(ids) =~= meeting_ids(a));
}

/// A report that selects only pairs with different identifiers holds no
/// pair with one identifier twice.
pub proof fn lemma_no_self_pair<B, ID: Ordered>(
    a: Seq<(B, ID)>,
    b: Seq<(B, ID)>,
    w: Seq<(int, int)>,
    ids: Seq<(ID, ID)>,
    sel: spec_fn(int, int) -> bool,
)
    requires
        tally(a, b, w, ids, sel),
        forall|x: int, y: int|
            in_grid(x, y, a.len() as int, b.len() as int) && #[trigger] sel(x, y) ==> distinct(
                a[x],
                b[y],
            ),
    ensures
        no_self_pair(ids),
{
    assert forall|j: int| 0 <= j < ids.len() implies (#[trigger] ids[j]).0.rank()
        != ids[j].1.rank() by {
        assert(sel(w[j].0, w[j].1));
        assert(paired(ids[j], a[w[j].0].1, b[w[j].1].1));
    }
}

/// A report over one set with unique identifiers that never selects a pair
/// in both of its orders holds no two identifiers twice.
pub proof fn lemma_no_pair_twice<B, ID: Ordered>(
    a: Seq<(B, ID)>,
    w: Seq<(int, int)>,
    ids: Seq<(ID, ID)>,
    sel: spec_fn(int, int) -> bool,
)
    requires
        tally(a, a, w, ids, sel),
        unique_ids(a),
        forall|x: int, y: int|
            in_grid(x, y, a.len() as int, a.len() as int) ==> !(#[trigger] sel(x, y) && sel(y, x)),
    ensures
        no_pair_twice(ids),
{
    assert forall|j: int, l: int| 0 <= j < l < ids.len() implies rank_pair(#[trigger] ids[j])
        != rank_pair(#[trigger] ids[l]) && rank_pair(ids[j]) != rank_pair(
        (ids[l].1, ids[l].0),
    ) by {
        let x1 = w[j].0;
        let y1 = w[j].1;
        let x2 = w[l].0;
        let y2 = w[l].1;
        assert(w[j] != w[l]);
        assert(sel(x1, y1) && sel(x2, y2));
        assert(paired(ids[j], a[x1].1, a[y1].1));
        assert(paired(ids[l], a[x2].1, a[y2].1));
        if rank_pair(ids[j]) == rank_pair(ids[l]) || rank_pair(ids[j]) == rank_pair(
            (ids[l].1, ids[l].0),
        ) {
            if a[x1].1.rank() == a[x2].1.rank() {
                assert(x1 == x2) by {
                    if x1 != x2 {
                        assert(distinct(a[x1], a[x2]));
                    }
                }
                assert(y1 == y2) by {
                    if y1 != y2 {
                        assert(distinct(a[y1], a[y2]));
                    }
                }
            } else {
                assert(x1 == y2) by {
                    if x1 != y2 {
                        assert(distinct(a[x1], a[y2]));
                    }
                }
                assert(y1 == x2) by {
                    if y1 != x2 {
                        assert(distinct(a[y1], a[x2]));
                    }
                }
                assert(sel(y2, x2));
            }
            assert(false);
        }
    }
}

/// In a set with unique identifiers, a brute force search of the set against
/// itself reports the identifiers of the pairs that meet, none of them twice
/// and no identifier beside itself.
pub proof fn law_brute_force_pairs<B: BBox, ID: Ordered>(a: Seq<(B, ID)>, recs: Seq<Rec<ID>>)
    requires
        unique_ids(a),
        brute_force_listing(a, a, true, recs),
    ensures
        reported_ids(idents(recs)) == meeting_ids(a),
        no_self_pair(idents(recs)),
        no_pair_twice(idents(recs)),
        each_once(a, places(recs)),
{
    let sel = |x: int, y: int| brute_force_picks(a, a, true, x, y);
    lemma_listing_tally(a, a, recs, sel);
    assert forall|x: int, y: int|
        in_grid(x, y, a.len() as int, a.len() as int) && #[trigger] sel(x, y) implies meets_at(
        a,
        x,
        y,
    ) && !sel(y, x) by {
    }
    assert forall|x: int, y: int| #[trigger] meets_at(a, x, y) implies sel(x, y) || sel(y, x) by {
        lemma_overlap_flip(a[x].0, a[y].0, 0, B::DIM as int);
    }
    lemma_covering(a, places(recs), idents(recs), sel);
    lemma_each_once(a, places(recs), idents(recs), sel);
    lemma_no_self_pair(a, a, places(recs), idents(recs), sel);
    lemma_no_pair_twice(a, places(recs), idents(recs), sel);
}

/// On an axis, of two boxes with different identifiers at most one starts
/// inside the other by the rule of the simulated scan; where both are proper
/// and they overlap, one does.
pub proof fn lemma_stabs_at_either<B: BBox, ID: Ordered>(i: (B, ID), p: (B, ID), k: int)
    requires
        distinct(i, p),
    ensures
        !(stabs_at(i, p, k) && stabs_at(p, i, k)),
        0 <= k < B::DIM && proper(i.0) && proper(p.0) ==> (stabs_at(
            i,
            p,
            k,
        ) || stabs_at(p, i, k)) == overlap_at(i.0, p.0, k),
{
}

/// In a sorted set of proper boxes with unique identifiers, a one-way scan
/// of the set against itself over all axes reports the identifiers of the
/// pairs that meet, none of them twice and no identifier beside itself.
pub proof fn law_scan_pairs<B: BBox, ID: Ordered>(a: Seq<(B, ID)>, recs: Seq<Rec<ID>>)
    requires
        0 < B::DIM,
        ascending(a),
        all_proper(a),
        unique_ids(a),
        scan_listing(a, a, true, recs),
    ensures
        reported_ids(idents(recs)) == meeting_ids(a),
        no_self_pair(idents(recs)),
        no_pair_twice(idents(recs)),
        each_once(a, places(recs)),
{
    let sel = |x: int, y: int| scan_picks(a, a, true, x, y);
    lemma_listing_tally(a, a, recs, sel);
    assert forall|x: int, y: int|
        in_grid(x, y, a.len() as int, a.len() as int) && #[trigger] sel(x, y) implies meets_at(
        a,
        x,
        y,
    ) && !sel(y, x) by {
        lemma_stabs_either(a[x], a[y], 0);
        assert(overlap_at(a[x].0, a[y].0, 0));
        assert forall|k: int| 0 <= k < B::DIM implies overlap_at(a[x].0, a[y].0, k) by {
        }
    }
    assert forall|x: int, y: int| #[trigger] meets_at(a, x, y) implies sel(x, y) || sel(y, x) by {
        lemma_stabs_either(a[x], a[y], 0);
        lemma_overlap_flip(a[x].0, a[y].0, 1, B::DIM as int);
        assert(overlap_at(a[x].0, a[y].0, 0));
        assert forall|k: int| 1 <= k < B::DIM implies overlap_at(a[x].0, a[y].0, k) by {
        }
    }
    lemma_covering(a, places(recs), idents(recs), sel);
    lemma_each_once(a, places(recs), idents(recs), sel);
    lemma_no_self_pair(a, a, places(recs), idents(recs), sel);
    lemma_no_pair_twice(a, places(recs), idents(recs), sel);
}

/// In a sorted set of proper boxes with unique identifiers, a simulated
/// one-way scan of the set against itself along the last axis reports the
/// identifiers of the pairs that meet, none of them twice and no identifier
/// beside itself.
pub proof fn law_simulated_pairs<B: BBox, ID: Ordered>(
    a: Seq<(B, ID)>,
    top: int,
    recs: Seq<Rec<ID>>,
)
    requires
        0 < B::DIM,
        top == B::DIM - 1,
        all_proper(a),
        unique_ids(a),
        listing(a, a, recs, |x: int, y: int| simulated_hit(a[x], a[y], top)),
    ensures
        reported_ids(idents(recs)) == meeting_ids(a),
        no_self_pair(idents(recs)),
        no_pair_twice(idents(recs)),
        each_once(a, places(recs)),
{
    let sel = |x: int, y: int| simulated_hit(a[x], a[y], top);
    lemma_listing_tally(a, a, recs, sel);
    assert forall|x: int, y: int|
        in_grid(x, y, a.len() as int, a.len() as int) && #[trigger] sel(x, y) implies meets_at(
        a,
        x,
        y,
    ) && !sel(y, x) by {
        lemma_stabs_at_either(a[x], a[y], top);
        lemma_sweep_overlap(a[x], a[y]);
        assert(overlap_at(a[x].0, a[y].0, top));
        assert forall|k: int| 0 <= k < B::DIM implies overlap_at(a[x].0, a[y].0, k) by {
        }
    }
    assert forall|x: int, y: int| #[trigger] meets_at(a, x, y) implies sel(x, y) || sel(y, x) by {
        lemma_stabs_at_either(a[x], a[y], top);
        lemma_sweep_overlap(a[x], a[y]);
        lemma_sweep_overlap(a[y], a[x]);
        lemma_overlap_flip(a[x].0, a[y].0, 1, top);
        assert(overlap_at(a[x].0, a[y].0, 0));
        assert(overlap_at(a[x].0, a[y].0, top));
        assert forall|k: int| 1 <= k < top implies overlap_at(a[x].0, a[y].0, k) by {
        }
    }
    lemma_covering(a, places(recs), idents(recs), sel);
    lemma_each_once(a, places(recs), idents(recs), sel);
    lemma_no_self_pair(a, a, places(recs), idents(recs), sel);
    lemma_no_pair_twice(a, places(recs), idents(recs), sel);
}

/// In a sorted set of proper boxes with unique identifiers, the streamed
/// segment tree of the set against itself reports the identifiers of the
/// pairs that meet, none of them twice and no identifier beside itself:
/// whatever the cutoff, and whatever the random numbers were.
pub proof fn law_tree_pairs<B: BBox, ID: Ordered>(
    a: Seq<(B, ID)>,
    w: Seq<(int, int)>,
    ids: Seq<(ID, ID)>,
)
    requires
        0 < B::DIM,
        ascending(a),
        all_proper(a),
        unique_ids(a),
        tree_report(a, a, true, w, ids),
    ensures
        reported_ids(ids) == meeting_ids(a),
        no_self_pair(ids),
        no_pair_twice(ids),
        each_once(a, w),
{
    let sel = |x: int, y: int| tree_picks(a, a, true, x, y);
    assert forall|x: int, y: int|
        in_grid(x, y, a.len() as int, a.len() as int) && #[trigger] sel(x, y) implies meets_at(
        a,
        x,
        y,
    ) && !sel(y, x) by {
        lemma_hit_either(a[x], a[y], B::DIM as int);
    }
    assert forall|x: int, y: int| #[trigger] meets_at(a, x, y) implies sel(x, y) || sel(y, x) by {
        lemma_hit_either(a[x], a[y], B::DIM as int);
    }
    lemma_covering(a, w, ids, sel);
    lemma_each_once(a, w, ids, sel);
    lemma_no_self_pair(a, a, w, ids, sel);
    lemma_no_pair_twice(a, w, ids, sel);
}

/// Agreement with brute force: in a sorted set of proper boxes with unique
/// identifiers, the brute force search, the scan, the simulated one-way scan
/// along the last axis and the streamed segment tree, each of the set
/// against itself, report the same pairs of identifiers.
pub proof fn law_agreement<B: BBox, ID: Ordered>(
    a: Seq<(B, ID)>,
    brute: Seq<Rec<ID>>,
    scanned: Seq<Rec<ID>>,
    top: int,
    simulated: Seq<Rec<ID>>,
    w: Seq<(int, int)>,
    streamed: Seq<(ID, ID)>,
)
    requires
        0 < B::DIM,
        top == B::DIM - 1,
        ascending(a),
        all_proper(a),
        unique_ids(a),
        brute_force_listing(a, a, true, brute),
        scan_listing(a, a, true, scanned),
        listing(a, a, simulated, |x: int, y: int| simulated_hit(a[x], a[y], top)),
        tree_report(a, a, true, w, streamed),
    ensures
        reported_ids(idents(scanned)) == reported_ids(idents(brute)),
        reported_ids(idents(simulated)) == reported_ids(idents(brute)),
        reported_ids(streamed) == reported_ids(idents(brute)),
        scanned.len() == brute.len(),
        simulated.len() == brute.len(),
        streamed.len() == brute.len(),
{
    law_brute_force_pairs(a, brute);
    law_scan_pairs(a, scanned);
    law_simulated_pairs(a, top, simulated);
    law_tree_pairs(a, w, streamed);
    let n = a.len() as int;
    let up = |x: int, y: int| x < y && meets_at(a, x, y);
    lemma_same_places(lesser_first(places(brute)), lesser_first(places(scanned)), n, n, up);
    lemma_same_places(lesser_first(places(brute)), lesser_first(places(simulated)), n, n, up);
    lemma_same_places(lesser_first(places(brute)), lesser_first(w), n, n, up);
}

/// No self-pairs: a scan and the streamed segment trees, over one set or
/// two, report no identifier beside itself.
pub proof fn law_no_self_pairs<B: BBox, ID: Ordered>(
    a: Seq<(B, ID)>,
    b: Seq<(B, ID)>,
    same: bool,
    scanned: Seq<Rec<ID>>,
    w: Seq<(int, int)>,
    streamed: Seq<(ID, ID)>,
)
    requires
        ascending(a),
        ascending(b),
        all_proper(a),
        all_proper(b),
        scan_listing(a, b, same, scanned),
        tree_report(a, b, same, w, streamed),
    ensures
        no_self_pair(idents(scanned)),
        no_self_pair(streamed),
{
    let sel = |x: int, y: int| scan_picks(a, b, same, x, y);
    lemma_listing_tally(a, b, scanned, sel);
    lemma_no_self_pair(a, b, places(scanned), idents(scanned), sel);
    lemma_no_self_pair(a, b, w, streamed, |x: int, y: int| tree_picks(a, b, same, x, y));
}

/// No self-pairs: a brute force search reports no identifier beside itself,
/// over one set with unique identifiers, or over two sets that share no
/// identifier.
pub proof fn law_brute_force_no_self_pairs<B: BBox, ID: Ordered>(
    a: Seq<(B, ID)>,
    b: Seq<(B, ID)>,
    same: bool,
    recs: Seq<Rec<ID>>,
)
    requires
        same ==> a == b && unique_ids(a),
        !same ==> apart(a, b),
        brute_force_listing(a, b, same, recs),
    ensures
        no_self_pair(idents(recs)),
{
    let sel = |x: int, y: int| brute_force_picks(a, b, same, x, y);
    lemma_listing_tally(a, b, recs, sel);
    lemma_no_self_pair(a, b, places(recs), idents(recs), sel);
}

/// No duplicates in one set: of a sorted set of proper boxes with unique
/// identifiers against itself, no algorithm reports two identifiers twice.
pub proof fn law_no_duplicates<B: BBox, ID: Ordered>(
    a: Seq<(B, ID)>,
    brute: Seq<Rec<ID>>,
    scanned: Seq<Rec<ID>>,
    top: int,
    simulated: Seq<Rec<ID>>,
    w: Seq<(int, int)>,
    streamed: Seq<(ID, ID)>,
)
    requires
        0 < B::DIM,
        top == B::DIM - 1,
        ascending(a),
        all_proper(a),
        unique_ids(a),
        brute_force_listing(a, a, true, brute),
        scan_listing(a, a, true, scanned),
        listing(a, a, simulated, |x: int, y: int| simulated_hit(a[x], a[y], top)),
        tree_report(a, a, true, w, streamed),
    ensures
        no_pair_twice(idents(brute)),
        no_pair_twice(idents(scanned)),
        no_pair_twice(idents(simulated)),
        no_pair_twice(streamed),
{
    law_brute_force_pairs(a, brute);
    law_scan_pairs(a, scanned);
    law_simulated_pairs(a, top, simulated);
    law_tree_pairs(a, w, streamed);
}

/// Completeness for two sets: where the boxes are proper and no identifier
/// of `a` is one of `b`, the two streamed segment trees report every pair of
/// a box of `a` and a box of `b` that intersect, each pair once.
pub proof fn law_bipartite_complete<B: BBox, ID: Ordered>(
    a: Seq<(B, ID)>,
    b: Seq<(B, ID)>,
    w: Seq<(int, int)>,
    ids: Seq<(ID, ID)>,
)
    requires
        ascending(a),
        ascending(b),
        all_proper(a),
        all_proper(b),
        apart(a, b),
        tree_report(a, b, false, w, ids),
    ensures
        tally(a, b, w, ids, |x: int, y: int| meet(a[x].0, b[y].0)),
        no_self_pair(ids),
{
    lemma_tally_alike(
        a,
        b,
        w,
        ids,
        |x: int, y: int| tree_picks(a, b, false, x, y),
        |x: int, y: int| meet(a[x].0, b[y].0),
    );
    lemma_no_self_pair(a, b, w, ids, |x: int, y: int| tree_picks(a, b, false, x, y));
}

/// Completeness for two sets: where the sets are sorted, the boxes proper and
/// no identifier of `a` is one of `b`, a two-way scan reports every pair of a
/// box of `a` and a box of `b` that intersect, each pair once.
pub proof fn law_two_way_complete<B: BBox, ID: Ordered>(
    a: Seq<(B, ID)>,
    b: Seq<(B, ID)>,
    recs: Seq<Rec<ID>>,
)
    requires
        0 < B::DIM,
        ascending(a),
        ascending(b),
        all_proper(a),
        all_proper(b),
        apart(a, b),
        scan_listing(a, b, false, recs),
    ensures
        listing(a, b, recs, |x: int, y: int| meet(a[x].0, b[y].0)),
{
    assert forall|x: int, y: int|
        in_grid(x, y, a.len() as int, b.len() as int) implies scan_picks(a, b, false, x, y)
        == meet(a[x].0, b[y].0) by {
        lemma_sweep_overlap(a[x], b[y]);
        if meet(a[x].0, b[y].0) {
            assert(overlap_at(a[x].0, b[y].0, 0));
            assert forall|k: int| 1 <= k < B::DIM implies overlap_at(a[x].0, b[y].0, k) by {
            }
        }
        if scan_picks(a, b, false, x, y) {
            assert forall|k: int| 0 <= k < B::DIM implies overlap_at(a[x].0, b[y].0, k) by {
            }
        }
    }
    lemma_listing_alike(
        a,
        b,
        recs,
        |x: int, y: int| scan_picks(a, b, false, x, y),
        |x: int, y: int| meet(a[x].0, b[y].0),
    );
}

/// Agreement for two sets: where the sets are sorted, the boxes proper and
/// no identifier of `a` is one of `b`, the brute force search, the two-way
/// scan and the two streamed segment trees report the same pairs of
/// positions, each pair once.
pub proof fn law_bipartite_agreement<B: BBox, ID: Ordered>(
    a: Seq<(B, ID)>,
    b: Seq<(B, ID)>,
    brute: Seq<Rec<ID>>,
    scanned: Seq<Rec<ID>>,
    w: Seq<(int, int)>,
    streamed: Seq<(ID, ID)>,
)
    requires
        0 < B::DIM,
        ascending(a),
        ascending(b),
        all_proper(a),
        all_proper(b),
        apart(a, b),
        brute_force_listing(a, b, false, brute),
        scan_listing(a, b, false, scanned),
        tree_report(a, b, false, w, streamed),
    ensures
        forall|q: (int, int)| places(brute).contains(q) == w.contains(q),
        forall|q: (int, int)| places(brute).contains(q) == places(scanned).contains(q),
        brute.len() == w.len(),
        brute.len() == scanned.len(),
{
    let sel = |x: int, y: int| meet(a[x].0, b[y].0);
    law_bipartite_complete(a, b, w, streamed);
    law_two_way_complete(a, b, scanned);
    lemma_listing_alike(a, b, brute, |x: int, y: int| brute_force_picks(a, b, false, x, y), sel);
    let m = a.len() as int;
    let n = b.len() as int;
    lemma_same_places(places(brute), w, m, n, sel);
    lemma_same_places(places(brute), places(scanned), m, n, sel);
}

/// Two sequences that enumerate one selection hold the same pairs, and as many.
pub proof fn lemma_same_places(
    v: Seq<(int, int)>,
    w: Seq<(int, int)>,
    m: int,
    n: int,
    sel: spec_fn(int, int) -> bool,
)
    requires
        enumerates(v, m, n, sel),
        enumerates(w, m, n, sel),
    ensures
        forall|q: (int, int)| v.contains(q) == w.contains(q),
        v.len() == w.len(),
{
    assert forall|q: (int, int)| v.contains(q) == w.contains(q) by {
        if v.contains(q) {
            let j = choose|j: int| 0 <= j < v.len() && v[j] == q;
            assert(sel(v[j].0, v[j].1));
            assert(in_grid(q.0, q.1, m, n) && sel(q.0, q.1));
            let l = choose|l: int| 0 <= l < w.len() && #[trigger] w[l] == (q.0, q.1);
            assert(w[l] == q);
        }
        if w.contains(q) {
            let j = choose|j: int| 0 <= j < w.len() && w[j] == q;
            assert(sel(w[j].0, w[j].1));
            assert(in_grid(q.0, q.1, m, n) && sel(q.0, q.1));
            let l = choose|l: int| 0 <= l < v.len() && #[trigger] v[l] == (q.0, q.1);
            assert(v[l] == q);
        }
    }
    assert(v.no_duplicates());
    assert(w.no_duplicates());
    assert(v.to_set() =~= w.to_set());
    v.unique_seq_to_set();
    w.unique_seq_to_set();
}

/// Order insensitivity: the pairs of identifiers whose boxes intersect are
/// the same in every order of the set; sorting it changes none.
pub proof fn law_order_insensitive<B: BBox, ID: Ordered>(a: Seq<(B, ID)>, sorted: Seq<(B, ID)>)
    requires
        a.to_multiset() == sorted.to_multiset(),
    ensures
        meeting_ids(a) == meeting_ids(sorted),
{
    lemma_rearranged(a, sorted);
    lemma_rearranged(sorted, a);
    assert(meeting_ids(a) =~= meeting_ids(sorted));
}

/// The pairs of `ids` by their ranks, each with its lesser rank first.
pub open spec fn lesser_rank_first<ID: Ordered>(ids: Seq<(ID, ID)>) -> Seq<(int, int)> {
    ids.map_values(
        |e: (ID, ID)|
            if e.0.rank() <= e.1.rank() {
                (e.0.rank(), e.1.rank())
            } else {
                (e.1.rank(), e.0.rank())
            },
    )
}

/// Two reports that hold the same pairs of identifiers, none of them twice
/// and no identifier beside itself, are equally long.
pub proof fn lemma_equally_long<ID: Ordered>(one: Seq<(ID, ID)>, other: Seq<(ID, ID)>)
    requires
        no_self_pair(one),
        no_pair_twice(one),
        no_self_pair(other),
        no_pair_twice(other),
        reported_ids(one) == reported_ids(other),
    ensures
        one.len() == other.len(),
{
    let v = lesser_rank_first(one);
    let w = lesser_rank_first(other);
    lemma_lesser_rank_first(one);
    lemma_lesser_rank_first(other);
    assert forall|q: (int, int)| v.to_set().contains(q) == w.to_set().contains(q) by {
        if v.contains(q) {
            let j = choose|j: int| 0 <= j < v.len() && v[j] == q;
            assert(q == rank_pair(one[j]) || q == rank_pair((one[j].1, one[j].0)));
            assert(reported_ids(one).contains(q));
            assert(reported_ids(other).contains(q));
            let l = choose|l: int|
                0 <= l < other.len() && (q == rank_pair(#[trigger] other[l]) || q == rank_pair(
                    (other[l].1, other[l].0),
                ));
            assert(w[l] == q);
        }
        if w.contains(q) {
            let j = choose|j: int| 0 <= j < w.len() && w[j] == q;
            assert(q == rank_pair(other[j]) || q == rank_pair((other[j].1, other[j].0)));
            assert(reported_ids(other).contains(q));
            assert(reported_ids(one).contains(q));
            let l = choose|l: int|
                0 <= l < one.len() && (q == rank_pair(#[trigger] one[l]) || q == rank_pair(
                    (one[l].1, one[l].0),
                ));
            assert(v[l] == q);
        }
    }
    assert(v.to_set() =~= w.to_set());
    v.unique_seq_to_set();
    w.unique_seq_to_set();
}

/// In a report that holds no two identifiers twice and no identifier beside
/// itself, the pairs of ranks with the lesser first are all different, and
/// the lesser is strictly so.
pub proof fn lemma_lesser_rank_first<ID: Ordered>(ids: Seq<(ID, ID)>)
    requires
        no_self_pair(ids),
        no_pair_twice(ids),
    ensures
        lesser_rank_first(ids).no_duplicates(),
        forall|j: int|
            0 <= j < ids.len() ==> (#[trigger] lesser_rank_first(ids)[j]).0 < lesser_rank_first(
                ids,
            )[j].1,
{
    let v = lesser_rank_first(ids);
    assert forall|i: int, j: int| 0 <= i < v.len() && 0 <= j < v.len() && i != j implies v[i]
        != v[j] by {
        if i < j {
            assert(rank_pair(ids[i]) != rank_pair(ids[j]));
        } else {
            assert(rank_pair(ids[j]) != rank_pair(ids[i]));
        }
    }
    assert forall|j: int| 0 <= j < ids.len() implies (#[trigger] v[j]).0 < v[j].1 by {
        assert(ids[j].0.rank() != ids[j].1.rank());
    }
}

/// The identifiers of a rearrangement of a set with unique identifiers are unique.
pub proof fn lemma_rearranged_unique<B, ID: Ordered>(a: Seq<(B, ID)>, other: Seq<(B, ID)>)
    requires
        a.to_multiset() == other.to_multiset(),
        unique_ids(a),
    ensures
        unique_ids(other),
{
    a.to_multiset_ensures();
    other.to_multiset_ensures();
    assert(a.no_duplicates()) by {
        assert forall|i: int, j: int| 0 <= i < a.len() && 0 <= j < a.len() && i != j implies a[i]
            != a[j] by {
            assert(distinct(a[i], a[j]));
        }
    }
    a.lemma_multiset_has_no_duplicates();
    other.lemma_multiset_has_no_duplicates_conv();
    assert forall|x: int, y: int|
        0 <= x < other.len() && 0 <= y < other.len() && x != y implies distinct(
        #[trigger] other[x],
        #[trigger] other[y],
    ) by {
        assert(other[x] != other[y]);
        assert(other.contains(other[x]) && other.contains(other[y]));
        assert(a.to_multiset().count(other[x]) > 0);
        assert(a.to_multiset().count(other[y]) > 0);
        assert(a.contains(other[x]) && a.contains(other[y]));
        let x2 = choose|i: int| 0 <= i < a.len() && a[i] == other[x];
        let y2 = choose|i: int| 0 <= i < a.len() && a[i] == other[y];
        assert(distinct(a[x2], a[y2]));
    }
}

/// The boxes of a rearrangement of a set of proper boxes are proper.
pub proof fn lemma_rearranged_proper<B: BBox, ID>(a: Seq<(B, ID)>, other: Seq<(B, ID)>)
    requires
        a.to_multiset() == other.to_multiset(),
        all_proper(a),
    ensures
        all_proper(other),
{
    a.to_multiset_ensures();
    other.to_multiset_ensures();
    assert forall|x: int| 0 <= x < other.len() implies proper((#[trigger] other[x]).0) by {
        assert(other.contains(other[x]));
        assert(a.to_multiset().count(other[x]) > 0);
        assert(a.contains(other[x]));
        let x2 = choose|i: int| 0 <= i < a.len() && a[i] == other[x];
        assert(proper(a[x2].0));
    }
}

/// Order insensitivity of the brute force search: of a set with unique
/// identifiers against itself, it reports the same pairs of identifiers, and
/// as many, before and after the set is sorted or rearranged otherwise.
pub proof fn law_sorting_keeps_pairs<B: BBox, ID: Ordered>(
    a: Seq<(B, ID)>,
    sorted: Seq<(B, ID)>,
    before: Seq<Rec<ID>>,
    after: Seq<Rec<ID>>,
)
    requires
        a.to_multiset() == sorted.to_multiset(),
        unique_ids(a),
        brute_force_listing(a, a, true, before),
        brute_force_listing(sorted, sorted, true, after),
    ensures
        reported_ids(idents(before)) == reported_ids(idents(after)),
        before.len() == after.len(),
{
    lemma_rearranged_unique(a, sorted);
    law_brute_force_pairs(a, before);
    law_brute_force_pairs(sorted, after);
    law_order_insensitive(a, sorted);
    lemma_equally_long(idents(before), idents(after));
}

/// Order insensitivity of the scan: of two sorted arrangements of one set of
/// proper boxes with unique identifiers, each scanned against itself, the
/// scan reports the same pairs of identifiers, each pair once.
pub proof fn law_arrangement_keeps_pairs<B: BBox, ID: Ordered>(
    a: Seq<(B, ID)>,
    other: Seq<(B, ID)>,
    of_one: Seq<Rec<ID>>,
    of_other: Seq<Rec<ID>>,
)
    requires
        0 < B::DIM,
        a.to_multiset() == other.to_multiset(),
        ascending(a),
        ascending(other),
        all_proper(a),
        unique_ids(a),
        scan_listing(a, a, true, of_one),
        scan_listing(other, other, true, of_other),
    ensures
        reported_ids(idents(of_one)) == reported_ids(idents(of_other)),
        no_pair_twice(idents(of_one)),
        no_pair_twice(idents(of_other)),
        of_one.len() == of_other.len(),
{
    lemma_rearranged_unique(a, other);
    lemma_rearranged_proper(a, other);
    law_scan_pairs(a, of_one);
    law_scan_pairs(other, of_other);
    law_order_insensitive(a, other);
    lemma_equally_long(idents(of_one), idents(of_other));
}

/// Every pair that meets in a set meets in a rearrangement of it.
pub proof fn lemma_rearranged<B: BBox, ID: Ordered>(a: Seq<(B, ID)>, other: Seq<(B, ID)>)
    requires
        a.to_multiset() == other.to_multiset(),
    ensures
        forall|q: (int, int)| meeting_ids(a).contains(q) ==> meeting_ids(other).contains(q),
{
    a.to_multiset_ensures();
    other.to_multiset_ensures();
    assert forall|q: (int, int)| meeting_ids(a).contains(q) implies meeting_ids(other).contains(
        q,
    ) by {
        let c = choose|x: int, y: int| #[trigger]
            meets_at(a, x, y) && q == (a[x].1.rank(), a[y].1.rank());
        let x = c.0;
        let y = c.1;
        assert(a.contains(a[x]) && a.contains(a[y]));
        assert(other.to_multiset().count(a[x]) > 0);
        assert(other.to_multiset().count(a[y]) > 0);
        assert(other.contains(a[x]) && other.contains(a[y]));
        let x2 = choose|i: int| 0 <= i < other.len() && other[i] == a[x];
        let y2 = choose|i: int| 0 <= i < other.len() && other[i] == a[y];
        assert(meets_at(other, x2, y2));
    }
}

/// Cutoff invariance: of a sorted set of proper boxes with unique
/// identifiers against itself, the streamed segment tree reports the same
/// pairs of identifiers with every cutoff, those of the brute force search.
pub proof fn law_cutoff_invariance<B: BBox, ID: Ordered>(
    a: Seq<(B, ID)>,
    w1: Seq<(int, int)>,
    with_one: Seq<(ID, ID)>,
    w2: Seq<(int, int)>,
    with_other: Seq<(ID, ID)>,
    brute: Seq<Rec<ID>>,
)
    requires
        0 < B::DIM,
        ascending(a),
        all_proper(a),
        unique_ids(a),
        tree_report(a, a, true, w1, with_one),
        tree_report(a, a, true, w2, with_other),
        brute_force_listing(a, a, true, brute),
    ensures
        reported_ids(with_one) == reported_ids(with_other),
        reported_ids(with_one) == reported_ids(idents(brute)),
        with_one.len() == with_other.len(),
        with_one.len() == brute.len(),
{
    law_tree_pairs(a, w1, with_one);
    law_tree_pairs(a, w2, with_other);
    law_brute_force_pairs(a, brute);
    let n = a.len() as int;
    let up = |x: int, y: int| x < y && meets_at(a, x, y);
    lemma_same_places(lesser_first(w1), lesser_first(w2), n, n, up);
    lemma_same_places(lesser_first(w1), lesser_first(places(brute)), n, n, up);
}

/// Where `turned` holds the boxes of `a` with their axes permuted, axis `k`
/// of a box of `a` being axis `perm[k]` of the box of `turned` at the same
/// position, two boxes of `a` intersect exactly where the two boxes of
/// `turned` at their positions do.
pub proof fn lemma_axes_turned<B: BBox, ID>(a: Seq<(B, ID)>, turned: Seq<(B, ID)>, perm: Seq<int>)
    requires
        turned.len() == a.len(),
        perm.len() == B::DIM,
        forall|k: int| 0 <= k < B::DIM ==> 0 <= #[trigger] perm[k] < B::DIM,
        forall|t: int| 0 <= t < B::DIM ==> #[trigger] perm.contains(t),
        forall|x: int, k: int|
            0 <= x < a.len() && 0 <= k < B::DIM ==> (#[trigger] turned[x]).0.lo_at(
                #[trigger] perm[k],
            ).rank() == a[x].0.lo_at(k).rank() && turned[x].0.hi_at(perm[k]).rank()
                == a[x].0.hi_at(k).rank(),
    ensures
        forall|x: int, y: int|
            0 <= x < a.len() && 0 <= y < a.len() ==> meet(a[x].0, a[y].0) == #[trigger] meet(
                turned[x].0,
                turned[y].0,
            ),
{
    assert forall|x: int, y: int| 0 <= x < a.len() && 0 <= y < a.len() implies meet(
        a[x].0,
        a[y].0,
    ) == #[trigger] meet(turned[x].0, turned[y].0) by {
        if meet(a[x].0, a[y].0) {
            assert forall|t: int| 0 <= t < B::DIM implies overlap_at(
                turned[x].0,
                turned[y].0,
                t,
            ) by {
                assert(perm.contains(t));
                let k = choose|k: int| 0 <= k < perm.len() && perm[k] == t;
                assert(overlap_at(a[x].0, a[y].0, k));
                assert(turned[x].0.lo_at(perm[k]).rank() == a[x].0.lo_at(k).rank());
                assert(turned[y].0.lo_at(perm[k]).rank() == a[y].0.lo_at(k).rank());
            }
        }
        if meet(turned[x].0, turned[y].0) {
            assert forall|k: int| 0 <= k < B::DIM implies overlap_at(a[x].0, a[y].0, k) by {
                assert(overlap_at(turned[x].0, turned[y].0, perm[k]));
                assert(turned[x].0.lo_at(perm[k]).rank() == a[x].0.lo_at(k).rank());
                assert(turned[y].0.lo_at(perm[k]).rank() == a[y].0.lo_at(k).rank());
            }
        }
    }
}

/// Axis symmetry: where `turned` holds the boxes of `a` with their axes
/// permuted, axis `k` of a box of `a` being axis `perm[k]` of the box of
/// `turned` at the same position, the same pairs of identifiers intersect
/// in both.
pub proof fn law_axis_symmetry<B: BBox, ID: Ordered>(
    a: Seq<(B, ID)>,
    turned: Seq<(B, ID)>,
    perm: Seq<int>,
)
    requires
        turned.len() == a.len(),
        perm.len() == B::DIM,
        forall|k: int| 0 <= k < B::DIM ==> 0 <= #[trigger] perm[k] < B::DIM,
        forall|t: int| 0 <= t < B::DIM ==> #[trigger] perm.contains(t),
        forall|x: int|
            0 <= x < a.len() ==> (#[trigger] turned[x]).1.rank() == a[x].1.rank(),
        forall|x: int, k: int|
            0 <= x < a.len() && 0 <= k < B::DIM ==> (#[trigger] turned[x]).0.lo_at(
                #[trigger] perm[k],
            ).rank() == a[x].0.lo_at(k).rank() && turned[x].0.hi_at(perm[k]).rank()
                == a[x].0.hi_at(k).rank(),
    ensures
        meeting_ids(a) == meeting_ids(turned),
{
    lemma_axes_turned(a, turned, perm);
    assert forall|q: (int, int)| meeting_ids(a).contains(q) implies meeting_ids(turned).contains(
        q,
    ) by {
        let c = choose|x: int, y: int| #[trigger]
            meets_at(a, x, y) && q == (a[x].1.rank(), a[y].1.rank());
        assert(meet(a[c.0].0, a[c.1].0) == meet(turned[c.0].0, turned[c.1].0));
        assert(meets_at(turned, c.0, c.1));
    }
    assert forall|q: (int, int)| meeting_ids(turned).contains(q) implies meeting_ids(a).contains(
        q,
    ) by {
        let c = choose|x: int, y: int| #[trigger]
            meets_at(turned, x, y) && q == (turned[x].1.rank(), turned[y].1.rank());
        assert(meet(a[c.0].0, a[c.1].0) == meet(turned[c.0].0, turned[c.1].0));
        assert(meets_at(a, c.0, c.1));
    }
    assert(meeting_ids(a) =~= meeting_ids(turned));
}

/// The pairs of positions of `w` come row by row.
pub open spec fn rows(w: Seq<(int, int)>) -> bool {
    forall|j: int, l: int|
        0 <= j < l < w.len() ==> (#[trigger] w[j]).0 < (#[trigger] w[l]).0 || (w[j].0 == w[l].0
            && w[j].1 < w[l].1)
}

/// Two sequences that hold the same pairs of positions, both row by row,
/// hold the same pair at every place.
pub proof fn lemma_rows_fixed(v: Seq<(int, int)>, w: Seq<(int, int)>, j: int)
    requires
        rows(v),
        rows(w),
        forall|q: (int, int)| v.contains(q) == w.contains(q),
        v.len() == w.len(),
        0 <= j < v.len(),
    ensures
        v[j] == w[j],
    decreases j,
{
    assert forall|i: int| 0 <= i < j implies v[i] == w[i] by {
        lemma_rows_fixed(v, w, i);
    }
    assert(v.contains(v[j]));
    assert(w.contains(v[j]));
    let l = choose|l: int| 0 <= l < w.len() && w[l] == v[j];
    if l < j {
        assert(v[l] == w[l]);
        assert(false);
    }
    assert(w.contains(w[j]));
    assert(v.contains(w[j]));
    let r = choose|r: int| 0 <= r < v.len() && v[r] == w[j];
    if r < j {
        assert(v[r] == w[r]);
        assert(false);
    }
}

/// What a brute force search reports is fixed by what it searches: two
/// searches over sets of the same sizes, with the same identifiers at the
/// same positions and with boxes that intersect at the same positions,
/// report the same pairs in the same order.
pub proof fn law_brute_force_fixed<B: BBox, ID>(
    a: Seq<(B, ID)>,
    b: Seq<(B, ID)>,
    a2: Seq<(B, ID)>,
    b2: Seq<(B, ID)>,
    same: bool,
    one: Seq<Rec<ID>>,
    two: Seq<Rec<ID>>,
)
    requires
        a2.len() == a.len(),
        b2.len() == b.len(),
        forall|x: int| 0 <= x < a.len() ==> (#[trigger] a2[x]).1 == a[x].1,
        forall|y: int| 0 <= y < b.len() ==> (#[trigger] b2[y]).1 == b[y].1,
        forall|x: int, y: int|
            0 <= x < a.len() && 0 <= y < b.len() ==> meet(a[x].0, b[y].0) == #[trigger] meet(
                a2[x].0,
                b2[y].0,
            ),
        brute_force_listing(a, b, same, one),
        brute_force_listing(a2, b2, same, two),
    ensures
        one == two,
{
    let m = a.len() as int;
    let n = b.len() as int;
    let sel = |x: int, y: int| brute_force_picks(a, b, same, x, y);
    let sel2 = |x: int, y: int| brute_force_picks(a2, b2, same, x, y);
    let v = places(one);
    let w = places(two);
    assert forall|x: int, y: int| in_grid(x, y, m, n) implies #[trigger] sel2(x, y) == sel(
        x,
        y,
    ) by {
        assert(meet(a[x].0, b[y].0) == meet(a2[x].0, b2[y].0));
    }
    lemma_enumerates_alike(w, m, n, sel2, sel);
    lemma_same_places(v, w, m, n, sel);
    assert(rows(v)) by {
        assert forall|j: int, l: int| 0 <= j < l < v.len() implies (#[trigger] v[j]).0 < (
        #[trigger] v[l]).0 || (v[j].0 == v[l].0 && v[j].1 < v[l].1) by {
            assert(one[j].0.0 < one[l].0.0 || (one[j].0.0 == one[l].0.0 && one[j].0.1
                < one[l].0.1));
        }
    }
    assert(rows(w)) by {
        assert forall|j: int, l: int| 0 <= j < l < w.len() implies (#[trigger] w[j]).0 < (
        #[trigger] w[l]).0 || (w[j].0 == w[l].0 && w[j].1 < w[l].1) by {
            assert(two[j].0.0 < two[l].0.0 || (two[j].0.0 == two[l].0.0 && two[j].0.1
                < two[l].0.1));
        }
    }
    assert forall|j: int| 0 <= j < one.len() implies one[j] == two[j] by {
        lemma_rows_fixed(v, w, j);
        assert(v[j] == w[j]);
        assert(one[j].0 == two[j].0);
        assert(one[j].1 == (a[one[j].0.0 as int].1, b[one[j].0.1 as int].1));
        assert(two[j].1 == (a2[two[j].0.0 as int].1, b2[two[j].0.1 as int].1));
    }
    assert(one =~= two);
}

/// Axis symmetry of the brute force search: of a set against itself, it
/// reports the same pairs in the same order after the axes of all boxes were
/// permuted in one way.
pub proof fn law_brute_force_axis_symmetry<B: BBox, ID>(
    a: Seq<(B, ID)>,
    turned: Seq<(B, ID)>,
    perm: Seq<int>,
    same: bool,
    one: Seq<Rec<ID>>,
    two: Seq<Rec<ID>>,
)
    requires
        turned.len() == a.len(),
        perm.len() == B::DIM,
        forall|k: int| 0 <= k < B::DIM ==> 0 <= #[trigger] perm[k] < B::DIM,
        forall|t: int| 0 <= t < B::DIM ==> #[trigger] perm.contains(t),
        forall|x: int| 0 <= x < a.len() ==> (#[trigger] turned[x]).1 == a[x].1,
        forall|x: int, k: int|
            0 <= x < a.len() && 0 <= k < B::DIM ==> (#[trigger] turned[x]).0.lo_at(
                #[trigger] perm[k],
            ).rank() == a[x].0.lo_at(k).rank() && turned[x].0.hi_at(perm[k]).rank()
                == a[x].0.hi_at(k).rank(),
        brute_force_listing(a, a, same, one),
        brute_force_listing(turned, turned, same, two),
    ensures
        one == two,
{
    lemma_axes_turned(a, turned, perm);
    law_brute_force_fixed(a, a, turned, turned, same, one, two);
}

} // verus!
