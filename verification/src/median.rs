//! Approximate medians by recursive median-of-three over sampled positions.
use crate::order::Ordered;
use vstd::math::{max, min};
use vstd::prelude::*;

verus! {

/// The middle one of three integers.
pub open spec fn mid3(x: int, y: int, z: int) -> int {
    max(min(x, y), min(max(x, y), z))
}

/// Three to the power `n`.
pub open spec fn pow3(n: nat) -> nat
    decreases n,
{
    if n == 0 {
        1
    } else {
        3 * pow3((n - 1) as nat)
    }
}

/// The ranks of `items`, in order.
pub open spec fn ranks_of<N: Ordered>(items: Seq<N>) -> Seq<int> {
    items.map_values(|x: N| x.rank())
}

/// The rank that a median-of-three tree of depth `levels` arrives at when its
/// leaves read `ranks` at the positions that end `idx`: the first leaf reads
/// at the last position of `idx`, the next leaf at the one before, and so on.
/// Such a tree has `pow3(levels)` leaves.
pub open spec fn sampled_rank(ranks: Seq<int>, levels: nat, idx: Seq<usize>) -> int
    decreases levels,
{
    if levels == 0 {
        ranks[idx.last() as int]
    } else {
        let part = pow3((levels - 1) as nat);
        mid3(
            sampled_rank(ranks, (levels - 1) as nat, idx),
            sampled_rank(ranks, (levels - 1) as nat, idx.take(idx.len() - part)),
            sampled_rank(ranks, (levels - 1) as nat, idx.take(idx.len() - 2 * part)),
        )
    }
}

/// The depth of the median-of-three tree for a set of `n` boxes: the larger
/// of 1 and the integer part of 0.91 times the natural logarithm of
/// `n / 137 + 1`, for `n` below two to the power 64. Each bound below is the
/// least `n` at which that expression reaches the next integer.
pub open spec fn depth_for(n: nat) -> nat {
    if n < 1097 {
        1
    } else if n < 3566 {
        2
    } else if n < 10973 {
        3
    } else if n < 33203 {
        4
    } else if n < 99910 {
        5
    } else if n < 300089 {
        6
    } else if n < 900800 {
        7
    } else if n < 2703453 {
        8
    } else if n < 8112974 {
        9
    } else if n < 24346226 {
        10
    } else if n < 73060049 {
        11
    } else if n < 219243729 {
        12
    } else if n < 657921448 {
        13
    } else if n < 1974334744 {
        14
    } else if n < 5924715377 {
        15
    } else if n < 17779280501 {
        16
    } else if n < 53353248516 {
        17
    } else if n < 160105979390 {
        18
    } else if n < 480456679213 {
        19
    } else if n < 1441786380446 {
        20
    } else if n < 4326608530002 {
        21
    } else if n < 12983574838117 {
        22
    } else if n < 38961975507070 {
        23
    } else if n < 116919689248430 {
        24
    } else if n < 350860385183695 {
        25
    } else if n < 1052885195662966 {
        26
    } else if n < 3159567970791729 {
        27
    } else if n < 9481441854414637 {
        28
    } else if n < 28452541761941346 {
        29
    } else if n < 85382281001710660 {
        30
    } else if n < 256220831518345596 {
        31
    } else if n < 768884524209854421 {
        32
    } else if n < 2307319853995106997 {
        33
    } else if n < 6923958983451952074 {
        34
    } else {
        35
    }
}

/// The powers of three grow with the exponent.
pub proof fn lemma_pow3_grows(a: nat, b: nat)
    requires
        a <= b,
    ensures
        1 <= pow3(a) <= pow3(b),
    decreases b,
{
    if b > 0 {
        if a < b {
            lemma_pow3_grows(a, (b - 1) as nat);
        } else {
            lemma_pow3_grows((a - 1) as nat, (b - 1) as nat);
        }
    }
}

/// A tree of the depth chosen for `n` boxes has at most `n` leaves, or three.
pub proof fn lemma_leaves_fit(n: nat)
    ensures
        pow3(depth_for(n)) <= max(n as int, 3),
{
    assert(pow3(0) == 1);
    assert(pow3(1) == 3);
    assert(pow3(2) == 9);
    assert(pow3(3) == 27);
    assert(pow3(4) == 81);
    assert(pow3(5) == 243);
    assert(pow3(6) == 729);
    assert(pow3(7) == 2187);
    assert(pow3(8) == 6561);
    assert(pow3(9) == 19683);
    assert(pow3(10) == 59049);
    assert(pow3(11) == 177147);
    assert(pow3(12) == 531441);
    assert(pow3(13) == 1594323);
    assert(pow3(14) == 4782969);
    assert(pow3(15) == 14348907);
    assert(pow3(16) == 43046721);
    assert(pow3(17) == 129140163);
    assert(pow3(18) == 387420489);
    assert(pow3(19) == 1162261467);
    assert(pow3(20) == 3486784401);
    assert(pow3(21) == 10460353203);
    assert(pow3(22) == 31381059609);
    assert(pow3(23) == 94143178827);
    assert(pow3(24) == 282429536481);
    assert(pow3(25) == 847288609443);
    assert(pow3(26) == 2541865828329);
    assert(pow3(27) == 7625597484987);
    assert(pow3(28) == 22876792454961);
    assert(pow3(29) == 68630377364883);
    assert(pow3(30) == 205891132094649);
    assert(pow3(31) == 617673396283947);
    assert(pow3(32) == 1853020188851841);
    assert(pow3(33) == 5559060566555523);
    assert(pow3(34) == 16677181699666569);
    assert(pow3(35) == 50031545098999707);
}

/// Returns the median of `a`, `b` and `c`.
pub fn median_of_3<N: Ordered>(a: N, b: N, c: N) -> (r: N)
    ensures
        r.rank() == mid3(a.rank(), b.rank(), c.rank()),
        r == a || r == b || r == c,
{
    if b.less_than(a) {
        if c.less_than(b) {
            // b is in the middle
            b
        } else {
            // b is the smallest
            if c.less_than(a) {
                c
            } else {
                a
            }
        }
    } else {
        if b.less_than(c) {
            // b is in the middle
            b
        } else {
            // b is the largest
            if c.less_than(a) {
                a
            } else {
                c
            }
        }
    }
}

/// Returns the depth of the median-of-three tree for a set of `n` boxes.
pub fn sample_depth(n: usize) -> (levels: u8)
    ensures
        levels == depth_for(n as nat),
        1 <= levels <= 35,
{
    let m: u64 = n as u64;
    if m < 1097 {
        1
    } else if m < 3566 {
        2
    } else if m < 10973 {
        3
    } else if m < 33203 {
        4
    } else if m < 99910 {
        5
    } else if m < 300089 {
        6
    } else if m < 900800 {
        7
    } else if m < 2703453 {
        8
    } else if m < 8112974 {
        9
    } else if m < 24346226 {
        10
    } else if m < 73060049 {
        11
    } else if m < 219243729 {
        12
    } else if m < 657921448 {
        13
    } else if m < 1974334744 {
        14
    } else if m < 5924715377 {
        15
    } else if m < 17779280501 {
        16
    } else if m < 53353248516 {
        17
    } else if m < 160105979390 {
        18
    } else if m < 480456679213 {
        19
    } else if m < 1441786380446 {
        20
    } else if m < 4326608530002 {
        21
    } else if m < 12983574838117 {
        22
    } else if m < 38961975507070 {
        23
    } else if m < 116919689248430 {
        24
    } else if m < 350860385183695 {
        25
    } else if m < 1052885195662966 {
        26
    } else if m < 3159567970791729 {
        27
    } else if m < 9481441854414637 {
        28
    } else if m < 28452541761941346 {
        29
    } else if m < 85382281001710660 {
        30
    } else if m < 256220831518345596 {
        31
    } else if m < 768884524209854421 {
        32
    } else if m < 2307319853995106997 {
        33
    } else if m < 6923958983451952074 {
        34
    } else {
        35
    }
}

/// Returns the recursive median of three of depth `levels` over `items`,
/// reading them at the positions taken off the end of `random_indices`.
pub fn approx_median<N: Ordered>(
    items: &Vec<N>,
    levels: u8,
    random_indices: &mut Vec<usize>,
) -> (r: N)
    requires
        old(random_indices)@.len() >= pow3(levels as nat),
        forall|j: int|
            old(random_indices)@.len() - pow3(levels as nat) <= j < old(random_indices)@.len()
                ==> old(random_indices)@[j] < items@.len(),
    ensures
        final(random_indices)@ == old(random_indices)@.take(
            old(random_indices)@.len() - pow3(levels as nat),
        ),
        r.rank() == sampled_rank(ranks_of(items@), levels as nat, old(random_indices)@),
        exists|j: int|
            old(random_indices)@.len() - pow3(levels as nat) <= j < old(random_indices)@.len()
                && r == items@[#[trigger] old(random_indices)@[j] as int],
    decreases levels,
{
    let ghost all = random_indices@;
    let ghost n = all.len() as int;
    if levels == 0 {
        let at = random_indices.pop().unwrap();
        proof {
            assert(random_indices@ == all.take(n - 1));
            assert(items@[all[n - 1] as int] == items@[at as int]);
        }
        items[at]
    } else {
        let ghost part = pow3((levels - 1) as nat) as int;
        proof {
            lemma_pow3_grows(0, (levels - 1) as nat);
        }
        let a = approx_median(items, levels - 1, random_indices);
        proof {
            assert(random_indices@ == all.take(n - part));
        }
        let b = approx_median(items, levels - 1, random_indices);
        proof {
            assert(random_indices@ == all.take(n - 2 * part));
        }
        let c = approx_median(items, levels - 1, random_indices);
        proof {
            assert(random_indices@ == all.take(n - 3 * part));
        }
        median_of_3(a, b, c)
    }
}

} // verus!
