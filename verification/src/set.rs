//! Sets of boxes that can be passed to the intersection finding algorithms.
use crate::boxes::BBox;
use crate::median::{depth_for, lemma_leaves_fit, lemma_pow3_grows, pow3, sample_depth, sampled_rank};
use crate::order::Ordered;
use crate::sorting::sort_by_low;
use crate::Rng;
use vstd::prelude::*;

verus! {

/// A generic set of [`BBox`]es of type `B` with identifiers of type `ID`.
///
/// Its view is the sequence of its entries, each a box with its identifier.
#[derive(Clone, Debug)]
pub struct BBoxSet<B: BBox, ID> {
    pub boxes: Vec<(B, ID)>,
}

impl<B: BBox, ID> View for BBoxSet<B, ID> {
    type V = Seq<(B, ID)>;

    open spec fn view(&self) -> Seq<(B, ID)> {
        self.boxes@
    }
}

/// The low boundaries on axis 0 do not decrease along `s`.
pub open spec fn ascending<B: BBox, ID>(s: Seq<(B, ID)>) -> bool {
    forall|x: int, y: int|
        0 <= x <= y < s.len() ==> (#[trigger] s[x]).0.lo_at(0).rank() <= (#[trigger] s[y]).0.lo_at(
            0,
        ).rank()
}

/// The ranks of the low boundaries on axis `dim`, in the order of `s`.
pub open spec fn low_ranks<B: BBox, ID>(s: Seq<(B, ID)>, dim: int) -> Seq<int> {
    s.map_values(|e: (B, ID)| e.0.lo_at(dim).rank())
}

/// The positions at which `flags` holds `want`, in increasing order.
pub open spec fn positions(flags: Seq<bool>, want: bool) -> Seq<int>
    decreases flags.len(),
{
    if flags.len() == 0 {
        Seq::empty()
    } else {
        let rest = positions(flags.drop_last(), want);
        if flags.last() == want {
            rest.push(flags.len() - 1)
        } else {
            rest
        }
    }
}

/// The items of `s` at the positions at which `flags` holds `want`, in order.
pub open spec fn picked<T>(s: Seq<T>, flags: Seq<bool>, want: bool) -> Seq<T> {
    positions(flags, want).map_values(|at: int| s[at])
}

/// `flags` holds, for each item of `s`, an answer that `pred` may give on it.
pub open spec fn decided<T, P: Fn(&T) -> bool>(pred: P, s: Seq<T>, flags: Seq<bool>) -> bool {
    &&& flags.len() == s.len()
    &&& forall|j: int| 0 <= j < s.len() ==> call_ensures(pred, (&s[j],), #[trigger] flags[j])
}

/// What `positions` holds: the wanted positions, each once, in increasing order.
pub proof fn lemma_positions(flags: Seq<bool>, want: bool)
    ensures
        forall|j: int|
            0 <= j < positions(flags, want).len() ==> 0 <= (#[trigger] positions(flags, want)[j])
                < flags.len() && flags[positions(flags, want)[j]] == want,
        forall|j: int, l: int|
            0 <= j < l < positions(flags, want).len() ==> positions(flags, want)[j] < positions(
                flags,
                want,
            )[l],
        forall|x: int|
            0 <= x < flags.len() && #[trigger] flags[x] == want ==> positions(
                flags,
                want,
            ).contains(x),
        positions(flags, want).len() <= flags.len(),
    decreases flags.len(),
{
    if flags.len() > 0 {
        let init = flags.drop_last();
        lemma_positions(init, want);
        let rest = positions(init, want);
        let all = positions(flags, want);
        assert forall|x: int| 0 <= x < flags.len() && #[trigger] flags[x] == want implies all.contains(
            x,
        ) by {
            if x < flags.len() - 1 {
                assert(init[x] == want);
                let j = choose|j: int| 0 <= j < rest.len() && rest[j] == x;
                assert(all[j] == x);
            } else {
                assert(all[all.len() - 1] == x);
            }
        }
    }
}

/// Each position holds either `true` or `false`.
pub proof fn lemma_positions_split(flags: Seq<bool>)
    ensures
        positions(flags, true).len() + positions(flags, false).len() == flags.len(),
    decreases flags.len(),
{
    if flags.len() > 0 {
        lemma_positions_split(flags.drop_last());
    }
}

/// One more answer adds its item where the answer is the wanted one.
pub proof fn lemma_picked_step<T>(s: Seq<T>, flags: Seq<bool>, answer: bool, want: bool)
    requires
        flags.len() < s.len(),
    ensures
        picked(s, flags.push(answer), want) == if answer == want {
            picked(s, flags, want).push(s[flags.len() as int])
        } else {
            picked(s, flags, want)
        },
{
    let more = flags.push(answer);
    assert(more.drop_last() == flags);
    if answer == want {
        assert(picked(s, more, want) =~= picked(s, flags, want).push(s[flags.len() as int]));
    }
}

impl<B: BBox, ID: Copy> BBoxSet<B, ID> {
    /// Creates a new, empty set. Prefer [`BBoxSet::with_capacity`].
    pub fn new() -> (r: Self)
        ensures
            r@ == Seq::<(B, ID)>::empty(),
    {
        Self { boxes: Vec::new() }
    }

    /// Creates a new, empty set with the specified capacity. See [`Vec::with_capacity`].
    pub fn with_capacity(capacity: usize) -> (r: Self)
        ensures
            r@ == Seq::<(B, ID)>::empty(),
    {
        Self { boxes: Vec::with_capacity(capacity) }
    }

    /// Adds a box with an identifier to the set.
    /// * `id` must be a unique identifier for that box.
    pub fn push(&mut self, id: ID, bbox: B)
        ensures
            final(self)@ == old(self)@.push((bbox, id)),
    {
        self.boxes.push((bbox, id));
    }

    /// Removes all boxes from the set.
    pub fn clear(&mut self)
        ensures
            final(self)@ == Seq::<(B, ID)>::empty(),
    {
        self.boxes.clear();
    }

    /// Sorts the boxes in the set by their low boundaries in dimension 0.
    /// Needed for the intersection finding algorithms.
    pub fn sort(&mut self)
        requires
            0 < B::DIM,
        ensures
            final(self)@.to_multiset() == old(self)@.to_multiset(),
            ascending(final(self)@),
    {
        sort_by_low(&mut self.boxes);
    }

    /// Returns the number of boxes in the set.
    pub fn len(&self) -> (n: usize)
        ensures
            n == self@.len(),
    {
        self.boxes.len()
    }

    /// Returns the box at the given index and its identifier.
    pub fn get(&self, idx: usize) -> (e: (B, ID))
        requires
            idx < self@.len(),
        ensures
            e == self@[idx as int],
    {
        self.boxes[idx]
    }

    /// Returns `true` if the set is empty.
    pub fn empty(&self) -> (r: bool)
        ensures
            r == (self@.len() == 0),
    {
        self.len() == 0
    }

    /// Returns a subset of the set, containing only those boxes that match the given predicate.
    /// If the set is sorted, the sorting is preserved in the subset.
    pub fn filter<P: Fn(&(B, ID)) -> bool>(&self, pred: P) -> (r: Self)
        requires
            forall|j: int| 0 <= j < self@.len() ==> call_requires(pred, (&#[trigger] self@[j],)),
        ensures
            exists|flags: Seq<bool>| #[trigger]
                decided(pred, self@, flags) && r@ == picked(self@, flags, true),
    {
        let mut kept: Vec<(B, ID)> = Vec::new();
        let ghost mut flags = Seq::<bool>::empty();
        let mut i: usize = 0;
        while i < self.boxes.len()
            invariant
                i <= self@.len(),
                flags.len() == i,
                forall|j: int| 0 <= j < self@.len() ==> call_requires(pred, (&#[trigger] self@[j],)),
                forall|j: int| 0 <= j < i ==> call_ensures(pred, (&self@[j],), #[trigger] flags[j]),
                kept@ == picked(self@, flags, true),
            decreases self@.len() - i,
        {
            let keep = pred(&self.boxes[i]);
            proof {
                lemma_picked_step(self@, flags, keep, true);
                flags = flags.push(keep);
            }
            if keep {
                kept.push(self.boxes[i]);
            }
            i += 1;
        }
        proof {
            assert(decided(pred, self@, flags));
        }
        Self { boxes: kept }
    }

    /// Returns a pair of subsets of the set, containing:
    /// * those boxes for which the given predicate returns `true`
    /// * those for which it returns `false`
    ///
    /// If the set is sorted, the sorting is preserved in the subsets.
    pub fn partition<P: Fn(&(B, ID)) -> bool>(&self, pred: P) -> (r: (Self, Self))
        requires
            forall|j: int| 0 <= j < self@.len() ==> call_requires(pred, (&#[trigger] self@[j],)),
        ensures
            exists|flags: Seq<bool>| #[trigger]
                decided(pred, self@, flags) && r.0@ == picked(self@, flags, true) && r.1@
                    == picked(self@, flags, false),
    {
        let mut yes: Vec<(B, ID)> = Vec::new();
        let mut no: Vec<(B, ID)> = Vec::new();
        let ghost mut flags = Seq::<bool>::empty();
        let mut i: usize = 0;
        while i < self.boxes.len()
            invariant
                i <= self@.len(),
                flags.len() == i,
                forall|j: int| 0 <= j < self@.len() ==> call_requires(pred, (&#[trigger] self@[j],)),
                forall|j: int| 0 <= j < i ==> call_ensures(pred, (&self@[j],), #[trigger] flags[j]),
                yes@ == picked(self@, flags, true),
                no@ == picked(self@, flags, false),
            decreases self@.len() - i,
        {
            let keep = pred(&self.boxes[i]);
            proof {
                lemma_picked_step(self@, flags, keep, true);
                lemma_picked_step(self@, flags, keep, false);
                flags = flags.push(keep);
            }
            if keep {
                yes.push(self.boxes[i]);
            } else {
                no.push(self.boxes[i]);
            }
            i += 1;
        }
        proof {
            assert(decided(pred, self@, flags));
        }
        (Self { boxes: yes }, Self { boxes: no })
    }

    /// Returns an approximate median of the low boundaries in dimension `dim` of the boxes,
    /// obtained by recursively calculating medians of three (medians of ...) random elements
    /// * `rand` must be a random number generator implementing the [`Rng`] trait.
    ///
    /// One position is drawn from `rand` for each leaf of the tree of
    /// medians, and [`BBoxSet::median_at`] reads the boxes at these positions.
    pub fn approx_median<R: Rng>(&self, dim: usize, rand: &mut R) -> (m: B::Num)
        requires
            dim < B::DIM,
            self@.len() > 0,
        ensures
            exists|j: int| 0 <= j < self@.len() && m == (#[trigger] self@[j]).0.lo_at(dim as int),
            exists|idx: Seq<usize>|
                {
                    &&& idx.len() == pow3(depth_for(self@.len()))
                    &&& forall|j: int| 0 <= j < idx.len() ==> #[trigger] idx[j] < self@.len()
                    &&& m.rank() == #[trigger] sampled_rank(
                        low_ranks(self@, dim as int),
                        depth_for(self@.len()),
                        idx,
                    )
                },
    {
        let n = self.boxes.len();
        let levels = sample_depth(n);
        proof {
            lemma_leaves_fit(n as nat);
        }
        let mut cap: usize = 1;
        let mut l: u8 = 0;
        while l < levels
            invariant
                l <= levels,
                cap == pow3(l as nat),
                pow3(levels as nat) <= usize::MAX,
            decreases levels - l,
        {
            proof {
                lemma_pow3_grows((l + 1) as nat, levels as nat);
            }
            cap = cap * 3;
            l += 1;
        }
        let mut random_indices: Vec<usize> = Vec::with_capacity(cap);
        let mut k: usize = 0;
        while k < cap
            invariant
                k <= cap,
                n > 0,
                random_indices@.len() == k,
                forall|j: int| 0 <= j < k ==> #[trigger] random_indices@[j] < n,
            decreases cap - k,
        {
            random_indices.push(rand.rand_usize(n));
            k += 1;
        }
        let ghost idx = random_indices@;
        let m = self.median_at(dim, &mut random_indices);
        proof {
            assert(m.rank() == sampled_rank(low_ranks(self@, dim as int), depth_for(self@.len()), idx));
        }
        m
    }

    /// Returns the recursive median of three of the low boundaries in
    /// dimension `dim` of the boxes at the positions taken off the end of
    /// `random_indices`: as many as the tree of medians has leaves, which has
    /// the depth that [`depth_for`] gives for the number of boxes.
    pub fn median_at(&self, dim: usize, random_indices: &mut Vec<usize>) -> (m: B::Num)
        requires
            dim < B::DIM,
            self@.len() > 0,
            old(random_indices)@.len() >= pow3(depth_for(self@.len())),
            forall|j: int|
                old(random_indices)@.len() - pow3(depth_for(self@.len())) <= j < old(
                    random_indices,
                )@.len() ==> old(random_indices)@[j] < self@.len(),
        ensures
            final(random_indices)@ == old(random_indices)@.take(
                old(random_indices)@.len() - pow3(depth_for(self@.len())),
            ),
            m.rank() == sampled_rank(
                low_ranks(self@, dim as int),
                depth_for(self@.len()),
                old(random_indices)@,
            ),
            exists|j: int|
                old(random_indices)@.len() - pow3(depth_for(self@.len())) <= j < old(
                    random_indices,
                )@.len() && m == self@[#[trigger] old(random_indices)@[j] as int].0.lo_at(dim as int),
    {
        let n = self.boxes.len();
        let levels = sample_depth(n);
        let mut points: Vec<B::Num> = Vec::with_capacity(n);
        let mut i: usize = 0;
        while i < n
            invariant
                i <= n,
                n == self@.len(),
                dim < B::DIM,
                points@.len() == i,
                forall|j: int| 0 <= j < i ==> #[trigger] points@[j] == self@[j].0.lo_at(dim as int),
            decreases n - i,
        {
            points.push(self.boxes[i].0.lo(dim));
            i += 1;
        }
        let ghost idx = random_indices@;
        let m = crate::median::approx_median(&points, levels, random_indices);
        proof {
            assert(crate::median::ranks_of(points@) =~= low_ranks(self@, dim as int));
            let j = choose|j: int|
                idx.len() - pow3(levels as nat) <= j < idx.len() && m == points@[#[trigger] idx[j] as int];
            assert(m == self@[idx[j] as int].0.lo_at(dim as int));
        }
        m
    }
}

impl<B: BBox, ID: Ordered> BBoxSet<B, ID> {
    /// Performs a linear search for the box with the given identifier.
    /// Returns [`Some`] with the first such box if found, [`None`] otherwise.
    pub fn find(&self, id: ID) -> (r: Option<B>)
        ensures
            match r {
                Some(found) => exists|j: int|
                    {
                        &&& 0 <= j < self@.len()
                        &&& (#[trigger] self@[j]).1.rank() == id.rank()
                        &&& self@[j].0 == found
                        &&& forall|l: int| 0 <= l < j ==> (#[trigger] self@[l]).1.rank() != id.rank()
                    },
                None => forall|j: int|
                    0 <= j < self@.len() ==> (#[trigger] self@[j]).1.rank() != id.rank(),
            },
    {
        let mut i: usize = 0;
        while i < self.boxes.len()
            invariant
                i <= self@.len(),
                forall|l: int| 0 <= l < i ==> (#[trigger] self@[l]).1.rank() != id.rank(),
            decreases self@.len() - i,
        {
            if self.boxes[i].1.equals(id) {
                return Some(self.boxes[i].0);
            }
            i += 1;
        }
        None
    }
}

} // verus!
