//! Ordering the entries of a set along the first axis.
use crate::boxes::BBox;
use crate::order::Ordered;
use crate::set::ascending;
use core::cmp::Ordering;
use vstd::prelude::*;

verus! {

/// Compares two entries by the low boundaries of their boxes on axis 0.
pub fn entry_order<B: BBox, ID>(a: &(B, ID), b: &(B, ID)) -> (o: Ordering)
    requires
        0 < B::DIM,
    ensures
        (o == Ordering::Less) == (a.0.lo_at(0).rank() < b.0.lo_at(0).rank()),
        (o == Ordering::Greater) == (b.0.lo_at(0).rank() < a.0.lo_at(0).rank()),
{
    let x = a.0.lo(0);
    let y = b.0.lo(0);
    if x.less_than(y) {
        Ordering::Less
    } else if y.less_than(x) {
        Ordering::Greater
    } else {
        Ordering::Equal
    }
}

/// Sorts `entries` with `sort_by` of the standard library, which is given
/// [`entry_order`] to compare with. Believed of it: it rearranges the
/// entries, losing and adding none, so that the low boundaries on axis 0 do
/// not decrease.
#[verifier::external_body]
pub(crate) fn sort_by_low<B: BBox, ID>(entries: &mut Vec<(B, ID)>)
    requires
        0 < B::DIM,
    ensures
        final(entries)@.to_multiset() == old(entries)@.to_multiset(),
        ascending(final(entries)@),
{
    entries.sort_by(|a, b| entry_order(a, b));
}

} // verus!
