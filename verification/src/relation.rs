//! The pairwise classifier: how a range stands to the range that follows it.

use crate::range::IPRange;
use vstd::prelude::*;

verus! {

/// What the classifier found of a range and its successor.
#[derive(Debug, PartialEq, Eq)]
pub enum Relation<T> {
    /// The first range reaches into the second; the second is absorbed.
    Overlap(T, T),
    /// The two ranges are the halves of the block that is carried.
    Join(T),
    /// The second range begins where the first ends, and they do not join.
    Beside(T, T),
    /// The first range stands apart from the second.
    Single(T),
}

impl<T: Clone> Clone for Relation<T> {
    fn clone(&self) -> Self {
        match self {
            Relation::Overlap(a, b) => Relation::Overlap(a.clone(), b.clone()),
            Relation::Join(p) => Relation::Join(p.clone()),
            Relation::Beside(a, b) => Relation::Beside(a.clone(), b.clone()),
            Relation::Single(a) => Relation::Single(a.clone()),
        }
    }
}

impl<T> Relation<T> {
    /// The range that the relation keeps.
    pub open spec fn kept(self) -> T {
        match self {
            Relation::Overlap(a, _) => a,
            Relation::Join(p) => p,
            Relation::Beside(a, _) => a,
            Relation::Single(a) => a,
        }
    }

    /// Whether the relation leaves nothing of the second range.
    pub open spec fn consumes_next(self) -> bool {
        self is Overlap || self is Join
    }
}

/// `a` reaches into or past the start of `b`.
pub open spec fn overlapping(a: IPRange, b: IPRange) -> bool {
    a.end() > b.start
}

/// `b` begins exactly where `a` ends.
pub open spec fn touching(a: IPRange, b: IPRange) -> bool {
    a.end() == b.start
}

/// `a` and `b` are the lower and the upper half of a block of twice their size.
pub open spec fn mergeable(a: IPRange, b: IPRange) -> bool {
    &&& a.length == b.length
    &&& touching(a, b)
    &&& a.length > 0
    &&& a.start as int % (2 * a.length) == 0
}

/// The block of twice the size of `a` that begins where `a` begins.
pub open spec fn parent(a: IPRange) -> IPRange {
    IPRange { start: a.start, length: (2 * a.length) as u64 }
}

/// The relation of `a` to its successor `b`.
pub open spec fn relation_of(a: IPRange, b: IPRange) -> Relation<IPRange> {
    if overlapping(a, b) {
        Relation::Overlap(a, b)
    } else if mergeable(a, b) {
        Relation::Join(parent(a))
    } else if touching(a, b) {
        Relation::Beside(a, b)
    } else {
        Relation::Single(a)
    }
}

/// Classifies `a` against the range `b` that follows it.
pub fn check_two_subnets(a: IPRange, b: IPRange) -> (r: Relation<IPRange>)
    ensures
        r == relation_of(a, b),
{
    if a.length > u32::MAX as u64 {
        return Relation::Overlap(a, b);
    }
    let end: u64 = a.start as u64 + a.length;
    if end > b.start as u64 {
        Relation::Overlap(a, b)
    } else if a.length == b.length && end == b.start as u64 && a.length > 0 && a.start as u64 % (2
        * a.length) == 0 {
        Relation::Join(IPRange { start: a.start, length: 2 * a.length })
    } else if end == b.start as u64 {
        Relation::Beside(a, b)
    } else {
        Relation::Single(a)
    }
}

} // verus!
