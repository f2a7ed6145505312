//! The fixpoint aggregator: rounds of pairwise classification over a list of
//! ranges in ascending order of start, until no two neighbours join.

use crate::range::IPRange;
use crate::relation::{check_two_subnets, relation_of, Relation};
use vstd::prelude::*;

verus! {

/// The range that closes the chain: the successor of the last range.
pub open spec fn sentinel() -> IPRange {
    IPRange { start: 0, length: 0 }
}

/// The range that follows position `i` of `v`.
pub open spec fn successor(v: Seq<IPRange>, i: int) -> IPRange {
    if i + 1 < v.len() {
        v[i + 1]
    } else {
        sentinel()
    }
}

/// Each range of `v` classified against its successor.
pub open spec fn relations(v: Seq<IPRange>) -> Seq<Relation<IPRange>> {
    Seq::new(v.len(), |i: int| relation_of(v[i], successor(v, i)))
}

/// Whether some relation of `t` joins two ranges.
pub open spec fn has_join(t: Seq<Relation<IPRange>>) -> bool {
    exists|i: int| 0 <= i < t.len() && t[i] is Join
}

/// The ranges that `t` leaves: every relation gives the range it keeps, but
/// for one that stands behind an overlap or a join.
pub open spec fn survivors(t: Seq<Relation<IPRange>>) -> Seq<IPRange>
    decreases t.len(),
{
    if t.len() == 0 {
        Seq::empty()
    } else if t.len() >= 2 && t[t.len() - 2].consumes_next() {
        survivors(t.drop_last())
    } else {
        survivors(t.drop_last()).push(t.last().kept())
    }
}

/// One round: classify every pair of neighbours, keep what the relations leave.
pub open spec fn round(v: Seq<IPRange>) -> Seq<IPRange> {
    survivors(relations(v))
}

/// The list that remains when rounds are run as long as one of them joins.
pub open spec fn aggregate_spec(v: Seq<IPRange>) -> Seq<IPRange>
    decreases v.len(),
    via aggregate_spec_decreases
{
    if has_join(relations(v)) {
        aggregate_spec(round(v))
    } else {
        round(v)
    }
}

#[via_fn]
proof fn aggregate_spec_decreases(v: Seq<IPRange>) {
    if has_join(relations(v)) {
        lemma_join_shrinks(v);
    }
}

/// No relation yields more than one range.
pub proof fn lemma_survivors_len(t: Seq<Relation<IPRange>>)
    ensures
        survivors(t).len() <= t.len(),
    decreases t.len(),
{
    if t.len() > 0 {
        lemma_survivors_len(t.drop_last());
    }
}

/// A relation that takes the range behind it leaves fewer ranges than relations.
pub proof fn lemma_survivors_drop(t: Seq<Relation<IPRange>>, i: int)
    requires
        0 <= i,
        i + 1 < t.len(),
        t[i].consumes_next(),
    ensures
        survivors(t).len() < t.len(),
    decreases t.len(),
{
    if i + 2 == t.len() {
        lemma_survivors_len(t.drop_last());
    } else {
        lemma_survivors_drop(t.drop_last(), i);
    }
}

/// The last range of a list never joins: its successor is the sentinel.
pub proof fn lemma_last_never_joins(v: Seq<IPRange>)
    requires
        v.len() > 0,
    ensures
        !(relations(v).last() is Join),
{
}

/// A round in which two ranges join leaves fewer ranges than it found.
pub proof fn lemma_join_shrinks(v: Seq<IPRange>)
    requires
        has_join(relations(v)),
    ensures
        round(v).len() < v.len(),
{
    let t = relations(v);
    let i = choose|i: int| 0 <= i < t.len() && t[i] is Join;
    lemma_last_never_joins(v);
    lemma_survivors_drop(t, i);
}

/// Classifies every range of `v` against its successor.
pub fn classify_pairs(v: &Vec<IPRange>) -> (t: Vec<Relation<IPRange>>)
    ensures
        t@ == relations(v@),
{
    let n = v.len();
    let mut t: Vec<Relation<IPRange>> = Vec::new();
    let mut i: usize = 0;
    while i < n
        invariant
            n == v.len(),
            0 <= i <= n,
            t.len() == i,
            forall|j: int| 0 <= j < i ==> t[j] == relation_of(v[j], successor(v@, j)),
        decreases n - i,
    {
        let next = if i + 1 < n {
            v[i + 1]
        } else {
            IPRange { start: 0, length: 0 }
        };
        t.push(check_two_subnets(v[i], next));
        i += 1;
    }
    assert(t@ =~= relations(v@));
    t
}

/// Tells whether some relation of `t` joins two ranges.
pub fn any_join(t: &Vec<Relation<IPRange>>) -> (b: bool)
    ensures
        b == has_join(t@),
{
    let mut i: usize = 0;
    while i < t.len()
        invariant
            0 <= i <= t.len(),
            forall|j: int| 0 <= j < i ==> !(t[j] is Join),
        decreases t.len() - i,
    {
        if let Relation::Join(_) = t[i] {
            return true;
        }
        i += 1;
    }
    false
}

/// Collects the ranges that the relations of `t` leave.
pub fn surviving_ranges(t: &Vec<Relation<IPRange>>) -> (v: Vec<IPRange>)
    ensures
        v@ == survivors(t@),
{
    let mut v: Vec<IPRange> = Vec::new();
    let mut i: usize = 0;
    while i < t.len()
        invariant
            0 <= i <= t.len(),
            v@ == survivors(t@.take(i as int)),
        decreases t.len() - i,
    {
        let consumed = i > 0 && match t[i - 1] {
            Relation::Overlap(_, _) => true,
            Relation::Join(_) => true,
            _ => false,
        };
        proof {
            assert(t@.take(i + 1).drop_last() =~= t@.take(i as int));
        }
        if !consumed {
            let kept = match t[i] {
                Relation::Overlap(a, _) => a,
                Relation::Join(p) => p,
                Relation::Beside(a, _) => a,
                Relation::Single(a) => a,
            };
            v.push(kept);
        }
        i += 1;
    }
    assert(t@.take(t.len() as int) =~= t@);
    v
}

/// Merges a list of ranges in ascending order of start: rounds of pairwise
/// classification run until a round joins nothing.
pub fn aggregate(ranges: Vec<IPRange>) -> (out: Vec<IPRange>)
    ensures
        out@ == aggregate_spec(ranges@),
{
    let mut current = ranges;
    loop
        invariant
            aggregate_spec(current@) == aggregate_spec(ranges@),
        decreases current.len(),
    {
        let t = classify_pairs(&current);
        let joined = any_join(&t);
        let next = surviving_ranges(&t);
        if !joined {
            return next;
        }
        proof {
            lemma_join_shrinks(current@);
        }
        current = next;
    }
}

} // verus!
