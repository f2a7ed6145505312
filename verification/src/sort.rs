//! Ordering a list of ranges by start before it is aggregated.

use crate::aggregate::{aggregate, aggregate_spec};
use crate::laws::lemma_merge_is_ascending;
use crate::range::IPRange;
use rayon::slice::ParallelSliceMut;
use std::cmp::Ordering;
use vstd::prelude::*;

verus! {

/// No range of `v` begins before an earlier one.
pub open spec fn ascending(v: Seq<IPRange>) -> bool {
    forall|i: int, j: int| 0 <= i < j < v.len() ==> (#[trigger] v[i]).start <= (#[trigger] v[j]).start
}

/// The ranges of `v` that begin at `start`, in the order in which `v` holds them.
pub open spec fn starting_at(v: Seq<IPRange>, start: u32) -> Seq<IPRange> {
    v.filter(|r: IPRange| r.start == start)
}

/// `out` holds the ranges of `v` in ascending order of start, those of equal
/// start in the order in which `v` holds them.
pub open spec fn is_stable_sort_of(out: Seq<IPRange>, v: Seq<IPRange>) -> bool {
    &&& ascending(out)
    &&& out.to_multiset() == v.to_multiset()
    &&& forall|start: u32| #[trigger] starting_at(out, start) == starting_at(v, start)
}

/// `s` with `x` put behind the last range that does not begin after `x`.
pub open spec fn insert_by_start(s: Seq<IPRange>, x: IPRange) -> Seq<IPRange>
    decreases s.len(),
{
    if s.len() == 0 || s.last().start <= x.start {
        s.push(x)
    } else {
        insert_by_start(s.drop_last(), x).push(s.last())
    }
}

/// The ranges of `v` in ascending order of start, those of equal start in
/// the order in which `v` holds them.
pub open spec fn sorted_by_start(v: Seq<IPRange>) -> Seq<IPRange>
    decreases v.len(),
{
    if v.len() == 0 {
        Seq::empty()
    } else {
        insert_by_start(sorted_by_start(v.drop_last()), v.last())
    }
}

/// What sorting by start and aggregating makes of `v`.
pub open spec fn merge_spec(v: Seq<IPRange>) -> Seq<IPRange> {
    aggregate_spec(sorted_by_start(v))
}

/// Orders two ranges by their starts.
pub fn order_by_start(a: &IPRange, b: &IPRange) -> (o: Ordering)
    ensures
        o == if a.start < b.start {
            Ordering::Less
        } else if a.start == b.start {
            Ordering::Equal
        } else {
            Ordering::Greater
        },
{
    if a.start < b.start {
        Ordering::Less
    } else if a.start == b.start {
        Ordering::Equal
    } else {
        Ordering::Greater
    }
}

/// Sorts `v` by start with rayon's `par_sort_by`, handing it `order_by_start`
/// to compare with. That sort is documented as stable: the contract says that
/// `v` afterwards holds the same ranges in ascending order of start, and those
/// of equal start in the order they had.
#[verifier::external_body]
fn sort_by_start(v: &mut Vec<IPRange>)
    ensures
        is_stable_sort_of(final(v)@, old(v)@),
{
    v.par_sort_by(|a, b| order_by_start(a, b));
}

/// Sorts a list of ranges by start and aggregates it.
pub fn merge_ranges(ranges: Vec<IPRange>) -> (out: Vec<IPRange>)
    ensures
        out@ == merge_spec(ranges@),
        ascending(out@),
{
    let mut v = ranges;
    sort_by_start(&mut v);
    proof {
        lemma_sorted_by_start(ranges@);
        lemma_stable_sort_is_unique(ranges@, v@, sorted_by_start(ranges@));
        lemma_merge_is_ascending(ranges@);
    }
    aggregate(v)
}

proof fn lemma_starting_at_push(s: Seq<IPRange>, x: IPRange, start: u32)
    ensures
        starting_at(s.push(x), start) == if x.start == start {
            starting_at(s, start).push(x)
        } else {
            starting_at(s, start)
        },
{
    reveal(Seq::filter);
    assert(s.push(x).drop_last() =~= s);
}

proof fn lemma_starting_at_nonempty(s: Seq<IPRange>, start: u32) -> (i: int)
    requires
        starting_at(s, start).len() > 0,
    ensures
        0 <= i < s.len(),
        s[i].start == start,
    decreases s.len(),
{
    reveal(Seq::filter);
    if s.last().start == start {
        s.len() - 1
    } else {
        lemma_starting_at_nonempty(s.drop_last(), start)
    }
}

proof fn lemma_same_groups(a: Seq<IPRange>, b: Seq<IPRange>)
    requires
        ascending(a),
        ascending(b),
        forall|start: u32| #[trigger] starting_at(a, start) == starting_at(b, start),
    ensures
        a == b,
    decreases a.len(),
{
    if a.len() == 0 {
        if b.len() > 0 {
            let y = b.last();
            assert(b =~= b.drop_last().push(y));
            lemma_starting_at_push(b.drop_last(), y, y.start);
            assert(starting_at(b, y.start).len() > 0);
            assert(starting_at(a, y.start) == starting_at(b, y.start));
            assert(starting_at(a, y.start).len() == 0) by {
                reveal(Seq::filter);
            }
        }
        assert(a =~= b);
    } else {
        let x = a.last();
        let pa = a.drop_last();
        assert(a =~= pa.push(x));
        lemma_starting_at_push(pa, x, x.start);
        assert(starting_at(a, x.start) == starting_at(b, x.start));
        let ib = lemma_starting_at_nonempty(b, x.start);
        let y = b.last();
        let pb = b.drop_last();
        assert(b =~= pb.push(y));
        lemma_starting_at_push(pb, y, y.start);
        assert(starting_at(a, y.start) == starting_at(b, y.start));
        let ia = lemma_starting_at_nonempty(a, y.start);
        assert(a[ia].start <= a[a.len() - 1].start);
        assert(b[ib].start <= b[b.len() - 1].start);
        assert(x.start == y.start);
        assert(starting_at(pa, x.start).push(x) == starting_at(pb, x.start).push(y));
        assert(starting_at(pa, x.start).push(x).last() == x);
        assert(starting_at(pb, x.start).push(y).last() == y);
        assert(starting_at(pa, x.start).push(x).drop_last() =~= starting_at(pa, x.start));
        assert(starting_at(pb, x.start).push(y).drop_last() =~= starting_at(pb, x.start));
        assert forall|start: u32| #[trigger] starting_at(pa, start) == starting_at(pb, start) by {
            lemma_starting_at_push(pa, x, start);
            lemma_starting_at_push(pb, y, start);
            assert(starting_at(a, start) == starting_at(b, start));
        }
        assert(ascending(pa)) by {
            assert forall|i: int, j: int| 0 <= i < j < pa.len() implies (#[trigger] pa[i]).start
                <= (#[trigger] pa[j]).start by {
                assert(a[i].start <= a[j].start);
            }
        }
        assert(ascending(pb)) by {
            assert forall|i: int, j: int| 0 <= i < j < pb.len() implies (#[trigger] pb[i]).start
                <= (#[trigger] pb[j]).start by {
                assert(b[i].start <= b[j].start);
            }
        }
        lemma_same_groups(pa, pb);
    }
}

/// A list has one stable sort by start and no other.
pub proof fn lemma_stable_sort_is_unique(v: Seq<IPRange>, a: Seq<IPRange>, b: Seq<IPRange>)
    requires
        is_stable_sort_of(a, v),
        is_stable_sort_of(b, v),
    ensures
        a == b,
{
    assert forall|start: u32| #[trigger] starting_at(a, start) == starting_at(b, start) by {
        assert(starting_at(a, start) == starting_at(v, start));
        assert(starting_at(b, start) == starting_at(v, start));
    }
    lemma_same_groups(a, b);
}

proof fn lemma_insert_by_start(s: Seq<IPRange>, x: IPRange)
    ensures
        insert_by_start(s, x).len() == s.len() + 1,
        insert_by_start(s, x).last().start == if s.len() == 0 || s.last().start <= x.start {
            x.start
        } else {
            s.last().start
        },
        ascending(s) ==> ascending(insert_by_start(s, x)),
        insert_by_start(s, x).to_multiset() == s.to_multiset().insert(x),
        forall|start: u32| #[trigger]
            starting_at(insert_by_start(s, x), start) == if x.start == start {
                starting_at(s, start).push(x)
            } else {
                starting_at(s, start)
            },
    decreases s.len(),
{
    broadcast use vstd::seq_lib::group_to_multiset_ensures;

    let out = insert_by_start(s, x);
    if s.len() == 0 || s.last().start <= x.start {
        assert forall|start: u32| #[trigger]
            starting_at(out, start) == if x.start == start {
                starting_at(s, start).push(x)
            } else {
                starting_at(s, start)
            } by {
            lemma_starting_at_push(s, x, start);
        }
        if ascending(s) {
            assert forall|i: int, j: int| 0 <= i < j < out.len() implies (#[trigger] out[i]).start
                <= (#[trigger] out[j]).start by {
                if j < s.len() {
                    assert(s[i].start <= s[j].start);
                } else if s.len() > 0 && i < s.len() - 1 {
                    assert(s[i].start <= s[s.len() - 1].start);
                }
            }
        }
    } else {
        let front = s.drop_last();
        let last = s.last();
        let mid = insert_by_start(front, x);
        lemma_insert_by_start(front, x);
        assert(s =~= front.push(last));
        assert(out == mid.push(last));
        assert(out.to_multiset() =~= s.to_multiset().insert(x));
        assert forall|start: u32| #[trigger]
            starting_at(out, start) == if x.start == start {
                starting_at(s, start).push(x)
            } else {
                starting_at(s, start)
            } by {
            lemma_starting_at_push(mid, last, start);
            lemma_starting_at_push(front, last, start);
            assert(starting_at(mid, start) == if x.start == start {
                starting_at(front, start).push(x)
            } else {
                starting_at(front, start)
            });
        }
        if ascending(s) {
            assert(ascending(front)) by {
                assert forall|i: int, j: int| 0 <= i < j < front.len() implies (
                #[trigger] front[i]).start <= (#[trigger] front[j]).start by {
                    assert(s[i].start <= s[j].start);
                }
            }
            assert forall|i: int, j: int| 0 <= i < j < out.len() implies (#[trigger] out[i]).start
                <= (#[trigger] out[j]).start by {
                if j < mid.len() {
                    assert(mid[i].start <= mid[j].start);
                } else if i < mid.len() - 1 {
                    assert(mid[i].start <= mid[mid.len() - 1].start);
                    if front.len() > 0 {
                        assert(s[front.len() - 1].start <= s[s.len() - 1].start);
                    }
                }
            }
        }
    }
}

/// `sorted_by_start` is the stable sort by start.
pub proof fn lemma_sorted_by_start(v: Seq<IPRange>)
    ensures
        is_stable_sort_of(sorted_by_start(v), v),
    decreases v.len(),
{
    broadcast use vstd::seq_lib::group_to_multiset_ensures;

    if v.len() == 0 {
        assert(sorted_by_start(v) =~= v);
    } else {
        let front = v.drop_last();
        lemma_sorted_by_start(front);
        lemma_insert_by_start(sorted_by_start(front), v.last());
        assert(v =~= front.push(v.last()));
        assert(sorted_by_start(v).to_multiset() =~= v.to_multiset());
        assert forall|start: u32| #[trigger]
            starting_at(sorted_by_start(v), start) == starting_at(v, start) by {
            lemma_starting_at_push(front, v.last(), start);
            assert(starting_at(sorted_by_start(front), start) == starting_at(front, start));
        }
    }
}

proof fn lemma_two_starting_at(v: Seq<IPRange>, start: u32) -> (pq: (int, int))
    requires
        starting_at(v, start).len() >= 2,
    ensures
        0 <= pq.0 < pq.1 < v.len(),
        v[pq.0].start == start,
        v[pq.1].start == start,
    decreases v.len(),
{
    reveal(Seq::filter);
    if v.len() == 0 {
        (0, 0)
    } else if v.last().start == start {
        let p = lemma_starting_at_nonempty(v.drop_last(), start);
        (p, v.len() - 1)
    } else {
        lemma_two_starting_at(v.drop_last(), start)
    }
}

proof fn lemma_starting_at_counts(s: Seq<IPRange>, i: int, j: int)
    requires
        0 <= i < j < s.len(),
        s[i].start == s[j].start,
    ensures
        starting_at(s, s[i].start).len() >= 2,
    decreases s.len(),
{
    let start = s[i].start;
    let front = s.drop_last();
    assert(s =~= front.push(s.last()));
    lemma_starting_at_push(front, s.last(), start);
    if j == s.len() - 1 {
        lemma_starting_at_holds(front, i);
    } else {
        lemma_starting_at_counts(front, i, j);
    }
}

proof fn lemma_starting_at_holds(s: Seq<IPRange>, i: int)
    requires
        0 <= i < s.len(),
    ensures
        starting_at(s, s[i].start).len() >= 1,
    decreases s.len(),
{
    let front = s.drop_last();
    assert(s =~= front.push(s.last()));
    lemma_starting_at_push(front, s.last(), s[i].start);
    if i < s.len() - 1 {
        lemma_starting_at_holds(front, i);
    }
}

/// Two ranges of one start in the sorted form of `v` are two ranges of that
/// start in `v`.
pub proof fn lemma_equal_starts_in_source(v: Seq<IPRange>, i: int, j: int) -> (pq: (int, int))
    requires
        0 <= i < j < sorted_by_start(v).len(),
        sorted_by_start(v)[i].start == sorted_by_start(v)[j].start,
    ensures
        0 <= pq.0 < pq.1 < v.len(),
        v[pq.0].start == sorted_by_start(v)[i].start,
        v[pq.1].start == sorted_by_start(v)[i].start,
{
    let s = sorted_by_start(v);
    lemma_sorted_by_start(v);
    lemma_starting_at_counts(s, i, j);
    assert(starting_at(s, s[i].start) == starting_at(v, s[i].start));
    lemma_two_starting_at(v, s[i].start)
}

/// A list in ascending order of start is its own sorted form.
pub proof fn lemma_ascending_is_sorted_form(v: Seq<IPRange>)
    requires
        ascending(v),
    ensures
        sorted_by_start(v) == v,
{
    lemma_sorted_by_start(v);
    lemma_stable_sort_is_unique(v, v, sorted_by_start(v));
}

} // verus!
