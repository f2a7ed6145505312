//! What holds of the aggregator on every list of ranges.

use crate::aggregate::{
    aggregate_spec, has_join, lemma_join_shrinks, lemma_last_never_joins, lemma_survivors_drop,
    lemma_survivors_len, relations, round, successor, survivors,
};
use crate::range::IPRange;
use crate::relation::{mergeable, parent, relation_of, Relation};
use crate::sort::{
    ascending, lemma_ascending_is_sorted_form, lemma_equal_starts_in_source,
    lemma_sorted_by_start, merge_spec, sorted_by_start,
};
use vstd::relations::{sorted_by, total_ordering};
use vstd::seq_lib::lemma_sorted_unique;
use vstd::prelude::*;

verus! {

/// The ranges of `v` ascend and none reaches the start of the next.
pub open spec fn separated(v: Seq<IPRange>) -> bool {
    forall|i: int| 0 <= i < v.len() - 1 ==> (#[trigger] v[i]).end() <= v[i + 1].start
}

/// The addresses that lie in some range of `v`.
pub open spec fn covered(v: Seq<IPRange>) -> Set<int> {
    Set::new(|x: int| exists|i: int| 0 <= i < v.len() && (#[trigger] v[i]).contains(x))
}

/// The addresses of one range.
pub open spec fn addresses(r: IPRange) -> Set<int> {
    Set::new(|x: int| r.contains(x))
}

/// No relation of `v` but the last takes the range that follows it.
pub open spec fn settled(v: Seq<IPRange>) -> bool {
    forall|i: int| 0 <= i < v.len() - 1 ==> !(#[trigger] relations(v)[i]).consumes_next()
}

/// In a separated list every range ends before each later one begins.
pub proof fn lemma_separated_pairwise(v: Seq<IPRange>, i: int, j: int)
    requires
        separated(v),
        0 <= i < j < v.len(),
    ensures
        v[i].end() <= v[j].start,
    decreases j - i,
{
    if i + 1 < j {
        lemma_separated_pairwise(v, i, j - 1);
        assert(v[j - 1].end() <= v[j].start);
    }
}

proof fn lemma_no_two_joins_in_a_row(a: IPRange, b: IPRange, c: IPRange)
    requires
        mergeable(a, b),
    ensures
        !mergeable(b, c),
{
    let l = a.length as int;
    let x = a.start as int;
    assert(!(x % (2 * l) == 0 && (x + l) % (2 * l) == 0)) by (nonlinear_arith)
        requires
            l > 0,
    ;
}

proof fn lemma_covered_push(s: Seq<IPRange>, r: IPRange)
    ensures
        covered(s.push(r)) == covered(s).union(addresses(r)),
{
    let big = s.push(r);
    assert forall|x: int| covered(big).contains(x) <==> covered(s).union(addresses(r)).contains(
        x,
    ) by {
        if covered(big).contains(x) {
            let i = choose|i: int| 0 <= i < big.len() && (#[trigger] big[i]).contains(x);
            if i < s.len() {
                assert(s[i].contains(x));
            }
        }
        if covered(s).contains(x) {
            let i = choose|i: int| 0 <= i < s.len() && (#[trigger] s[i]).contains(x);
            assert(big[i].contains(x));
        }
        if addresses(r).contains(x) {
            assert(big[s.len() as int].contains(x));
        }
    }
    assert(covered(big) =~= covered(s).union(addresses(r)));
}

/// How the survivors of the first `k` relations of a separated list arise
/// from those of the first `k - 1`.
proof fn lemma_prefix_step(v: Seq<IPRange>, k: int)
    requires
        separated(v),
        1 <= k <= v.len(),
    ensures
        ({
            let t = relations(v);
            let before = survivors(t.take(k - 1));
            let after = survivors(t.take(k));
            if k >= 2 && t[k - 2] is Join {
                after == before && !(t[k - 1] is Join)
            } else {
                after == before.push(t[k - 1].kept())
            }
        }),
{
    let t = relations(v);
    let j = k - 1;
    assert(t.take(k).drop_last() =~= t.take(j));
    assert(t.take(k).last() == t[j]);
    if j >= 1 {
        assert(t.take(k)[j - 1] == t[j - 1]);
        assert(v[j - 1].end() <= v[j].start);
        assert(!(t[j - 1] is Overlap));
        if t[j - 1] is Join {
            lemma_no_two_joins_in_a_row(v[j - 1], v[j], successor(v, j));
        }
    }
}

/// The end of the last survivor of the first `k` relations.
proof fn lemma_prefix_end(v: Seq<IPRange>, k: int)
    requires
        separated(v),
        1 <= k <= v.len(),
    ensures
        ({
            let t = relations(v);
            let s = survivors(t.take(k));
            &&& s.len() >= 1
            &&& s.last().start <= v[k - 1].start
            &&& s.last().end() == if t[k - 1] is Join {
                successor(v, k - 1).end()
            } else {
                v[k - 1].end()
            }
        }),
    decreases k,
{
    lemma_prefix_step(v, k);
    if k >= 2 {
        lemma_prefix_end(v, k - 1);
    }
}

/// The survivors of the first `k` relations of a separated list are separated.
proof fn lemma_prefix_separated(v: Seq<IPRange>, k: int)
    requires
        separated(v),
        0 <= k <= v.len(),
    ensures
        separated(survivors(relations(v).take(k))),
    decreases k,
{
    let t = relations(v);
    let s = survivors(t.take(k));
    if k >= 1 {
        let sp = survivors(t.take(k - 1));
        lemma_prefix_separated(v, k - 1);
        lemma_prefix_step(v, k);
        if k >= 2 {
            lemma_prefix_end(v, k - 1);
            assert(v[k - 2].end() <= v[k - 1].start);
        }
        if s != sp {
            assert(s == sp.push(t[k - 1].kept()));
            assert forall|i: int| 0 <= i < s.len() - 1 implies (#[trigger] s[i]).end() <= s[i
                + 1].start by {
                if i + 1 < sp.len() {
                    assert(sp[i].end() <= sp[i + 1].start);
                }
            }
        }
    }
}

/// The addresses that the survivors of the first `k` relations cover.
proof fn lemma_prefix_cover(v: Seq<IPRange>, k: int)
    requires
        separated(v),
        0 <= k <= v.len(),
    ensures
        covered(survivors(relations(v).take(k))) == covered(v.take(k)).union(
            if k >= 1 && relations(v)[k - 1] is Join {
                addresses(successor(v, k - 1))
            } else {
                Set::empty()
            },
        ),
    decreases k,
{
    let t = relations(v);
    let s = survivors(t.take(k));
    if k == 0 {
        assert(covered(s) =~= covered(v.take(0)).union(Set::empty()));
    } else {
        let j = k - 1;
        let sp = survivors(t.take(j));
        lemma_prefix_cover(v, j);
        lemma_prefix_step(v, k);
        assert(v.take(k) =~= v.take(j).push(v[j]));
        lemma_covered_push(v.take(j), v[j]);
        if j >= 1 && t[j - 1] is Join {
            assert(covered(s) =~= covered(v.take(k)).union(Set::empty()));
        } else {
            let r = t[j].kept();
            lemma_covered_push(sp, r);
            if t[j] is Join {
                assert(mergeable(v[j], successor(v, j)));
                assert(r == parent(v[j]));
                assert(addresses(r) =~= addresses(v[j]).union(addresses(successor(v, j))));
                assert(covered(s) =~= covered(v.take(k)).union(addresses(successor(v, j))));
            } else {
                assert(r == v[j]);
                assert(covered(s) =~= covered(v.take(k)).union(Set::empty()));
            }
        }
    }
}

/// Where none of the first `k` relations joins, they leave the first `k` ranges.
proof fn lemma_prefix_unchanged(v: Seq<IPRange>, k: int)
    requires
        separated(v),
        0 <= k <= v.len(),
        forall|i: int| 0 <= i < k ==> !(#[trigger] relations(v)[i] is Join),
    ensures
        survivors(relations(v).take(k)) == v.take(k),
    decreases k,
{
    if k == 0 {
        assert(survivors(relations(v).take(0)) =~= v.take(0));
    } else {
        lemma_prefix_unchanged(v, k - 1);
        lemma_prefix_step(v, k);
        assert(!(relations(v)[k - 1] is Join));
        assert(v.take(k) =~= v.take(k - 1).push(v[k - 1]));
    }
}

/// A round keeps a separated list separated and covers the same addresses.
pub proof fn lemma_round_keeps_cover(v: Seq<IPRange>)
    requires
        separated(v),
    ensures
        separated(round(v)),
        covered(round(v)) == covered(v),
        !has_join(relations(v)) ==> round(v) == v,
{
    let t = relations(v);
    let n = v.len() as int;
    assert(t.take(n) =~= t);
    assert(v.take(n) =~= v);
    lemma_prefix_separated(v, n);
    lemma_prefix_cover(v, n);
    if n > 0 {
        lemma_last_never_joins(v);
    }
    assert(covered(round(v)) =~= covered(v));
    if !has_join(t) {
        lemma_prefix_unchanged(v, n);
    }
}

/// The aggregator never returns more ranges than it was given.
pub proof fn lemma_aggregate_len(v: Seq<IPRange>)
    ensures
        aggregate_spec(v).len() <= round(v).len() <= v.len(),
    decreases v.len(),
{
    lemma_survivors_len(relations(v));
    if has_join(relations(v)) {
        lemma_join_shrinks(v);
        lemma_aggregate_len(round(v));
        lemma_survivors_len(relations(round(v)));
    }
}

/// A settled list is separated.
pub proof fn lemma_settled_is_separated(v: Seq<IPRange>)
    requires
        settled(v),
    ensures
        separated(v),
        !has_join(relations(v)),
{
    assert forall|i: int| 0 <= i < v.len() - 1 implies (#[trigger] v[i]).end() <= v[i
        + 1].start by {
        assert(!relations(v)[i].consumes_next());
    }
    if has_join(relations(v)) {
        let i = choose|i: int| 0 <= i < v.len() && relations(v)[i] is Join;
        lemma_last_never_joins(v);
        assert(relations(v)[i].consumes_next());
    }
}

/// The lists that the aggregator returns as they are given are the settled
/// ones: those in which no range reaches the next and no two neighbours join.
pub proof fn lemma_fixpoints_are_settled(v: Seq<IPRange>)
    ensures
        aggregate_spec(v) == v <==> settled(v),
{
    if settled(v) {
        lemma_settled_is_separated(v);
        lemma_round_keeps_cover(v);
    } else {
        let i = choose|i: int|
            0 <= i < v.len() - 1 && (#[trigger] relations(v)[i]).consumes_next();
        lemma_survivors_drop(relations(v), i);
        lemma_aggregate_len(v);
    }
}

/// A separated list in which no two neighbours join is settled.
pub proof fn lemma_unjoined_is_settled(v: Seq<IPRange>)
    requires
        separated(v),
        !has_join(relations(v)),
    ensures
        settled(v),
{
    assert forall|i: int| 0 <= i < v.len() - 1 implies !(#[trigger] relations(
        v,
    )[i]).consumes_next() by {
        assert(v[i].end() <= v[i + 1].start);
        assert(!(relations(v)[i] is Join));
    }
}

/// On a separated list the aggregator returns a settled list that covers
/// the same addresses.
pub proof fn lemma_aggregate_keeps_cover(v: Seq<IPRange>)
    requires
        separated(v),
    ensures
        covered(aggregate_spec(v)) == covered(v),
        separated(aggregate_spec(v)),
        settled(aggregate_spec(v)),
    decreases v.len(),
{
    lemma_round_keeps_cover(v);
    if has_join(relations(v)) {
        lemma_join_shrinks(v);
        lemma_aggregate_keeps_cover(round(v));
        assert(aggregate_spec(v) == aggregate_spec(round(v)));
    } else {
        lemma_unjoined_is_settled(v);
        assert(aggregate_spec(v) == v);
    }
}

/// Aggregating what the aggregator returned for a separated list changes nothing.
pub proof fn lemma_aggregate_idempotent(v: Seq<IPRange>)
    requires
        separated(v),
    ensures
        aggregate_spec(aggregate_spec(v)) == aggregate_spec(v),
{
    lemma_aggregate_keeps_cover(v);
    lemma_fixpoints_are_settled(aggregate_spec(v));
}

/// The lower and the upper half of a block merge into that block, and into
/// nothing else.
pub proof fn lemma_halves_merge(a: IPRange, b: IPRange)
    requires
        a.length == b.length,
        a.length >= 1,
        a.end() == b.start,
        a.start as int % (2 * a.length) == 0,
    ensures
        relation_of(a, b) == Relation::Join(
            IPRange { start: a.start, length: (2 * a.length) as u64 },
        ),
        aggregate_spec(seq![a, b]) == seq![
            IPRange { start: a.start, length: (2 * a.length) as u64 },
        ],
{
    let v = seq![a, b];
    let p = parent(a);
    let t = relations(v);
    assert(successor(v, 0) == b);
    assert(t[0] == Relation::Join(p));
    assert(has_join(t));
    reveal_with_fuel(survivors, 3);
    assert(t.drop_last().drop_last() =~= Seq::<Relation<IPRange>>::empty());
    assert(t.drop_last().last() == t[0]);
    assert(round(v) =~= seq![p]);
    let w = seq![p];
    let u = relations(w);
    lemma_last_never_joins(w);
    assert(!has_join(u)) by {
        if has_join(u) {
            let i = choose|i: int| 0 <= i < u.len() && u[i] is Join;
            assert(u[i] == u.last());
        }
    }
    assert(u.drop_last() =~= Seq::<Relation<IPRange>>::empty());
    assert(u[0].kept() == p);
    assert(round(w) =~= seq![p]);
    assert(aggregate_spec(w) == round(w));
    assert(aggregate_spec(v) == aggregate_spec(round(v)));
}

/// Ranges of `v` that begin at the same address are the same range.
pub open spec fn starts_tell_apart(v: Seq<IPRange>) -> bool {
    forall|i: int, j: int|
        0 <= i < v.len() && 0 <= j < v.len() && (#[trigger] v[i]).start == (#[trigger] v[j]).start
            ==> v[i] == v[j]
}

/// The order by start, and by length among ranges of one start.
pub open spec fn start_then_length(a: IPRange, b: IPRange) -> bool {
    a.start < b.start || (a.start == b.start && a.length <= b.length)
}

proof fn lemma_ascending_is_sorted(s: Seq<IPRange>, v: Seq<IPRange>)
    requires
        ascending(s),
        s.to_multiset() == v.to_multiset(),
        starts_tell_apart(v),
    ensures
        sorted_by(s, |a: IPRange, b: IPRange| start_then_length(a, b)),
{
    broadcast use vstd::seq_lib::group_to_multiset_ensures;

    assert forall|i: int, j: int| 0 <= i < j < s.len() implies start_then_length(s[i], s[j]) by {
        assert(s[i].start <= s[j].start);
        if s[i].start == s[j].start {
            assert(s.to_multiset().contains(s[i]));
            assert(s.to_multiset().contains(s[j]));
            assert(v.contains(s[i]));
            assert(v.contains(s[j]));
            let p = choose|p: int| 0 <= p < v.len() && v[p] == s[i];
            let q = choose|q: int| 0 <= q < v.len() && v[q] == s[j];
            assert(v[p] == v[q]);
        }
    }
}

/// The order in which the ranges are given does not matter: two lists that
/// hold the same ranges, none of which shares its start with a different one,
/// have the same sorted form and so the same aggregate.
pub proof fn lemma_order_independent(v1: Seq<IPRange>, v2: Seq<IPRange>)
    requires
        v1.to_multiset() == v2.to_multiset(),
        starts_tell_apart(v1),
    ensures
        sorted_by_start(v1) == sorted_by_start(v2),
        merge_spec(v1) == merge_spec(v2),
{
    let leq = |a: IPRange, b: IPRange| start_then_length(a, b);
    let s1 = sorted_by_start(v1);
    let s2 = sorted_by_start(v2);
    lemma_sorted_by_start(v1);
    lemma_sorted_by_start(v2);
    lemma_ascending_is_sorted(s1, v1);
    lemma_ascending_is_sorted(s2, v1);
    assert(total_ordering(leq));
    lemma_sorted_unique(s1, s2, leq);
}

/// No two ranges of `v` share an address.
pub open spec fn pairwise_disjoint(v: Seq<IPRange>) -> bool {
    forall|i: int, j: int|
        0 <= i < j < v.len() ==> (#[trigger] v[i]).end() <= (#[trigger] v[j]).start || v[j].end()
            <= v[i].start
}

/// Every range of `v` holds an address and lies within the address space.
pub open spec fn all_wf(v: Seq<IPRange>) -> bool {
    forall|i: int| 0 <= i < v.len() ==> (#[trigger] v[i]).wf()
}

/// Every range of `v` is a CIDR block.
pub open spec fn all_blocks(v: Seq<IPRange>) -> bool {
    forall|i: int| 0 <= i < v.len() ==> (#[trigger] v[i]).is_block()
}

/// Sorting ranges of which no two share an address gives a separated list
/// that covers the same addresses.
pub proof fn lemma_sorted_is_separated(v: Seq<IPRange>)
    requires
        all_wf(v),
        pairwise_disjoint(v),
    ensures
        separated(sorted_by_start(v)),
        covered(sorted_by_start(v)) == covered(v),
{
    broadcast use vstd::seq_lib::group_to_multiset_ensures;

    let s = sorted_by_start(v);
    lemma_sorted_by_start(v);
    assert forall|i: int| 0 <= i < s.len() - 1 implies (#[trigger] s[i]).end() <= s[i
        + 1].start by {
        let a = s[i];
        let b = s[i + 1];
        assert(a.start <= b.start);
        if a.start == b.start {
            let pq = lemma_equal_starts_in_source(v, i, i + 1);
            assert(v[pq.0].wf() && v[pq.1].wf());
            assert(v[pq.0].end() <= v[pq.1].start || v[pq.1].end() <= v[pq.0].start);
        } else {
            assert(s.to_multiset().contains(a));
            assert(s.to_multiset().contains(b));
            assert(v.contains(a) && v.contains(b));
            let p = choose|p: int| 0 <= p < v.len() && v[p] == a;
            let q = choose|q: int| 0 <= q < v.len() && v[q] == b;
            assert(v[q].wf());
            if p < q {
                assert(v[p].end() <= v[q].start || v[q].end() <= v[p].start);
            } else {
                assert(v[q].end() <= v[p].start || v[p].end() <= v[q].start);
            }
        }
    }
    assert forall|x: int| covered(s).contains(x) <==> covered(v).contains(x) by {
        if covered(s).contains(x) {
            let i = choose|i: int| 0 <= i < s.len() && (#[trigger] s[i]).contains(x);
            assert(s.to_multiset().contains(s[i]));
            assert(v.contains(s[i]));
            let p = choose|p: int| 0 <= p < v.len() && v[p] == s[i];
            assert(v[p].contains(x));
        }
        if covered(v).contains(x) {
            let i = choose|i: int| 0 <= i < v.len() && (#[trigger] v[i]).contains(x);
            assert(v.to_multiset().contains(v[i]));
            assert(s.contains(v[i]));
            let p = choose|p: int| 0 <= p < s.len() && s[p] == v[i];
            assert(s[p].contains(x));
        }
    }
    assert(covered(s) =~= covered(v));
}

/// A separated list is in ascending order of start.
pub proof fn lemma_separated_is_ascending(v: Seq<IPRange>)
    requires
        separated(v),
    ensures
        ascending(v),
{
    assert forall|i: int, j: int| 0 <= i < j < v.len() implies (#[trigger] v[i]).start <= (
    #[trigger] v[j]).start by {
        lemma_separated_pairwise(v, i, j);
    }
}

/// Where no two of the ranges given share an address, the merged list covers
/// the addresses that they cover, and merging it again changes nothing.
pub proof fn lemma_merge_keeps_cover(v: Seq<IPRange>)
    requires
        all_wf(v),
        pairwise_disjoint(v),
    ensures
        covered(merge_spec(v)) == covered(v),
        settled(merge_spec(v)),
        merge_spec(merge_spec(v)) == merge_spec(v),
{
    lemma_sorted_is_separated(v);
    lemma_aggregate_keeps_cover(sorted_by_start(v));
    lemma_separated_is_ascending(merge_spec(v));
    lemma_ascending_is_sorted_form(merge_spec(v));
    lemma_fixpoints_are_settled(merge_spec(v));
}

/// Every range that the relations of `t` leave is kept by one of them.
proof fn lemma_survivor_origin(t: Seq<Relation<IPRange>>, j: int) -> (i: int)
    requires
        0 <= j < survivors(t).len(),
    ensures
        0 <= i < t.len(),
        survivors(t)[j] == t[i].kept(),
    decreases t.len(),
{
    let front = t.drop_last();
    if j < survivors(front).len() {
        lemma_survivor_origin(front, j)
    } else {
        t.len() - 1
    }
}

/// `p` holds of the parent of two ranges that join wherever it holds of both.
pub open spec fn kept_by_joins(p: spec_fn(IPRange) -> bool) -> bool {
    forall|a: IPRange, b: IPRange| p(a) && p(b) && #[trigger] mergeable(a, b) ==> p(parent(a))
}

/// A property of ranges that joins keep, and that every range given has,
/// every range returned has too.
pub proof fn lemma_aggregate_keeps(v: Seq<IPRange>, p: spec_fn(IPRange) -> bool)
    requires
        kept_by_joins(p),
        forall|i: int| 0 <= i < v.len() ==> p(#[trigger] v[i]),
    ensures
        forall|j: int| 0 <= j < aggregate_spec(v).len() ==> p(#[trigger] aggregate_spec(v)[j]),
    decreases v.len(),
{
    let w = round(v);
    let t = relations(v);
    assert forall|j: int| 0 <= j < w.len() implies p(#[trigger] w[j]) by {
        let i = lemma_survivor_origin(t, j);
        assert(p(v[i]));
        if t[i] is Join {
            assert(mergeable(v[i], successor(v, i)));
            assert(i + 1 < v.len());
            assert(p(v[i + 1]));
        }
    }
    if has_join(t) {
        lemma_join_shrinks(v);
        lemma_aggregate_keeps(w, p);
        assert(aggregate_spec(v) == aggregate_spec(w));
    } else {
        assert(aggregate_spec(v) == w);
    }
}

/// The aggregator returns well-formed ranges where it is given such.
pub proof fn lemma_aggregate_keeps_wf(v: Seq<IPRange>)
    requires
        all_wf(v),
    ensures
        all_wf(aggregate_spec(v)),
{
    let p = |r: IPRange| r.wf();
    assert(kept_by_joins(p));
    lemma_aggregate_keeps(v, p);
    assert forall|j: int| 0 <= j < aggregate_spec(v).len() implies (#[trigger] aggregate_spec(
        v,
    )[j]).wf() by {
        assert(p(aggregate_spec(v)[j]));
    }
}

/// The parent of two CIDR blocks that join is a CIDR block.
pub proof fn lemma_parent_is_block(a: IPRange, b: IPRange)
    requires
        a.is_block(),
        mergeable(a, b),
    ensures
        parent(a).is_block(),
{
    let n = choose|n: nat| a.is_block_of(n);
    vstd::arithmetic::power2::lemma2_to64();
    vstd::arithmetic::power2::lemma2_to64_rest();
    if n == 0 {
        assert(a.length == 0x1_0000_0000);
    } else {
        vstd::arithmetic::power2::lemma_pow2_unfold((32 - n + 1) as nat);
        assert(parent(a).is_block_of((n - 1) as nat));
    }
}

/// The aggregator returns CIDR blocks where it is given CIDR blocks.
pub proof fn lemma_aggregate_keeps_blocks(v: Seq<IPRange>)
    requires
        all_blocks(v),
    ensures
        all_blocks(aggregate_spec(v)),
{
    let p = |r: IPRange| r.is_block();
    assert forall|a: IPRange, b: IPRange| p(a) && p(b) && #[trigger] mergeable(a, b) implies p(
        parent(a),
    ) by {
        lemma_parent_is_block(a, b);
    }
    lemma_aggregate_keeps(v, p);
    assert forall|j: int| 0 <= j < aggregate_spec(v).len() implies (#[trigger] aggregate_spec(
        v,
    )[j]).is_block() by {
        assert(p(aggregate_spec(v)[j]));
    }
}

/// The sorted form of a list holds the ranges of the list.
pub proof fn lemma_sorted_keeps_wf(v: Seq<IPRange>)
    requires
        all_wf(v),
    ensures
        all_wf(sorted_by_start(v)),
{
    broadcast use vstd::seq_lib::group_to_multiset_ensures;

    let s = sorted_by_start(v);
    lemma_sorted_by_start(v);
    assert forall|i: int| 0 <= i < s.len() implies (#[trigger] s[i]).wf() by {
        assert(s.to_multiset().contains(s[i]));
        assert(v.contains(s[i]));
        let p = choose|p: int| 0 <= p < v.len() && v[p] == s[i];
        assert(v[p].wf());
    }
}

/// What the first `k` relations of an ascending list leave is ascending
/// and begins no later than the range at `k - 1`.
proof fn lemma_prefix_ascending(v: Seq<IPRange>, k: int)
    requires
        ascending(v),
        0 <= k <= v.len(),
    ensures
        ascending(survivors(relations(v).take(k))),
        forall|j: int|
            0 <= j < survivors(relations(v).take(k)).len() ==> (#[trigger] survivors(
                relations(v).take(k),
            )[j]).start <= v[k - 1].start,
    decreases k,
{
    let t = relations(v);
    let s = survivors(t.take(k));
    if k >= 1 {
        let sp = survivors(t.take(k - 1));
        lemma_prefix_ascending(v, k - 1);
        assert(t.take(k).drop_last() =~= t.take(k - 1));
        assert(t.take(k).last() == t[k - 1]);
        assert(t[k - 1].kept().start == v[k - 1].start);
        if k >= 2 {
            assert(v[k - 2].start <= v[k - 1].start);
        }
        assert forall|j: int| 0 <= j < s.len() implies (#[trigger] s[j]).start <= v[k
            - 1].start by {
            if j < sp.len() {
                assert(s[j] == sp[j]);
            }
        }
        assert forall|i: int, j: int| 0 <= i < j < s.len() implies (#[trigger] s[i]).start <= (
        #[trigger] s[j]).start by {
            if j < sp.len() {
                assert(sp[i].start <= sp[j].start);
            } else {
                assert(s[i] == sp[i]);
            }
        }
    }
}

/// The aggregator returns an ascending list where it is given one.
pub proof fn lemma_aggregate_keeps_order(v: Seq<IPRange>)
    requires
        ascending(v),
    ensures
        ascending(aggregate_spec(v)),
    decreases v.len(),
{
    lemma_prefix_ascending(v, v.len() as int);
    assert(relations(v).take(v.len() as int) =~= relations(v));
    if has_join(relations(v)) {
        lemma_join_shrinks(v);
        lemma_aggregate_keeps_order(round(v));
        assert(aggregate_spec(v) == aggregate_spec(round(v)));
    } else {
        assert(aggregate_spec(v) == round(v));
    }
}

/// The merged list is in ascending order of start.
pub proof fn lemma_merge_is_ascending(v: Seq<IPRange>)
    ensures
        ascending(merge_spec(v)),
{
    lemma_sorted_by_start(v);
    lemma_aggregate_keeps_order(sorted_by_start(v));
}

/// The aggregator covers no address that the ranges given do not cover.
pub proof fn lemma_aggregate_adds_nothing(v: Seq<IPRange>)
    ensures
        covered(aggregate_spec(v)).subset_of(covered(v)),
{
    let p = |r: IPRange| addresses(r).subset_of(covered(v));
    assert forall|a: IPRange, b: IPRange| p(a) && p(b) && #[trigger] mergeable(a, b) implies p(
        parent(a),
    ) by {
        assert forall|x: int| addresses(parent(a)).contains(x) implies covered(v).contains(x) by {
            if a.contains(x) {
                assert(addresses(a).contains(x));
            } else {
                assert(addresses(b).contains(x));
            }
        }
    }
    assert forall|i: int| 0 <= i < v.len() implies p(#[trigger] v[i]) by {
        assert forall|x: int| addresses(v[i]).contains(x) implies covered(v).contains(x) by {
            assert(v[i].contains(x));
        }
    }
    lemma_aggregate_keeps(v, p);
    let w = aggregate_spec(v);
    assert forall|x: int| covered(w).contains(x) implies covered(v).contains(x) by {
        let j = choose|j: int| 0 <= j < w.len() && (#[trigger] w[j]).contains(x);
        assert(p(w[j]));
        assert(addresses(w[j]).contains(x));
    }
}

/// In a settled list of well-formed ranges no two ranges, neighbours or
/// not, are the halves of a block.
pub proof fn lemma_settled_has_no_halves(v: Seq<IPRange>, i: int, j: int)
    requires
        settled(v),
        all_wf(v),
        0 <= i < v.len(),
        0 <= j < v.len(),
    ensures
        !mergeable(v[i], v[j]),
{
    lemma_settled_is_separated(v);
    if mergeable(v[i], v[j]) {
        assert(v[i].wf() && v[j].wf());
        if j < i {
            lemma_separated_pairwise(v, j, i);
        } else if j == i + 1 {
            assert(relations(v)[i] is Join);
            assert(relations(v)[i].consumes_next());
        } else if j > i + 1 {
            lemma_separated_pairwise(v, i, i + 1);
            lemma_separated_pairwise(v, i + 1, j);
            assert(v[i + 1].wf());
        }
    }
}

} // verus!
