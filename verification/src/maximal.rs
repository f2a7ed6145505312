//! The aggregate of CIDR blocks is as short as a list of CIDR blocks that
//! covers the same addresses can be: around each of its blocks, the block of
//! twice the size holds an address that it does not cover.

use crate::aggregate::{aggregate_spec, relations};
use crate::laws::{
    all_blocks, covered, lemma_aggregate_keeps_blocks, lemma_aggregate_keeps_cover,
    lemma_separated_pairwise, lemma_settled_is_separated, lemma_sorted_is_separated,
    pairwise_disjoint, separated, settled,
};
use crate::sort::{lemma_sorted_by_start, merge_spec, sorted_by_start};
use crate::range::{IPRange, ADDRESS_SPACE};
use crate::relation::mergeable;
use vstd::arithmetic::div_mod::{
    lemma_fundamental_div_mod, lemma_fundamental_div_mod_converse, lemma_mod_add_multiples_vanish,
    lemma_mod_mod, lemma_mod_multiples_basic, lemma_mod_pos_bound,
};
use vstd::arithmetic::power2::{
    lemma2_to64, lemma2_to64_rest, lemma_pow2_adds, lemma_pow2_pos, lemma_pow2_strictly_increases,
    lemma_pow2_unfold, pow2,
};
use vstd::prelude::*;
use vstd::relations::injective_on;
use vstd::set_lib::{lemma_int_range, lemma_len_subset, lemma_map_size, set_int_range};

verus! {

/// The block of twice the size of `r` in which `r` lies.
pub open spec fn enclosing(r: IPRange) -> IPRange {
    IPRange { start: (r.start - r.start as int % (2 * r.length)) as u32, length: (2 * r.length) as u64 }
}

/// Every address from `from` up to `from + size` lies in a range of `v`.
pub open spec fn stretch_covered(v: Seq<IPRange>, from: int, size: int) -> bool {
    forall|x: int| from <= x < from + size ==> #[trigger] covered(v).contains(x)
}

proof fn lemma_multiple_of_smaller(x: int, small: nat, large: nat)
    requires
        small <= large,
        x % pow2(large) as int == 0,
    ensures
        x % pow2(small) as int == 0,
{
    lemma_pow2_adds(small, (large - small) as nat);
    lemma_pow2_pos(small);
    lemma_pow2_pos((large - small) as nat);
    let a = pow2(small) as int;
    let c = pow2((large - small) as nat) as int;
    assert(small + (large - small) as nat == large);
    assert(pow2(large) as int == a * c);
    lemma_mod_mod(x, a, c);
    assert((x % (a * c)) % a == x % a);
    assert(0int % a == 0);
}

proof fn lemma_next_multiple(x: int, a: int)
    requires
        a > 0,
        x % a == 0,
    ensures
        (x + a) % a == 0,
{
    lemma_mod_add_multiples_vanish(x, a);
}

proof fn lemma_multiples_apart(x: int, y: int, a: int)
    requires
        a > 0,
        x % a == 0,
        y % a == 0,
        x < y,
    ensures
        x + a <= y,
{
    lemma_fundamental_div_mod(x, a);
    lemma_fundamental_div_mod(y, a);
    let p = x / a;
    let q = y / a;
    assert(p < q) by (nonlinear_arith)
        requires
            a > 0,
            a * p < a * q,
    ;
    assert(a * q >= a * p + a) by (nonlinear_arith)
        requires
            a > 0,
            p + 1 <= q,
    ;
}

proof fn lemma_half_step(x: int, h: int)
    requires
        h > 0,
        x % (2 * h) == 0,
    ensures
        (x + h) % (2 * h) != 0,
        (x + h) % h == 0,
        x % h == 0,
{
    lemma_mod_mod(x, h, 2);
    assert(h * 2 == 2 * h);
    assert((x % (h * 2)) % h == x % h);
    assert(0int % h == 0);
    lemma_next_multiple(x, h);
    lemma_fundamental_div_mod(x, 2 * h);
    let q = x / (2 * h);
    assert((2 * h) * q == q * (2 * h)) by (nonlinear_arith);
    lemma_fundamental_div_mod_converse(x + h, 2 * h, q, h);
}

proof fn lemma_upper_half(x: int, h: int)
    requires
        h > 0,
        x >= 0,
        x % h == 0,
        x % (2 * h) != 0,
    ensures
        x >= h,
        (x - h) % (2 * h) == 0,
        x % (2 * h) == h,
{
    let r = x % (2 * h);
    let q = x / (2 * h);
    lemma_mod_pos_bound(x, 2 * h);
    lemma_mod_mod(x, h, 2);
    assert(r % h == 0);
    assert(0int % h == 0);
    lemma_multiples_apart(0, r, h);
    lemma_next_multiple(0, h);
    lemma_next_multiple(h, h);
    if r > h {
        lemma_multiples_apart(h, r, h);
    }
    assert(r == h);
    lemma_fundamental_div_mod(x, 2 * h);
    assert(x - h == (2 * h) * q);
    lemma_mod_multiples_basic(q, 2 * h);
    assert((2 * h) * q == q * (2 * h)) by (nonlinear_arith);
    assert(q >= 0) by (nonlinear_arith)
        requires
            x >= 0,
            h > 0,
            q == x / (2 * h),
    ;
    assert((2 * h) * q >= 0) by (nonlinear_arith)
        requires
            q >= 0,
            h > 0,
    ;
}

/// The number of bits that the addresses of a block leave free.
proof fn lemma_block_bits(r: IPRange) -> (k: nat)
    requires
        r.is_block(),
    ensures
        k <= 32,
        r.length == pow2(k),
        r.length >= 1,
        r.start as int % pow2(k) as int == 0,
{
    let prefix = choose|prefix: nat| r.is_block_of(prefix);
    lemma_pow2_pos((32 - prefix) as nat);
    (32 - prefix) as nat
}

/// Where the address behind a range is covered, the next range begins there.
proof fn lemma_next_begins_at_end(v: Seq<IPRange>, j: int)
    requires
        settled(v),
        all_blocks(v),
        0 <= j < v.len(),
        covered(v).contains(v[j].end()),
    ensures
        j + 1 < v.len(),
        v[j + 1].start == v[j].end(),
{
    lemma_settled_is_separated(v);
    let a = v[j].end();
    let q = choose|q: int| 0 <= q < v.len() && (#[trigger] v[q]).contains(a);
    let kj = lemma_block_bits(v[j]);
    if q < j {
        lemma_separated_pairwise(v, q, j);
    } else if q > j + 1 {
        lemma_separated_pairwise(v, j, j + 1);
        lemma_separated_pairwise(v, j + 1, q);
        let k = lemma_block_bits(v[j + 1]);
    } else if q == j + 1 {
        lemma_separated_pairwise(v, j, j + 1);
    }
}

/// In a settled list, a block that begins at a multiple of `2^bits` and is
/// smaller than `2^bits` is followed by an uncovered address within
/// `2^bits` of its start.
proof fn lemma_no_tiling(v: Seq<IPRange>, j: int, bits: nat)
    requires
        settled(v),
        all_blocks(v),
        0 <= j < v.len(),
        bits <= 32,
        v[j].length < pow2(bits),
        v[j].start as int % pow2(bits) as int == 0,
    ensures
        !stretch_covered(v, v[j].start as int, pow2(bits) as int),
    decreases 2 * bits,
{
    let k = lemma_block_bits(v[j]);
    if bits == 0 {
        vstd::arithmetic::power2::lemma2_to64();
    } else if stretch_covered(v, v[j].start as int, pow2(bits) as int) {
        let m = (bits - 1) as nat;
        lemma_pow2_unfold(bits);
        lemma_pow2_pos(m);
        let h = pow2(m) as int;
        let x = v[j].start as int;
        lemma_half_step(x, h);
        if k < m {
            lemma_pow2_strictly_increases(k, m);
            lemma_no_tiling(v, j, m);
            assert forall|a: int| x <= a < x + h implies #[trigger] covered(v).contains(a) by {}
        } else {
            if k > bits {
                lemma_pow2_strictly_increases(bits, k);
            }
            assert(k == m);
            lemma_no_upper_half(v, j, m);
            assert forall|a: int| v[j].end() <= a < v[j].end() + h implies #[trigger] covered(
                v,
            ).contains(a) by {}
        }
    }
}

/// In a settled list, the upper half that would complete a lower half is
/// not wholly covered.
proof fn lemma_no_upper_half(v: Seq<IPRange>, j: int, bits: nat)
    requires
        settled(v),
        all_blocks(v),
        0 <= j < v.len(),
        bits < 32,
        v[j].length == pow2(bits),
        v[j].start as int % (2 * pow2(bits)) as int == 0,
    ensures
        !stretch_covered(v, v[j].end(), pow2(bits) as int),
    decreases 2 * bits + 1,
{
    if stretch_covered(v, v[j].end(), pow2(bits) as int) {
        lemma_settled_is_separated(v);
        lemma_pow2_pos(bits);
        lemma_pow2_unfold(bits + 1);
        let h = pow2(bits) as int;
        let x = v[j].start as int;
        assert(covered(v).contains(v[j].end()));
        lemma_next_begins_at_end(v, j);
        let next = v[j + 1];
        let k2 = lemma_block_bits(next);
        lemma_half_step(x, h);
        if k2 == bits {
            assert(mergeable(v[j], next));
            assert(relations(v)[j] is Join);
            assert(relations(v)[j].consumes_next());
        } else if k2 > bits {
            lemma_multiple_of_smaller(next.start as int, bits + 1, k2);
        } else {
            lemma_pow2_strictly_increases(k2, bits);
            lemma_no_tiling(v, j + 1, bits);
        }
    }
}

/// In a settled list, a range that begins before an address and holds it
/// reaches past every block of `2^bits` addresses that begins at that
/// address, where the address is a multiple of `2^(bits + 1)`.
proof fn lemma_holder_reaches_past(r: IPRange, y: int, bits: nat)
    requires
        r.is_block(),
        bits < 32,
        y % pow2(bits + 1) as int == 0,
        r.start < y,
        y < r.end(),
    ensures
        r.end() >= y + pow2(bits + 1),
{
    let kq = lemma_block_bits(r);
    let sq = r.start as int;
    let size = pow2(kq) as int;
    lemma_pow2_pos(kq);
    lemma_pow2_pos(bits + 1);
    if kq <= bits + 1 {
        lemma_multiple_of_smaller(y, kq, bits + 1);
        lemma_multiples_apart(sq, y, size);
    } else {
        lemma_next_multiple(sq, size);
        lemma_multiple_of_smaller(sq + size, bits + 1, kq);
        lemma_multiples_apart(y, sq + size, pow2(bits + 1) as int);
    }
}

/// In a settled list, the lower half that would complete an upper half is
/// not wholly covered.
proof fn lemma_no_lower_half(v: Seq<IPRange>, i: int, bits: nat)
    requires
        settled(v),
        all_blocks(v),
        0 <= i < v.len(),
        bits < 32,
        v[i].length == pow2(bits),
        v[i].start >= pow2(bits),
        (v[i].start - pow2(bits)) % (2 * pow2(bits)) as int == 0,
    ensures
        !stretch_covered(v, v[i].start - pow2(bits), pow2(bits) as int),
{
    let h = pow2(bits) as int;
    let x = v[i].start as int;
    let y = x - h;
    lemma_pow2_pos(bits);
    lemma_pow2_unfold(bits + 1);
    if stretch_covered(v, y, h) {
        lemma_settled_is_separated(v);
        assert(covered(v).contains(y));
        let q = choose|q: int| 0 <= q < v.len() && (#[trigger] v[q]).contains(y);
        let kq = lemma_block_bits(v[q]);
        let sq = v[q].start as int;
        if q > i {
            lemma_separated_pairwise(v, i, q);
        } else if q < i {
            lemma_separated_pairwise(v, q, i);
            if sq < y {
                lemma_holder_reaches_past(v[q], y, bits);
            } else if kq < bits {
                lemma_pow2_strictly_increases(kq, bits);
                lemma_half_step(y, h);
                lemma_no_tiling(v, q, bits);
            } else if kq > bits {
                lemma_pow2_strictly_increases(bits, kq);
            } else {
                if q < i - 1 {
                    lemma_separated_pairwise(v, q, q + 1);
                    lemma_separated_pairwise(v, q + 1, i);
                    let kn = lemma_block_bits(v[q + 1]);
                }
                assert(q == i - 1);
                assert(mergeable(v[q], v[i]));
                assert(relations(v)[q] is Join);
                assert(relations(v)[q].consumes_next());
            }
        }
    }
}

/// In a settled list of CIDR blocks, the block of twice the size around
/// any block holds an address that the list does not cover.
pub proof fn lemma_settled_is_maximal(v: Seq<IPRange>, i: int)
    requires
        settled(v),
        all_blocks(v),
        0 <= i < v.len(),
        v[i].length < ADDRESS_SPACE,
    ensures
        !stretch_covered(v, enclosing(v[i]).start as int, enclosing(v[i]).length as int),
{
    lemma2_to64();
    lemma2_to64_rest();
    let k = lemma_block_bits(v[i]);
    if k > 32 {
        lemma_pow2_strictly_increases(32, k);
    }
    assert(k < 32);
    lemma_pow2_pos(k);
    lemma_pow2_unfold(k + 1);
    let h = pow2(k) as int;
    let x = v[i].start as int;
    let e = enclosing(v[i]);
    if stretch_covered(v, e.start as int, e.length as int) {
        if x % (2 * h) == 0 {
            assert(e.start == x);
            lemma_no_upper_half(v, i, k);
            assert forall|a: int| v[i].end() <= a < v[i].end() + h implies #[trigger] covered(
                v,
            ).contains(a) by {}
        } else {
            lemma_upper_half(x, h);
            assert(e.start == x - h);
            lemma_no_lower_half(v, i, k);
            assert forall|a: int| x - h <= a < x implies #[trigger] covered(v).contains(a) by {}
        }
    }
}

/// Of two blocks that share an address, the one that is no larger lies in
/// the other.
proof fn lemma_blocks_nest(a: IPRange, b: IPRange, x: int)
    requires
        a.is_block(),
        b.is_block(),
        a.contains(x),
        b.contains(x),
        a.length <= b.length,
    ensures
        b.start <= a.start,
        a.end() <= b.end(),
{
    let ka = lemma_block_bits(a);
    let kb = lemma_block_bits(b);
    if ka > kb {
        lemma_pow2_strictly_increases(kb, ka);
    }
    let size = pow2(ka) as int;
    lemma_multiple_of_smaller(b.start as int, ka, kb);
    lemma_next_multiple(b.start as int, pow2(kb) as int);
    lemma_multiple_of_smaller(b.end(), ka, kb);
    if a.start < b.start {
        lemma_multiples_apart(a.start as int, b.start as int, size);
    }
    if a.start < b.end() {
        lemma_multiples_apart(a.start as int, b.end(), size);
    }
}

/// The block of twice the size around a block is a block.
proof fn lemma_enclosing_is_block(r: IPRange)
    requires
        r.is_block(),
        r.length < ADDRESS_SPACE,
    ensures
        enclosing(r).is_block(),
        enclosing(r).length == 2 * r.length,
        enclosing(r).contains(r.start as int),
{
    lemma2_to64();
    lemma2_to64_rest();
    let k = lemma_block_bits(r);
    if k > 32 {
        lemma_pow2_strictly_increases(32, k);
    }
    lemma_pow2_unfold(k + 1);
    let m = 2 * r.length as int;
    let x = r.start as int;
    lemma_fundamental_div_mod(x, m);
    lemma_mod_pos_bound(x, m);
    lemma_mod_multiples_basic(x / m, m);
    assert(m * (x / m) == (x / m) * m) by (nonlinear_arith);
    assert(enclosing(r).is_block_of((32 - (k + 1)) as nat));
}

/// The position in `u` of a block that holds the first address of the block
/// at `i` of `w` and ends no later than it.
pub open spec fn holder(w: Seq<IPRange>, u: Seq<IPRange>, i: int) -> int {
    choose|j: int| 0 <= j < u.len() && (#[trigger] u[j]).contains(w[i].start as int) && u[j].end() <= w[i].end()
}

/// Every block of a settled list holds, from its start, a block of any list
/// of blocks that covers the same addresses.
proof fn lemma_holder(w: Seq<IPRange>, u: Seq<IPRange>, i: int)
    requires
        settled(w),
        all_blocks(w),
        all_blocks(u),
        covered(u) == covered(w),
        0 <= i < w.len(),
    ensures
        0 <= holder(w, u, i) < u.len(),
        u[holder(w, u, i)].contains(w[i].start as int),
        u[holder(w, u, i)].end() <= w[i].end(),
{
    let b = w[i];
    let x = b.start as int;
    let k = lemma_block_bits(b);
    assert(b.contains(x));
    assert(covered(w).contains(x));
    assert(covered(u).contains(x));
    let j = choose|j: int| 0 <= j < u.len() && (#[trigger] u[j]).contains(x);
    if u[j].length <= b.length {
        lemma_blocks_nest(u[j], b, x);
    } else {
        let kj = lemma_block_bits(u[j]);
        lemma2_to64();
        lemma2_to64_rest();
        if kj > 32 {
            lemma_pow2_strictly_increases(32, kj);
        }
        if kj == 32 {
        } else {
            lemma_pow2_strictly_increases(kj, 32);
        }
        assert(b.length < ADDRESS_SPACE);
        let e = enclosing(b);
        lemma_enclosing_is_block(b);
        if k >= kj {
            if k > kj {
                lemma_pow2_strictly_increases(kj, k);
            }
        }
        assert(k < kj);
        lemma_pow2_unfold(k + 1);
        if k + 1 < kj {
            lemma_pow2_strictly_increases(k + 1, kj);
        }
        lemma_blocks_nest(e, u[j], x);
        assert forall|a: int| e.start <= a < e.start + e.length implies #[trigger] covered(
            w,
        ).contains(a) by {
            assert(u[j].contains(a));
            assert(covered(u).contains(a));
        }
        lemma_settled_is_maximal(w, i);
    }
}

/// No list of CIDR blocks that covers the addresses of a settled list of
/// CIDR blocks is shorter than it.
pub proof fn lemma_settled_is_shortest(w: Seq<IPRange>, u: Seq<IPRange>)
    requires
        settled(w),
        all_blocks(w),
        all_blocks(u),
        covered(u) == covered(w),
    ensures
        w.len() <= u.len(),
{
    lemma_settled_is_separated(w);
    let f = |i: int| holder(w, u, i);
    let from = set_int_range(0, w.len() as int);
    let into = set_int_range(0, u.len() as int);
    lemma_int_range(0, w.len() as int);
    lemma_int_range(0, u.len() as int);
    assert forall|i1: int, i2: int|
        from.contains(i1) && from.contains(i2) && #[trigger] f(i1) == #[trigger] f(i2) implies i1
        == i2 by {
        lemma_holder(w, u, i1);
        lemma_holder(w, u, i2);
        let k1 = lemma_block_bits(w[i1]);
        let k2 = lemma_block_bits(w[i2]);
        if i1 < i2 {
            lemma_separated_pairwise(w, i1, i2);
        } else if i2 < i1 {
            lemma_separated_pairwise(w, i2, i1);
        }
    }
    assert(injective_on(f, from));
    let image = from.map(f);
    lemma_map_size(from, image, f);
    assert forall|j: int| image.contains(j) implies into.contains(j) by {
        let i = choose|i: int| from.contains(i) && j == f(i);
        lemma_holder(w, u, i);
    }
    lemma_len_subset(image, into);
}

/// What the aggregator returns for a separated list of CIDR blocks is the
/// shortest list of CIDR blocks that covers the same addresses: no such
/// list is shorter.
pub proof fn lemma_aggregate_is_shortest(v: Seq<IPRange>, u: Seq<IPRange>)
    requires
        separated(v),
        all_blocks(v),
        all_blocks(u),
        covered(u) == covered(v),
    ensures
        aggregate_spec(v).len() <= u.len(),
{
    lemma_aggregate_keeps_cover(v);
    lemma_aggregate_keeps_blocks(v);
    lemma_settled_is_shortest(aggregate_spec(v), u);
}

/// A CIDR block is well-formed.
pub proof fn lemma_block_is_wf(r: IPRange)
    requires
        r.is_block(),
    ensures
        r.wf(),
{
    let k = lemma_block_bits(r);
    lemma2_to64();
    lemma2_to64_rest();
    lemma_multiple_of_smaller(ADDRESS_SPACE as int, k, 32);
    lemma_multiples_apart(r.start as int, ADDRESS_SPACE as int, pow2(k) as int);
}

/// What merging makes of CIDR blocks of which no two share an address is
/// the shortest list of CIDR blocks that covers the same addresses: no such
/// list is shorter.
pub proof fn lemma_merge_is_shortest(v: Seq<IPRange>, u: Seq<IPRange>)
    requires
        all_blocks(v),
        pairwise_disjoint(v),
        all_blocks(u),
        covered(u) == covered(v),
    ensures
        merge_spec(v).len() <= u.len(),
{
    broadcast use vstd::seq_lib::group_to_multiset_ensures;

    assert forall|i: int| 0 <= i < v.len() implies (#[trigger] v[i]).wf() by {
        lemma_block_is_wf(v[i]);
    }
    let s = sorted_by_start(v);
    lemma_sorted_by_start(v);
    lemma_sorted_is_separated(v);
    assert forall|i: int| 0 <= i < s.len() implies (#[trigger] s[i]).is_block() by {
        assert(s.to_multiset().contains(s[i]));
        assert(v.contains(s[i]));
        let p = choose|p: int| 0 <= p < v.len() && v[p] == s[i];
        assert(v[p].is_block());
    }
    lemma_aggregate_is_shortest(s, u);
}

} // verus!
