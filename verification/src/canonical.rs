//! Parsing and formatting undo each other on CIDR blocks and on the lines
//! that write them without leading zeros.

use crate::format::{format_spec, prefix_len, quad_text};
use crate::parse::{
    is_line_text, is_prefix_text, is_quad_text, lemma_line_from_parts, lemma_line_into_parts,
    lemma_prefix_form_is_block, lemma_prefix_mask, lemma_quad_from_octets,
    lemma_quad_into_octets, mask_in_range, mask_value,
    masked, parse_spec, prefix_mask, quad_in_range, quad_value, ParseError,
};
use crate::range::{IPRange, ADDRESS_SPACE};
use crate::text::{
    decimal_text, decimal_value, is_canonical, lemma_decimal_text_is_canonical,
    lemma_text_of_value, lemma_value_of_text, split,
};
use vstd::prelude::*;

verus! {

/// A line with a prefix length in which no number has a leading zero and no
/// bit of the address lies outside the mask.
pub open spec fn is_canonical_line(s: Seq<char>) -> bool {
    let p = split(s, '/');
    let f = split(p[0], '.');
    &&& parse_spec(s) is Ok
    &&& is_prefix_text(p[1])
    &&& is_canonical(p[1])
    &&& forall|i: int| 0 <= i < 4 ==> is_canonical(#[trigger] f[i])
    &&& parse_spec(s)->Ok_0.start == quad_value(p[0])
}

proof fn lemma_octets(a: u32, v0: nat, v1: nat, v2: nat, v3: nat)
    requires
        v0 <= 255,
        v1 <= 255,
        v2 <= 255,
        v3 <= 255,
        a == v0 * 0x100_0000 + v1 * 0x1_0000 + v2 * 0x100 + v3,
    ensures
        a / 0x100_0000 == v0,
        a / 0x1_0000 % 0x100 == v1,
        a / 0x100 % 0x100 == v2,
        a % 0x100 == v3,
{
}

/// Formatting the range of a canonical line gives the line.
pub proof fn lemma_format_of_parsed(s: Seq<char>)
    requires
        is_canonical_line(s),
    ensures
        format_spec(parse_spec(s)->Ok_0) == s,
{
    let p = split(s, '/');
    let f = split(p[0], '.');
    let r = parse_spec(s)->Ok_0;
    let n = decimal_value(p[1]);
    lemma_line_into_parts(s);
    lemma_quad_into_octets(p[0]);
    assert(is_canonical(f[0]) && is_canonical(f[1]) && is_canonical(f[2]) && is_canonical(f[3]));
    assert(decimal_value(f[0]) <= 255 && decimal_value(f[1]) <= 255 && decimal_value(f[2]) <= 255
        && decimal_value(f[3]) <= 255);
    lemma_octets(
        r.start,
        decimal_value(f[0]),
        decimal_value(f[1]),
        decimal_value(f[2]),
        decimal_value(f[3]),
    );
    lemma_text_of_value(f[0]);
    lemma_text_of_value(f[1]);
    lemma_text_of_value(f[2]);
    lemma_text_of_value(f[3]);
    assert(quad_text(r.start) == p[0]);
    lemma_prefix_mask(n as u32, quad_value(p[0]) as u32);
    assert((ADDRESS_SPACE - r.length) as u32 == prefix_mask(n));
    assert(prefix_len(r) == n);
    lemma_text_of_value(p[1]);
}

proof fn lemma_quad_text(a: u32)
    ensures
        is_quad_text(quad_text(a)),
        quad_in_range(quad_text(a)),
        quad_value(quad_text(a)) == a,
        forall|i: int| 0 <= i < 4 ==> is_canonical(#[trigger] split(quad_text(a), '.')[i]),
{
    let o0 = (a / 0x100_0000) as nat;
    let o1 = (a / 0x1_0000 % 0x100) as nat;
    let o2 = (a / 0x100 % 0x100) as nat;
    let o3 = (a % 0x100) as nat;
    lemma_decimal_text_is_canonical(o0);
    lemma_decimal_text_is_canonical(o1);
    lemma_decimal_text_is_canonical(o2);
    lemma_decimal_text_is_canonical(o3);
    lemma_value_of_text(o0);
    lemma_value_of_text(o1);
    lemma_value_of_text(o2);
    lemma_value_of_text(o3);
    lemma_quad_from_octets(
        decimal_text(o0),
        decimal_text(o1),
        decimal_text(o2),
        decimal_text(o3),
    );
    let f = split(quad_text(a), '.');
    assert(f[0] == decimal_text(o0) && f[1] == decimal_text(o1) && f[2] == decimal_text(o2)
        && f[3] == decimal_text(o3));
    assert forall|i: int| 0 <= i < 4 implies is_canonical(#[trigger] f[i]) && decimal_value(f[i])
        <= 255 by {
        assert(i == 0 || i == 1 || i == 2 || i == 3);
    }
}

/// Parsing the text of a CIDR block gives the block, and that text is a
/// canonical line.
pub proof fn lemma_parse_of_formatted(r: IPRange)
    requires
        r.is_block(),
    ensures
        parse_spec(format_spec(r)) == Ok::<IPRange, ParseError>(r),
        is_canonical_line(format_spec(r)),
{
    let n = choose|n: nat| r.is_block_of(n);
    lemma_prefix_mask(n as u32, r.start);
    assert((ADDRESS_SPACE - r.length) as u32 == prefix_mask(n));
    assert(prefix_len(r) == n);
    let q = quad_text(r.start);
    let d = decimal_text(n);
    let t = format_spec(r);
    assert(t == q + seq!['/'] + d);
    lemma_quad_text(r.start);
    lemma_decimal_text_is_canonical(n);
    lemma_value_of_text(n);
    lemma_line_from_parts(q, d);
    let p = split(t, '/');
    assert(p[0] == q && p[1] == d);
    assert(is_line_text(t));
    assert(mask_in_range(d));
    assert(mask_value(d) == prefix_mask(n));
    assert(masked(r.start, prefix_mask(n)) == r);
}

/// The lines that formatting gives back after parsing are the canonical
/// lines, and no others.
pub proof fn lemma_round_trip_exactly(s: Seq<char>)
    requires
        parse_spec(s) is Ok,
    ensures
        format_spec(parse_spec(s)->Ok_0) == s <==> is_canonical_line(s),
{
    let r = parse_spec(s)->Ok_0;
    if is_canonical_line(s) {
        lemma_format_of_parsed(s);
    }
    if format_spec(r) == s {
        let q = quad_text(r.start);
        let d = decimal_text(prefix_len(r));
        lemma_quad_text(r.start);
        lemma_decimal_text_is_canonical(prefix_len(r));
        lemma_line_from_parts(q, d);
        assert(split(s, '/')[1] == d);
        lemma_prefix_form_is_block(s);
        lemma_parse_of_formatted(r);
    }
}

} // verus!
