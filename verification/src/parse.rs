//! The range parser: `a.b.c.d/N` with a prefix length, or `a.b.c.d/m.m.m.m`
//! with a dotted mask.

use crate::range::{bit_sum, count_ones, lemma_count_ones_is_bit_sum, IPRange, ADDRESS_SPACE};
use crate::text::{
    all_digits, chars_of, decimal_up_to, decimal_value, field_views, is_digit, join,
    lemma_join_split, lemma_split_concat, lemma_split_plain, only_digits, split, split_fields,
};
use vstd::arithmetic::power2::pow2;
use vstd::bits::{
    lemma_u64_low_bits_mask_is_mod, lemma_u64_pow2_no_overflow, lemma_u64_shl_is_mul, low_bits_mask,
};
use vstd::prelude::*;

verus! {

/// Why a line is not a range.
#[derive(Clone, Copy, Debug, PartialEq, Eq, Structural)]
pub enum ParseError {
    /// The line has neither of the two forms.
    Malformed,
    /// The line has one of the two forms, and an octet exceeds 255 or the
    /// prefix length exceeds 32.
    OutOfRange,
}

/// One to three digits.
pub open spec fn is_octet_text(f: Seq<char>) -> bool {
    1 <= f.len() <= 3 && all_digits(f)
}

/// Four octets with a dot between each two.
pub open spec fn is_quad_text(s: Seq<char>) -> bool {
    let f = split(s, '.');
    f.len() == 4 && forall|i: int| 0 <= i < 4 ==> is_octet_text(#[trigger] f[i])
}

/// One digit or more.
pub open spec fn is_prefix_text(s: Seq<char>) -> bool {
    s.len() >= 1 && all_digits(s)
}

/// An address, a slash, and a prefix length or a dotted mask.
pub open spec fn is_line_text(s: Seq<char>) -> bool {
    let p = split(s, '/');
    p.len() == 2 && is_quad_text(p[0]) && (is_prefix_text(p[1]) || is_quad_text(p[1]))
}

/// Whether none of the four octets of `s` exceeds 255.
pub open spec fn quad_in_range(s: Seq<char>) -> bool {
    let f = split(s, '.');
    forall|i: int| 0 <= i < 4 ==> decimal_value(#[trigger] f[i]) <= 255
}

/// The four octets of `s` as one number, the first octet highest.
pub open spec fn quad_value(s: Seq<char>) -> nat {
    let f = split(s, '.');
    decimal_value(f[0]) * 0x100_0000 + decimal_value(f[1]) * 0x1_0000 + decimal_value(f[2]) * 0x100
        + decimal_value(f[3])
}

/// The mask whose highest `n` bits are set, for `n` up to 32.
pub open spec fn prefix_mask(n: nat) -> u32 {
    if n == 0 {
        0
    } else {
        0xFFFF_FFFFu32 << ((32 - n) as u32)
    }
}

/// Whether the text behind the slash names a mask.
pub open spec fn mask_in_range(m: Seq<char>) -> bool {
    if is_prefix_text(m) {
        decimal_value(m) <= 32
    } else {
        quad_in_range(m)
    }
}

/// The mask that the text behind the slash names.
pub open spec fn mask_value(m: Seq<char>) -> u32 {
    if is_prefix_text(m) {
        prefix_mask(decimal_value(m))
    } else {
        quad_value(m) as u32
    }
}

/// The range that `mask` cuts out around `addr`: the bits of `addr` outside
/// the mask are dropped.
pub open spec fn masked(addr: u32, mask: u32) -> IPRange {
    IPRange { start: addr & mask, length: (ADDRESS_SPACE - mask) as u64 }
}

/// What a line parses to.
pub open spec fn parse_spec(s: Seq<char>) -> Result<IPRange, ParseError> {
    let p = split(s, '/');
    if !is_line_text(s) {
        Err(ParseError::Malformed)
    } else if !(quad_in_range(p[0]) && mask_in_range(p[1])) {
        Err(ParseError::OutOfRange)
    } else {
        Ok(masked(quad_value(p[0]) as u32, mask_value(p[1])))
    }
}

/// What a mask cuts out around an address holds an address and lies within
/// the address space.
pub proof fn lemma_masked_is_wf(addr: u32, mask: u32)
    ensures
        masked(addr, mask).wf(),
{
    assert(addr & mask <= mask) by (bit_vector);
}

/// Every range that a line parses to is well-formed.
pub proof fn lemma_parsed_is_wf(s: Seq<char>)
    requires
        parse_spec(s) is Ok,
    ensures
        parse_spec(s)->Ok_0.wf(),
{
    let p = split(s, '/');
    lemma_masked_is_wf(quad_value(p[0]) as u32, mask_value(p[1]));
}

/// The mask of prefix length `n`: its complement is a power of two, what it
/// leaves of an address is a multiple of that power, and it has `n` bits.
pub proof fn lemma_prefix_mask(n: u32, addr: u32)
    requires
        n <= 32,
    ensures
        ADDRESS_SPACE - prefix_mask(n as nat) == pow2((32 - n) as nat),
        (addr & prefix_mask(n as nat)) as nat % pow2((32 - n) as nat) == 0,
        addr as nat % pow2((32 - n) as nat) == 0 ==> addr & prefix_mask(n as nat) == addr,
        count_ones(prefix_mask(n as nat)) == n,
{
    let m = prefix_mask(n as nat);
    let k: u64 = (32 - n) as u64;
    let size: u64 = 1u64 << k;
    lemma_u64_pow2_no_overflow(k as nat);
    lemma_u64_shl_is_mul(1, k);
    assert(size == pow2(k as nat));
    let low: u64 = (size - 1) as u64;
    assert(0x1_0000_0000u64 - (m as u64) == size && size > 0 && ((addr & m) as u64) & low == 0 && ((
    addr as u64) & low == 0 ==> addr & m == addr)) by (bit_vector)
        requires
            n <= 32,
            k == (32 - n) as u64,
            size == 1u64 << k,
            low == (size - 1) as u64,
            m == (if n == 0 {
                0u32
            } else {
                0xFFFF_FFFFu32 << ((32 - n) as u32)
            }),
    ;
    assert(low == low_bits_mask(k as nat) as u64);
    lemma_u64_low_bits_mask_is_mod((addr & m) as u64, k as nat);
    lemma_u64_low_bits_mask_is_mod(addr as u64, k as nat);
    assert(n == bit_sum(m)) by (bit_vector)
        requires
            n <= 32,
            m == (if n == 0 {
                0u32
            } else {
                0xFFFF_FFFFu32 << ((32 - n) as u32)
            }),
    ;
    lemma_count_ones_is_bit_sum(m);
}

/// A line with a prefix length names a CIDR block of that prefix length.
pub proof fn lemma_prefix_form_is_block(s: Seq<char>)
    requires
        parse_spec(s) is Ok,
        is_prefix_text(split(s, '/')[1]),
    ensures
        parse_spec(s)->Ok_0.is_block_of(decimal_value(split(s, '/')[1])),
        parse_spec(s)->Ok_0.is_block(),
{
    let p = split(s, '/');
    let n = decimal_value(p[1]);
    lemma_prefix_mask(n as u32, quad_value(p[0]) as u32);
    assert(parse_spec(s)->Ok_0.is_block_of(n));
}

/// Digits hold neither a dot nor a slash.
pub proof fn lemma_digits_hold_no_separator(s: Seq<char>)
    requires
        all_digits(s),
    ensures
        !s.contains('.'),
        !s.contains('/'),
{
    if s.contains('.') {
        let i = choose|i: int| 0 <= i < s.len() && s[i] == '.';
        assert(is_digit(s[i]));
    }
    if s.contains('/') {
        let i = choose|i: int| 0 <= i < s.len() && s[i] == '/';
        assert(is_digit(s[i]));
    }
}

/// Four octets written with dots between them are a dotted quad, and its
/// fields are the four octets.
pub proof fn lemma_quad_from_octets(a: Seq<char>, b: Seq<char>, c: Seq<char>, d: Seq<char>)
    requires
        is_octet_text(a),
        is_octet_text(b),
        is_octet_text(c),
        is_octet_text(d),
    ensures
        split(a + seq!['.'] + b + seq!['.'] + c + seq!['.'] + d, '.') == seq![a, b, c, d],
        is_quad_text(a + seq!['.'] + b + seq!['.'] + c + seq!['.'] + d),
        !(a + seq!['.'] + b + seq!['.'] + c + seq!['.'] + d).contains('/'),
{
    let dot = seq!['.'];
    let x1 = a + dot + b;
    let x2 = x1 + dot + c;
    let q = x2 + dot + d;
    lemma_digits_hold_no_separator(a);
    lemma_digits_hold_no_separator(b);
    lemma_digits_hold_no_separator(c);
    lemma_digits_hold_no_separator(d);
    lemma_split_plain(a, '.');
    lemma_split_plain(b, '.');
    lemma_split_plain(c, '.');
    lemma_split_plain(d, '.');
    lemma_split_concat(a, b, '.');
    lemma_split_concat(x1, c, '.');
    lemma_split_concat(x2, d, '.');
    let f = split(q, '.');
    assert(f =~= seq![a, b, c, d]);
    assert forall|i: int| 0 <= i < 4 implies is_octet_text(#[trigger] f[i]) by {
        assert(i == 0 || i == 1 || i == 2 || i == 3);
    }
    if q.contains('/') {
        let i = choose|i: int| 0 <= i < q.len() && q[i] == '/';
        let l0 = a.len() as int;
        let l1 = l0 + 1 + b.len();
        let l2 = l1 + 1 + c.len();
        if i < l0 {
            assert(a.contains(a[i]));
        } else if i == l0 {
        } else if i < l1 {
            assert(b.contains(b[i - l0 - 1]));
        } else if i == l1 {
        } else if i < l2 {
            assert(c.contains(c[i - l1 - 1]));
        } else if i == l2 {
        } else {
            assert(d.contains(d[i - l2 - 1]));
        }
    }
}

/// A dotted quad is its four fields written with dots between them.
pub proof fn lemma_quad_into_octets(s: Seq<char>)
    requires
        is_quad_text(s),
    ensures
        s == split(s, '.')[0] + seq!['.'] + split(s, '.')[1] + seq!['.'] + split(s, '.')[2] + seq![
            '.',
        ] + split(s, '.')[3],
        !s.contains('/'),
{
    let f = split(s, '.');
    lemma_join_split(s, '.');
    let f3 = f.drop_last();
    let f2 = f3.drop_last();
    let f1 = f2.drop_last();
    assert(f1.len() == 1 && f1[0] == f[0]);
    assert(join(f1, '.') == f[0]);
    assert(f2.last() == f[1]);
    assert(join(f2, '.') == f[0] + seq!['.'] + f[1]);
    assert(f3.last() == f[2]);
    assert(join(f3, '.') == join(f2, '.') + seq!['.'] + f[2]);
    assert(is_octet_text(f[0]) && is_octet_text(f[1]) && is_octet_text(f[2]) && is_octet_text(
        f[3],
    ));
    lemma_quad_from_octets(f[0], f[1], f[2], f[3]);
}

/// An address and a mask written with a slash between them are a line, and
/// its two fields are the address and the mask.
pub proof fn lemma_line_from_parts(addr: Seq<char>, mask: Seq<char>)
    requires
        is_quad_text(addr),
        is_prefix_text(mask) || is_quad_text(mask),
    ensures
        split(addr + seq!['/'] + mask, '/') == seq![addr, mask],
        is_line_text(addr + seq!['/'] + mask),
{
    lemma_quad_into_octets(addr);
    if is_prefix_text(mask) {
        lemma_digits_hold_no_separator(mask);
    } else {
        lemma_quad_into_octets(mask);
    }
    lemma_split_plain(addr, '/');
    lemma_split_plain(mask, '/');
    lemma_split_concat(addr, mask, '/');
    assert(split(addr + seq!['/'] + mask, '/') =~= seq![addr, mask]);
}

/// A line is its two fields written with a slash between them.
pub proof fn lemma_line_into_parts(s: Seq<char>)
    requires
        is_line_text(s),
    ensures
        s == split(s, '/')[0] + seq!['/'] + split(s, '/')[1],
{
    let p = split(s, '/');
    lemma_join_split(s, '/');
    assert(p.drop_last().len() == 1);
    assert(p.drop_last()[0] == p[0]);
    assert(join(p.drop_last(), '/') == p[0]);
}

/// The fields of `s` between its dots, where they are four octets.
fn octet_fields(s: &Vec<char>) -> (r: Option<Vec<Vec<char>>>)
    ensures
        r is Some <==> is_quad_text(s@),
        r matches Some(f) ==> field_views(f@) == split(s@, '.'),
{
    let fields = split_fields(s, '.');
    if fields.len() != 4 {
        return None;
    }
    let mut i: usize = 0;
    while i < 4
        invariant
            0 <= i <= 4,
            fields.len() == 4,
            field_views(fields@) == split(s@, '.'),
            forall|j: int| 0 <= j < i ==> is_octet_text(#[trigger] split(s@, '.')[j]),
        decreases 4 - i,
    {
        assert(field_views(fields@)[i as int] == fields@[i as int]@);
        let n = fields[i].len();
        if n < 1 || n > 3 || !only_digits(&fields[i]) {
            return None;
        }
        i += 1;
    }
    Some(fields)
}

/// The four octets of `fields` as one number, unless one exceeds 255.
fn quad_number(fields: &Vec<Vec<char>>, Ghost(s): Ghost<Seq<char>>) -> (r: Option<u32>)
    requires
        is_quad_text(s),
        field_views(fields@) == split(s, '.'),
    ensures
        r is Some <==> quad_in_range(s),
        r matches Some(v) ==> v == quad_value(s),
{
    let ghost f = split(s, '.');
    assert(fields.len() == 4);
    assert forall|j: int| 0 <= j < 4 implies fields@[j]@ == #[trigger] f[j] && is_octet_text(
        f[j],
    ) by {
        assert(field_views(fields@)[j] == fields@[j]@);
    }
    assert(is_octet_text(f[0]) && is_octet_text(f[1]) && is_octet_text(f[2]) && is_octet_text(
        f[3],
    ));
    let a = decimal_up_to(&fields[0], 255);
    let b = decimal_up_to(&fields[1], 255);
    let c = decimal_up_to(&fields[2], 255);
    let d = decimal_up_to(&fields[3], 255);
    match (a, b, c, d) {
        (Some(a), Some(b), Some(c), Some(d)) => {
            Some(a * 0x100_0000 + b * 0x1_0000 + c * 0x100 + d)
        },
        _ => None,
    }
}

/// Parses one line into the range that it names.
pub fn parse_iprange(ipr: &str) -> (r: Result<IPRange, ParseError>)
    ensures
        r == parse_spec(ipr@),
        r matches Ok(x) ==> x.wf(),
{
    let chars = chars_of(ipr);
    let parts = split_fields(&chars, '/');
    if parts.len() != 2 {
        return Err(ParseError::Malformed);
    }
    assert(field_views(parts@)[0] == parts@[0]@);
    assert(field_views(parts@)[1] == parts@[1]@);
    let addr_fields = match octet_fields(&parts[0]) {
        Some(f) => f,
        None => {
            return Err(ParseError::Malformed);
        },
    };
    let mask_text = &parts[1];
    let mask: Option<u32> = if mask_text.len() >= 1 && only_digits(mask_text) {
        match decimal_up_to(mask_text, 32) {
            Some(n) => if n == 0 {
                Some(0)
            } else {
                Some(u32::MAX << (32 - n))
            },
            None => None,
        }
    } else {
        match octet_fields(mask_text) {
            Some(f) => quad_number(&f, Ghost(mask_text@)),
            None => {
                return Err(ParseError::Malformed);
            },
        }
    };
    let addr = quad_number(&addr_fields, Ghost(parts@[0]@));
    match (addr, mask) {
        (Some(addr), Some(mask)) => {
            proof {
                lemma_masked_is_wf(addr, mask);
            }
            Ok(IPRange { start: addr & mask, length: ADDRESS_SPACE - mask as u64 })
        },
        _ => Err(ParseError::OutOfRange),
    }
}

} // verus!
