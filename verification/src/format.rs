//! The CIDR text of a range: its first address as a dotted quad, a slash,
//! and its prefix length.

use crate::range::{bit_count, count_ones, IPRange, ADDRESS_SPACE};
use crate::text::{decimal_text, digit_char};
use vstd::prelude::*;

verus! {

/// The number of leading bits that the addresses of `r` share.
pub open spec fn prefix_len(r: IPRange) -> nat {
    count_ones((ADDRESS_SPACE - r.length) as u32)
}

/// The four octets of `a` in decimal, highest first, with dots between them.
pub open spec fn quad_text(a: u32) -> Seq<char> {
    decimal_text((a / 0x100_0000) as nat) + seq!['.'] + decimal_text((a / 0x1_0000 % 0x100) as nat)
        + seq!['.'] + decimal_text((a / 0x100 % 0x100) as nat) + seq!['.'] + decimal_text(
        (a % 0x100) as nat,
    )
}

/// The CIDR text of `r`.
pub open spec fn format_spec(r: IPRange) -> Seq<char> {
    quad_text(r.start) + seq!['/'] + decimal_text(prefix_len(r))
}

/// The text of one digit.
fn digit_str(d: u32) -> (s: &'static str)
    requires
        d < 10,
    ensures
        s@ == seq![digit_char(d as nat)],
{
    proof {
        reveal_strlit("0");
        reveal_strlit("1");
        reveal_strlit("2");
        reveal_strlit("3");
        reveal_strlit("4");
        reveal_strlit("5");
        reveal_strlit("6");
        reveal_strlit("7");
        reveal_strlit("8");
        reveal_strlit("9");
    }
    let s = if d == 0 {
        "0"
    } else if d == 1 {
        "1"
    } else if d == 2 {
        "2"
    } else if d == 3 {
        "3"
    } else if d == 4 {
        "4"
    } else if d == 5 {
        "5"
    } else if d == 6 {
        "6"
    } else if d == 7 {
        "7"
    } else if d == 8 {
        "8"
    } else {
        "9"
    };
    assert(s@ =~= seq![digit_char(d as nat)]);
    s
}

/// Writes `n` in decimal behind `out`.
fn push_decimal(out: &mut String, n: u32)
    ensures
        final(out)@ == old(out)@ + decimal_text(n as nat),
    decreases n,
{
    if n >= 10 {
        push_decimal(out, n / 10);
    }
    out.append(digit_str(n % 10));
    assert(final(out)@ =~= old(out)@ + decimal_text(n as nat));
}

impl IPRange {
    /// The CIDR text of the range.
    pub fn to_string(&self) -> (s: String)
        requires
            1 <= self.length <= ADDRESS_SPACE,
        ensures
            s@ == format_spec(*self),
    {
        proof {
            reveal_strlit(".");
            reveal_strlit("/");
        }
        let a = self.start;
        let mut s = String::new();
        push_decimal(&mut s, a / 0x100_0000);
        s.append(".");
        push_decimal(&mut s, a / 0x1_0000 % 0x100);
        s.append(".");
        push_decimal(&mut s, a / 0x100 % 0x100);
        s.append(".");
        push_decimal(&mut s, a % 0x100);
        s.append("/");
        let mask: u32 = (ADDRESS_SPACE - self.length) as u32;
        push_decimal(&mut s, bit_count(mask) as u32);
        assert(s@ =~= format_spec(*self));
        s
    }
}

} // verus!
