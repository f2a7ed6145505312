//! The range model: a contiguous run of IPv4 addresses given by its first
//! address and the number of addresses it holds.

use vstd::arithmetic::power2::pow2;
use vstd::prelude::*;

verus! {

/// The number of IPv4 addresses, `2^32`.
pub const ADDRESS_SPACE: u64 = 0x1_0000_0000;

/// A run of `length` consecutive addresses that begins at `start`. The
/// length is wider than an address: the whole address space holds `2^32`.
#[derive(Clone, Copy, Debug, PartialEq, Eq, Structural)]
pub struct IPRange {
    pub start: u32,
    pub length: u64,
}

impl IPRange {
    /// The address just past the last one of the range.
    pub open spec fn end(self) -> int {
        self.start + self.length
    }

    /// Whether `addr` lies in the range.
    pub open spec fn contains(self, addr: int) -> bool {
        self.start <= addr < self.end()
    }

    /// The range holds at least one address and none beyond the address space.
    pub open spec fn wf(self) -> bool {
        1 <= self.length && self.end() <= ADDRESS_SPACE
    }

    /// The range is the CIDR block of prefix length `prefix`: it holds
    /// `2^(32 - prefix)` addresses and begins at a multiple of that number.
    pub open spec fn is_block_of(self, prefix: nat) -> bool {
        &&& prefix <= 32
        &&& self.length == pow2((32 - prefix) as nat)
        &&& self.start as nat % pow2((32 - prefix) as nat) == 0
    }

    /// The range is a CIDR block.
    pub open spec fn is_block(self) -> bool {
        exists|prefix: nat| self.is_block_of(prefix)
    }
}

/// Bit `i` of `y`, as 0 or 1.
pub open spec fn bit_at(y: u32, i: u32) -> u32 {
    (y >> i) & 1
}

/// How many of the lowest `n` bits of `y` are set.
pub open spec fn ones_below(y: u32, n: nat) -> nat
    decreases n,
{
    if n == 0 {
        0
    } else {
        ones_below(y, (n - 1) as nat) + bit_at(y, (n - 1) as u32) as nat
    }
}

/// The number of set bits of `y`.
pub open spec fn count_ones(y: u32) -> nat {
    ones_below(y, 32)
}

/// The bits of `y` added up one by one.
pub open spec fn bit_sum(y: u32) -> int {
    bit_at(y, 0) + bit_at(y, 1) + bit_at(y, 2) + bit_at(y, 3) + bit_at(y, 4) + bit_at(y, 5)
        + bit_at(y, 6) + bit_at(y, 7) + bit_at(y, 8) + bit_at(y, 9) + bit_at(y, 10) + bit_at(y, 11)
        + bit_at(y, 12) + bit_at(y, 13) + bit_at(y, 14) + bit_at(y, 15) + bit_at(y, 16) + bit_at(
        y,
        17,
    ) + bit_at(y, 18) + bit_at(y, 19) + bit_at(y, 20) + bit_at(y, 21) + bit_at(y, 22) + bit_at(
        y,
        23,
    ) + bit_at(y, 24) + bit_at(y, 25) + bit_at(y, 26) + bit_at(y, 27) + bit_at(y, 28) + bit_at(
        y,
        29,
    ) + bit_at(y, 30) + bit_at(y, 31)
}

/// The number of set bits is the sum of the thirty-two bits.
pub proof fn lemma_count_ones_is_bit_sum(y: u32)
    ensures
        count_ones(y) == bit_sum(y),
{
    reveal_with_fuel(ones_below, 33);
}

/// Counts the set bits of `y`.
pub fn bit_count(y: u32) -> (n: u8)
    ensures
        n == count_ones(y),
{
    assert(y >= ((y >> 1) & 0x55555555)) by (bit_vector);
    let x1: u32 = y - ((y >> 1) & 0x55555555);
    assert((x1 & 0x33333333) + ((x1 >> 2) & 0x33333333) <= 0xffff_ffff) by (bit_vector);
    let x2: u32 = (x1 & 0x33333333) + ((x1 >> 2) & 0x33333333);
    assert(x2 + (x2 >> 4) <= 0xffff_ffff) by (bit_vector)
        requires
            x2 == (x1 & 0x33333333) + ((x1 >> 2) & 0x33333333),
    ;
    let x3: u32 = (x2 + (x2 >> 4)) & 0x0F0F0F0F;
    assert(x3 + (x3 >> 8) <= 0xffff_ffff) by (bit_vector)
        requires
            x3 == ((x2 + (x2 >> 4)) as u32) & 0x0F0F0F0F,
    ;
    let x4: u32 = x3 + (x3 >> 8);
    assert(x4 + (x4 >> 16) <= 0xffff_ffff) by (bit_vector)
        requires
            x3 == ((x2 + (x2 >> 4)) as u32) & 0x0F0F0F0F,
            x4 == x3 + (x3 >> 8),
    ;
    let x5: u32 = x4 + (x4 >> 16);
    let r: u32 = x5 & 0x0000003F;
    assert(r == bit_sum(y) && r <= 0x3F) by (bit_vector)
        requires
            x1 == y - ((y >> 1) & 0x55555555),
            x2 == (x1 & 0x33333333) + ((x1 >> 2) & 0x33333333),
            x3 == ((x2 + (x2 >> 4)) as u32) & 0x0F0F0F0F,
            x4 == x3 + (x3 >> 8),
            x5 == x4 + (x4 >> 16),
            r == x5 & 0x0000003F,
    ;
    proof {
        lemma_count_ones_is_bit_sum(y);
    }
    r as u8
}

} // verus!
