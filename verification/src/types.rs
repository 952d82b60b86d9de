//! The default 24-bit coordinate storage and the half-ranges of the
//! quantization grids.
//!
//! There is no native 24-bit type: coordinates are stored at 24-bit width but
//! live in `i32` in memory.

use vstd::prelude::*;

use crate::bytes::{fits, fixed_at, le_bytes, lemma_fixed_round_trip, push_fixed};
use crate::common::QuantBits;
use crate::format::read_fixed;

verus! {

/// Half-range of an `i{bits}` quantization grid.
pub open spec fn half_range(bits: nat) -> nat
    decreases bits,
{
    if bits <= 1 {
        0
    } else {
        2 * half_range((bits - 1) as nat) + 1
    }
}

/// Half-range of an `i{bits}` quantization grid (`2^(bits-1) - 1`).
pub fn qmax_for(bits: u32) -> (q: u64)
    requires
        1 <= bits <= 64,
    ensures
        q == half_range(bits as nat),
{
    let mut q: u64 = 0;
    let mut b: u32 = 1;
    while b < bits
        invariant
            1 <= b <= bits <= 64,
            q == half_range(b as nat),
        decreases bits - b,
    {
        proof {
            lemma_half_range(b as nat);
        }
        q = 2 * q + 1;
        b = b + 1;
    }
    q
}

proof fn lemma_half_range(b: nat)
    requires
        1 <= b <= 63,
    ensures
        half_range(b) <= 0x3FFF_FFFF_FFFF_FFFF,
{
    reveal_with_fuel(half_range, 64);
}

/// Appends a coordinate at 24-bit width.
pub fn push_i24(out: &mut Vec<u8>, v: i32)
    ensures
        final(out)@ == old(out)@ + le_bytes(v as int, 3),
{
    push_fixed(out, v, 3);
}

/// Reads a 24-bit coordinate, sign-extended.
#[must_use]
pub fn read_i24(b: &[u8]) -> (v: i32)
    requires
        b@.len() >= 3,
    ensures
        v == fixed_at(b@, 0, 3),
{
    read_fixed(b, 0, QuantBits::Bits24)
}

/// What [`push_i24`] writes [`read_i24`] reads back, for every value that fits
/// 24 bits.
pub proof fn lemma_i24_round_trip(v: i32)
    requires
        fits(v as int, 3),
    ensures
        fixed_at(le_bytes(v as int, 3), 0, 3) == v,
{
    let b = le_bytes(v as int, 3);
    assert(b.subrange(0, 3) =~= b);
    lemma_fixed_round_trip(b, 0, v as int, 3);
}

/// The half-range of a grid of `bits` bits is one less than half of what they
/// count.
pub proof fn lemma_half_range_is_half(bits: nat)
    requires
        bits >= 1,
    ensures
        2 * (half_range(bits) + 1) == vstd::arithmetic::power2::pow2(bits),
    decreases bits,
{
    vstd::arithmetic::power2::lemma_pow2_unfold(bits);
    if bits == 1 {
        vstd::arithmetic::power2::lemma2_to64();
    } else {
        lemma_half_range_is_half((bits - 1) as nat);
    }
}

} // verus!
