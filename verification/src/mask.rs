//! Candidate masks: a 9-bit set of the digits a cell may still hold.
//!
//! Bit `n` (0-indexed) set means digit `n + 1` is still possible.

use vstd::prelude::*;

verus! {

/// The mask of a cell with no constraints: all nine digits possible.
pub const ALL_CANDIDATES: u16 = 0x1FF;

/// Every bit set in `a` is also set in `b`.
pub open spec fn submask(a: u16, b: u16) -> bool {
    a & b == a
}

/// Number of set bits among bits `0 .. k` of `m`.
pub open spec fn popcount_to(m: u16, k: int) -> int
    decreases k,
{
    if k <= 0 {
        0
    } else {
        popcount_to(m, k - 1) + ((m >> ((k - 1) as u16)) & 1)
    }
}

/// Number of set candidate bits of `m` (only bits `0 .. 9` count).
pub open spec fn popcount9(m: u16) -> int {
    popcount_to(m, 9)
}

/// A mask is resolved when exactly one candidate digit remains.
pub open spec fn spec_is_resolved(m: u16) -> bool {
    popcount9(m) == 1
}

/// Each shifted-out bit is 0 or 1.
pub proof fn lemma_bit01()
    by (bit_vector)
    ensures
        forall|m: u16, s: u16| #[trigger] ((m >> s) & 1) == 0 || ((m >> s) & 1) == 1,
{
}

/// `popcount_to` stays between 0 and `k`.
pub proof fn lemma_popcount_to_bounds(m: u16, k: int)
    ensures
        0 <= popcount_to(m, k),
        k >= 0 ==> popcount_to(m, k) <= k,
    decreases k,
{
    lemma_bit01();
    if k > 0 {
        lemma_popcount_to_bounds(m, k - 1);
    }
}

/// A submask has a set bit only where the larger mask does.
proof fn lemma_submask_bit(a: u16, b: u16, s: u16)
    by (bit_vector)
    requires
        a & b == a,
    ensures
        ((a >> s) & 1) <= ((b >> s) & 1),
{
}

/// A submask never has more set bits than the mask containing it.
pub proof fn lemma_submask_popcount_to_le(a: u16, b: u16, k: int)
    requires
        submask(a, b),
    ensures
        popcount_to(a, k) <= popcount_to(b, k),
    decreases k,
{
    if k > 0 {
        lemma_submask_popcount_to_le(a, b, k - 1);
        lemma_submask_bit(a, b, (k - 1) as u16);
    }
}

/// A submask never has more candidates than the mask containing it.
pub proof fn lemma_submask_popcount9_le(a: u16, b: u16)
    requires
        submask(a, b),
    ensures
        popcount9(a) <= popcount9(b),
{
    lemma_submask_popcount_to_le(a, b, 9);
}

/// A mask with exactly one candidate bit is a power of two below 512.
pub proof fn lemma_single_bit_forms(m: u16)
    by (bit_vector)
    requires
        popcount_to(m, 9) == 1,
    ensures
        m & 0x1FF == 1 || m & 0x1FF == 2 || m & 0x1FF == 4 || m & 0x1FF == 8 || m & 0x1FF
            == 16 || m & 0x1FF == 32 || m & 0x1FF == 64 || m & 0x1FF == 128 || m & 0x1FF == 256,
{
}

/// Number of set bits among the nine candidate bits of `number`.
///
/// Higher bits are ignored, so the result also measures a cell's entropy.
pub fn count_bits(number: u16) -> (r: u8)
    ensures
        r as int == popcount9(number),
        r <= 9,
{
    proof {
        lemma_bit01();
    }
    let mut count: u8 = 0;
    let mut house: u16 = 0;
    while house < 9
        invariant
            house <= 9,
            count as int == popcount_to(number, house as int),
            count <= house,
        decreases 9 - house,
    {
        proof {
            lemma_bit01();
        }
        count = count + ((number >> house) & 1) as u8;
        house = house + 1;
    }
    count
}

/// True when exactly one candidate digit remains in `mask`.
pub fn is_resolved(mask: u16) -> (r: bool)
    ensures
        r == spec_is_resolved(mask),
{
    count_bits(mask) == 1
}

/// The digit a resolved mask stands for, or nothing when the mask is not
/// resolved. A resolved mask `1 << (d - 1)` maps to digit `d`.
pub fn digit_of(mask: u16) -> (r: Option<u8>)
    requires
        mask <= ALL_CANDIDATES,
    ensures
        r is Some <==> spec_is_resolved(mask),
        r matches Some(d) ==> 1 <= d <= 9 && mask == (1u16 << ((d - 1) as u16)),
{
    let mut bit: u16 = 0;
    while bit < 9
        invariant
            bit <= 9,
            forall|s: u16| s < bit ==> mask != #[trigger] (1u16 << s),
        decreases 9 - bit,
    {
        if mask == 1u16 << bit {
            proof {
                assert(bit < 9 ==> popcount_to(1u16 << bit, 9) == 1) by (bit_vector);
            }
            return Some((bit + 1) as u8);
        }
        bit = bit + 1;
    }
    proof {
        if spec_is_resolved(mask) {
            lemma_single_bit_forms(mask);
            assert(mask <= 0x1FF ==> mask & 0x1FF == mask) by (bit_vector);
            assert(1u16 << 0u16 == 1 && 1u16 << 1u16 == 2 && 1u16 << 2u16 == 4 && 1u16 << 3u16
                == 8 && 1u16 << 4u16 == 16 && 1u16 << 5u16 == 32 && 1u16 << 6u16 == 64 && 1u16
                << 7u16 == 128 && 1u16 << 8u16 == 256) by (bit_vector);
        }
    }
    None
}


/// A single candidate bit has exactly one set bit.
pub proof fn lemma_single_bit_popcount()
    by (bit_vector)
    ensures
        forall|b: u16| b < 9 ==> popcount_to(#[trigger] (1u16 << b), 9) == 1,
{
}

/// The digits still possible among bits `0 .. b` of `mask`, in increasing
/// order.
pub open spec fn digits_to(mask: u16, b: int) -> Seq<u8>
    decreases b,
{
    if b <= 0 {
        Seq::empty()
    } else if mask & (1u16 << ((b - 1) as u16)) == (1u16 << ((b - 1) as u16)) {
        digits_to(mask, b - 1) + seq![b as u8]
    } else {
        digits_to(mask, b - 1)
    }
}

/// Testing a bit by mask equals testing it by shift.
proof fn lemma_bit_test_forms()
    by (bit_vector)
    ensures
        forall|m: u16, s: u16|
            s < 9 ==> ((#[trigger] (m & (1u16 << s)) == 1u16 << s) <==> ((m >> s) & 1) == 1),
{
}

/// There are as many possible digits as set candidate bits.
pub proof fn lemma_digits_to_len(mask: u16, b: int)
    requires
        0 <= b <= 9,
    ensures
        digits_to(mask, b).len() == popcount_to(mask, b),
    decreases b,
{
    lemma_bit_test_forms();
    lemma_bit01();
    if b > 0 {
        lemma_digits_to_len(mask, b - 1);
    }
}

/// The candidate digits of `mask`, in increasing order. The full candidate
/// set of an unresolved cell, for rendering or inspection.
pub fn candidates(mask: u16) -> (r: Vec<u8>)
    ensures
        r@ == digits_to(mask, 9),
        r@.len() == popcount9(mask),
{
    let mut digits: Vec<u8> = Vec::new();
    let mut d: u16 = 1;
    while d <= 9
        invariant
            1 <= d <= 10,
            digits@ == digits_to(mask, d as int - 1),
        decreases 10 - d,
    {
        let bit = 1u16 << (d - 1);
        if mask & bit == bit {
            digits.push(d as u8);
            proof {
                assert(digits@ =~= digits_to(mask, d as int));
            }
        }
        d = d + 1;
    }
    proof {
        lemma_digits_to_len(mask, 9);
    }
    digits
}
} // verus!
