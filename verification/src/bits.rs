//! Bit-level vocabulary of the crit-bit trie: single-bit branching masks, the
//! bits of a key below a mask, and the facts about them that the tree proofs
//! rely on.
use vstd::prelude::*;

verus! {

/// m has exactly one bit set: it is a valid branching-bit mask.
pub open spec fn single_bit(m: u64) -> bool {
    m != 0 && m & ((m - 1) as u64) == 0
}

/// The bits of k strictly below the (single) set bit of m.
pub open spec fn low_bits(k: u64, m: u64) -> u64 {
    k & ((m - 1) as u64)
}

/// Taking the bits below a mask twice is the same as taking them once.
pub proof fn lemma_low_bits_idempotent(k: u64, m: u64)
    by (bit_vector)
    requires
        single_bit(m),
    ensures
        low_bits(low_bits(k, m), m) == low_bits(k, m),
{
}

/// Two keys that agree below a high mask also agree below any lower mask,
/// and, if the lower mask is strictly lower, at its bit as well.
pub proof fn lemma_agree_below(a: u64, b: u64, mlo: u64, mhi: u64)
    by (bit_vector)
    requires
        single_bit(mlo),
        single_bit(mhi),
        mlo <= mhi,
        low_bits(a, mhi) == low_bits(b, mhi),
    ensures
        low_bits(a, mlo) == low_bits(b, mlo),
        mlo < mhi ==> a & mlo == b & mlo,
{
}

/// Two keys that agree below a mask and at its bit can only be told apart by
/// a strictly higher single-bit mask.
pub proof fn lemma_split_bit_above(k0: u64, k1: u64, m: u64, m2: u64)
    by (bit_vector)
    requires
        single_bit(m),
        single_bit(m2),
        low_bits(k0, m) == low_bits(k1, m),
        k0 & m == k1 & m,
        k0 & m2 != k1 & m2,
    ensures
        m2 > m,
{
}

/// A single-bit mask extracts either nothing or exactly its own bit.
pub proof fn lemma_single_bit_and(k: u64, m: u64)
    by (bit_vector)
    requires
        single_bit(m),
    ensures
        k & m == 0 || k & m == m,
{
}

/// Climbing from a single-bit mask at bit j or above to a strictly greater
/// one lands at bit j + 1 or above; bit 63 has no single bit above it.
pub proof fn lemma_mask_step(m: u64, m2: u64, j: u64)
    by (bit_vector)
    requires
        single_bit(m),
        single_bit(m2),
        m2 > m,
        m >= (1u64 << j),
        j < 64,
    ensures
        j < 63,
        m2 >= (1u64 << ((j + 1) as u64)),
{
}

} // verus!
