use vstd::arithmetic::power::pow;
use vstd::arithmetic::power2::{
    is_pow2, is_pow2_equiv, lemma2_to64, lemma_pow2, lemma_pow2_pos,
    lemma_pow2_strictly_increases, pow2,
};
use vstd::bits::{lemma_u64_low_bits_mask_is_mod, low_bits_mask};
use vstd::prelude::*;

verus! {

/// The odd multiplier of the mixing step: 2^64 divided by the golden ratio,
/// rounded to the nearest odd integer.
pub const MIX_MULTIPLIER: u64 = 0x9E37_79B9_7F4A_7C15;

/// The mixing step as a function of the representation alone.
///
/// Integer keys tend to be sequential or to differ only in their high bits.
/// Multiplying by a large odd constant spreads every input bit upwards, and
/// folding the upper half onto the lower half brings the well-mixed high bits
/// down to where the bucket mask reads them.
pub open spec fn spec_mix(repr: u64) -> u64 {
    let product = repr.wrapping_mul(MIX_MULTIPLIER);
    product ^ (product >> 32)
}

/// Mixes a 64-bit key representation before it is masked into a bucket index.
#[verifier::when_used_as_spec(spec_mix)]
pub fn mix(repr: u64) -> (mixed: u64)
    ensures
        mixed == spec_mix(repr),
{
    let product = repr.wrapping_mul(MIX_MULTIPLIER);
    product ^ (product >> 32)
}

/// The bucket that a representation is assigned to among `buckets` buckets:
/// the low bits of the mixed representation, cut out by the mask
/// `buckets - 1`.
pub open spec fn spec_bucket_index(repr: u64, buckets: usize) -> usize {
    (spec_mix(repr) & ((buckets - 1) as u64)) as usize
}

/// The mask never selects a bucket beyond the last.
pub proof fn lemma_bucket_index_in_range(repr: u64, buckets: usize)
    requires
        buckets > 0,
    ensures
        spec_bucket_index(repr, buckets) < buckets,
{
    let mask = (buckets - 1) as u64;
    let mixed = spec_mix(repr);
    assert(mixed & mask <= mask) by (bit_vector);
}

/// Among a power-of-two number of buckets the mask cuts out the remainder of
/// the mixed representation by the bucket count, so that every bucket is the
/// home of equally many mixed representations.
pub proof fn lemma_bucket_index_is_remainder(repr: u64, buckets: usize)
    requires
        is_pow2(buckets as int),
    ensures
        spec_bucket_index(repr, buckets) == spec_mix(repr) % (buckets as u64),
{
    // The bucket count is two to some power below 64, and the mask is that
    // power's mask of low bits.
    is_pow2_equiv(buckets as int);
    let exponent = choose|e: nat| pow(2, e) == buckets as int;
    lemma_pow2(exponent);
    lemma_pow2_pos(exponent);
    lemma2_to64();
    if exponent > 64 {
        lemma_pow2_strictly_increases(64, exponent);
    }
    assert(exponent < 64 && low_bits_mask(exponent) == buckets - 1);
    lemma_u64_low_bits_mask_is_mod(spec_mix(repr), exponent);
    lemma_bucket_index_in_range(repr, buckets);
}

/// Derives the bucket index of a representation.
///
/// The bucket count is a power of two wherever the map calls this, which makes
/// the mask select every bucket; the index is in range for any positive
/// count.
#[verifier::when_used_as_spec(spec_bucket_index)]
pub fn bucket_index(repr: u64, buckets: usize) -> (index: usize)
    requires
        buckets > 0,
    ensures
        index == spec_bucket_index(repr, buckets),
        index < buckets,
{
    proof {
        lemma_bucket_index_in_range(repr, buckets);
    }
    let mask = (buckets - 1) as u64;
    (mix(repr) & mask) as usize
}

} // verus!
