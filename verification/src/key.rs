use vstd::prelude::*;
use vstd::std_specs::cmp::PartialEqSpec;

verus! {

/// The 64-bit two's-complement image of an integer: non-negative values keep
/// their value, negative values are sign-extended, so that `-1` becomes
/// `u64::MAX`.
pub open spec fn sign_extended(x: int) -> u64 {
    if x >= 0 {
        x as u64
    } else {
        (x + 0x1_0000_0000_0000_0000) as u64
    }
}

/// Enables a type to be used as a key in an `IntMap`.
///
/// A key supplies its own 64-bit representation, from which the map derives
/// the bucket the key lives in. The map never compares representations: two
/// keys are the same key exactly when `==` says so. Distinct keys may share a
/// representation; they then share a bucket and are still told apart. Keeping
/// representations distinct is what keeps buckets short, and it is left to
/// the implementing type.
///
/// Implementations outside this crate are taken at their word: the map is
/// proved correct for every key type that keeps the two promises below.
pub trait IntMapKey: Copy + PartialEq {
    /// The representation of this key as a function of its value.
    spec fn spec_key(&self) -> u64;

    /// Returns the 64-bit representation of this key.
    fn intmap_key(&self) -> (bits: u64)
        ensures
            bits == self.spec_key(),
    ;

    /// `==` on this type is specified, and holds of two keys exactly when
    /// they are the same value.
    proof fn lemma_eq_is_identity()
        ensures
            Self::obeys_eq_spec(),
            forall|a: Self, b: Self| #[trigger] a.eq_spec(&b) <==> a == b,
    ;
}

/// Compares two keys with `==`, which decides whether they are the same key.
pub(crate) fn same_key<K: IntMapKey>(a: &K, b: &K) -> (same: bool)
    ensures
        same == (*a == *b),
{
    proof {
        K::lemma_eq_is_identity();
    }
    *a == *b
}

impl IntMapKey for u8 {
    open spec fn spec_key(&self) -> u64 {
        *self as u64
    }

    fn intmap_key(&self) -> (bits: u64) {
        u64::from(*self)
    }

    proof fn lemma_eq_is_identity() {
    }
}

impl IntMapKey for u16 {
    open spec fn spec_key(&self) -> u64 {
        *self as u64
    }

    fn intmap_key(&self) -> (bits: u64) {
        u64::from(*self)
    }

    proof fn lemma_eq_is_identity() {
    }
}

impl IntMapKey for u32 {
    open spec fn spec_key(&self) -> u64 {
        *self as u64
    }

    fn intmap_key(&self) -> (bits: u64) {
        u64::from(*self)
    }

    proof fn lemma_eq_is_identity() {
    }
}

impl IntMapKey for u64 {
    open spec fn spec_key(&self) -> u64 {
        *self
    }

    fn intmap_key(&self) -> (bits: u64) {
        *self
    }

    proof fn lemma_eq_is_identity() {
    }
}

impl IntMapKey for usize {
    open spec fn spec_key(&self) -> u64 {
        *self as u64
    }

    fn intmap_key(&self) -> (bits: u64) {
        *self as u64
    }

    proof fn lemma_eq_is_identity() {
    }
}

impl IntMapKey for i8 {
    open spec fn spec_key(&self) -> u64 {
        sign_extended(*self as int)
    }

    fn intmap_key(&self) -> (bits: u64) {
        let x: i8 = *self;
        assert(x as u64 == (if x >= 0 {
            x as u64
        } else {
            (x + 0x1_0000_0000_0000_0000) as u64
        })) by (bit_vector);
        #[verifier::truncate]
        (x as u64)
    }

    proof fn lemma_eq_is_identity() {
    }
}

impl IntMapKey for i16 {
    open spec fn spec_key(&self) -> u64 {
        sign_extended(*self as int)
    }

    fn intmap_key(&self) -> (bits: u64) {
        let x: i16 = *self;
        assert(x as u64 == (if x >= 0 {
            x as u64
        } else {
            (x + 0x1_0000_0000_0000_0000) as u64
        })) by (bit_vector);
        #[verifier::truncate]
        (x as u64)
    }

    proof fn lemma_eq_is_identity() {
    }
}

impl IntMapKey for i32 {
    open spec fn spec_key(&self) -> u64 {
        sign_extended(*self as int)
    }

    fn intmap_key(&self) -> (bits: u64) {
        let x: i32 = *self;
        assert(x as u64 == (if x >= 0 {
            x as u64
        } else {
            (x + 0x1_0000_0000_0000_0000) as u64
        })) by (bit_vector);
        #[verifier::truncate]
        (x as u64)
    }

    proof fn lemma_eq_is_identity() {
    }
}

impl IntMapKey for i64 {
    open spec fn spec_key(&self) -> u64 {
        sign_extended(*self as int)
    }

    fn intmap_key(&self) -> (bits: u64) {
        let x: i64 = *self;
        assert(x as u64 == (if x >= 0 {
            x as u64
        } else {
            (x + 0x1_0000_0000_0000_0000) as u64
        })) by (bit_vector);
        #[verifier::truncate]
        (x as u64)
    }

    proof fn lemma_eq_is_identity() {
    }
}

impl IntMapKey for isize {
    open spec fn spec_key(&self) -> u64 {
        sign_extended(*self as int)
    }

    fn intmap_key(&self) -> (bits: u64) {
        let x: isize = *self;
        assert(x as u64 == (if x >= 0 {
            x as u64
        } else {
            (x + 0x1_0000_0000_0000_0000) as u64
        })) by (bit_vector);
        #[verifier::truncate]
        (x as u64)
    }

    proof fn lemma_eq_is_identity() {
    }
}

} // verus!
