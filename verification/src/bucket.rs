//! Buckets as sequences of pairs: what a bucket holds under a key, and what
//! storing and removing a pair make of it.

use vstd::prelude::*;

verus! {

/// Whether some pair of the bucket carries `key`.
pub open spec fn holds_key<K, V>(bucket: Seq<(K, V)>, key: K) -> bool {
    exists|j: int| 0 <= j < bucket.len() && (#[trigger] bucket[j]).0 == key
}

/// A position at which the bucket carries `key`, if there is one. In a
/// bucket without repeated keys it is the only one.
pub open spec fn slot_of<K, V>(bucket: Seq<(K, V)>, key: K) -> int {
    choose|j: int| 0 <= j < bucket.len() && (#[trigger] bucket[j]).0 == key
}

/// No key occurs at two positions of the bucket.
pub open spec fn distinct_keys<K, V>(bucket: Seq<(K, V)>) -> bool {
    forall|i: int, j: int|
        0 <= i < j < bucket.len() ==> (#[trigger] bucket[i]).0 != (#[trigger] bucket[j]).0
}

/// The value that the bucket holds under `key`.
pub open spec fn lookup<K, V>(bucket: Seq<(K, V)>, key: K) -> Option<V> {
    if holds_key(bucket, key) {
        Some(bucket[slot_of(bucket, key)].1)
    } else {
        None
    }
}

/// The bucket after the pair at `slot` has been swapped with the last pair and
/// the bucket shortened by one. The pairs before `slot` stay where they are,
/// the last pair takes the place of the one at `slot`, and the order of the
/// bucket is otherwise kept.
pub open spec fn swap_removed<K, V>(bucket: Seq<(K, V)>, slot: int) -> Seq<(K, V)> {
    bucket.update(slot, bucket.last()).drop_last()
}

/// The bucket after `value` has been stored under `key`: the pair of a key
/// that the bucket holds gets the value and stays in its place, the pair of
/// a new key is appended.
pub open spec fn with_pair<K, V>(bucket: Seq<(K, V)>, key: K, value: V) -> Seq<(K, V)> {
    if holds_key(bucket, key) {
        bucket.update(slot_of(bucket, key), (key, value))
    } else {
        bucket.push((key, value))
    }
}

/// The bucket after `key` has been removed: the pair of a key that the
/// bucket holds is swap-removed, a bucket that lacks the key stays as it is.
pub open spec fn without_key<K, V>(bucket: Seq<(K, V)>, key: K) -> Seq<(K, V)> {
    if holds_key(bucket, key) {
        swap_removed(bucket, slot_of(bucket, key))
    } else {
        bucket
    }
}

/// In a bucket without repeated keys, a key is found where it stands.
pub proof fn lemma_lookup_at<K, V>(bucket: Seq<(K, V)>, slot: int)
    requires
        distinct_keys(bucket),
        0 <= slot < bucket.len(),
    ensures
        holds_key(bucket, bucket[slot].0),
        slot_of(bucket, bucket[slot].0) == slot,
        lookup(bucket, bucket[slot].0) == Some(bucket[slot].1),
{
    // Another position with the same key would be a second occurrence.
    let found = slot_of(bucket, bucket[slot].0);
    assert(!(found < slot) && !(slot < found));
}

/// Storing a value under a key keeps the keys of the bucket distinct, puts
/// the value under that key and leaves every other key as it was.
pub proof fn lemma_lookup_with_pair<K, V>(bucket: Seq<(K, V)>, key: K, value: V, probe: K)
    requires
        distinct_keys(bucket),
    ensures
        distinct_keys(with_pair(bucket, key, value)),
        lookup(with_pair(bucket, key, value), probe) == if probe == key {
            Some(value)
        } else {
            lookup(bucket, probe)
        },
{
    let stored = with_pair(bucket, key, value);
    let at = if holds_key(bucket, key) {
        slot_of(bucket, key)
    } else {
        bucket.len() as int
    };
    // Position `at` holds the pair; every other position holds what it held,
    // under a key that is not `key`.
    assert forall|i: int| 0 <= i < stored.len() && i != at implies #[trigger] stored[i]
        == bucket[i] && bucket[i].0 != key by {
        if holds_key(bucket, key) {
            lemma_lookup_at(bucket, i);
        }
    }
    if probe == key {
        lemma_lookup_at(stored, at);
    } else if holds_key(bucket, probe) {
        lemma_lookup_at(bucket, slot_of(bucket, probe));
        lemma_lookup_at(stored, slot_of(bucket, probe));
    } else if holds_key(stored, probe) {
        assert(holds_key(bucket, stored[slot_of(stored, probe)].0));
    }
}

/// Of two values stored under one key, one after the other, the bucket shows
/// the second only: it is as if the first had never been stored.
pub proof fn lemma_with_pair_twice<K, V>(bucket: Seq<(K, V)>, key: K, first: V)
    requires
        distinct_keys(bucket),
    ensures
        forall|second: V| #[trigger]
            with_pair(with_pair(bucket, key, first), key, second) == with_pair(bucket, key, second),
{
    let once = with_pair(bucket, key, first);
    let at = if holds_key(bucket, key) {
        slot_of(bucket, key)
    } else {
        bucket.len() as int
    };
    // The first store leaves the key at `at`, where the second finds it.
    lemma_lookup_with_pair(bucket, key, first, key);
    lemma_lookup_at(once, at);
}

/// Swap-removing the pair at one position keeps the keys of the bucket
/// distinct, removes that position's key and leaves every other key with its
/// value.
pub proof fn lemma_lookup_swap_remove<K, V>(bucket: Seq<(K, V)>, slot: int, probe: K)
    requires
        distinct_keys(bucket),
        0 <= slot < bucket.len(),
    ensures
        distinct_keys(swap_removed(bucket, slot)),
        lookup(swap_removed(bucket, slot), probe) == if probe == bucket[slot].0 {
            None
        } else {
            lookup(bucket, probe)
        },
{
    let key = bucket[slot].0;
    let last = bucket.len() - 1;
    let rest = swap_removed(bucket, slot);
    // Position `i` of the shortened bucket holds what stood at `origin(i)`.
    let origin = |i: int| if i == slot { last } else { i };
    assert forall|i: int| 0 <= i < rest.len() implies #[trigger] rest[i] == bucket[origin(i)] by {}
    assert forall|i: int, j: int| 0 <= i < j < rest.len() implies (#[trigger] rest[i]).0 != (
    #[trigger] rest[j]).0 by {
        assert(origin(i) != origin(j));
    }
    if holds_key(rest, probe) {
        let at = slot_of(rest, probe);
        lemma_lookup_at(rest, at);
        lemma_lookup_at(bucket, origin(at));
        lemma_lookup_at(bucket, slot);
    } else if probe != key && holds_key(bucket, probe) {
        let from = slot_of(bucket, probe);
        let at = if from == last { slot } else { from };
        assert(rest[at].0 == probe);
    }
}

/// Removing a key keeps the keys of the bucket distinct, removes that key
/// and leaves every other key with its value.
pub proof fn lemma_lookup_without_key<K, V>(bucket: Seq<(K, V)>, key: K, probe: K)
    requires
        distinct_keys(bucket),
    ensures
        distinct_keys(without_key(bucket, key)),
        lookup(without_key(bucket, key), probe) == if probe == key {
            None
        } else {
            lookup(bucket, probe)
        },
{
    if holds_key(bucket, key) {
        lemma_lookup_swap_remove(bucket, slot_of(bucket, key), probe);
    }
}

} // verus!
