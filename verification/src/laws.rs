//! What holds of any sequence of calls, stated over the views that the
//! contracts of the calls speak of and proved from nothing else.
//!
//! `insert(key, value)` leaves the view `map@.insert(key, value)` and returns
//! `map@.get(key)`; `remove(key)` leaves `map@.remove(key)` and returns
//! `map@.get(key)`; `get(key)` returns what `map@.get(key)` holds; `len()`
//! returns `map@.len()`. The laws below follow these through two calls or
//! more.

use crate::entry::Entry;
use crate::key::IntMapKey;
use crate::map::IntMap;
use vstd::prelude::*;

verus! {

/// What `insert` stores under a key is what `get` finds there.
pub proof fn lemma_insert_then_get<K: IntMapKey, V>(map: IntMap<K, V>, key: K, value: V)
    requires
        map.wf(),
    ensures
        map@.insert(key, value).get(key) == Some(value),
{
}

/// Of two insertions under one key, the second returns the value of the
/// first, its own value is the one found afterwards, and it adds no key.
pub proof fn lemma_insert_twice<K: IntMapKey, V>(map: IntMap<K, V>, key: K, first: V, second: V)
    requires
        map.wf(),
    ensures
        map@.insert(key, first).get(key) == Some(first),
        map@.insert(key, first).insert(key, second).get(key) == Some(second),
        map@.insert(key, first).insert(key, second).len() == map@.insert(key, first).len(),
{
    map.lemma_wf();
}

/// A removed key is found no more. Removing a present key takes exactly one
/// pair away; removing an absent key returns nothing and changes nothing.
pub proof fn lemma_remove_then_get<K: IntMapKey, V>(map: IntMap<K, V>, key: K)
    requires
        map.wf(),
    ensures
        map@.remove(key).get(key) is None,
        map@.contains_key(key) ==> map@.remove(key).len() == map@.len() - 1,
        !map@.contains_key(key) ==> map@.get(key) is None && map@.remove(key) == map@,
{
    map.lemma_wf();
}

/// The number of pairs goes up by one with every insertion of a key that was
/// not present, down by one with every removal of a key that was, and stays
/// otherwise: it is the number of keys inserted and not removed since.
pub proof fn lemma_count_follows_keys<K: IntMapKey, V>(map: IntMap<K, V>, key: K, value: V)
    requires
        map.wf(),
    ensures
        map@.insert(key, value).len() == map@.len() + if map@.contains_key(key) {
            0int
        } else {
            1int
        },
        map@.remove(key).len() == map@.len() - if map@.contains_key(key) {
            1int
        } else {
            0int
        },
{
    map.lemma_wf();
}

/// The view after the pairs of `pairs` have been inserted one after the
/// other, from the first to the last.
pub open spec fn after_inserts<K, V>(view: Map<K, V>, pairs: Seq<(K, V)>) -> Map<K, V>
    decreases pairs.len(),
{
    if pairs.len() == 0 {
        view
    } else {
        after_inserts(view, pairs.drop_last()).insert(pairs.last().0, pairs.last().1)
    }
}

/// Growth is not seen: after any run of insertions, however often it made
/// the container double its buckets, every key is found with the value of
/// its last insertion, and a key that the run did not touch with the value
/// that it had.
///
/// Each `insert` leaves the view of the container before it with the one
/// pair put in, whether or not it grows, so the run leaves
/// `after_inserts(map@, pairs)`.
pub proof fn lemma_inserts_survive_growth<K: IntMapKey, V>(
    map: IntMap<K, V>,
    pairs: Seq<(K, V)>,
    key: K,
)
    requires
        map.wf(),
    ensures
        forall|at: int|
            {
                &&& 0 <= at < pairs.len()
                &&& (#[trigger] pairs[at]).0 == key
                &&& forall|later: int|
                    at < later < pairs.len() ==> (#[trigger] pairs[later]).0 != key
            } ==> after_inserts(map@, pairs).get(key) == Some(pairs[at].1),
        (forall|at: int| 0 <= at < pairs.len() ==> (#[trigger] pairs[at]).0 != key)
            ==> after_inserts(map@, pairs).get(key) == map@.get(key),
    decreases pairs.len(),
{
    if pairs.len() > 0 {
        // By induction the claim holds of the run without its last pair, and
        // the last insertion changes what is found for its own key only.
        let earlier = pairs.drop_last();
        lemma_inserts_survive_growth(map, earlier, key);
        assert forall|at: int|
            {
                &&& 0 <= at < pairs.len()
                &&& (#[trigger] pairs[at]).0 == key
                &&& forall|later: int|
                    at < later < pairs.len() ==> (#[trigger] pairs[later]).0 != key
            } implies after_inserts(map@, pairs).get(key) == Some(pairs[at].1) by {
            if at < pairs.len() - 1 {
                assert(pairs.last().0 != key);
                assert(earlier[at] == pairs[at]);
                assert forall|later: int| at < later < earlier.len() implies (
                #[trigger] earlier[later]).0 != key by {
                    assert(earlier[later] == pairs[later]);
                }
            }
        }
        if forall|at: int| 0 <= at < pairs.len() ==> (#[trigger] pairs[at]).0 != key {
            assert(pairs.last().0 != key);
            assert forall|at: int| 0 <= at < earlier.len() implies (#[trigger] earlier[at]).0
                != key by {
                assert(earlier[at] == pairs[at]);
            }
        }
    }
}

/// Inserting through the entry of a key leaves what inserting under the key
/// directly leaves.
///
/// For the entry that `entry(key)` hands out on `map`, the view, the buckets
/// and the capacity that the entry's `insert` promises are those that
/// `IntMap::insert` promises: an occupied entry overwrites in place where
/// `IntMap::insert` would not grow either, and a vacant entry grows exactly
/// when `IntMap::insert` would.
pub proof fn lemma_entry_insert_is_insert<'a, K: IntMapKey, V>(
    map: IntMap<K, V>,
    entry: Entry<'a, K, V>,
    key: K,
    value: V,
)
    requires
        map.wf(),
        entry.wf(),
        entry.key() == key,
        entry is Occupied == map@.contains_key(key),
        *entry.store() == map,
    ensures
        match entry {
            Entry::Occupied(occupied) => {
                &&& occupied.store()@.insert(occupied.key(), value) == map@.insert(key, value)
                &&& occupied.store().buckets_with(occupied.key(), value) == map.buckets_with(
                    key,
                    value,
                )
                &&& occupied.value() == map@[key]
                &&& !map.grows_on_insert(key)
            },
            Entry::Vacant(vacant) => {
                &&& vacant.store()@.insert(vacant.key(), value) == map@.insert(key, value)
                &&& vacant.store().buckets_with(vacant.key(), value) == map.buckets_with(key, value)
                &&& vacant.store().grows_on_insert(vacant.key()) == map.grows_on_insert(key)
                &&& vacant.store().spec_capacity() == map.spec_capacity()
            },
        },
{
}

/// A cleared container holds nothing, and it takes insertions as a new one
/// of the same capacity does.
///
/// `clear` leaves every bucket empty, as `with_capacity` makes them. Two
/// containers with the same buckets have the same view, and what an
/// insertion leaves and returns, and whether it makes the container grow,
/// depends on the buckets alone.
pub proof fn lemma_cleared_is_like_new<K: IntMapKey, V>(
    cleared: IntMap<K, V>,
    new: IntMap<K, V>,
    key: K,
    value: V,
)
    requires
        cleared.wf(),
        new.wf(),
        cleared.spec_capacity() == new.spec_capacity(),
        cleared.buckets() == Seq::new(
            cleared.spec_capacity() as nat,
            |i: int| Seq::<(K, V)>::empty(),
        ),
        new.buckets() == Seq::new(new.spec_capacity() as nat, |i: int| Seq::<(K, V)>::empty()),
    ensures
        cleared@ == Map::<K, V>::empty(),
        cleared@.len() == 0,
        forall|any: K| cleared@.get(any) is None,
        cleared@ == new@,
        cleared@.insert(key, value) == new@.insert(key, value),
        cleared@.get(key) == new@.get(key),
        cleared.grows_on_insert(key) == new.grows_on_insert(key),
        cleared.buckets_with(key, value) == new.buckets_with(key, value),
{
    cleared.lemma_buckets_decide(&new);
    cleared.lemma_empty_buckets();
}

} // verus!
