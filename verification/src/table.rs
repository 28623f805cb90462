//! Tables: sequences of buckets. The layout rules of a table, the map that it
//! stands for, and what changes to one bucket do to both.

use crate::bucket::{
    distinct_keys, holds_key, lemma_lookup_at, lemma_lookup_with_pair, lemma_lookup_without_key,
    lookup, slot_of, with_pair, without_key,
};
use crate::index::{lemma_bucket_index_in_range, spec_bucket_index};
use crate::key::IntMapKey;
use vstd::arithmetic::power2::is_pow2;
use vstd::prelude::*;

verus! {

/// The contents of a vector of buckets.
pub(crate) open spec fn contents<K, V>(cache: Seq<Vec<(K, V)>>) -> Seq<Seq<(K, V)>> {
    cache.map_values(|bucket: Vec<(K, V)>| bucket@)
}

/// Replacing one bucket of the vector replaces that bucket of the contents.
pub(crate) proof fn lemma_contents_update<K, V>(
    cache: Seq<Vec<(K, V)>>,
    i: int,
    bucket: Vec<(K, V)>,
)
    requires
        0 <= i < cache.len(),
    ensures
        contents(cache.update(i, bucket)) == contents(cache).update(i, bucket@),
{
}

/// The bucket that `key` belongs to in a table of this many buckets.
pub(crate) open spec fn home<K: IntMapKey, V>(table: Seq<Seq<(K, V)>>, key: K) -> int {
    spec_bucket_index(key.spec_key(), table.len() as usize) as int
}

/// Every key has a home among the buckets of a table that has any.
pub(crate) proof fn lemma_home_in_range<K: IntMapKey, V>(table: Seq<Seq<(K, V)>>, key: K)
    requires
        0 < table.len() <= usize::MAX,
    ensures
        0 <= home(table, key) < table.len(),
{
    lemma_bucket_index_in_range(key.spec_key(), table.len() as usize);
}

/// The value found for `key` by looking only into its home bucket.
pub(crate) open spec fn table_lookup<K: IntMapKey, V>(table: Seq<Seq<(K, V)>>, key: K) -> Option<
    V,
> {
    lookup(table[home(table, key)], key)
}

/// The map that a table stands for.
pub(crate) open spec fn table_map<K: IntMapKey, V>(table: Seq<Seq<(K, V)>>) -> Map<K, V> {
    Map::new(
        |key: K| table_lookup(table, key) is Some,
        |key: K| table_lookup(table, key).unwrap(),
    )
}

/// The number of pairs in all buckets together.
pub(crate) open spec fn total_len<K, V>(table: Seq<Seq<(K, V)>>) -> nat
    decreases table.len(),
{
    if table.len() == 0 {
        0
    } else {
        total_len(table.drop_last()) + table.last().len()
    }
}

/// The layout rules of a table: a power-of-two number of buckets, no key
/// twice in a bucket, every pair in the bucket that its key is assigned to.
pub(crate) open spec fn table_valid<K: IntMapKey, V>(table: Seq<Seq<(K, V)>>) -> bool {
    &&& 0 < table.len() <= usize::MAX
    &&& is_pow2(table.len() as int)
    &&& forall|i: int| 0 <= i < table.len() ==> distinct_keys(#[trigger] table[i])
    &&& forall|i: int, j: int|
        0 <= i < table.len() && 0 <= j < table[i].len() ==> home(table, (#[trigger] table[i][j]).0)
            == i
}

/// The table after `value` has been stored under `key` in the key's home
/// bucket.
pub(crate) open spec fn table_with<K: IntMapKey, V>(
    table: Seq<Seq<(K, V)>>,
    key: K,
    value: V,
) -> Seq<Seq<(K, V)>> {
    table.update(home(table, key), with_pair(table[home(table, key)], key, value))
}

/// The table after `key` has been removed from its home bucket.
pub(crate) open spec fn table_without<K: IntMapKey, V>(table: Seq<Seq<(K, V)>>, key: K) -> Seq<
    Seq<(K, V)>,
> {
    table.update(home(table, key), without_key(table[home(table, key)], key))
}

/// Whether a growing container has already moved the pair of `key` out of
/// the table `former`. The buckets are emptied from the last to the first,
/// each from its last pair to its first: moved are the pairs in buckets
/// after `bucket`, and those in `bucket` itself from position `kept` on.
pub(crate) open spec fn rehomed<K: IntMapKey, V>(
    former: Seq<Seq<(K, V)>>,
    bucket: int,
    kept: int,
    key: K,
) -> bool {
    let at = home(former, key);
    &&& holds_key(former[at], key)
    &&& at > bucket || (at == bucket && slot_of(former[at], key) >= kept)
}

/// Replacing one bucket changes the total by the difference of the two
/// bucket lengths.
proof fn lemma_total_len_update<K, V>(table: Seq<Seq<(K, V)>>, i: int, bucket: Seq<(K, V)>)
    requires
        0 <= i < table.len(),
    ensures
        total_len(table.update(i, bucket)) == total_len(table) - table[i].len() + bucket.len(),
    decreases table.len(),
{
    let changed = table.update(i, bucket);
    if i == table.len() - 1 {
        assert(changed.drop_last() =~= table.drop_last());
    } else {
        assert(changed.drop_last() =~= table.drop_last().update(i, bucket));
        lemma_total_len_update(table.drop_last(), i, bucket);
    }
}

/// A table of empty buckets holds nothing.
proof fn lemma_total_len_empty<K, V>(table: Seq<Seq<(K, V)>>)
    requires
        forall|i: int| 0 <= i < table.len() ==> (#[trigger] table[i]).len() == 0,
    ensures
        total_len(table) == 0,
    decreases table.len(),
{
    if table.len() > 0 {
        lemma_total_len_empty(table.drop_last());
    }
}

/// A power-of-two number of empty buckets is a valid table that stands for
/// the empty map.
pub(crate) proof fn lemma_empty_table<K: IntMapKey, V>(table: Seq<Seq<(K, V)>>)
    requires
        0 < table.len() <= usize::MAX,
        is_pow2(table.len() as int),
        forall|i: int| 0 <= i < table.len() ==> (#[trigger] table[i]).len() == 0,
    ensures
        table_valid(table),
        total_len(table) == 0,
        table_map(table) == Map::<K, V>::empty(),
        forall|key: K| table_lookup(table, key) is None,
        table == Seq::new(table.len(), |i: int| Seq::<(K, V)>::empty()),
{
    lemma_total_len_empty(table);
    assert forall|key: K| table_lookup(table, key) is None by {
        lemma_home_in_range(table, key);
    }
    assert forall|i: int| 0 <= i < table.len() implies #[trigger] table[i] == Seq::<
        (K, V),
    >::empty() by {}
}

/// What a change to the bucket of `key` does to the table as a whole, when the
/// change touches no key but `key` and keeps the bucket's layout rules.
proof fn lemma_table_update<K: IntMapKey, V>(
    table: Seq<Seq<(K, V)>>,
    i: int,
    bucket: Seq<(K, V)>,
    key: K,
    outcome: Option<V>,
)
    requires
        table_valid(table),
        0 <= i < table.len(),
        home(table, key) == i,
        distinct_keys(bucket),
        forall|j: int| 0 <= j < bucket.len() ==> home(table, (#[trigger] bucket[j]).0) == i,
        forall|probe: K| #[trigger]
            lookup(bucket, probe) == if probe == key {
                outcome
            } else {
                lookup(table[i], probe)
            },
    ensures
        table_valid(table.update(i, bucket)),
        table_map(table.update(i, bucket)) == match outcome {
            Some(value) => table_map(table).insert(key, value),
            None => table_map(table).remove(key),
        },
        total_len(table.update(i, bucket)) == total_len(table) - table[i].len() + bucket.len(),
        forall|probe: K| #[trigger]
            table_lookup(table.update(i, bucket), probe) == if probe == key {
                outcome
            } else {
                table_lookup(table, probe)
            },
{
    let changed = table.update(i, bucket);
    lemma_total_len_update(table, i, bucket);
    // A key is looked up in its home bucket, which is the changed one or one
    // that stayed.
    assert forall|probe: K| #[trigger]
        table_lookup(changed, probe) == if probe == key {
            outcome
        } else {
            table_lookup(table, probe)
        } by {
        lemma_home_in_range(table, probe);
        if home(table, probe) == i {
            assert(lookup(bucket, probe) == if probe == key {
                outcome
            } else {
                lookup(table[i], probe)
            });
        }
    }
}

/// Storing a value under a key in the key's home bucket keeps the table
/// valid and puts the pair into the table's map.
pub(crate) proof fn lemma_table_with<K: IntMapKey, V>(table: Seq<Seq<(K, V)>>, key: K, value: V)
    requires
        table_valid(table),
    ensures
        0 <= home(table, key) < table.len(),
        table_valid(table_with(table, key, value)),
        table_map(table_with(table, key, value)) == table_map(table).insert(key, value),
        total_len(table_with(table, key, value)) == total_len(table) + if table_lookup(
            table,
            key,
        ) is Some {
            0int
        } else {
            1int
        },
        forall|probe: K| #[trigger]
            table_lookup(table_with(table, key, value), probe) == if probe == key {
                Some(value)
            } else {
                table_lookup(table, probe)
            },
{
    lemma_home_in_range(table, key);
    let i = home(table, key);
    let bucket = table[i];
    let stored = with_pair(bucket, key, value);
    assert forall|probe: K| #[trigger]
        lookup(stored, probe) == if probe == key {
            Some(value)
        } else {
            lookup(bucket, probe)
        } by {
        lemma_lookup_with_pair(bucket, key, value, probe);
    }
    lemma_lookup_with_pair(bucket, key, value, key);
    // Every pair of the bucket is the new pair or one that was there.
    assert forall|j: int| 0 <= j < stored.len() implies home(table, (#[trigger] stored[j]).0)
        == i by {
        assert(stored[j] == (key, value) || stored[j] == table[i][j]);
    }
    lemma_table_update(table, i, stored, key, Some(value));
}

/// Removing a key from its home bucket keeps the table valid and takes the
/// key out of the table's map.
pub(crate) proof fn lemma_table_without<K: IntMapKey, V>(table: Seq<Seq<(K, V)>>, key: K)
    requires
        table_valid(table),
    ensures
        0 <= home(table, key) < table.len(),
        table_valid(table_without(table, key)),
        table_map(table_without(table, key)) == table_map(table).remove(key),
        total_len(table_without(table, key)) == total_len(table) - if table_lookup(
            table,
            key,
        ) is Some {
            1int
        } else {
            0int
        },
{
    lemma_home_in_range(table, key);
    let i = home(table, key);
    let bucket = table[i];
    let rest = without_key(bucket, key);
    assert forall|probe: K| #[trigger]
        lookup(rest, probe) == if probe == key {
            None
        } else {
            lookup(bucket, probe)
        } by {
        lemma_lookup_without_key(bucket, key, probe);
    }
    lemma_lookup_without_key(bucket, key, key);
    // Every pair of the bucket was there, at its position or at the end.
    assert forall|b: int| 0 <= b < rest.len() implies home(table, (#[trigger] rest[b]).0)
        == i by {
        assert(rest[b] == table[i][b] || rest[b] == table[i][bucket.len() - 1]);
    }
    lemma_table_update(table, i, rest, key, None);
}

/// The bucket and the position within it that a position of the traversal
/// comes from. The traversal is `table.flatten_alt()`: bucket after bucket,
/// each bucket from its first pair to its last.
spec fn locate<K, V>(table: Seq<Seq<(K, V)>>, at: int) -> (int, int)
    decreases table.len(),
{
    if table.len() == 0 {
        (0, 0)
    } else if at >= table.drop_last().flatten_alt().len() {
        (table.len() - 1, at - table.drop_last().flatten_alt().len())
    } else {
        locate(table.drop_last(), at)
    }
}

/// A traversal meets as many pairs as the buckets hold.
pub(crate) proof fn lemma_flat_len<K, V>(table: Seq<Seq<(K, V)>>)
    ensures
        table.flatten_alt().len() == total_len(table),
    decreases table.len(),
{
    if table.len() > 0 {
        lemma_flat_len(table.drop_last());
    }
}

/// Every position of the traversal comes from a pair of some bucket.
proof fn lemma_locate<K, V>(table: Seq<Seq<(K, V)>>, at: int)
    requires
        0 <= at < table.flatten_alt().len(),
    ensures
        0 <= locate(table, at).0 < table.len(),
        0 <= locate(table, at).1 < table[locate(table, at).0].len(),
        table.flatten_alt()[at] == table[locate(table, at).0][locate(table, at).1],
    decreases table.len(),
{
    if at < table.drop_last().flatten_alt().len() {
        lemma_locate(table.drop_last(), at);
    }
}

/// Two positions of the traversal come from two different places.
proof fn lemma_locate_injective<K, V>(table: Seq<Seq<(K, V)>>, a: int, b: int)
    requires
        0 <= a < b < table.flatten_alt().len(),
    ensures
        locate(table, a) != locate(table, b),
    decreases table.len(),
{
    let before = table.drop_last().flatten_alt().len();
    if b < before {
        lemma_locate_injective(table.drop_last(), a, b);
    } else if a < before {
        lemma_locate(table.drop_last(), a);
    }
}

/// The traversal meets the buckets in the order of their indices.
proof fn lemma_locate_ordered<K, V>(table: Seq<Seq<(K, V)>>, a: int, b: int)
    requires
        0 <= a <= b < table.flatten_alt().len(),
    ensures
        locate(table, a).0 <= locate(table, b).0,
    decreases table.len(),
{
    let before = table.drop_last().flatten_alt().len();
    if b < before {
        lemma_locate_ordered(table.drop_last(), a, b);
    } else if a < before {
        lemma_locate(table.drop_last(), a);
    }
}

/// Every pair of a bucket is met by the traversal.
proof fn lemma_flat_reaches<K, V>(table: Seq<Seq<(K, V)>>, i: int, j: int) -> (at: int)
    requires
        0 <= i < table.len(),
        0 <= j < table[i].len(),
    ensures
        0 <= at < table.flatten_alt().len(),
        table.flatten_alt()[at] == table[i][j],
    decreases table.len(),
{
    if i == table.len() - 1 {
        table.drop_last().flatten_alt().len() + j
    } else {
        lemma_flat_reaches(table.drop_last(), i, j)
    }
}

/// The traversal of a valid table lists the pairs of the table's map, each
/// key once, bucket after bucket.
pub(crate) proof fn lemma_flat_lists_map<K: IntMapKey, V>(table: Seq<Seq<(K, V)>>)
    requires
        table_valid(table),
    ensures
        forall|at: int|
            0 <= at < table.flatten_alt().len() ==> table_map(table).contains_pair(
                (#[trigger] table.flatten_alt()[at]).0,
                table.flatten_alt()[at].1,
            ),
        forall|a: int, b: int|
            0 <= a < b < table.flatten_alt().len() ==> (#[trigger] table.flatten_alt()[a]).0 != (
            #[trigger] table.flatten_alt()[b]).0,
        forall|key: K|
            table_map(table).contains_key(key) ==> exists|at: int|
                0 <= at < table.flatten_alt().len() && #[trigger] table.flatten_alt()[at] == (
                    key,
                    table_map(table)[key],
                ),
        forall|a: int, b: int|
            0 <= a <= b < table.flatten_alt().len() ==> home(
                table,
                (#[trigger] table.flatten_alt()[a]).0,
            ) <= home(table, (#[trigger] table.flatten_alt()[b]).0),
{
    let flat = table.flatten_alt();
    // A position of the traversal holds the pair at `locate(table, ..)`, which
    // lies in the home bucket of its key.
    assert forall|a: int, b: int| 0 <= a <= b < flat.len() implies home(
        table,
        (#[trigger] flat[a]).0,
    ) <= home(table, (#[trigger] flat[b]).0) by {
        lemma_locate(table, a);
        lemma_locate(table, b);
        lemma_locate_ordered(table, a, b);
    }
    assert forall|at: int| 0 <= at < flat.len() implies table_map(table).contains_pair(
        (#[trigger] flat[at]).0,
        flat[at].1,
    ) by {
        lemma_locate(table, at);
        lemma_lookup_at(table[locate(table, at).0], locate(table, at).1);
    }
    // Two positions come from two buckets, whose keys differ by their homes,
    // or from two places in one bucket, whose keys differ.
    assert forall|a: int, b: int| 0 <= a < b < flat.len() implies (#[trigger] flat[a]).0 != (
    #[trigger] flat[b]).0 by {
        lemma_locate(table, a);
        lemma_locate(table, b);
        lemma_locate_injective(table, a, b);
        if locate(table, a).0 == locate(table, b).0 {
            assert(locate(table, a).1 != locate(table, b).1);
        }
    }
    assert forall|key: K| table_map(table).contains_key(key) implies exists|at: int|
        0 <= at < flat.len() && #[trigger] flat[at] == (key, table_map(table)[key]) by {
        lemma_home_in_range(table, key);
        let i = home(table, key);
        let j = slot_of(table[i], key);
        lemma_lookup_at(table[i], j);
        let at = lemma_flat_reaches(table, i, j);
        assert(flat[at] == (key, table_map(table)[key]));
    }
}

} // verus!
