use crate::bucket::{
    distinct_keys, holds_key, lemma_lookup_at, lookup, slot_of, with_pair, without_key,
};
use crate::entry::Entry;
use crate::index::{bucket_index, spec_bucket_index};
use crate::key::{same_key, IntMapKey};
use crate::table::{
    contents, home, lemma_contents_update, lemma_empty_table, lemma_flat_len,
    lemma_flat_lists_map, lemma_home_in_range, lemma_table_with, lemma_table_without, rehomed,
    table_lookup, table_map, table_valid, table_with, total_len,
};
use vstd::arithmetic::power2::is_pow2;
use vstd::prelude::*;

verus! {

/// An associative container for keys that supply their own 64-bit
/// representation.
///
/// The pairs are kept in a power-of-two number of buckets. A key's bucket is
/// read off the low bits of its mixed representation; within the bucket the
/// key is found by comparing keys. The container grows by doubling when an
/// insertion fills it to nine tenths of its bucket count, and never shrinks.
pub struct IntMap<K, V> {
    /// The buckets; no order among the pairs of one bucket means anything.
    pub(crate) cache: Vec<Vec<(K, V)>>,
    /// The number of pairs in all buckets together.
    pub(crate) count: usize,
}

impl<K: IntMapKey, V> View for IntMap<K, V> {
    type V = Map<K, V>;

    /// The key-value pairs that the container holds: what is found for each
    /// key in the bucket that the key is assigned to.
    closed spec fn view(&self) -> Map<K, V> {
        table_map(self.buckets())
    }
}

/// Whether a container of `buckets` buckets that holds `count` pairs has
/// reached the load at which it grows: nine pairs for every ten buckets.
///
/// Buckets are chained, so a lookup stays short well beyond the load that open
/// addressing tolerates; a high threshold keeps the bucket array small.
pub open spec fn load_reached(count: nat, buckets: nat) -> bool {
    count * 10 >= buckets * 9
}

impl<K: IntMapKey, V> IntMap<K, V> {
    /// The buckets of the container, each as the sequence of its pairs.
    pub closed spec fn buckets(&self) -> Seq<Seq<(K, V)>> {
        contents(self.cache@)
    }

    /// The number of buckets.
    pub closed spec fn spec_capacity(&self) -> usize {
        self.cache.len()
    }

    /// The invariant of the container: the bucket count is a power of two,
    /// no bucket holds a key twice, every pair lies in the bucket that its key
    /// is assigned to, and the stored count is both the number of pairs in
    /// the buckets and the number of keys of the view.
    /// [`IntMap::lemma_layout`] spells it out.
    pub closed spec fn wf(&self) -> bool {
        &&& table_valid(self.buckets())
        &&& self.count == total_len(self.buckets())
        &&& self@.dom().finite()
        &&& self@.dom().len() == self.count
    }

    /// The index of the bucket that `key` belongs to while the container has
    /// the capacity that it has.
    pub open spec fn bucket_of(&self, key: K) -> usize {
        spec_bucket_index(key.spec_key(), self.spec_capacity())
    }

    /// The pairs of the container in the order in which a traversal meets
    /// them: bucket after bucket, each bucket from its first pair to its
    /// last. The order says nothing about when a pair was inserted or how
    /// its key compares to others.
    pub open spec fn entries(&self) -> Seq<(K, V)> {
        self.buckets().flatten()
    }

    /// The buckets after `value` has been stored under `key` without growth:
    /// in the key's bucket the pair of a present key gets the value and keeps
    /// its place, and the pair of a new key is appended; the other buckets
    /// stay.
    pub open spec fn buckets_with(&self, key: K, value: V) -> Seq<Seq<(K, V)>> {
        self.buckets().update(
            self.bucket_of(key) as int,
            with_pair(self.buckets()[self.bucket_of(key) as int], key, value),
        )
    }

    /// The buckets after `key` has been removed: in the key's bucket the pair
    /// of a present key is swapped with the bucket's last pair and cut off;
    /// the other buckets stay, and so do all if the key is absent.
    pub open spec fn buckets_without(&self, key: K) -> Seq<Seq<(K, V)>> {
        self.buckets().update(
            self.bucket_of(key) as int,
            without_key(self.buckets()[self.bucket_of(key) as int], key),
        )
    }

    /// Whether inserting under `key` makes the container grow: the key is
    /// new, the pair it adds brings the load to the threshold, and twice the
    /// bucket count still fits the machine word.
    pub open spec fn grows_on_insert(&self, key: K) -> bool {
        &&& !self@.contains_key(key)
        &&& load_reached(self@.len() + 1, self.spec_capacity() as nat)
        &&& self.spec_capacity() <= usize::MAX / 2
    }

    /// What the invariant says in terms of the view and the capacity.
    pub proof fn lemma_wf(&self)
        requires
            self.wf(),
        ensures
            self@.dom().finite(),
            self@.len() <= usize::MAX,
            self.spec_capacity() >= 1,
            is_pow2(self.spec_capacity() as int),
    {
    }

    /// What the invariant says of the buckets: there are as many as the
    /// capacity says, no bucket holds a key twice, every pair lies in the
    /// bucket that its key is assigned to, the view holds for a key what the
    /// key's bucket holds for it, and the count is the number of pairs in
    /// all buckets.
    pub proof fn lemma_layout(&self)
        requires
            self.wf(),
        ensures
            self.buckets().len() == self.spec_capacity(),
            forall|i: int|
                0 <= i < self.buckets().len() ==> distinct_keys(#[trigger] self.buckets()[i]),
            forall|i: int, j: int|
                0 <= i < self.buckets().len() && 0 <= j < self.buckets()[i].len()
                    ==> self.bucket_of((#[trigger] self.buckets()[i][j]).0) == i,
            forall|key: K| #[trigger] self.bucket_of(key) < self.spec_capacity(),
            forall|key: K| #[trigger]
                self@.get(key) == lookup(self.buckets()[self.bucket_of(key) as int], key),
            self@.len() == self.entries().len(),
    {
        let table = self.buckets();
        assert forall|key: K| #[trigger] self.bucket_of(key) < self.spec_capacity() by {
            lemma_home_in_range(table, key);
        }
        table.lemma_flatten_and_flatten_alt_are_equivalent();
        lemma_flat_len(table);
    }

    /// The view and the capacity are read off the buckets: two containers
    /// with the same buckets agree in both.
    pub proof fn lemma_buckets_decide(&self, other: &Self)
        requires
            self.wf(),
            other.wf(),
            self.buckets() == other.buckets(),
        ensures
            self@ == other@,
            self.spec_capacity() == other.spec_capacity(),
    {
    }

    /// A container whose buckets are all empty holds nothing.
    pub proof fn lemma_empty_buckets(&self)
        requires
            self.wf(),
            self.buckets() == Seq::new(
                self.spec_capacity() as nat,
                |i: int| Seq::<(K, V)>::empty(),
            ),
        ensures
            self@ == Map::<K, V>::empty(),
    {
        lemma_empty_table(self.buckets());
    }

    /// A traversal lists exactly the pairs of the view, each key once, and
    /// it lists them bucket after bucket.
    pub proof fn lemma_entries(&self)
        requires
            self.wf(),
        ensures
            self.entries().len() == self@.len(),
            forall|at: int|
                0 <= at < self.entries().len() ==> self@.contains_pair(
                    (#[trigger] self.entries()[at]).0,
                    self.entries()[at].1,
                ),
            forall|a: int, b: int|
                0 <= a < b < self.entries().len() ==> (#[trigger] self.entries()[a]).0 != (
                #[trigger] self.entries()[b]).0,
            forall|key: K|
                self@.contains_key(key) ==> exists|at: int|
                    0 <= at < self.entries().len() && #[trigger] self.entries()[at] == (
                        key,
                        self@[key],
                    ),
            forall|a: int, b: int|
                0 <= a <= b < self.entries().len() ==> self.bucket_of(
                    (#[trigger] self.entries()[a]).0,
                ) <= self.bucket_of((#[trigger] self.entries()[b]).0),
    {
        let table = self.buckets();
        table.lemma_flatten_and_flatten_alt_are_equivalent();
        lemma_flat_len(table);
        lemma_flat_lists_map(table);
        assert forall|key: K| self@.contains_key(key) implies exists|at: int|
            0 <= at < self.entries().len() && #[trigger] self.entries()[at] == (
                key,
                self@[key],
            ) by {
            let at = choose|at: int|
                0 <= at < table.flatten_alt().len() && #[trigger] table.flatten_alt()[at] == (
                    key,
                    table_map(table)[key],
                );
            assert(self.entries()[at] == (key, self@[key]));
        }
    }

    /// The buckets of a well-formed container form a valid table, which the
    /// view and the count are read from.
    pub(crate) proof fn lemma_table(&self)
        requires
            self.wf(),
        ensures
            table_valid(self.buckets()),
            self.buckets() == contents(self.cache@),
            self@ == table_map(self.buckets()),
            self@.dom().finite(),
            self@.dom().len() == self.count,
    {
    }

    /// Putting any value at a position where a pair stands keeps the
    /// invariant and stores the value under that pair's key.
    pub(crate) proof fn lemma_set_value(before: Self, i: int, j: int)
        requires
            before.wf(),
            0 <= i < before.cache@.len(),
            0 <= j < before.cache@[i]@.len(),
        ensures
            before@.contains_key(before.cache@[i]@[j].0),
            before@[before.cache@[i]@[j].0] == before.cache@[i]@[j].1,
            forall|after: Self|
                #![trigger after.wf()]
                #![trigger after@]
                {
                    &&& after.count == before.count
                    &&& after.cache@ == before.cache@.update(i, after.cache@[i])
                    &&& after.cache@[i]@ == before.cache@[i]@.update(
                        j,
                        (before.cache@[i]@[j].0, after.cache@[i]@[j].1),
                    )
                } ==> {
                    &&& after.wf()
                    &&& after@ == before@.insert(before.cache@[i]@[j].0, after.cache@[i]@[j].1)
                    &&& after.buckets() == before.buckets_with(
                        before.cache@[i]@[j].0,
                        after.cache@[i]@[j].1,
                    )
                    &&& after.spec_capacity() == before.spec_capacity()
                },
    {
        let table = before.buckets();
        let key = table[i][j].0;
        lemma_lookup_at(table[i], j);
        assert forall|after: Self|
            {
                &&& after.count == before.count
                &&& after.cache@ == before.cache@.update(i, after.cache@[i])
                &&& after.cache@[i]@ == table[i].update(j, (key, after.cache@[i]@[j].1))
            } implies {
            &&& after.wf()
            &&& after@ == before@.insert(key, after.cache@[i]@[j].1)
            &&& after.buckets() == before.buckets_with(key, after.cache@[i]@[j].1)
            &&& after.spec_capacity() == before.spec_capacity()
        } by {
            lemma_contents_update(before.cache@, i, after.cache@[i]);
            lemma_table_with(table, key, after.cache@[i]@[j].1);
        }
    }

    /// Appending a pair under an absent key to the key's bucket keeps the
    /// invariant and adds the pair to the view.
    pub(crate) proof fn lemma_push(before: Self, after: Self, key: K, value: V)
        requires
            before.wf(),
            !holds_key(before.buckets()[home(before.buckets(), key)], key),
            after.cache@ == before.cache@.update(
                home(before.buckets(), key),
                after.cache@[home(before.buckets(), key)],
            ),
            after.cache@[home(before.buckets(), key)]@ == before.buckets()[home(
                before.buckets(),
                key,
            )].push((key, value)),
            after.count == before.count + 1,
        ensures
            !before@.contains_key(key),
            after.wf(),
            after@ == before@.insert(key, value),
            after.buckets() == before.buckets_with(key, value),
            after.spec_capacity() == before.spec_capacity(),
    {
        let table = before.buckets();
        lemma_home_in_range(table, key);
        lemma_contents_update(before.cache@, home(table, key), after.cache@[home(table, key)]);
        lemma_table_with(table, key, value);
    }

    /// Swap-removing the pair at a position keeps the invariant and removes
    /// the pair's key from the view.
    pub(crate) proof fn lemma_swap_remove(before: Self, after: Self, i: int, j: int)
        requires
            before.wf(),
            0 <= i < before.cache@.len(),
            0 <= j < before.cache@[i]@.len(),
            after.cache@ == before.cache@.update(i, after.cache@[i]),
            after.cache@[i]@ == before.cache@[i]@.update(j, before.cache@[i]@.last()).drop_last(),
            after.count == before.count - 1,
        ensures
            before@.contains_key(before.cache@[i]@[j].0),
            before@[before.cache@[i]@[j].0] == before.cache@[i]@[j].1,
            after.wf(),
            after@ == before@.remove(before.cache@[i]@[j].0),
            after@.len() == before@.len() - 1,
            after.buckets() == before.buckets_without(before.cache@[i]@[j].0),
            after.spec_capacity() == before.spec_capacity(),
    {
        let table = before.buckets();
        let key = table[i][j].0;
        lemma_lookup_at(table[i], j);
        lemma_contents_update(before.cache@, i, after.cache@[i]);
        lemma_table_without(table, key);
    }

    /// Creates an empty container with a single bucket.
    pub fn new() -> (map: Self)
        ensures
            map.wf(),
            map@ == Map::<K, V>::empty(),
            map.spec_capacity() == 1,
            map.buckets() == Seq::new(1, |i: int| Seq::<(K, V)>::empty()),
    {
        Self::with_capacity(0)
    }

    /// Creates an empty container for about `capacity` entries: it gets the
    /// smallest power-of-two number of buckets that is at least `capacity`,
    /// and at least one.
    ///
    /// The bucket count has to fit the machine word, which bounds `capacity`
    /// by the largest power of two that does.
    pub fn with_capacity(capacity: usize) -> (map: Self)
        requires
            capacity <= usize::MAX / 2 + 1,
        ensures
            map.wf(),
            map@ == Map::<K, V>::empty(),
            map.spec_capacity() >= capacity,
            map.spec_capacity() == 1 || map.spec_capacity() / 2 < capacity,
            map.buckets() == Seq::new(map.spec_capacity() as nat, |i: int| Seq::<(K, V)>::empty()),
    {
        let mut buckets: usize = 1;
        proof {
            reveal_with_fuel(is_pow2, 2);
        }
        while buckets < capacity
            invariant
                capacity <= usize::MAX / 2 + 1,
                buckets >= 1,
                is_pow2(buckets as int),
                buckets == 1 || buckets / 2 < capacity,
            decreases usize::MAX - buckets,
        {
            proof {
                reveal_with_fuel(is_pow2, 2);
            }
            buckets = buckets * 2;
        }
        let cache = Self::empty_buckets(buckets);
        proof {
            lemma_empty_table(contents(cache@));
        }
        IntMap { cache, count: 0 }
    }

    /// Allocates `buckets` empty buckets.
    fn empty_buckets(buckets: usize) -> (cache: Vec<Vec<(K, V)>>)
        ensures
            cache@.len() == buckets,
            forall|i: int| 0 <= i < cache@.len() ==> (#[trigger] contents(cache@)[i]).len() == 0,
    {
        let mut cache: Vec<Vec<(K, V)>> = Vec::new();
        while cache.len() < buckets
            invariant
                cache.len() <= buckets,
                forall|i: int| 0 <= i < cache@.len() ==> (#[trigger] cache@[i])@.len() == 0,
            decreases buckets - cache.len(),
        {
            cache.push(Vec::new());
        }
        cache
    }

    /// Returns the number of buckets, which is a power of two.
    #[verifier::when_used_as_spec(spec_capacity)]
    pub fn capacity(&self) -> (buckets: usize)
        requires
            self.wf(),
        ensures
            buckets == self.spec_capacity(),
            buckets >= 1,
            is_pow2(buckets as int),
    {
        self.cache.len()
    }

    /// Returns the number of pairs in the container: the number of distinct
    /// keys that it holds.
    pub fn len(&self) -> (count: usize)
        requires
            self.wf(),
        ensures
            self@.dom().finite(),
            count == self@.len(),
    {
        self.count
    }

    /// Returns whether the container holds no pair.
    pub fn is_empty(&self) -> (empty: bool)
        requires
            self.wf(),
        ensures
            empty == (self@.len() == 0),
            empty == (self@ == Map::<K, V>::empty()),
    {
        proof {
            if self.count == 0 {
                assert(self@ =~= Map::<K, V>::empty());
            }
        }
        self.count == 0
    }

    /// Derives the index of the bucket that `key` belongs to: the low bits
    /// of the key's mixed representation.
    pub(crate) fn calc_index(&self, key: &K) -> (index: usize)
        requires
            table_valid(self.buckets()),
        ensures
            index == home(self.buckets(), *key),
            index == self.bucket_of(*key),
            index < self.cache.len(),
    {
        bucket_index(key.intmap_key(), self.cache.len())
    }

    /// Scans a bucket for `key` and returns the position of its pair.
    fn position(bucket: &Vec<(K, V)>, key: &K) -> (found: Option<usize>)
        ensures
            match found {
                Some(slot) => slot < bucket.len() && bucket@[slot as int].0 == *key,
                None => !holds_key(bucket@, *key),
            },
    {
        let mut slot: usize = 0;
        while slot < bucket.len()
            invariant
                slot <= bucket.len(),
                forall|j: int| 0 <= j < slot ==> (#[trigger] bucket@[j]).0 != *key,
            decreases bucket.len() - slot,
        {
            if same_key(&bucket[slot].0, key) {
                return Some(slot);
            }
            slot += 1;
        }
        None
    }

    /// Whether the container is filled to the load at which it grows.
    fn load_is_reached(&self) -> (reached: bool)
        ensures
            reached == load_reached(self.count as nat, self.cache.len() as nat),
    {
        (self.count as u128) * 10 >= (self.cache.len() as u128) * 9
    }

    /// Returns a reference to the value stored under `key`, if there is one.
    pub fn get(&self, key: &K) -> (value: Option<&V>)
        requires
            self.wf(),
        ensures
            match value {
                Some(v) => self@.contains_key(*key) && *v == self@[*key],
                None => !self@.contains_key(*key),
            },
    {
        let index = self.calc_index(key);
        match Self::position(&self.cache[index], key) {
            Some(slot) => {
                proof {
                    lemma_lookup_at(self.buckets()[index as int], slot as int);
                }
                Some(&self.cache[index][slot].1)
            },
            None => None,
        }
    }

    /// Returns a mutable reference to the value stored under `key`, if there
    /// is one. Whatever the caller leaves in it is the key's value
    /// afterwards; the pair keeps its place.
    pub fn get_mut(&mut self, key: &K) -> (value: Option<&mut V>)
        requires
            old(self).wf(),
        ensures
            final(self).wf(),
            final(self).spec_capacity() == old(self).spec_capacity(),
            match value {
                Some(v) => {
                    &&& old(self)@.contains_key(*key)
                    &&& *v == old(self)@[*key]
                    &&& final(self)@ == old(self)@.insert(*key, *final(v))
                    &&& final(self).buckets() == old(self).buckets_with(*key, *final(v))
                },
                None => {
                    &&& !old(self)@.contains_key(*key)
                    &&& final(self)@ == old(self)@
                    &&& final(self).buckets() == old(self).buckets()
                },
            },
    {
        let index = self.calc_index(key);
        match Self::position(&self.cache[index], key) {
            Some(slot) => {
                proof {
                    Self::lemma_set_value(*self, index as int, slot as int);
                }
                Some(&mut self.cache[index][slot].1)
            },
            None => None,
        }
    }

    /// Returns whether a value is stored under `key`.
    pub fn contains_key(&self, key: &K) -> (present: bool)
        requires
            self.wf(),
        ensures
            present == self@.contains_key(*key),
    {
        self.get(key).is_some()
    }

    /// Stores `value` under `key` and returns the value that was stored
    /// there before, if any.
    ///
    /// A present key has its value replaced in place; nothing else changes.
    /// A new key gets a pair of its own at the end of its bucket, and the
    /// container then doubles its bucket count if that pair fills it to the
    /// threshold.
    ///
    /// The count is a machine word, so a new key needs room for one more.
    pub fn insert(&mut self, key: K, value: V) -> (previous: Option<V>)
        requires
            old(self).wf(),
            old(self)@.contains_key(key) || old(self)@.len() < usize::MAX,
        ensures
            final(self).wf(),
            final(self)@ == old(self)@.insert(key, value),
            previous == old(self)@.get(key),
            final(self).spec_capacity() == if old(self).grows_on_insert(key) {
                2 * old(self).spec_capacity()
            } else {
                old(self).spec_capacity() as int
            },
            !old(self).grows_on_insert(key) ==> final(self).buckets() == old(self).buckets_with(
                key,
                value,
            ),
    {
        let index = self.calc_index(&key);
        match Self::position(&self.cache[index], &key) {
            Some(slot) => {
                let mut value = value;
                proof {
                    Self::lemma_set_value(*self, index as int, slot as int);
                }
                core::mem::swap(&mut self.cache[index][slot].1, &mut value);
                Some(value)
            },
            None => {
                let ghost before = *self;
                self.cache[index].push((key, value));
                self.count += 1;
                proof {
                    Self::lemma_push(before, *self, key, value);
                }
                if self.load_is_reached() && self.cache.len() <= usize::MAX / 2 {
                    self.grow();
                }
                None
            },
        }
    }

    /// Removes the pair stored under `key` and returns its value; a key that
    /// is not present leaves the container as it is.
    ///
    /// The pair is swapped with the last pair of its bucket and cut off, so
    /// the order within the bucket changes. The bucket count stays.
    pub fn remove(&mut self, key: &K) -> (removed: Option<V>)
        requires
            old(self).wf(),
        ensures
            final(self).wf(),
            removed == old(self)@.get(*key),
            final(self)@ == old(self)@.remove(*key),
            final(self)@.len() == old(self)@.len() - if removed is Some {
                1int
            } else {
                0int
            },
            final(self).buckets() == old(self).buckets_without(*key),
            removed is None ==> final(self)@ == old(self)@ && final(self).buckets() == old(
                self,
            ).buckets(),
            final(self).spec_capacity() == old(self).spec_capacity(),
    {
        let index = self.calc_index(key);
        match Self::position(&self.cache[index], key) {
            Some(slot) => {
                let ghost before = *self;
                proof {
                    lemma_lookup_at(self.buckets()[index as int], slot as int);
                }
                self.count -= 1;
                let pair = self.cache[index].swap_remove(slot);
                proof {
                    Self::lemma_swap_remove(before, *self, index as int, slot as int);
                }
                Some(pair.1)
            },
            None => None,
        }
    }

    /// Empties every bucket and keeps the buckets themselves: the container
    /// holds nothing afterwards and has the capacity that it had.
    pub fn clear(&mut self)
        requires
            old(self).wf(),
        ensures
            final(self).wf(),
            final(self)@ == Map::<K, V>::empty(),
            final(self)@.len() == 0,
            forall|key: K| !final(self)@.contains_key(key),
            final(self).spec_capacity() == old(self).spec_capacity(),
            final(self).buckets() == Seq::new(
                old(self).spec_capacity() as nat,
                |i: int| Seq::<(K, V)>::empty(),
            ),
    {
        let mut index: usize = 0;
        while index < self.cache.len()
            invariant
                index <= self.cache.len(),
                self.cache.len() == old(self).cache.len(),
                forall|i: int| 0 <= i < index ==> (#[trigger] self.cache@[i])@.len() == 0,
            decreases self.cache.len() - index,
        {
            self.cache[index].clear();
            index += 1;
        }
        self.count = 0;
        proof {
            lemma_empty_table(self.buckets());
        }
    }

    /// Doubles the number of buckets and moves every pair to the bucket that
    /// its key is assigned to among the doubled number. Every key keeps its
    /// value: the view stays as it is.
    ///
    /// Twice the bucket count has to fit the machine word.
    pub fn grow(&mut self)
        requires
            old(self).wf(),
            old(self).spec_capacity() <= usize::MAX / 2,
        ensures
            final(self).wf(),
            final(self)@ == old(self)@,
            final(self).spec_capacity() == 2 * old(self).spec_capacity(),
    {
        let mut remaining = Self::empty_buckets(self.cache.len() * 2);
        let ghost former = self.buckets();
        proof {
            reveal_with_fuel(is_pow2, 2);
            lemma_empty_table(contents(remaining@));
        }
        core::mem::swap(&mut self.cache, &mut remaining);
        proof {
            // Nothing has been moved yet.
            assert forall|key: K| !rehomed(former, remaining.len() as int, 0, key) by {
                lemma_home_in_range(former, key);
            }
        }
        // The old buckets are emptied from the last to the first, each from
        // its last pair to its first.
        while remaining.len() > 0
            invariant
                table_valid(former),
                self.count == total_len(former),
                self.count == old(self).count,
                contents(remaining@) == former.subrange(0, remaining.len() as int),
                remaining.len() <= former.len(),
                self.cache.len() == 2 * former.len(),
                table_valid(self.buckets()),
                total_len(self.buckets()) + total_len(contents(remaining@)) == total_len(former),
                forall|key: K| #[trigger]
                    table_lookup(self.buckets(), key) == if rehomed(
                        former,
                        remaining.len() as int,
                        0,
                        key,
                    ) {
                        table_lookup(former, key)
                    } else {
                        None
                    },
            decreases remaining.len(),
        {
            let ghost longer = contents(remaining@);
            let mut bucket = remaining.pop().unwrap();
            let ghost current = remaining.len() as int;
            proof {
                assert(contents(remaining@) =~= longer.drop_last());
                // Nothing of this bucket has been moved yet.
                assert forall|key: K| rehomed(former, current + 1, 0, key) == rehomed(
                    former,
                    current,
                    bucket.len() as int,
                    key,
                ) by {
                    lemma_home_in_range(former, key);
                }
            }
            while bucket.len() > 0
                invariant
                    table_valid(former),
                    self.count == total_len(former),
                    self.count == old(self).count,
                    0 <= current < former.len(),
                    bucket@ == former[current].subrange(0, bucket.len() as int),
                    bucket.len() <= former[current].len(),
                    self.cache.len() == 2 * former.len(),
                    table_valid(self.buckets()),
                    total_len(self.buckets()) + total_len(contents(remaining@)) + bucket.len()
                        == total_len(former),
                    forall|key: K| #[trigger]
                        table_lookup(self.buckets(), key) == if rehomed(
                            former,
                            current,
                            bucket.len() as int,
                            key,
                        ) {
                            table_lookup(former, key)
                        } else {
                            None
                        },
                decreases bucket.len(),
            {
                let ghost table = self.buckets();
                let ghost cache = self.cache@;
                let ghost slot = bucket.len() - 1;
                let pair = bucket.pop().unwrap();
                let index = self.calc_index(&pair.0);
                proof {
                    // The pair has not been moved yet, so the new table lacks
                    // its key.
                    lemma_lookup_at(former[current], slot);
                    assert(!rehomed(former, current, slot + 1, pair.0));
                }
                self.cache[index].push(pair);
                proof {
                    lemma_contents_update(cache, index as int, self.cache@[index as int]);
                    lemma_table_with(table, pair.0, pair.1);
                    // Moved by this step is the key of the pair and no other.
                    assert forall|probe: K| #[trigger]
                        table_lookup(self.buckets(), probe) == if rehomed(
                            former,
                            current,
                            bucket.len() as int,
                            probe,
                        ) {
                            table_lookup(former, probe)
                        } else {
                            None
                        } by {
                        lemma_home_in_range(former, probe);
                        if probe != pair.0 && home(former, probe) == current && holds_key(
                            former[current],
                            probe,
                        ) {
                            assert(slot_of(former[current], probe) != slot);
                        }
                    }
                }
            }
        }
        proof {
            // Everything has been moved.
            assert forall|key: K| table_lookup(self.buckets(), key) == table_lookup(
                former,
                key,
            ) by {
                lemma_home_in_range(former, key);
            }
            assert(table_map(self.buckets()) =~= table_map(former));
        }
    }

    /// Gets the entry of `key` for reading and changing it in place: one
    /// lookup, whose outcome the entry keeps.
    ///
    /// The entry holds this borrow of the container. The container is what it
    /// was when the entry is made, and what the entry leaves behind is what
    /// the container is afterwards.
    pub fn entry(&mut self, key: K) -> (entry: Entry<'_, K, V>)
        requires
            old(self).wf(),
        ensures
            entry.wf(),
            entry.key() == key,
            entry is Occupied == old(self)@.contains_key(key),
            *entry.store() == *old(self),
            *final(entry.store()) == *final(self),
    {
        Entry::new(key, self)
    }

    /// Traverses the container and returns its pairs, each as the key and a
    /// reference to the value, in traversal order. Every call starts anew
    /// from the container as it is.
    pub fn iter(&self) -> (pairs: Vec<(K, &V)>)
        requires
            self.wf(),
        ensures
            pairs@.len() == self.entries().len(),
            forall|at: int|
                0 <= at < pairs@.len() ==> (#[trigger] pairs@[at]).0 == self.entries()[at].0
                    && *pairs@[at].1 == self.entries()[at].1,
            pairs@.len() == self@.len(),
            forall|at: int|
                0 <= at < pairs@.len() ==> self@.contains_pair(
                    (#[trigger] pairs@[at]).0,
                    *pairs@[at].1,
                ),
            forall|a: int, b: int|
                0 <= a < b < pairs@.len() ==> (#[trigger] pairs@[a]).0 != (#[trigger] pairs@[b]).0,
    {
        let mut pairs: Vec<(K, &V)> = Vec::new();
        let mut index: usize = 0;
        let ghost table = self.buckets();
        while index < self.cache.len()
            invariant
                index <= self.cache.len(),
                table == contents(self.cache@),
                pairs@.len() == table.subrange(0, index as int).flatten_alt().len(),
                forall|at: int|
                    0 <= at < pairs@.len() ==> (#[trigger] pairs@[at]).0 == table.subrange(
                        0,
                        index as int,
                    ).flatten_alt()[at].0 && *pairs@[at].1 == table.subrange(
                        0,
                        index as int,
                    ).flatten_alt()[at].1,
            decreases self.cache.len() - index,
        {
            let bucket = &self.cache[index];
            let ghost done = table.subrange(0, index as int).flatten_alt();
            let mut slot: usize = 0;
            while slot < bucket.len()
                invariant
                    slot <= bucket.len(),
                    pairs@.len() == done.len() + slot,
                    forall|at: int|
                        0 <= at < pairs@.len() ==> (#[trigger] pairs@[at]).0 == (done
                            + bucket@)[at].0 && *pairs@[at].1 == (done + bucket@)[at].1,
                decreases bucket.len() - slot,
            {
                pairs.push((bucket[slot].0, &bucket[slot].1));
                slot += 1;
            }
            proof {
                // The buckets up to this one are those before it and this one.
                assert(table.subrange(0, index + 1).drop_last() =~= table.subrange(
                    0,
                    index as int,
                ));
            }
            index += 1;
        }
        proof {
            assert(table.subrange(0, table.len() as int) =~= table);
            table.lemma_flatten_and_flatten_alt_are_equivalent();
            self.lemma_entries();
        }
        pairs
    }

    /// Traverses the container and returns its keys in traversal order.
    pub fn keys(&self) -> (keys: Vec<K>)
        requires
            self.wf(),
        ensures
            keys@.len() == self.entries().len(),
            forall|at: int| 0 <= at < keys@.len() ==> #[trigger] keys@[at] == self.entries()[at].0,
            keys@.len() == self@.len(),
            forall|at: int| 0 <= at < keys@.len() ==> self@.contains_key(#[trigger] keys@[at]),
            forall|a: int, b: int|
                0 <= a < b < keys@.len() ==> #[trigger] keys@[a] != #[trigger] keys@[b],
    {
        let pairs = self.iter();
        let mut keys: Vec<K> = Vec::new();
        let mut at: usize = 0;
        while at < pairs.len()
            invariant
                at <= pairs.len(),
                keys@.len() == at,
                forall|i: int| 0 <= i < at ==> #[trigger] keys@[i] == pairs@[i].0,
            decreases pairs.len() - at,
        {
            keys.push(pairs[at].0);
            at += 1;
        }
        keys
    }

    /// Traverses the container and returns references to its values in
    /// traversal order: the value at a position belongs to the key at the
    /// same position of [`IntMap::keys`].
    pub fn values(&self) -> (values: Vec<&V>)
        requires
            self.wf(),
        ensures
            values@.len() == self.entries().len(),
            forall|at: int|
                0 <= at < values@.len() ==> *#[trigger] values@[at] == self.entries()[at].1,
            values@.len() == self@.len(),
            forall|at: int|
                0 <= at < values@.len() ==> self@.contains_pair(
                    self.entries()[at].0,
                    *#[trigger] values@[at],
                ),
    {
        let pairs = self.iter();
        let mut values: Vec<&V> = Vec::new();
        let mut at: usize = 0;
        while at < pairs.len()
            invariant
                at <= pairs.len(),
                values@.len() == at,
                forall|i: int| 0 <= i < at ==> *#[trigger] values@[i] == *pairs@[i].1,
            decreases pairs.len() - at,
        {
            values.push(pairs[at].1);
            at += 1;
        }
        values
    }
}

} // verus!
