use crate::bucket::{holds_key, lemma_lookup_at, lemma_with_pair_twice};
use crate::key::{same_key, IntMapKey};
use crate::map::IntMap;
use crate::table::{home, lemma_home_in_range};
use vstd::prelude::*;

verus! {

/// A view into a single entry of an [`IntMap`], which is either occupied or
/// vacant.
///
/// It is made by [`IntMap::entry`] with one lookup, whose result it keeps: the
/// caller branches on whether the key is present and then reads or changes
/// the entry without a second search. The view borrows the container
/// exclusively for as long as it lives, so nothing else can move the pair it
/// points at.
pub enum Entry<'a, K: IntMapKey, V> {
    /// The key has a pair.
    Occupied(OccupiedEntry<'a, K, V>),
    /// The key has none.
    Vacant(VacantEntry<'a, K, V>),
}

/// A view into an occupied entry of an [`IntMap`]: the borrowed container and
/// the position of the key's pair in it.
pub struct OccupiedEntry<'a, K: IntMapKey, V> {
    /// Index of the key's bucket.
    cache_ix: usize,
    /// Index of the key's pair within that bucket.
    vals_ix: usize,
    int_map: &'a mut IntMap<K, V>,
}

/// A view into a vacant entry of an [`IntMap`]: the borrowed container and the
/// key that was looked up.
pub struct VacantEntry<'a, K: IntMapKey, V> {
    key: K,
    int_map: &'a mut IntMap<K, V>,
}

/// Once an occupied entry is let go of, its borrow of the container has come
/// to its end: the container stays as the entry holds it.
pub broadcast proof fn lemma_occupied_released<'a, K: IntMapKey, V>(entry: OccupiedEntry<'a, K, V>)
    ensures
        #[trigger] has_resolved(entry) ==> *final(entry.store()) == *entry.store(),
{
}

/// Once a vacant entry is let go of, its borrow of the container has come to
/// its end: the container stays as the entry holds it.
pub broadcast proof fn lemma_vacant_released<'a, K: IntMapKey, V>(entry: VacantEntry<'a, K, V>)
    ensures
        #[trigger] has_resolved(entry) ==> *final(entry.store()) == *entry.store(),
{
}

/// Once an entry of either variant is let go of, its borrow of the container
/// has come to its end: the container stays as the entry holds it.
pub broadcast proof fn lemma_entry_released<'a, K: IntMapKey, V>(entry: Entry<'a, K, V>)
    ensures
        #[trigger] has_resolved(entry) ==> *final(entry.store()) == *entry.store(),
{
}

/// What letting go of an entry means, for callers that make an entry, use it
/// and drop it.
pub broadcast group group_entry_released {
    lemma_occupied_released,
    lemma_vacant_released,
    lemma_entry_released,
}

impl<'a, K: IntMapKey, V> Entry<'a, K, V> {
    /// The borrow of the container that the view holds.
    pub open spec fn store(self) -> &'a mut IntMap<K, V> {
        match self {
            Entry::Occupied(occupied) => occupied.store(),
            Entry::Vacant(vacant) => vacant.store(),
        }
    }

    /// The key that the view was made for.
    pub open spec fn key(self) -> K {
        match self {
            Entry::Occupied(occupied) => occupied.key(),
            Entry::Vacant(vacant) => vacant.key(),
        }
    }

    /// The view is usable: the variant's own condition holds, and the variant
    /// tells whether the key is present.
    pub open spec fn wf(self) -> bool {
        match self {
            Entry::Occupied(occupied) => occupied.wf(),
            Entry::Vacant(vacant) => vacant.wf() && !vacant.store()@.contains_key(vacant.key()),
        }
    }

    /// Looks `key` up once and wraps the container in the view that the
    /// outcome calls for. The view holds the very borrow it was given: the
    /// container is what it was, and what the view leaves behind is what the
    /// caller finds in the container afterwards.
    pub(crate) fn new(key: K, int_map: &'a mut IntMap<K, V>) -> (entry: Self)
        requires
            old(int_map).wf(),
        ensures
            entry.wf(),
            entry.key() == key,
            entry is Occupied == old(int_map)@.contains_key(key),
            *entry.store() == *old(int_map),
            *final(entry.store()) == *final(int_map),
    {
        let (cache_ix, val_ix) = Self::indices(key, &*int_map);
        proof {
            int_map.lemma_table();
            lemma_home_in_range(int_map.buckets(), key);
        }
        match val_ix {
            Some(vals_ix) => {
                proof {
                    lemma_lookup_at(int_map.buckets()[cache_ix as int], vals_ix as int);
                    IntMap::lemma_set_value(*int_map, cache_ix as int, vals_ix as int);
                }
                Entry::Occupied(OccupiedEntry { cache_ix, vals_ix, int_map })
            },
            None => Entry::Vacant(VacantEntry { key, int_map }),
        }
    }

    /// Finds the bucket of `key` and, by scanning it, the position of the
    /// key's pair within it.
    fn indices(key: K, int_map: &IntMap<K, V>) -> (found: (usize, Option<usize>))
        requires
            int_map.wf(),
        ensures
            found.0 == home(int_map.buckets(), key),
            found.0 < int_map.cache@.len(),
            match found.1 {
                Some(vals_ix) => {
                    &&& vals_ix < int_map.cache@[found.0 as int]@.len()
                    &&& int_map.cache@[found.0 as int]@[vals_ix as int].0 == key
                },
                None => !holds_key(int_map.buckets()[found.0 as int], key),
            },
    {
        proof {
            int_map.lemma_table();
        }
        let cache_ix = int_map.calc_index(&key);
        let vals = &int_map.cache[cache_ix];
        let mut vals_ix: usize = 0;
        while vals_ix < vals.len()
            invariant
                cache_ix == home(int_map.buckets(), key),
                cache_ix < int_map.cache@.len(),
                *vals == int_map.cache@[cache_ix as int],
                vals_ix <= vals.len(),
                forall|j: int| 0 <= j < vals_ix ==> (#[trigger] vals@[j]).0 != key,
            decreases vals.len() - vals_ix,
        {
            if same_key(&vals[vals_ix].0, &key) {
                return (cache_ix, Some(vals_ix));
            }
            vals_ix += 1;
        }
        (cache_ix, None)
    }
}

impl<'a, K: IntMapKey, V> OccupiedEntry<'a, K, V> {
    /// The borrow of the container that the view holds.
    pub closed spec fn store(self) -> &'a mut IntMap<K, V> {
        self.int_map
    }

    /// The key of the pair that the view points at.
    pub closed spec fn key(self) -> K {
        self.int_map.cache@[self.cache_ix as int]@[self.vals_ix as int].0
    }

    /// The value of the pair that the view points at.
    pub open spec fn value(self) -> V {
        self.store()@[self.key()]
    }

    /// The remembered position is that of a pair of the container.
    pub closed spec fn in_place(self) -> bool {
        &&& self.cache_ix < self.int_map.cache@.len()
        &&& self.vals_ix < self.int_map.cache@[self.cache_ix as int]@.len()
    }

    /// The view is usable: the container is well-formed, it holds the key,
    /// and the remembered position is where the key's pair stands.
    pub open spec fn wf(self) -> bool {
        &&& self.store().wf()
        &&& self.store()@.contains_key(self.key())
        &&& self.in_place()
    }

    /// Gets a reference to the value in the entry.
    pub fn get(&self) -> (value: &V)
        requires
            self.wf(),
        ensures
            *value == self.value(),
    {
        proof {
            IntMap::lemma_set_value(
                *self.int_map,
                self.cache_ix as int,
                self.vals_ix as int,
            );
        }
        &self.int_map.cache[self.cache_ix][self.vals_ix].1
    }

    /// Gets a mutable reference to the value in the entry. Whatever the
    /// caller leaves in it is the value of the entry afterwards.
    pub fn get_mut(&mut self) -> (value: &mut V)
        requires
            old(self).wf(),
        ensures
            *value == old(self).value(),
            final(self).wf(),
            final(self).key() == old(self).key(),
            final(self).value() == *final(value),
            final(self).store()@ == old(self).store()@.insert(old(self).key(), *final(value)),
            final(self).store().buckets() == old(self).store().buckets_with(
                old(self).key(),
                *final(value),
            ),
            final(self).store().spec_capacity() == old(self).store().spec_capacity(),
            *final(final(self).store()) == *final(old(self).store()),
    {
        proof {
            IntMap::lemma_set_value(
                *self.int_map,
                self.cache_ix as int,
                self.vals_ix as int,
            );
        }
        &mut self.int_map.cache[self.cache_ix][self.vals_ix].1
    }

    /// Converts the entry into a mutable reference to its value that lives
    /// as long as the borrow of the container. Whatever the caller leaves in
    /// it is the key's value in the container afterwards.
    pub fn into_mut(self) -> (value: &'a mut V)
        requires
            self.wf(),
        ensures
            *value == self.value(),
            final(self.store()).wf(),
            final(self.store())@ == self.store()@.insert(self.key(), *final(value)),
            final(self.store()).buckets() == self.store().buckets_with(self.key(), *final(value)),
            final(self.store()).spec_capacity() == self.store().spec_capacity(),
    {
        proof {
            IntMap::lemma_set_value(
                *self.int_map,
                self.cache_ix as int,
                self.vals_ix as int,
            );
        }
        &mut self.int_map.cache[self.cache_ix][self.vals_ix].1
    }

    /// Sets the value of the entry and returns the old value. The pair
    /// stays where it is, and the container does not grow.
    pub fn insert(&mut self, value: V) -> (previous: V)
        requires
            old(self).wf(),
        ensures
            previous == old(self).value(),
            final(self).wf(),
            final(self).key() == old(self).key(),
            final(self).value() == value,
            final(self).store()@ == old(self).store()@.insert(old(self).key(), value),
            final(self).store().buckets() == old(self).store().buckets_with(old(self).key(), value),
            final(self).store().spec_capacity() == old(self).store().spec_capacity(),
            *final(final(self).store()) == *final(old(self).store()),
    {
        let mut value = value;
        proof {
            IntMap::lemma_set_value(
                *self.int_map,
                self.cache_ix as int,
                self.vals_ix as int,
            );
        }
        core::mem::swap(&mut self.int_map.cache[self.cache_ix][self.vals_ix].1, &mut value);
        value
    }

    /// Removes the pair of the entry from the container and returns its
    /// value.
    ///
    /// The pair is swapped with the last pair of its bucket and cut off, and
    /// the count goes down by one. This uses the view up: the position it
    /// remembered is no longer that of the key.
    pub fn remove(self) -> (value: V)
        requires
            self.wf(),
        ensures
            value == self.value(),
            final(self.store()).wf(),
            final(self.store())@ == self.store()@.remove(self.key()),
            final(self.store())@.len() == self.store()@.len() - 1,
            final(self.store()).buckets() == self.store().buckets_without(self.key()),
            final(self.store()).spec_capacity() == self.store().spec_capacity(),
    {
        let ghost before = *self.int_map;
        assert(self.int_map.count > 0) by {
            self.int_map.lemma_table();
        }
        self.int_map.count -= 1;
        let kv = self.int_map.cache[self.cache_ix].swap_remove(self.vals_ix);
        proof {
            IntMap::lemma_swap_remove(
                before,
                *self.int_map,
                self.cache_ix as int,
                self.vals_ix as int,
            );
        }
        kv.1
    }
}

impl<'a, K: IntMapKey, V> VacantEntry<'a, K, V> {
    /// The borrow of the container that the view holds.
    pub closed spec fn store(self) -> &'a mut IntMap<K, V> {
        self.int_map
    }

    /// The key that was looked up.
    pub closed spec fn key(self) -> K {
        self.key
    }

    /// The view is usable: the container is well-formed.
    pub open spec fn wf(self) -> bool {
        self.store().wf()
    }

    /// Stores `value` under the key of the entry, as [`IntMap::insert`]
    /// does, growth included, and returns a mutable reference to the stored
    /// value. Whatever the caller leaves in it is the key's value in the
    /// container afterwards.
    ///
    /// The count is a machine word, so a new key needs room for one more.
    pub fn insert(self, value: V) -> (stored: &'a mut V)
        requires
            self.wf(),
            self.store()@.contains_key(self.key()) || self.store()@.len() < usize::MAX,
        ensures
            *stored == value,
            final(self.store()).wf(),
            final(self.store())@ == self.store()@.insert(self.key(), *final(stored)),
            final(self.store()).spec_capacity() == if self.store().grows_on_insert(self.key()) {
                2 * self.store().spec_capacity()
            } else {
                self.store().spec_capacity() as int
            },
            !self.store().grows_on_insert(self.key()) ==> final(self.store()).buckets()
                == self.store().buckets_with(self.key(), *final(stored)),
    {
        proof {
            self.int_map.lemma_layout();
            lemma_with_pair_twice(
                self.int_map.buckets()[self.int_map.bucket_of(self.key) as int],
                self.key,
                value,
            );
        }
        self.int_map.insert(self.key, value);
        self.int_map.get_mut(&self.key).unwrap()
    }
}

} // verus!
