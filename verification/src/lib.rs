//! A map for keys that supply their own 64-bit representation.
//!
//! [`IntMap`] keeps its pairs in a power-of-two number of buckets and finds a
//! key's bucket from the key's representation, without a general hash
//! function. [`Entry`] is a view of one key's place in the map, made with a
//! single lookup. [`IntMapKey`] is what a type has to provide to be a key.
//!
//! Every function is verified against its contract. The contracts speak of
//! a map in two ways: as the mathematical map `map@` from keys to values,
//! and as the sequence `map.buckets()` of its buckets, each the sequence of
//! its pairs ([`bucket`] says what storing and removing make of a bucket,
//! [`index`] which bucket a key belongs to). The well-formedness `wf()` that
//! the contracts ask for and hand back holds of every map made by
//! [`IntMap::new`] or [`IntMap::with_capacity`] and changed only through the
//! functions here. [`laws`] follows the contracts through more than one call.

pub mod bucket;
pub mod entry;
pub mod index;
pub mod key;
pub mod laws;
pub mod map;
mod table;

pub use crate::entry::{Entry, OccupiedEntry, VacantEntry};
pub use crate::key::IntMapKey;
pub use crate::map::IntMap;
