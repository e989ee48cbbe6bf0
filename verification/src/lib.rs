//! A map from `u64` keys to values, kept in a power-of-two array of small
//! buckets.
//!
//! Every operation carries a contract over the map's view, a mathematical
//! `Map<u64, V>`, and the contracts are checked by Verus.

pub mod hashing;
pub mod bucket;
pub mod capacity;
pub mod table;
pub mod flat;
pub mod map;
pub mod iter;
pub mod entry;
pub mod laws;
pub mod ops;

pub use crate::bucket::Bucket;
pub use crate::entry::Entry;
pub use crate::iter::{Drain, IntoIter, Iter, IterMut, Keys, Values, ValuesMut};
pub use crate::map::IntMap;
