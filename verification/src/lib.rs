//! A hash set over a table with open addressing.
//!
//! The table probes linearly from the low bits of a hash, marks removed
//! entries with tombstones that later inserts take again, and grows by
//! moving its entries to an array of twice the size, either all at once or a
//! slice with every operation. The set hashes its keys and keeps them in
//! such a table.
//!
//! A set has one owner at a time: the operations that change it take it by
//! `&mut`, and a key handed out by `get` or by a walk borrows the set for as
//! long as it is held.
//!
//! The table never trusts a hasher. An entry keeps the hash it was stored
//! under, and wherever the set hashes a key, a second operation takes the
//! hash or the hashing function from the caller and is exact about it.

pub mod bucket;
pub mod capacity;
pub mod equality;
pub mod iter;
pub mod keys;
pub mod laws;
pub mod listing;
pub mod map;
pub mod raw;
pub mod reclaim;
pub mod set;
pub mod slot;
pub mod table;

pub use crate::map::ResizeMode;
pub use crate::set::{HashSet, HashSetBuilder, HashSetRef};
