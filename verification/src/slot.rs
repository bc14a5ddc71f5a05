//! The cells of a bucket array.

use vstd::prelude::*;

verus! {

/// A key with its value and the hash it was stored under. An entry never
/// changes once it is in the table: an update puts a new entry in its place.
pub struct Entry<K, V> {
    pub hash: u64,
    pub key: K,
    pub value: V,
}

/// One cell of a bucket array.
pub enum Slot<K, V> {
    /// Never used. A probe that reaches it has seen every entry on its path.
    Empty,
    /// Holds an entry.
    Occupied(Entry<K, V>),
    /// Held an entry that was removed. Probes pass over it; an insert may
    /// take it.
    Tombstone,
    /// Held an entry that has moved to the successor array.
    Forwarded,
}

impl<K, V> Slot<K, V> {
    /// An insert may put an entry here.
    pub open spec fn is_free(self) -> bool {
        self is Empty || self is Tombstone
    }
}

} // verus!
