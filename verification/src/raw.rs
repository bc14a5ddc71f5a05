//! The map under the set: a table together with the hasher that gives each
//! key its hash.

use crate::capacity::{fits, is_capacity_for, max_len};
use crate::equality::{obeys_eq, Equivalent};
use crate::iter::Iter;
use crate::keys::{extend_keys_with, extended, extended_with, lemma_extended_with_any};
use crate::map::ResizeMode;
use crate::table::{
    found, found_by, inserted, removed, removed_by, InsertResult, Shape, Table,
};
use std::hash::{BuildHasher, Hash};
use vstd::prelude::*;
use vstd::std_specs::iter::IteratorSpec;

verus! {

/// Calls `BuildHasher::hash_one` of the standard library, which feeds `key`
/// to a fresh hasher made by `hasher` and returns the digest. Nothing is
/// claimed of the digest: a hasher may be seeded at random.
#[verifier::external_body]
pub(crate) fn hash_one<K: Hash, S: BuildHasher>(hasher: &S, key: &K) -> (hash: u64) {
    hasher.hash_one(key)
}

/// A hash map: a [`Table`] and the hasher its keys are hashed with.
///
/// The operations that take a key hash it and go to the table with the
/// result. What they promise holds for whatever hash came back; the
/// operations that take the hash from the caller say exactly what happens
/// for each hash.
#[verifier::reject_recursive_types(K)]
pub struct HashMap<K, V, S> {
    hasher: S,
    table: Table<K, V>,
}

impl<K, V, S> HashMap<K, V, S> {
    /// The entries of the map: each hash and key with its value.
    pub closed spec fn view(&self) -> Map<(u64, K), V> {
        self.table@
    }

    /// The invariant of the map: that of its table.
    pub closed spec fn wf(&self) -> bool {
        self.table.wf()
    }

    /// The hasher the keys are hashed with.
    pub closed spec fn spec_hasher(&self) -> S {
        self.hasher
    }

    /// The table that holds the entries.
    pub closed spec fn spec_table(&self) -> Table<K, V> {
        self.table
    }

    /// The view is that of the table, and the table is well formed.
    pub proof fn lemma_table(&self)
        requires
            self.wf(),
        ensures
            self.spec_table().wf(),
            self.spec_table()@ == self@,
            self@.dom().finite(),
    {
        self.table.lemma_size();
    }

    /// An empty map for `capacity` entries.
    pub fn new(capacity: usize, hasher: S, resize_mode: ResizeMode) -> (r: Self)
        requires
            capacity <= max_len(),
        ensures
            r.wf(),
            r@ == Map::<(u64, K), V>::empty(),
            r.spec_hasher() == hasher,
            r.spec_table().spec_mode() == resize_mode,
            r.spec_table().shape() == Shape::settled(r.spec_table().spec_capacity()),
            is_capacity_for(r.spec_table().spec_capacity(), capacity as int),
            capacity == 0 <==> r.spec_table().spec_capacity() == 0,
    {
        HashMap { hasher, table: Table::new(capacity, resize_mode) }
    }

    /// The map of `table`, with `hasher` to hash its keys.
    pub fn from_parts(hasher: S, table: Table<K, V>) -> (r: Self)
        requires
            table.wf(),
        ensures
            r.wf(),
            r@ == table@,
            r.spec_hasher() == hasher,
            r.spec_table() == table,
    {
        HashMap { hasher, table }
    }

    /// The hasher the keys are hashed with.
    pub fn hasher(&self) -> (h: &S)
        ensures
            *h == self.spec_hasher(),
    {
        &self.hasher
    }

    /// The table that holds the entries.
    pub fn table(&self) -> (t: &Table<K, V>)
        ensures
            *t == self.spec_table(),
    {
        &self.table
    }

    /// The number of entries.
    pub fn len(&self) -> (n: usize)
        requires
            self.wf(),
        ensures
            n == self@.dom().len(),
    {
        self.table.len()
    }

    /// A walk over the entries.
    pub fn iter(&self) -> (it: Iter<'_, K, V>)
        ensures
            it.wf(),
            it.remaining() == self.spec_table().listing(),
    {
        self.table.iter()
    }
}

impl<K: Hash + Eq, V, S: BuildHasher> HashMap<K, V, S> {
    /// The key and value stored under `hash` and `key`.
    pub fn get_hashed(&self, hash: u64, key: &K) -> (r: Option<(&K, &V)>)
        requires
            self.wf(),
            obeys_eq::<K>(),
        ensures
            found(self@, hash, *key, r),
    {
        self.table.get(hash, key)
    }

    /// The key and value stored for `key` under the hash that the hasher
    /// gives it.
    pub fn get(&self, key: &K) -> (r: Option<(&K, &V)>)
        requires
            self.wf(),
            obeys_eq::<K>(),
        ensures
            exists|hash: u64| #[trigger] found(self@, hash, *key, r),
    {
        let hash = hash_one(&self.hasher, key);
        let r = self.table.get(hash, key);
        proof {
            assert(found(self@, hash, *key, r));
        }
        r
    }

    /// The key and value stored under `hash` that `probe` stands for.
    pub fn get_hashed_by<Q: Equivalent<K>>(&self, hash: u64, probe: &Q) -> (r: Option<(&K, &V)>)
        requires
            self.wf(),
        ensures
            found_by(self@, hash, probe, r),
    {
        self.table.get_by(hash, probe)
    }

    /// The key and value that `probe` stands for, stored under the hash
    /// that the hasher gives `probe`.
    pub fn get_by<Q: Hash + Equivalent<K>>(&self, probe: &Q) -> (r: Option<(&K, &V)>)
        requires
            self.wf(),
        ensures
            exists|hash: u64| #[trigger] found_by(self@, hash, probe, r),
    {
        let hash = hash_one(&self.hasher, probe);
        let r = self.table.get_by(hash, probe);
        proof {
            assert(found_by(self@, hash, probe, r));
        }
        r
    }

    /// Takes out the entry stored under `hash` that `probe` stands for.
    pub fn remove_hashed_by<Q: Equivalent<K>>(&mut self, hash: u64, probe: &Q) -> (r: Option<
        (K, V),
    >)
        requires
            old(self).wf(),
            obeys_eq::<K>(),
        ensures
            final(self).wf(),
            final(self).spec_hasher() == old(self).spec_hasher(),
            final(self).spec_table().spec_mode() == old(self).spec_table().spec_mode(),
            final(self).spec_table().shape() == old(self).spec_table().shape().helped(
                old(self).spec_table().spec_mode(),
            ),
            removed_by(old(self)@, final(self)@, hash, probe, r),
    {
        self.table.remove_by(hash, probe)
    }

    /// Takes out the entry that `probe` stands for, stored under the hash
    /// that the hasher gives `probe`.
    pub fn remove_by<Q: Hash + Equivalent<K>>(&mut self, probe: &Q) -> (r: Option<(K, V)>)
        requires
            old(self).wf(),
            obeys_eq::<K>(),
        ensures
            final(self).wf(),
            final(self).spec_hasher() == old(self).spec_hasher(),
            final(self).spec_table().spec_mode() == old(self).spec_table().spec_mode(),
            final(self).spec_table().shape() == old(self).spec_table().shape().helped(
                old(self).spec_table().spec_mode(),
            ),
            exists|hash: u64| #[trigger] removed_by(old(self)@, final(self)@, hash, probe, r),
    {
        let hash = hash_one(&self.hasher, probe);
        let r = self.table.remove_by(hash, probe);
        proof {
            assert(removed_by(old(self)@, self@, hash, probe, r));
        }
        r
    }

    /// Stores `value` under `hash` and `key`; see [`Table::insert`].
    pub fn insert_hashed(&mut self, hash: u64, key: K, value: V, replace: bool) -> (r:
        InsertResult<V>)
        requires
            old(self).wf(),
            obeys_eq::<K>(),
            old(self)@.contains_key((hash, key)) || old(self)@.dom().len() < max_len(),
        ensures
            final(self).wf(),
            final(self).spec_hasher() == old(self).spec_hasher(),
            final(self).spec_table().spec_mode() == old(self).spec_table().spec_mode(),
            inserted(old(self)@, final(self)@, hash, key, value, replace, r),
            final(self).spec_table().shape() == old(self).spec_table().shape().after_insert(
                old(self).spec_table().spec_mode(),
                old(self)@.dom().len() as int,
                r is Inserted,
            ),
    {
        self.table.insert(hash, key, value, replace)
    }

    /// Stores `value` for `key` under the hash that the hasher gives it.
    pub fn insert(&mut self, key: K, value: V, replace: bool) -> (r: InsertResult<V>)
        requires
            old(self).wf(),
            obeys_eq::<K>(),
            old(self)@.dom().len() < max_len(),
        ensures
            final(self).wf(),
            final(self).spec_hasher() == old(self).spec_hasher(),
            final(self).spec_table().spec_mode() == old(self).spec_table().spec_mode(),
            exists|hash: u64| #[trigger]
                inserted(old(self)@, final(self)@, hash, key, value, replace, r),
            final(self).spec_table().shape() == old(self).spec_table().shape().after_insert(
                old(self).spec_table().spec_mode(),
                old(self)@.dom().len() as int,
                r is Inserted,
            ),
    {
        let hash = hash_one(&self.hasher, &key);
        let r = self.table.insert(hash, key, value, replace);
        proof {
            assert(inserted(old(self)@, self@, hash, key, value, replace, r));
        }
        r
    }

    /// Takes out the entry stored under `hash` and `key`.
    pub fn remove_hashed(&mut self, hash: u64, key: &K) -> (r: Option<(K, V)>)
        requires
            old(self).wf(),
            obeys_eq::<K>(),
        ensures
            final(self).wf(),
            final(self).spec_hasher() == old(self).spec_hasher(),
            final(self).spec_table().spec_mode() == old(self).spec_table().spec_mode(),
            final(self).spec_table().shape() == old(self).spec_table().shape().helped(
                old(self).spec_table().spec_mode(),
            ),
            removed(old(self)@, final(self)@, hash, *key, r),
    {
        self.table.remove(hash, key)
    }

    /// Takes out the entry stored for `key` under the hash that the hasher
    /// gives it.
    pub fn remove(&mut self, key: &K) -> (r: Option<(K, V)>)
        requires
            old(self).wf(),
            obeys_eq::<K>(),
        ensures
            final(self).wf(),
            final(self).spec_hasher() == old(self).spec_hasher(),
            final(self).spec_table().spec_mode() == old(self).spec_table().spec_mode(),
            final(self).spec_table().shape() == old(self).spec_table().shape().helped(
                old(self).spec_table().spec_mode(),
            ),
            exists|hash: u64| #[trigger] removed(old(self)@, final(self)@, hash, *key, r),
    {
        let hash = hash_one(&self.hasher, key);
        let r = self.table.remove(hash, key);
        proof {
            assert(removed(old(self)@, self@, hash, *key, r));
        }
        r
    }

    /// Makes room for `additional` more entries; see [`Table::reserve`].
    pub fn reserve(&mut self, additional: usize)
        requires
            old(self).wf(),
            obeys_eq::<K>(),
            old(self)@.dom().len() + additional <= max_len(),
        ensures
            final(self).wf(),
            final(self)@ == old(self)@,
            final(self).spec_hasher() == old(self).spec_hasher(),
            final(self).spec_table().spec_mode() == old(self).spec_table().spec_mode(),
            fits(
                final(self).spec_table().target_capacity(),
                old(self)@.dom().len() + additional,
            ),
            !fits(old(self).spec_table().target_capacity(), old(self)@.dom().len() + additional)
                ==> is_capacity_for(
                final(self).spec_table().target_capacity(),
                old(self)@.dom().len() + additional,
            ),
            final(self).spec_table().shape() == old(self).spec_table().shape().after_reserve(
                old(self).spec_table().spec_mode(),
                old(self)@.dom().len() + additional,
                final(self).spec_table().target_capacity(),
            ),
    {
        self.table.reserve(additional)
    }

    /// Removes every entry; see [`Table::clear`].
    pub fn clear(&mut self)
        requires
            old(self).wf(),
            obeys_eq::<K>(),
        ensures
            final(self).wf(),
            final(self)@ == Map::<(u64, K), V>::empty(),
            final(self).spec_hasher() == old(self).spec_hasher(),
            final(self).spec_table().spec_mode() == old(self).spec_table().spec_mode(),
            final(self).spec_table().shape() == old(self).spec_table().shape().finished(),
    {
        self.table.clear()
    }

    /// Keeps the entries for which `keep` returns `true`; see
    /// [`Table::retain`].
    pub fn retain<F: FnMut(&K, &V) -> bool>(&mut self, keep: F)
        requires
            old(self).wf(),
            obeys_eq::<K>(),
            forall|k: &K, v: &V| call_requires(keep, (k, v)),
        ensures
            final(self).wf(),
            final(self).spec_hasher() == old(self).spec_hasher(),
            final(self).spec_table().spec_mode() == old(self).spec_table().spec_mode(),
            final(self).spec_table().shape() == old(self).spec_table().shape().finished(),
            final(self)@.submap_of(old(self)@),
            forall|p: (u64, K)| #[trigger]
                old(self)@.contains_key(p) ==> call_ensures(
                    keep,
                    (&p.1, &old(self)@[p]),
                    final(self)@.contains_key(p),
                ),
    {
        self.table.retain(keep)
    }

    /// Keeps the entries for whose key `keep` returns `true`; see
    /// [`Table::retain_keys`].
    pub fn retain_keys<F: FnMut(&K) -> bool>(&mut self, keep: F)
        requires
            old(self).wf(),
            obeys_eq::<K>(),
            forall|k: &K| call_requires(keep, (k,)),
        ensures
            final(self).wf(),
            final(self).spec_hasher() == old(self).spec_hasher(),
            final(self).spec_table().spec_mode() == old(self).spec_table().spec_mode(),
            final(self).spec_table().shape() == old(self).spec_table().shape().finished(),
            final(self)@.submap_of(old(self)@),
            forall|p: (u64, K)| #[trigger]
                old(self)@.contains_key(p) ==> call_ensures(
                    keep,
                    (&p.1,),
                    final(self)@.contains_key(p),
                ),
    {
        self.table.retain_keys(keep)
    }
}

impl<K: Hash + Eq, S: BuildHasher> HashMap<K, (), S> {
    /// Puts the keys that `iter` yields in the map, each under the hash
    /// that `hash` returns for it; see [`extend_keys_with`].
    pub fn extend_keys_with<I, F>(&mut self, iter: I, hash: F) where
        I: Iterator<Item = K>,
        F: Fn(&K) -> u64,

        requires
            old(self).wf(),
            obeys_eq::<K>(),
            iter.obeys_prophetic_iter_laws(),
            iter.decrease() is Some,
            old(self)@.dom().len() + iter.remaining().len() <= max_len(),
            forall|k: &K| call_requires(hash, (k,)),
        ensures
            final(self).wf(),
            final(self).spec_hasher() == old(self).spec_hasher(),
            final(self).spec_table().spec_mode() == old(self).spec_table().spec_mode(),
            extended_with(old(self)@.dom(), final(self)@.dom(), iter.remaining(), hash),
            final(self)@.dom().len() <= old(self)@.dom().len() + iter.remaining().len(),
            final(self).spec_table().target_capacity() >= old(
                self,
            ).spec_table().target_capacity(),
    {
        extend_keys_with(&mut self.table, iter, hash)
    }

    /// Puts the keys that `iter` yields in the map, each under the hash
    /// that the hasher gives it.
    pub fn extend_keys<I>(&mut self, iter: I) where I: Iterator<Item = K>
        requires
            old(self).wf(),
            obeys_eq::<K>(),
            iter.obeys_prophetic_iter_laws(),
            iter.decrease() is Some,
            old(self)@.dom().len() + iter.remaining().len() <= max_len(),
        ensures
            final(self).wf(),
            final(self).spec_hasher() == old(self).spec_hasher(),
            final(self).spec_table().spec_mode() == old(self).spec_table().spec_mode(),
            extended(old(self)@.dom(), final(self)@.dom(), iter.remaining()),
            final(self)@.dom().len() <= old(self)@.dom().len() + iter.remaining().len(),
            final(self).spec_table().target_capacity() >= old(
                self,
            ).spec_table().target_capacity(),
    {
        let hasher = &self.hasher;
        let hash = |k: &K| -> (h: u64) { hash_one(hasher, k) };
        extend_keys_with(&mut self.table, iter, hash);
        proof {
            lemma_extended_with_any(old(self)@.dom(), self@.dom(), iter.remaining(), hash);
        }
    }
}

} // verus!
