//! The hash set: a map from keys to nothing.

use crate::capacity::{
    fits, is_capacity_for, max_len, threshold, valid_capacity,
};
use crate::equality::{compares, lemma_key_compares, obeys_eq, Equivalent};
use crate::keys::{
    clone_keys_with, cloned_with, extended, extended_with, from_keys_with, holds_clone_by,
    holds_clone_of, is_clone_from, lemma_extended_keys, lemma_extended_with_any, stored_by,
};
use crate::map::ResizeMode;
use crate::raw::{hash_one, HashMap};
use crate::reclaim::new_collector;
use crate::table::{found_by, inserted, removed_by, InsertResult, Shape};
use seize::Collector;
use std::collections::hash_map::RandomState;
use std::hash::{BuildHasher, Hash};
use std::marker::PhantomData;
use vstd::prelude::*;
use vstd::std_specs::iter::IteratorSpec;

verus! {

/// Calls `RandomState::new` of the standard library, which makes a hasher
/// with keys drawn at random. Nothing is claimed of the result.
#[verifier::external_body]
fn new_random_state() -> (state: RandomState) {
    RandomState::new()
}

/// The keys that occur in a set of hashed keys.
pub open spec fn keys_of<K>(entries: Set<(u64, K)>) -> Set<K> {
    Set::new(|k: K| exists|h: u64| #[trigger] entries.contains((h, k)))
}

/// An insert of `key` under `hash` took the entries from `before` to `after`
/// and reported `fresh`: the entry is there afterwards, and it is fresh when
/// it was not there before.
pub open spec fn did_insert<K>(
    before: Set<(u64, K)>,
    after: Set<(u64, K)>,
    hash: u64,
    key: K,
    fresh: bool,
) -> bool {
    after == before.insert((hash, key)) && fresh == !before.contains((hash, key))
}

/// A removal of `key` under `hash` took the entries from `before` to `after`
/// and reported `was`: the entry is gone afterwards, and `was` says whether
/// it was there before.
pub open spec fn did_remove<K>(
    before: Set<(u64, K)>,
    after: Set<(u64, K)>,
    hash: u64,
    key: K,
    was: bool,
) -> bool {
    after == before.remove((hash, key)) && was == before.contains((hash, key))
}

/// A lookup of `key` under `hash` returned `r`: the stored key when the
/// entry is there, nothing when it is not.
pub open spec fn did_get<K>(entries: Set<(u64, K)>, hash: u64, key: K, r: Option<&K>) -> bool {
    match r {
        Some(k) => *k == key && entries.contains((hash, key)),
        None => !entries.contains((hash, key)),
    }
}

/// A lookup under `hash` of what `probe` stands for returned `r`: a stored
/// key that `probe` stands for, or nothing where `probe` stands for no key
/// stored under `hash`.
pub open spec fn did_get_by<K, Q: Equivalent<K>>(
    entries: Set<(u64, K)>,
    hash: u64,
    probe: &Q,
    r: Option<&K>,
) -> bool {
    match r {
        Some(k) => compares(probe, *k, true) && entries.contains((hash, *k)),
        None => forall|k: K| #[trigger] entries.contains((hash, k)) ==> compares(probe, k, false),
    }
}

/// A search under `hash` for what `probe` stands for answered `b`: `true`
/// where a key that `probe` stands for is stored under `hash`, `false` where
/// `probe` stands for no key stored under `hash`.
pub open spec fn did_find_by<K, Q: Equivalent<K>>(
    entries: Set<(u64, K)>,
    hash: u64,
    probe: &Q,
    b: bool,
) -> bool {
    if b {
        exists|k: K| compares(probe, k, true) && #[trigger] entries.contains((hash, k))
    } else {
        forall|k: K| #[trigger] entries.contains((hash, k)) ==> compares(probe, k, false)
    }
}

/// A removal under `hash` of what `probe` stands for took the entries from
/// `before` to `after` and reported `was`: `true` where a key that `probe`
/// stands for was stored under `hash` and is gone, `false` where `probe`
/// stands for no key stored under `hash` and nothing has changed.
pub open spec fn did_remove_by<K, Q: Equivalent<K>>(
    before: Set<(u64, K)>,
    after: Set<(u64, K)>,
    hash: u64,
    probe: &Q,
    was: bool,
) -> bool {
    if was {
        exists|k: K|
            compares(probe, k, true) && #[trigger] before.contains((hash, k)) && after
                == before.remove((hash, k))
    } else {
        (forall|k: K| #[trigger] before.contains((hash, k)) ==> compares(probe, k, false))
            && after == before
    }
}

/// Where `==` on keys decides equality, a lookup of a key by itself is a
/// lookup of that key.
pub proof fn lemma_get_by_key<K: Eq>(entries: Set<(u64, K)>, hash: u64, key: &K, r: Option<&K>)
    requires
        obeys_eq::<K>(),
        did_get_by::<K, K>(entries, hash, key, r),
    ensures
        did_get(entries, hash, *key, r),
{
    match r {
        Some(k) => {
            lemma_key_compares(key, *k, true);
        },
        None => {
            if entries.contains((hash, *key)) {
                lemma_key_compares(key, *key, false);
            }
        },
    }
}

/// Where `==` on keys decides equality, a search for a key by itself says
/// whether that key is there.
pub proof fn lemma_find_by_key<K: Eq>(entries: Set<(u64, K)>, hash: u64, key: &K, b: bool)
    requires
        obeys_eq::<K>(),
        did_find_by::<K, K>(entries, hash, key, b),
    ensures
        b == entries.contains((hash, *key)),
{
    if b {
        let k = choose|k: K| compares(key, k, true) && #[trigger] entries.contains((hash, k));
        lemma_key_compares(key, k, true);
    } else if entries.contains((hash, *key)) {
        lemma_key_compares(key, *key, false);
    }
}

/// Where `==` on keys decides equality, a removal of a key by itself is a
/// removal of that key.
pub proof fn lemma_remove_by_itself<K: Eq>(
    before: Set<(u64, K)>,
    after: Set<(u64, K)>,
    hash: u64,
    key: &K,
    was: bool,
)
    requires
        obeys_eq::<K>(),
        did_remove_by::<K, K>(before, after, hash, key, was),
    ensures
        did_remove(before, after, hash, *key, was),
{
    if was {
        let k = choose|k: K|
            compares(key, k, true) && #[trigger] before.contains((hash, k)) && after
                == before.remove((hash, k));
        lemma_key_compares(key, k, true);
    } else {
        if before.contains((hash, *key)) {
            lemma_key_compares(key, *key, false);
        }
        assert(after =~= before.remove((hash, *key)));
    }
}

/// Adding an entry adds its key.
pub proof fn lemma_keys_insert<K>(entries: Set<(u64, K)>, hash: u64, key: K)
    ensures
        keys_of(entries.insert((hash, key))) == keys_of(entries).insert(key),
{
    let after = entries.insert((hash, key));
    assert(keys_of(after) =~= keys_of(entries).insert(key)) by {
        assert forall|k: K| keys_of(after).contains(k) <==> keys_of(entries).insert(key).contains(
            k,
        ) by {
            if keys_of(after).contains(k) {
                let h = choose|h: u64| #[trigger] after.contains((h, k));
                if k != key {
                    assert(entries.contains((h, k)));
                }
            }
            if keys_of(entries).contains(k) {
                let h = choose|h: u64| #[trigger] entries.contains((h, k));
                assert(after.contains((h, k)));
            }
            if k == key {
                assert(after.contains((hash, key)));
            }
        }
    }
}

/// Taking entries away takes no key in.
pub proof fn lemma_keys_subset<K>(small: Set<(u64, K)>, large: Set<(u64, K)>)
    requires
        small.subset_of(large),
    ensures
        keys_of(small).subset_of(keys_of(large)),
{
    assert forall|k: K| keys_of(small).contains(k) implies keys_of(large).contains(k) by {
        let h = choose|h: u64| #[trigger] small.contains((h, k));
        assert(large.contains((h, k)));
    }
}

/// No entries, no keys.
pub proof fn lemma_keys_empty<K>()
    ensures
        keys_of(Set::<(u64, K)>::empty()) == Set::<K>::empty(),
{
    assert(keys_of(Set::<(u64, K)>::empty()) =~= Set::<K>::empty());
}

/// Every entry carries the hash that `hash_of` gives its key: the entries
/// were stored with a hasher that gives each key one hash.
pub open spec fn hashed_by<K>(entries: Set<(u64, K)>, hash_of: spec_fn(K) -> u64) -> bool {
    forall|h: u64, k: K| #[trigger] entries.contains((h, k)) ==> h == hash_of(k)
}

/// With a hasher that gives each key one hash, an insert is an insert into
/// the set of keys: the key is new exactly when it was not in the set, it is
/// in the set afterwards, and every entry still carries its key's hash.
pub proof fn lemma_insert_by_key<K>(
    before: Set<(u64, K)>,
    after: Set<(u64, K)>,
    hash_of: spec_fn(K) -> u64,
    key: K,
    fresh: bool,
)
    requires
        hashed_by(before, hash_of),
        did_insert(before, after, hash_of(key), key, fresh),
    ensures
        hashed_by(after, hash_of),
        fresh == !keys_of(before).contains(key),
        keys_of(after) == keys_of(before).insert(key),
        after.contains((hash_of(key), key)),
{
    lemma_keys_insert(before, hash_of(key), key);
    lemma_keys_under_one_hash(before, hash_of, key);
}

/// With a hasher that gives each key one hash, a removal is a removal from
/// the set of keys: it reports whether the key was in the set, and the key
/// is not in the set afterwards.
pub proof fn lemma_remove_by_key<K>(
    before: Set<(u64, K)>,
    after: Set<(u64, K)>,
    hash_of: spec_fn(K) -> u64,
    key: K,
    was: bool,
)
    requires
        hashed_by(before, hash_of),
        did_remove(before, after, hash_of(key), key, was),
    ensures
        hashed_by(after, hash_of),
        was == keys_of(before).contains(key),
        keys_of(after) == keys_of(before).remove(key),
        !keys_of(after).contains(key),
{
    lemma_keys_under_one_hash(before, hash_of, key);
    assert(keys_of(after) =~= keys_of(before).remove(key)) by {
        assert forall|k: K| keys_of(after).contains(k) <==> keys_of(before).remove(key).contains(
            k,
        ) by {
            if keys_of(after).contains(k) {
                let h = choose|h: u64| #[trigger] after.contains((h, k));
                assert(before.contains((h, k)));
            }
            if keys_of(before).contains(k) && k != key {
                let h = choose|h: u64| #[trigger] before.contains((h, k));
                assert(after.contains((h, k)));
            }
        }
    }
}

/// Where every entry carries the hash that `hash_of` gives its key, a key is
/// in the set exactly when it is there under its hash.
pub proof fn lemma_keys_under_one_hash<K>(
    entries: Set<(u64, K)>,
    hash_of: spec_fn(K) -> u64,
    key: K,
)
    requires
        hashed_by(entries, hash_of),
    ensures
        keys_of(entries).contains(key) <==> entries.contains((hash_of(key), key)),
{
    if keys_of(entries).contains(key) {
        let h = choose|h: u64| #[trigger] entries.contains((h, key));
        assert(h == hash_of(key));
    }
}

/// The keys of a set of entries are what is left of the entries when the
/// hashes are dropped.
proof fn lemma_keys_are_image<K>(entries: Set<(u64, K)>)
    ensures
        entries.map(|p: (u64, K)| p.1) == keys_of(entries),
{
    let key = |p: (u64, K)| p.1;
    assert(entries.map(key) =~= keys_of(entries)) by {
        assert forall|k: K| entries.map(key).contains(k) <==> keys_of(entries).contains(k) by {
            if entries.map(key).contains(k) {
                let p = choose|p: (u64, K)| entries.contains(p) && key(p) == k;
                assert(entries.contains((p.0, k)));
            }
            if keys_of(entries).contains(k) {
                let h = choose|h: u64| #[trigger] entries.contains((h, k));
                assert(entries.contains((h, k)) && key((h, k)) == k);
            }
        }
    }
}

/// A set has no more keys than entries.
pub proof fn lemma_keys_at_most_entries<K>(entries: Set<(u64, K)>)
    requires
        entries.finite(),
    ensures
        keys_of(entries).finite(),
        keys_of(entries).len() <= entries.len(),
{
    let key = |p: (u64, K)| p.1;
    lemma_keys_are_image(entries);
    vstd::set_lib::lemma_map_size_bound(entries, keys_of(entries), key);
}

/// Where every entry carries the hash that `hash_of` gives its key, the set
/// has one entry for each key: its length is the number of its keys.
pub proof fn lemma_one_entry_per_key<K>(entries: Set<(u64, K)>, hash_of: spec_fn(K) -> u64)
    requires
        entries.finite(),
        hashed_by(entries, hash_of),
    ensures
        keys_of(entries).finite(),
        keys_of(entries).len() == entries.len(),
{
    let key = |p: (u64, K)| p.1;
    lemma_keys_are_image(entries);
    assert(vstd::relations::injective_on(key, entries)) by {
        assert forall|p: (u64, K), q: (u64, K)|
            entries.contains(p) && entries.contains(q) && #[trigger] key(p) == #[trigger] key(
                q,
            ) implies p == q by {
            assert(entries.contains((p.0, p.1)));
            assert(entries.contains((q.0, q.1)));
        }
    }
    vstd::set_lib::lemma_map_size(entries, keys_of(entries), key);
}

/// A hash set.
///
/// The set is a [`HashMap`] from its keys to `()`, together with the
/// collector it was made with. Its view is the set of its keys;
/// [`HashSet::entries`] is the set of keys together with the hash each was
/// stored under.
///
/// The operations that take a key or a probe hash it with the set's hasher,
/// and what they promise holds for whatever hash came back. Beside each
/// stands an operation that takes the hash, or the hashing function, from
/// the caller and says exactly what happens for it.
#[verifier::reject_recursive_types(K)]
pub struct HashSet<K, S = RandomState> {
    raw: HashMap<K, (), S>,
    collector: Collector,
}

impl<K, S> HashSet<K, S> {
    /// The keys of the set, each with the hash it was stored under.
    pub closed spec fn entries(&self) -> Set<(u64, K)> {
        self.raw@.dom()
    }

    /// The keys of the set.
    pub open spec fn view(&self) -> Set<K> {
        keys_of(self.entries())
    }

    /// The invariant of the set: that of the map under it.
    pub closed spec fn wf(&self) -> bool {
        self.raw.wf()
    }

    /// The hasher the keys are hashed with.
    pub closed spec fn spec_hasher(&self) -> S {
        self.raw.spec_hasher()
    }

    /// The collector the set was made with: the one its builder was given,
    /// or one of its own.
    pub closed spec fn spec_collector(&self) -> Collector {
        self.collector
    }

    /// The resize mode the set was made with.
    pub closed spec fn spec_resize_mode(&self) -> ResizeMode {
        self.raw.spec_table().spec_mode()
    }

    /// The geometry of the table under the set.
    pub closed spec fn spec_shape(&self) -> Shape {
        self.raw.spec_table().shape()
    }

    /// The number of slots the set has, or will have once the migration
    /// under way is done.
    pub open spec fn spec_capacity(&self) -> int {
        self.spec_shape().target
    }

    /// The entries in the order a walk meets them: each key with the hash
    /// it was stored under.
    pub closed spec fn listed_entries(&self) -> Seq<(u64, K)> {
        self.raw.spec_table().listing().map_values(|x: ((u64, K), ())| x.0)
    }

    /// The keys in the order a walk meets them.
    pub closed spec fn listing(&self) -> Seq<K> {
        self.raw.spec_table().listing().map_values(|x: ((u64, K), ())| x.0.1)
    }

    /// A well-formed set has finitely many entries, within the threshold of
    /// its capacity.
    pub proof fn lemma_size(&self)
        requires
            self.wf(),
        ensures
            self.entries().finite(),
            self.entries().len() <= threshold(self.spec_capacity()),
            self.entries().len() <= max_len(),
            valid_capacity(self.spec_capacity()),
            0 <= self.spec_shape().capacity <= self.spec_capacity(),
    {
        self.raw.lemma_table();
        self.raw.spec_table().lemma_size();
    }

    /// The listing holds every entry once: no entry is listed twice, the
    /// entries listed are those of the set, the keys are listed in the order
    /// of their entries, and so the listing is as long as the set is large
    /// and its keys are the keys of the set.
    pub proof fn lemma_listing(&self)
        requires
            self.wf(),
        ensures
            self.listed_entries().no_duplicates(),
            self.listed_entries().to_set() == self.entries(),
            self.listing() == self.listed_entries().map_values(|p: (u64, K)| p.1),
            self.listing().len() == self.entries().len(),
            self.listing().to_set() == self@,
            forall|i: int|
                0 <= i < self.listing().len() ==> self@.contains(#[trigger] self.listing()[i]),
    {
        self.raw.lemma_table();
        let t = self.raw.spec_table();
        t.lemma_listing();
        let l = t.listing();
        let keys = self.listing();
        let pairs = self.listed_entries();
        assert(keys =~= pairs.map_values(|p: (u64, K)| p.1));
        assert(pairs.no_duplicates()) by {
            assert forall|i: int, j: int|
                0 <= i < pairs.len() && 0 <= j < pairs.len() && i != j implies pairs[i]
                != pairs[j] by {
                if i < j {
                    assert(l[i].0 != l[j].0);
                } else {
                    assert(l[j].0 != l[i].0);
                }
            }
        }
        assert(pairs.to_set() =~= self.entries()) by {
            assert forall|p: (u64, K)| pairs.to_set().contains(p) <==> self.entries().contains(
                p,
            ) by {
                if pairs.to_set().contains(p) {
                    let i = choose|i: int| 0 <= i < pairs.len() && pairs[i] == p;
                    assert(t@.contains_pair(l[i].0, l[i].1));
                }
                if self.entries().contains(p) {
                    assert(t@.contains_key(p));
                    assert(l.contains((p, t@[p])));
                    let i = choose|i: int| 0 <= i < l.len() && l[i] == (p, t@[p]);
                    assert(pairs[i] == p);
                }
            }
        }
        assert forall|k: K| keys.to_set().contains(k) <==> self@.contains(k) by {
            if keys.to_set().contains(k) {
                let i = choose|i: int| 0 <= i < keys.len() && keys[i] == k;
                assert(t@.contains_pair(l[i].0, l[i].1));
                assert(self.entries().contains((l[i].0.0, k)));
            }
            if self@.contains(k) {
                let h = choose|h: u64| #[trigger] self.entries().contains((h, k));
                assert(t@.contains_key((h, k)));
                assert(l.contains(((h, k), t@[(h, k)])));
                let i = choose|i: int| 0 <= i < l.len() && l[i] == ((h, k), t@[(h, k)]);
                assert(keys[i] == k);
            }
        }
        assert(keys.to_set() =~= self@);
        assert forall|i: int| 0 <= i < keys.len() implies self@.contains(#[trigger] keys[i]) by {
            assert(keys.to_set().contains(keys[i]));
        }
    }
}

impl<K> HashSet<K> {
    /// An empty set. It has no slots until the first key is inserted.
    pub fn new() -> (r: HashSet<K>)
        ensures
            r.wf(),
            r.entries() == Set::<(u64, K)>::empty(),
            r@ == Set::<K>::empty(),
            r.spec_resize_mode() == ResizeMode::Incremental(64),
            r.spec_shape() == Shape::settled(0),
    {
        HashSet::with_capacity_and_hasher(0, new_random_state())
    }

    /// An empty set that holds `capacity` keys before it grows.
    pub fn with_capacity(capacity: usize) -> (r: HashSet<K>)
        requires
            capacity <= max_len(),
        ensures
            r.wf(),
            r.entries() == Set::<(u64, K)>::empty(),
            r@ == Set::<K>::empty(),
            r.spec_resize_mode() == ResizeMode::Incremental(64),
            is_capacity_for(r.spec_capacity(), capacity as int),
            capacity == 0 <==> r.spec_capacity() == 0,
            r.spec_shape() == Shape::settled(r.spec_capacity()),
    {
        HashSet::with_capacity_and_hasher(capacity, new_random_state())
    }

    /// A builder with no capacity, a fresh hasher, a fresh collector and
    /// the default resize mode.
    pub fn builder() -> (b: HashSetBuilder<K>)
        ensures
            b.spec_capacity() == 0,
            b.spec_resize_mode() == ResizeMode::Incremental(64),
    {
        HashSetBuilder {
            capacity: 0,
            hasher: new_random_state(),
            collector: new_collector(),
            resize_mode: ResizeMode::default(),
            _kv: PhantomData,
        }
    }
}

impl<K, S> HashSet<K, S> {
    /// An empty set that hashes its keys with `hash_builder`.
    pub fn with_hasher(hash_builder: S) -> (r: HashSet<K, S>)
        ensures
            r.wf(),
            r.entries() == Set::<(u64, K)>::empty(),
            r@ == Set::<K>::empty(),
            r.spec_hasher() == hash_builder,
            r.spec_resize_mode() == ResizeMode::Incremental(64),
            r.spec_shape() == Shape::settled(0),
    {
        HashSet::with_capacity_and_hasher(0, hash_builder)
    }

    /// An empty set that holds `capacity` keys before it grows and hashes
    /// its keys with `hash_builder`.
    pub fn with_capacity_and_hasher(capacity: usize, hash_builder: S) -> (r: HashSet<K, S>)
        requires
            capacity <= max_len(),
        ensures
            r.wf(),
            r.entries() == Set::<(u64, K)>::empty(),
            r@ == Set::<K>::empty(),
            r.spec_hasher() == hash_builder,
            r.spec_resize_mode() == ResizeMode::Incremental(64),
            is_capacity_for(r.spec_capacity(), capacity as int),
            capacity == 0 <==> r.spec_capacity() == 0,
            r.spec_shape() == Shape::settled(r.spec_capacity()),
    {
        let raw = HashMap::new(capacity, hash_builder, ResizeMode::default());
        proof {
            lemma_keys_empty::<K>();
            assert(raw@.dom() =~= Set::<(u64, K)>::empty());
        }
        HashSet { raw, collector: new_collector() }
    }

    /// A handle through which the set is read and changed.
    pub fn pin(&mut self) -> (r: HashSetRef<'_, K, S>)
        ensures
            *r.set == *old(self),
            *final(self) == *final(r.set),
    {
        HashSetRef { set: self }
    }

    /// A handle through which the set is read and changed; the same as
    /// [`HashSet::pin`].
    pub fn pin_owned(&mut self) -> (r: HashSetRef<'_, K, S>)
        ensures
            *r.set == *old(self),
            *final(self) == *final(r.set),
    {
        HashSetRef { set: self }
    }

    /// The number of entries. With a hasher that gives each key one hash
    /// there is one entry for each key, and this is the number of keys.
    pub fn len(&self) -> (n: usize)
        requires
            self.wf(),
        ensures
            n == self.entries().len(),
    {
        self.raw.len()
    }

    /// Whether the set has no key.
    pub fn is_empty(&self) -> (b: bool)
        requires
            self.wf(),
        ensures
            b == (self.entries().len() == 0),
            b == (self@ == Set::<K>::empty()),
    {
        proof {
            self.lemma_size();
            if self.entries().len() == 0 {
                assert(self.entries() =~= Set::<(u64, K)>::empty());
                lemma_keys_empty::<K>();
            } else {
                let p = self.entries().choose();
                assert(self.entries().contains((p.0, p.1)));
                assert(self@.contains(p.1));
            }
        }
        self.len() == 0
    }

    /// The number of slots the set has, or will have once the migration
    /// under way is done.
    pub fn capacity(&self) -> (c: usize)
        ensures
            c == self.spec_capacity(),
    {
        self.raw.table().target()
    }

    /// The hasher the keys are hashed with.
    pub fn hasher(&self) -> (h: &S)
        ensures
            *h == self.spec_hasher(),
    {
        self.raw.hasher()
    }

    /// The resize mode the set was made with.
    pub fn resize_mode(&self) -> (m: ResizeMode)
        ensures
            m == self.spec_resize_mode(),
    {
        self.raw.table().mode()
    }

    /// The collector the set was made with.
    pub fn collector(&self) -> (c: &Collector)
        ensures
            *c == self.spec_collector(),
    {
        &self.collector
    }

    /// A walk over the keys, in the order of [`HashSet::listing`].
    pub fn iter(&self) -> (it: Iter<'_, K>)
        ensures
            it.wf(),
            it.remaining() == self.listing(),
    {
        Iter { raw: self.raw.iter() }
    }
}

impl<K, S> HashSet<K, S> where K: Hash + Eq, S: BuildHasher {
    /// The stored key that equals `key`, if it is in the set under `hash`.
    pub fn get_hashed(&self, hash: u64, key: &K) -> (r: Option<&K>)
        requires
            self.wf(),
            obeys_eq::<K>(),
        ensures
            did_get(self.entries(), hash, *key, r),
    {
        match self.raw.get_hashed(hash, key) {
            Some((k, _)) => Some(k),
            None => None,
        }
    }

    /// The stored key that `probe` stands for, if it is in the set under
    /// `hash`.
    pub fn get_hashed_by<Q: Equivalent<K>>(&self, hash: u64, probe: &Q) -> (r: Option<&K>)
        requires
            self.wf(),
        ensures
            did_get_by(self.entries(), hash, probe, r),
    {
        match self.raw.get_hashed_by(hash, probe) {
            Some((k, _)) => Some(k),
            None => None,
        }
    }

    /// The stored key that `probe` stands for, if it is in the set under
    /// the hash that the hasher gives `probe`. A key stands for itself.
    pub fn get<Q>(&self, probe: &Q) -> (r: Option<&K>) where Q: Equivalent<K> + Hash
        requires
            self.wf(),
        ensures
            exists|hash: u64| #[trigger] did_get_by(self.entries(), hash, probe, r),
            r matches Some(k) ==> compares(probe, *k, true) && self@.contains(*k),
    {
        let found_pair = self.raw.get_by(probe);
        let r = match found_pair {
            Some((k, _)) => Some(k),
            None => None,
        };
        proof {
            let hash = choose|hash: u64| #[trigger] found_by(self.raw@, hash, probe, found_pair);
            assert(did_get_by(self.entries(), hash, probe, r));
            if r is Some {
                assert(self.entries().contains((hash, *r->0)));
            }
        }
        r
    }

    /// Whether `key` is in the set under `hash`.
    pub fn contains_hashed(&self, hash: u64, key: &K) -> (b: bool)
        requires
            self.wf(),
            obeys_eq::<K>(),
        ensures
            b == self.entries().contains((hash, *key)),
    {
        self.get_hashed(hash, key).is_some()
    }

    /// Whether a key that `probe` stands for is in the set under the hash
    /// that the hasher gives `probe`. A key stands for itself.
    pub fn contains<Q>(&self, probe: &Q) -> (b: bool) where Q: Equivalent<K> + Hash
        requires
            self.wf(),
        ensures
            exists|hash: u64| #[trigger] did_find_by(self.entries(), hash, probe, b),
            b ==> exists|k: K| compares(probe, k, true) && #[trigger] self@.contains(k),
    {
        let r = self.get(probe);
        proof {
            let hash = choose|hash: u64| #[trigger] did_get_by(self.entries(), hash, probe, r);
            if r is Some {
                assert(self.entries().contains((hash, *r->0)));
                assert(self@.contains(*r->0));
            }
            assert(did_find_by(self.entries(), hash, probe, r.is_some()));
        }
        r.is_some()
    }

    /// Puts `key` in the set under `hash`, and says whether it was new.
    ///
    /// The set grows exactly when a new key meets a set at its threshold,
    /// and then to the next capacity.
    pub fn insert_hashed(&mut self, hash: u64, key: K) -> (fresh: bool)
        requires
            old(self).wf(),
            obeys_eq::<K>(),
            old(self).entries().contains((hash, key)) || old(self).entries().len() < max_len(),
        ensures
            final(self).wf(),
            did_insert(old(self).entries(), final(self).entries(), hash, key, fresh),
            final(self)@ == old(self)@.insert(key),
            final(self).spec_hasher() == old(self).spec_hasher(),
            final(self).spec_collector() == old(self).spec_collector(),
            final(self).spec_resize_mode() == old(self).spec_resize_mode(),
            final(self).spec_shape() == old(self).spec_shape().after_insert(
                old(self).spec_resize_mode(),
                old(self).entries().len() as int,
                fresh,
            ),
    {
        let r = self.raw.insert_hashed(hash, key, (), true);
        proof {
            lemma_keys_insert(old(self).entries(), hash, key);
            assert(self.raw@.dom() =~= old(self).raw@.dom().insert((hash, key)));
        }
        match r {
            InsertResult::Inserted => true,
            InsertResult::Replaced(_) => false,
            // Ruled out: the insert was allowed to replace.
            InsertResult::Error { .. } => false,
        }
    }

    /// Puts `key` in the set under the hash that the hasher gives it, and
    /// says whether it was new under that hash.
    pub fn insert(&mut self, key: K) -> (fresh: bool)
        requires
            old(self).wf(),
            obeys_eq::<K>(),
            old(self).entries().len() < max_len(),
        ensures
            final(self).wf(),
            exists|hash: u64| #[trigger]
                did_insert(old(self).entries(), final(self).entries(), hash, key, fresh),
            final(self)@ == old(self)@.insert(key),
            final(self).spec_hasher() == old(self).spec_hasher(),
            final(self).spec_collector() == old(self).spec_collector(),
            final(self).spec_resize_mode() == old(self).spec_resize_mode(),
            final(self).spec_shape() == old(self).spec_shape().after_insert(
                old(self).spec_resize_mode(),
                old(self).entries().len() as int,
                fresh,
            ),
    {
        let r = self.raw.insert(key, (), true);
        let fresh = match r {
            InsertResult::Inserted => true,
            InsertResult::Replaced(_) => false,
            // Ruled out: the insert was allowed to replace.
            InsertResult::Error { .. } => false,
        };
        proof {
            let hash = choose|hash: u64| #[trigger]
                inserted(old(self).raw@, self.raw@, hash, key, (), true, r);
            lemma_keys_insert(old(self).entries(), hash, key);
            assert(self.raw@.dom() =~= old(self).raw@.dom().insert((hash, key)));
            assert(did_insert(old(self).entries(), self.entries(), hash, key, fresh));
        }
        fresh
    }

    /// Takes `key` out of the set under `hash`, and says whether it was
    /// there. The capacity stays as it is.
    pub fn remove_hashed(&mut self, hash: u64, key: &K) -> (was: bool)
        requires
            old(self).wf(),
            obeys_eq::<K>(),
        ensures
            final(self).wf(),
            did_remove(old(self).entries(), final(self).entries(), hash, *key, was),
            final(self)@.subset_of(old(self)@),
            final(self).spec_hasher() == old(self).spec_hasher(),
            final(self).spec_collector() == old(self).spec_collector(),
            final(self).spec_resize_mode() == old(self).spec_resize_mode(),
            final(self).spec_shape() == old(self).spec_shape().helped(old(self).spec_resize_mode()),
    {
        let r = self.raw.remove_hashed(hash, key);
        proof {
            assert(self.raw@.dom() =~= old(self).raw@.dom().remove((hash, *key)));
            lemma_keys_subset(self.entries(), old(self).entries());
        }
        r.is_some()
    }

    /// Takes the key that `probe` stands for out of the set under `hash`,
    /// and says whether there was one. The capacity stays as it is.
    pub fn remove_hashed_by<Q: Equivalent<K>>(&mut self, hash: u64, probe: &Q) -> (was: bool)
        requires
            old(self).wf(),
            obeys_eq::<K>(),
        ensures
            final(self).wf(),
            did_remove_by(old(self).entries(), final(self).entries(), hash, probe, was),
            final(self)@.subset_of(old(self)@),
            final(self).spec_hasher() == old(self).spec_hasher(),
            final(self).spec_collector() == old(self).spec_collector(),
            final(self).spec_resize_mode() == old(self).spec_resize_mode(),
            final(self).spec_shape() == old(self).spec_shape().helped(old(self).spec_resize_mode()),
    {
        let r = self.raw.remove_hashed_by(hash, probe);
        let was = r.is_some();
        proof {
            if r is Some {
                let k = r.unwrap().0;
                assert(old(self).entries().contains((hash, k)));
                assert(self.raw@.dom() =~= old(self).raw@.dom().remove((hash, k)));
            }
            lemma_keys_subset(self.entries(), old(self).entries());
        }
        was
    }

    /// Takes the key that `probe` stands for out of the set under the hash
    /// that the hasher gives `probe`, and says whether there was one under
    /// that hash. A key stands for itself.
    pub fn remove<Q>(&mut self, probe: &Q) -> (was: bool) where Q: Equivalent<K> + Hash
        requires
            old(self).wf(),
            obeys_eq::<K>(),
        ensures
            final(self).wf(),
            exists|hash: u64| #[trigger]
                did_remove_by(old(self).entries(), final(self).entries(), hash, probe, was),
            final(self)@.subset_of(old(self)@),
            was ==> exists|k: K| compares(probe, k, true) && #[trigger] old(self)@.contains(k),
            final(self).spec_hasher() == old(self).spec_hasher(),
            final(self).spec_collector() == old(self).spec_collector(),
            final(self).spec_resize_mode() == old(self).spec_resize_mode(),
            final(self).spec_shape() == old(self).spec_shape().helped(old(self).spec_resize_mode()),
    {
        let r = self.raw.remove_by(probe);
        let was = r.is_some();
        proof {
            let hash = choose|hash: u64| #[trigger]
                removed_by(old(self).raw@, self.raw@, hash, probe, r);
            if r is Some {
                let k = r.unwrap().0;
                assert(old(self).entries().contains((hash, k)));
                assert(self.raw@.dom() =~= old(self).raw@.dom().remove((hash, k)));
                assert(old(self)@.contains(k));
            }
            lemma_keys_subset(self.entries(), old(self).entries());
            assert(did_remove_by(old(self).entries(), self.entries(), hash, probe, was));
        }
        was
    }

    /// Makes room for `additional` more keys: where the set would have to
    /// grow before it holds them, it grows now, once, to the capacity that
    /// fits them.
    pub fn reserve(&mut self, additional: usize)
        requires
            old(self).wf(),
            obeys_eq::<K>(),
            old(self).entries().len() + additional <= max_len(),
        ensures
            final(self).wf(),
            final(self).entries() == old(self).entries(),
            final(self).spec_hasher() == old(self).spec_hasher(),
            final(self).spec_collector() == old(self).spec_collector(),
            final(self).spec_resize_mode() == old(self).spec_resize_mode(),
            fits(final(self).spec_capacity(), old(self).entries().len() + additional),
            !fits(old(self).spec_capacity(), old(self).entries().len() + additional)
                ==> is_capacity_for(
                final(self).spec_capacity(),
                old(self).entries().len() + additional,
            ),
            final(self).spec_shape() == old(self).spec_shape().after_reserve(
                old(self).spec_resize_mode(),
                old(self).entries().len() + additional,
                final(self).spec_capacity(),
            ),
    {
        self.raw.reserve(additional)
    }

    /// Removes every key. The set keeps its capacity.
    pub fn clear(&mut self)
        requires
            old(self).wf(),
            obeys_eq::<K>(),
        ensures
            final(self).wf(),
            final(self).entries() == Set::<(u64, K)>::empty(),
            final(self)@ == Set::<K>::empty(),
            final(self).spec_hasher() == old(self).spec_hasher(),
            final(self).spec_collector() == old(self).spec_collector(),
            final(self).spec_resize_mode() == old(self).spec_resize_mode(),
            final(self).spec_shape() == old(self).spec_shape().finished(),
    {
        self.raw.clear();
        proof {
            lemma_keys_empty::<K>();
            assert(self.raw@.dom() =~= Set::<(u64, K)>::empty());
        }
    }

    /// Keeps the keys for which `keep` returns `true` and removes the
    /// others.
    pub fn retain<F>(&mut self, keep: F) where F: FnMut(&K) -> bool
        requires
            old(self).wf(),
            obeys_eq::<K>(),
            forall|k: &K| call_requires(keep, (k,)),
        ensures
            final(self).wf(),
            final(self).entries().subset_of(old(self).entries()),
            final(self)@.subset_of(old(self)@),
            forall|h: u64, k: K| #[trigger]
                old(self).entries().contains((h, k)) ==> call_ensures(
                    keep,
                    (&k,),
                    final(self).entries().contains((h, k)),
                ),
            final(self).spec_hasher() == old(self).spec_hasher(),
            final(self).spec_collector() == old(self).spec_collector(),
            final(self).spec_resize_mode() == old(self).spec_resize_mode(),
            final(self).spec_shape() == old(self).spec_shape().finished(),
    {
        self.raw.retain_keys(keep);
        proof {
            lemma_keys_subset(self.entries(), old(self).entries());
            assert forall|h: u64, k: K| #[trigger]
                old(self).entries().contains((h, k)) implies call_ensures(
                keep,
                (&k,),
                self.entries().contains((h, k)),
            ) by {
                assert(old(self).raw@.contains_key((h, k)));
            }
        }
    }
}

impl<K, S> HashSet<K, S> where K: Hash + Eq, S: BuildHasher {
    /// Whether the two sets have the same number of entries and every key
    /// of this one is found in `other` under the hash that `hash` returns
    /// for it.
    ///
    /// With a hashing function that gives each key the hash it is stored
    /// under in `other`, this says whether the two sets have the same keys.
    pub fn eq_with<F>(&self, other: &Self, hash: F) -> (b: bool) where F: Fn(&K) -> u64
        requires
            self.wf(),
            other.wf(),
            obeys_eq::<K>(),
            forall|k: &K| call_requires(hash, (k,)),
        ensures
            b ==> self.entries().len() == other.entries().len() && self@.subset_of(other@),
            !b ==> self.entries().len() != other.entries().len() || exists|key: K, h: u64|
                self@.contains(key) && call_ensures(hash, (&key,), h)
                    && !#[trigger] other.entries().contains((h, key)),
    {
        if self.len() != other.len() {
            return false;
        }
        proof {
            self.lemma_listing();
        }
        let mut iter = self.iter();
        let ghost mut seen: int = 0;
        loop
            invariant
                self.wf(),
                other.wf(),
                obeys_eq::<K>(),
                forall|k: &K| call_requires(hash, (k,)),
                iter.wf(),
                0 <= seen <= self.listing().len(),
                iter.remaining() == self.listing().skip(seen),
                forall|i: int| 0 <= i < seen ==> other@.contains(#[trigger] self.listing()[i]),
                self.listing().to_set() == self@,
                self.entries().len() == other.entries().len(),
            decreases iter.remaining().len(),
        {
            match iter.next() {
                Some(key) => {
                    let h = hash(key);
                    proof {
                        assert(*key == self.listing()[seen]);
                        assert(self.listing().to_set().contains(*key));
                    }
                    if !other.contains_hashed(h, key) {
                        return false;
                    }
                    proof {
                        assert(other.entries().contains((h, *key)));
                        assert(self.listing().skip(seen).drop_first() =~= self.listing().skip(
                            seen + 1,
                        ));
                        seen = seen + 1;
                    }
                },
                None => {
                    proof {
                        assert(seen == self.listing().len());
                        assert forall|k: K| self@.contains(k) implies other@.contains(k) by {
                            assert(self.listing().to_set().contains(k));
                            let i = choose|i: int|
                                0 <= i < self.listing().len() && self.listing()[i] == k;
                            assert(other@.contains(self.listing()[i]));
                        }
                    }
                    return true;
                },
            }
        }
    }

    /// Whether the two sets have the same number of entries and every key
    /// of this one is found in `other`, under the hash that the hasher of
    /// `other` gives it.
    pub fn eq(&self, other: &Self) -> (b: bool)
        requires
            self.wf(),
            other.wf(),
            obeys_eq::<K>(),
        ensures
            b ==> self.entries().len() == other.entries().len() && self@.subset_of(other@),
            !b ==> self.entries().len() != other.entries().len() || exists|key: K, h: u64|
                self@.contains(key) && !#[trigger] other.entries().contains((h, key)),
    {
        let hasher = other.raw.hasher();
        let hash = |k: &K| -> (h: u64) { hash_one(hasher, k) };
        self.eq_with(other, hash)
    }

    /// Puts every key that `iter` yields in the set, under the hash that
    /// `hash` returns for it, after making room for them as far as the
    /// iterator's size hint goes.
    pub fn extend_with<I, F>(&mut self, iter: I, hash: F) where
        I: Iterator<Item = K>,
        F: Fn(&K) -> u64,

        requires
            old(self).wf(),
            obeys_eq::<K>(),
            iter.obeys_prophetic_iter_laws(),
            iter.decrease() is Some,
            old(self).entries().len() + iter.remaining().len() <= max_len(),
            forall|k: &K| call_requires(hash, (k,)),
        ensures
            final(self).wf(),
            extended_with(old(self).entries(), final(self).entries(), iter.remaining(), hash),
            final(self)@ == old(self)@.union(iter.remaining().to_set()),
            final(self).entries().len() <= old(self).entries().len() + iter.remaining().len(),
            final(self).spec_capacity() >= old(self).spec_capacity(),
            final(self).spec_hasher() == old(self).spec_hasher(),
            final(self).spec_collector() == old(self).spec_collector(),
            final(self).spec_resize_mode() == old(self).spec_resize_mode(),
    {
        self.raw.extend_keys_with(iter, hash);
        proof {
            lemma_extended_with_any(old(self).entries(), self.entries(), iter.remaining(), hash);
            lemma_extended_keys(old(self).entries(), self.entries(), iter.remaining());
        }
    }

    /// Puts every key that `iter` yields in the set, under the hash that
    /// the hasher gives it, after making room for them as far as the
    /// iterator's size hint goes.
    pub fn extend<I>(&mut self, iter: I) where I: Iterator<Item = K>
        requires
            old(self).wf(),
            obeys_eq::<K>(),
            iter.obeys_prophetic_iter_laws(),
            iter.decrease() is Some,
            old(self).entries().len() + iter.remaining().len() <= max_len(),
        ensures
            final(self).wf(),
            extended(old(self).entries(), final(self).entries(), iter.remaining()),
            final(self)@ == old(self)@.union(iter.remaining().to_set()),
            final(self).entries().len() <= old(self).entries().len() + iter.remaining().len(),
            final(self).spec_capacity() >= old(self).spec_capacity(),
            final(self).spec_hasher() == old(self).spec_hasher(),
            final(self).spec_collector() == old(self).spec_collector(),
            final(self).spec_resize_mode() == old(self).spec_resize_mode(),
    {
        self.raw.extend_keys(iter);
        proof {
            lemma_extended_keys(old(self).entries(), self.entries(), iter.remaining());
        }
    }

    /// A set of the keys that `iter` yields, each under the hash that
    /// `hash` returns for it, with the default hasher of its type and a
    /// collector of its own. Where there is a first key, the set is sized
    /// for it and for as many more as the iterator's size hint says will
    /// follow.
    pub fn from_iter_with<I, F>(iter: I, hash: F) -> (r: Self) where
        I: Iterator<Item = K>,
        F: Fn(&K) -> u64,
        S: Default,

        requires
            obeys_eq::<K>(),
            iter.obeys_prophetic_iter_laws(),
            iter.decrease() is Some,
            iter.remaining().len() <= max_len(),
            forall|k: &K| call_requires(hash, (k,)),
        ensures
            r.wf(),
            extended_with(Set::<(u64, K)>::empty(), r.entries(), iter.remaining(), hash),
            r@ == iter.remaining().to_set(),
            r.entries().len() <= iter.remaining().len(),
            r.spec_resize_mode() == ResizeMode::Incremental(64),
    {
        let table = from_keys_with(iter, hash);
        let r = HashSet { raw: HashMap::from_parts(S::default(), table), collector: new_collector() };
        proof {
            lemma_keys_empty::<K>();
            lemma_extended_with_any(Set::<(u64, K)>::empty(), r.entries(), iter.remaining(), hash);
            lemma_extended_keys(Set::<(u64, K)>::empty(), r.entries(), iter.remaining());
            assert(Set::<K>::empty().union(iter.remaining().to_set()) =~= iter.remaining().to_set());
        }
        r
    }

    /// A set of the keys that `iter` yields, each under the hash that the
    /// default hasher of the set's type gives it, with a collector of its
    /// own. Where there is a first key, the set is sized for it and for as
    /// many more as the iterator's size hint says will follow.
    pub fn from_iter<I>(iter: I) -> (r: Self) where I: Iterator<Item = K>, S: Default
        requires
            obeys_eq::<K>(),
            iter.obeys_prophetic_iter_laws(),
            iter.decrease() is Some,
            iter.remaining().len() <= max_len(),
        ensures
            r.wf(),
            extended(Set::<(u64, K)>::empty(), r.entries(), iter.remaining()),
            r@ == iter.remaining().to_set(),
            r.entries().len() <= iter.remaining().len(),
            r.spec_resize_mode() == ResizeMode::Incremental(64),
    {
        let hasher = S::default();
        let hash = |k: &K| -> (h: u64) { hash_one(&hasher, k) };
        let table = from_keys_with(iter, hash);
        let r = HashSet { raw: HashMap::from_parts(hasher, table), collector: new_collector() };
        proof {
            lemma_keys_empty::<K>();
            lemma_extended_with_any(Set::<(u64, K)>::empty(), r.entries(), iter.remaining(), hash);
            lemma_extended_keys(Set::<(u64, K)>::empty(), r.entries(), iter.remaining());
            assert(Set::<K>::empty().union(iter.remaining().to_set()) =~= iter.remaining().to_set());
        }
        r
    }
}

impl<K, S> HashSet<K, S> where K: Clone + Hash + Eq, S: BuildHasher + Clone {
    /// A set of clones of the keys, each under the hash that `hash` returns
    /// for the clone, with a clone of the hasher, a collector of its own,
    /// room for as many keys as this set has, and the default resize mode.
    pub fn clone_with<F>(&self, hash: F) -> (r: HashSet<K, S>) where F: Fn(&K) -> u64
        requires
            self.wf(),
            obeys_eq::<K>(),
            forall|k: &K| call_requires(hash, (k,)),
        ensures
            r.wf(),
            cloned_with(self.entries(), r.entries(), hash),
            r.entries().len() <= self.entries().len(),
            cloned::<S>(self.spec_hasher(), r.spec_hasher()),
            r.spec_resize_mode() == ResizeMode::Incremental(64),
            is_capacity_for(r.spec_capacity(), self.entries().len() as int),
            r.spec_shape() == Shape::settled(r.spec_capacity()),
    {
        proof {
            self.raw.lemma_table();
        }
        let table = clone_keys_with(self.raw.table(), hash);
        let hasher = self.raw.hasher().clone();
        HashSet { raw: HashMap::from_parts(hasher, table), collector: new_collector() }
    }

    /// A set of clones of the keys, each under the hash that the clone of
    /// the hasher gives it, with a collector of its own, room for as many
    /// keys as this set has, and the default resize mode.
    pub fn clone(&self) -> (r: HashSet<K, S>)
        requires
            self.wf(),
            obeys_eq::<K>(),
        ensures
            r.wf(),
            forall|k: K| #[trigger] self@.contains(k) ==> holds_clone_of(r@, k),
            forall|c: K| #[trigger] r@.contains(c) ==> is_clone_from(self@, c),
            r.entries().len() <= self.entries().len(),
            cloned::<S>(self.spec_hasher(), r.spec_hasher()),
            r.spec_resize_mode() == ResizeMode::Incremental(64),
            is_capacity_for(r.spec_capacity(), self.entries().len() as int),
            r.spec_shape() == Shape::settled(r.spec_capacity()),
    {
        proof {
            self.raw.lemma_table();
        }
        let hasher = self.raw.hasher().clone();
        let hash = |k: &K| -> (h: u64) { hash_one(&hasher, k) };
        let table = clone_keys_with(self.raw.table(), hash);
        let r = HashSet { raw: HashMap::from_parts(hasher, table), collector: new_collector() };
        proof {
            assert forall|k: K| #[trigger] self@.contains(k) implies holds_clone_of(r@, k) by {
                assert(keys_of(self.entries()).contains(k));
                assert(holds_clone_by(r.entries(), hash, k));
                let c = choose|c: K|
                    cloned::<K>(k, c) && #[trigger] stored_by(r.entries(), hash, c);
                let h = choose|h: u64|
                    call_ensures(hash, (&c,), h) && #[trigger] r.entries().contains((h, c));
                assert(r.entries().contains((h, c)));
                assert(r@.contains(c));
            }
            assert forall|c: K| #[trigger] r@.contains(c) implies is_clone_from(self@, c) by {
                let h = choose|h: u64| #[trigger] r.entries().contains((h, c));
                assert(r.entries().contains((h, c)));
            }
        }
        r
    }
}

impl<K, S> Default for HashSet<K, S> where S: Default {
    /// An empty set with the default hasher of its type and the default
    /// resize mode.
    fn default() -> (r: Self)
        ensures
            r.wf(),
            r.entries() == Set::<(u64, K)>::empty(),
            r@ == Set::<K>::empty(),
            r.spec_resize_mode() == ResizeMode::Incremental(64),
            r.spec_shape() == Shape::settled(0),
    {
        HashSet::with_hasher(S::default())
    }
}

/// A builder for a [`HashSet`]: the capacity, the hasher, the resize mode
/// and the collector it is to be made with.
pub struct HashSetBuilder<K, S = RandomState> {
    hasher: S,
    capacity: usize,
    collector: Collector,
    resize_mode: ResizeMode,
    _kv: PhantomData<K>,
}

impl<K> HashSetBuilder<K> {
    /// Sets the hasher.
    pub fn hasher<S>(self, hasher: S) -> (b: HashSetBuilder<K, S>)
        ensures
            b.spec_hasher() == hasher,
            b.spec_capacity() == self.spec_capacity(),
            b.spec_collector() == self.spec_collector(),
            b.spec_resize_mode() == self.spec_resize_mode(),
    {
        HashSetBuilder {
            hasher,
            capacity: self.capacity,
            collector: self.collector,
            resize_mode: self.resize_mode,
            _kv: PhantomData,
        }
    }
}

impl<K, S> HashSetBuilder<K, S> {
    /// The hasher the set will hash its keys with.
    pub closed spec fn spec_hasher(&self) -> S {
        self.hasher
    }

    /// The number of keys the set will hold before it grows.
    pub closed spec fn spec_capacity(&self) -> usize {
        self.capacity
    }

    /// The collector the builder was given.
    pub closed spec fn spec_collector(&self) -> Collector {
        self.collector
    }

    /// The resize mode the set will have.
    pub closed spec fn spec_resize_mode(&self) -> ResizeMode {
        self.resize_mode
    }

    /// Sets the number of keys the set holds before it grows.
    pub fn capacity(self, capacity: usize) -> (b: HashSetBuilder<K, S>)
        ensures
            b.spec_capacity() == capacity,
            b.spec_hasher() == self.spec_hasher(),
            b.spec_collector() == self.spec_collector(),
            b.spec_resize_mode() == self.spec_resize_mode(),
    {
        HashSetBuilder {
            capacity,
            hasher: self.hasher,
            collector: self.collector,
            resize_mode: self.resize_mode,
            _kv: PhantomData,
        }
    }

    /// Sets the resize mode.
    pub fn resize_mode(self, resize_mode: ResizeMode) -> (b: Self)
        ensures
            b.spec_resize_mode() == resize_mode,
            b.spec_hasher() == self.spec_hasher(),
            b.spec_capacity() == self.spec_capacity(),
            b.spec_collector() == self.spec_collector(),
    {
        HashSetBuilder {
            resize_mode,
            hasher: self.hasher,
            capacity: self.capacity,
            collector: self.collector,
            _kv: PhantomData,
        }
    }

    /// Sets the collector.
    pub fn collector(self, collector: Collector) -> (b: Self)
        ensures
            b.spec_collector() == collector,
            b.spec_hasher() == self.spec_hasher(),
            b.spec_capacity() == self.spec_capacity(),
            b.spec_resize_mode() == self.spec_resize_mode(),
    {
        HashSetBuilder {
            collector,
            hasher: self.hasher,
            capacity: self.capacity,
            resize_mode: self.resize_mode,
            _kv: PhantomData,
        }
    }

    /// The capacity the builder holds.
    pub fn requested_capacity(&self) -> (c: usize)
        ensures
            c == self.spec_capacity(),
    {
        self.capacity
    }

    /// The collector the builder holds.
    pub fn requested_collector(&self) -> (c: &Collector)
        ensures
            *c == self.spec_collector(),
    {
        &self.collector
    }

    /// The resize mode the builder holds.
    pub fn requested_resize_mode(&self) -> (m: ResizeMode)
        ensures
            m == self.spec_resize_mode(),
    {
        self.resize_mode
    }

    /// Makes the set, which keeps the collector.
    pub fn build(self) -> (r: HashSet<K, S>)
        requires
            self.spec_capacity() <= max_len(),
        ensures
            r.wf(),
            r.spec_collector() == self.spec_collector(),
            r.entries() == Set::<(u64, K)>::empty(),
            r@ == Set::<K>::empty(),
            r.spec_hasher() == self.spec_hasher(),
            r.spec_resize_mode() == self.spec_resize_mode(),
            is_capacity_for(r.spec_capacity(), self.spec_capacity() as int),
            self.spec_capacity() == 0 <==> r.spec_capacity() == 0,
            r.spec_shape() == Shape::settled(r.spec_capacity()),
    {
        let raw = HashMap::new(self.capacity, self.hasher, self.resize_mode);
        proof {
            lemma_keys_empty::<K>();
            assert(raw@.dom() =~= Set::<(u64, K)>::empty());
        }
        HashSet { raw, collector: self.collector }
    }
}

/// A handle on a [`HashSet`], made by [`HashSet::pin`].
#[verifier::reject_recursive_types(K)]
pub struct HashSetRef<'set, K, S> {
    pub set: &'set mut HashSet<K, S>,
}

impl<'set, K, S> HashSetRef<'set, K, S> {
    /// The set behind the handle, as it stands.
    pub open spec fn inner(&self) -> HashSet<K, S> {
        *self.set
    }
}

impl<'set, K, S> HashSetRef<'set, K, S> where K: Hash + Eq, S: BuildHasher {
    /// The set behind the handle.
    pub fn set(&self) -> (r: &HashSet<K, S>)
        ensures
            *r == self.inner(),
    {
        &*self.set
    }

    /// The number of entries; see [`HashSet::len`].
    pub fn len(&self) -> (n: usize)
        requires
            self.inner().wf(),
        ensures
            n == self.inner().entries().len(),
    {
        self.set.len()
    }

    /// Whether the set has no key; see [`HashSet::is_empty`].
    pub fn is_empty(&self) -> (b: bool)
        requires
            self.inner().wf(),
        ensures
            b == (self.inner().entries().len() == 0),
            b == (self.inner()@ == Set::<K>::empty()),
    {
        self.set.is_empty()
    }

    /// Whether a key that `probe` stands for is in the set; see
    /// [`HashSet::contains`].
    pub fn contains<Q>(&self, probe: &Q) -> (b: bool) where Q: Equivalent<K> + Hash
        requires
            self.inner().wf(),
        ensures
            exists|hash: u64| #[trigger] did_find_by(self.inner().entries(), hash, probe, b),
            b ==> exists|k: K| compares(probe, k, true) && #[trigger] self.inner()@.contains(k),
    {
        self.set.contains(probe)
    }

    /// The stored key that `probe` stands for; see [`HashSet::get`].
    pub fn get<Q>(&self, probe: &Q) -> (r: Option<&K>) where Q: Equivalent<K> + Hash
        requires
            self.inner().wf(),
        ensures
            exists|hash: u64| #[trigger] did_get_by(self.inner().entries(), hash, probe, r),
            r matches Some(k) ==> compares(probe, *k, true) && self.inner()@.contains(*k),
    {
        self.set.get(probe)
    }

    /// Puts `key` in the set; see [`HashSet::insert`].
    pub fn insert(&mut self, key: K) -> (fresh: bool)
        requires
            old(self).set.wf(),
            obeys_eq::<K>(),
            old(self).set.entries().len() < max_len(),
        ensures
            final(self).set.wf(),
            exists|hash: u64| #[trigger]
                did_insert(old(self).set.entries(), final(self).set.entries(), hash, key, fresh),
            final(self).set@ == old(self).set@.insert(key),
            final(self).set.spec_hasher() == old(self).set.spec_hasher(),
            final(self).set.spec_collector() == old(self).set.spec_collector(),
            final(self).set.spec_resize_mode() == old(self).set.spec_resize_mode(),
            final(self).set.spec_shape() == old(self).set.spec_shape().after_insert(
                old(self).set.spec_resize_mode(),
                old(self).set.entries().len() as int,
                fresh,
            ),
            *final(final(self).set) == *final(old(self).set),
    {
        self.set.insert(key)
    }

    /// Takes the key that `probe` stands for out of the set; see
    /// [`HashSet::remove`].
    pub fn remove<Q>(&mut self, probe: &Q) -> (was: bool) where Q: Equivalent<K> + Hash
        requires
            old(self).set.wf(),
            obeys_eq::<K>(),
        ensures
            final(self).set.wf(),
            exists|hash: u64| #[trigger]
                did_remove_by(
                    old(self).set.entries(),
                    final(self).set.entries(),
                    hash,
                    probe,
                    was,
                ),
            final(self).set@.subset_of(old(self).set@),
            was ==> exists|k: K|
                compares(probe, k, true) && #[trigger] old(self).set@.contains(k),
            final(self).set.spec_hasher() == old(self).set.spec_hasher(),
            final(self).set.spec_collector() == old(self).set.spec_collector(),
            final(self).set.spec_resize_mode() == old(self).set.spec_resize_mode(),
            final(self).set.spec_shape() == old(self).set.spec_shape().helped(
                old(self).set.spec_resize_mode(),
            ),
            *final(final(self).set) == *final(old(self).set),
    {
        self.set.remove(probe)
    }

    /// Removes every key; see [`HashSet::clear`].
    pub fn clear(&mut self)
        requires
            old(self).set.wf(),
            obeys_eq::<K>(),
        ensures
            final(self).set.wf(),
            final(self).set.entries() == Set::<(u64, K)>::empty(),
            final(self).set@ == Set::<K>::empty(),
            final(self).set.spec_hasher() == old(self).set.spec_hasher(),
            final(self).set.spec_collector() == old(self).set.spec_collector(),
            final(self).set.spec_resize_mode() == old(self).set.spec_resize_mode(),
            final(self).set.spec_shape() == old(self).set.spec_shape().finished(),
            *final(final(self).set) == *final(old(self).set),
    {
        self.set.clear()
    }

    /// Keeps the keys for which `keep` returns `true`; see
    /// [`HashSet::retain`].
    pub fn retain<F>(&mut self, keep: F) where F: FnMut(&K) -> bool
        requires
            old(self).set.wf(),
            obeys_eq::<K>(),
            forall|k: &K| call_requires(keep, (k,)),
        ensures
            final(self).set.wf(),
            final(self).set.entries().subset_of(old(self).set.entries()),
            final(self).set@.subset_of(old(self).set@),
            forall|h: u64, k: K| #[trigger]
                old(self).set.entries().contains((h, k)) ==> call_ensures(
                    keep,
                    (&k,),
                    final(self).set.entries().contains((h, k)),
                ),
            final(self).set.spec_hasher() == old(self).set.spec_hasher(),
            final(self).set.spec_collector() == old(self).set.spec_collector(),
            final(self).set.spec_resize_mode() == old(self).set.spec_resize_mode(),
            final(self).set.spec_shape() == old(self).set.spec_shape().finished(),
            *final(final(self).set) == *final(old(self).set),
    {
        self.set.retain(keep)
    }

    /// Makes room for `additional` more keys; see [`HashSet::reserve`].
    pub fn reserve(&mut self, additional: usize)
        requires
            old(self).set.wf(),
            obeys_eq::<K>(),
            old(self).set.entries().len() + additional <= max_len(),
        ensures
            final(self).set.wf(),
            final(self).set.entries() == old(self).set.entries(),
            final(self).set.spec_hasher() == old(self).set.spec_hasher(),
            final(self).set.spec_collector() == old(self).set.spec_collector(),
            final(self).set.spec_resize_mode() == old(self).set.spec_resize_mode(),
            fits(final(self).set.spec_capacity(), old(self).set.entries().len() + additional),
            !fits(old(self).set.spec_capacity(), old(self).set.entries().len() + additional)
                ==> is_capacity_for(
                final(self).set.spec_capacity(),
                old(self).set.entries().len() + additional,
            ),
            final(self).set.spec_shape() == old(self).set.spec_shape().after_reserve(
                old(self).set.spec_resize_mode(),
                old(self).set.entries().len() + additional,
                final(self).set.spec_capacity(),
            ),
            *final(final(self).set) == *final(old(self).set),
    {
        self.set.reserve(additional)
    }

    /// A walk over the keys; see [`HashSet::iter`].
    pub fn iter(&self) -> (it: Iter<'_, K>)
        ensures
            it.wf(),
            it.remaining() == self.inner().listing(),
    {
        self.set.iter()
    }
}

/// A walk over the keys of a set, made by [`HashSet::iter`].
#[verifier::reject_recursive_types(K)]
pub struct Iter<'g, K> {
    raw: crate::iter::Iter<'g, K, ()>,
}

impl<'g, K> Iter<'g, K> {
    /// The keys still to come.
    pub closed spec fn remaining(&self) -> Seq<K> {
        self.raw.remaining().map_values(|x: ((u64, K), ())| x.0.1)
    }

    /// The walk stands inside the set.
    pub closed spec fn wf(&self) -> bool {
        self.raw.wf()
    }

    /// The next key.
    pub fn next(&mut self) -> (r: Option<&'g K>)
        requires
            old(self).wf(),
        ensures
            final(self).wf(),
            match r {
                Some(k) => old(self).remaining().len() > 0 && *k == old(self).remaining()[0]
                    && final(self).remaining() == old(self).remaining().drop_first(),
                None => old(self).remaining().len() == 0 && final(self).remaining() == old(
                    self,
                ).remaining(),
            },
    {
        match self.raw.next() {
            Some((_, k, _)) => {
                proof {
                    assert(self.remaining() =~= old(self).remaining().drop_first());
                }
                Some(k)
            },
            None => None,
        }
    }
}

impl<'g, K> Clone for Iter<'g, K> {
    /// A second walk that stands where this one stands.
    fn clone(&self) -> (r: Self)
        ensures
            r == *self,
    {
        Iter { raw: self.raw.clone() }
    }
}

} // verus!
