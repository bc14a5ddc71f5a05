//! Filling a table of keys from an iterator, with the hashing left to the
//! caller.
//!
//! The functions here take the hashing function as an argument and say, for
//! each entry they store, that it carries a hash which that function
//! returned for its key. The set calls them with its hasher.

use crate::capacity::{is_capacity_for, max_len, max_len_of};
use crate::equality::obeys_eq;
use crate::map::ResizeMode;
use crate::set::{hashed_by, keys_of, lemma_keys_under_one_hash, lemma_one_entry_per_key};
use crate::listing::lists;
use crate::table::{Shape, Table};
use vstd::prelude::*;
use vstd::std_specs::iter::IteratorSpec;

verus! {

/// Calls `Iterator::size_hint` of the standard library and returns the
/// lower bound. The bound is a hint: nothing is claimed of it.
#[verifier::external_body]
pub(crate) fn lower_size_hint<I: Iterator>(iter: &I) -> (lower: usize) {
    iter.size_hint().0
}

/// The number of keys to make room for before `hint` keys are added: all of
/// them where the set is empty, half of them, rounded up, where it is not,
/// since some may be in the set already.
pub open spec fn extend_reservation(empty: bool, hint: int) -> int {
    if empty {
        hint
    } else {
        (hint + 1) / 2
    }
}

/// Computes [`extend_reservation`].
pub fn reservation_for(empty: bool, hint: usize) -> (r: usize)
    ensures
        r == extend_reservation(empty, hint as int),
{
    if empty {
        hint
    } else {
        hint / 2 + hint % 2
    }
}

/// `key` is among `entries` under a hash that `hash` returns for it.
pub open spec fn stored_by<K, F: Fn(&K) -> u64>(entries: Set<(u64, K)>, hash: F, key: K) -> bool {
    exists|h: u64| call_ensures(hash, (&key,), h) && #[trigger] entries.contains((h, key))
}

/// `after` is `before` with the keys of `keys` put in, each hashed by
/// `hash`: nothing has gone, every new entry is one of the keys under a hash
/// that `hash` returns for it, and every one of the keys is there under such
/// a hash.
pub open spec fn extended_with<K, F: Fn(&K) -> u64>(
    before: Set<(u64, K)>,
    after: Set<(u64, K)>,
    keys: Seq<K>,
    hash: F,
) -> bool {
    &&& before.subset_of(after)
    &&& forall|h: u64, k: K| #[trigger]
        after.contains((h, k)) ==> before.contains((h, k)) || (keys.contains(k) && call_ensures(
            hash,
            (&k,),
            h,
        ))
    &&& forall|i: int| 0 <= i < keys.len() ==> stored_by(after, hash, #[trigger] keys[i])
}

/// `after` is `before` with the keys of `keys` put in, under whatever
/// hashes: nothing has gone, every new entry is one of the keys, and every
/// one of the keys is there.
pub open spec fn extended<K>(before: Set<(u64, K)>, after: Set<(u64, K)>, keys: Seq<K>) -> bool {
    &&& before.subset_of(after)
    &&& forall|h: u64, k: K| #[trigger]
        after.contains((h, k)) ==> before.contains((h, k)) || keys.contains(k)
    &&& forall|i: int| 0 <= i < keys.len() ==> keys_of(after).contains(#[trigger] keys[i])
}

/// Keys that were put in with some hashing function were put in.
pub proof fn lemma_extended_with_any<K, F: Fn(&K) -> u64>(
    before: Set<(u64, K)>,
    after: Set<(u64, K)>,
    keys: Seq<K>,
    hash: F,
)
    requires
        extended_with(before, after, keys, hash),
    ensures
        extended(before, after, keys),
{
    assert forall|i: int| 0 <= i < keys.len() implies keys_of(after).contains(
        #[trigger] keys[i],
    ) by {
        assert(stored_by(after, hash, keys[i]));
        let h = choose|h: u64|
            call_ensures(hash, (&keys[i],), h) && #[trigger] after.contains((h, keys[i]));
        assert(after.contains((h, keys[i])));
    }
}

/// Putting keys in adds them to the set of keys.
pub proof fn lemma_extended_keys<K>(before: Set<(u64, K)>, after: Set<(u64, K)>, keys: Seq<K>)
    requires
        extended(before, after, keys),
    ensures
        keys_of(after) == keys_of(before).union(keys.to_set()),
{
    assert(keys_of(after) =~= keys_of(before).union(keys.to_set())) by {
        assert forall|k: K| keys_of(after).contains(k) <==> keys_of(before).union(
            keys.to_set(),
        ).contains(k) by {
            if keys_of(after).contains(k) {
                let h = choose|h: u64| #[trigger] after.contains((h, k));
                if before.contains((h, k)) {
                    assert(keys_of(before).contains(k));
                }
            }
            if keys_of(before).contains(k) {
                let h = choose|h: u64| #[trigger] before.contains((h, k));
                assert(after.contains((h, k)));
            }
            if keys.to_set().contains(k) {
                let i = choose|i: int| 0 <= i < keys.len() && keys[i] == k;
                assert(keys_of(after).contains(keys[i]));
            }
        }
    }
}

/// `hash` returns for each key the one hash that `hash_of` gives it.
pub open spec fn hashes_as<K, F: Fn(&K) -> u64>(hash: F, hash_of: spec_fn(K) -> u64) -> bool {
    forall|k: K, h: u64| #[trigger] call_ensures(hash, (&k,), h) ==> h == hash_of(k)
}

/// With a hashing function that gives each key one hash, putting keys in is
/// a union of sets of keys: every entry still carries its key's hash, the
/// keys afterwards are the keys before and the keys put in, and there is one
/// entry for each of them, however often a key came.
pub proof fn lemma_extended_by_key<K, F: Fn(&K) -> u64>(
    before: Set<(u64, K)>,
    after: Set<(u64, K)>,
    keys: Seq<K>,
    hash: F,
    hash_of: spec_fn(K) -> u64,
)
    requires
        after.finite(),
        hashed_by(before, hash_of),
        hashes_as(hash, hash_of),
        extended_with(before, after, keys, hash),
    ensures
        hashed_by(after, hash_of),
        keys_of(after) == keys_of(before).union(keys.to_set()),
        keys_of(after).finite(),
        after.len() == keys_of(after).len(),
        forall|k: K| keys_of(after).contains(k) <==> after.contains((hash_of(k), k)),
{
    assert(hashed_by(after, hash_of));
    lemma_extended_with_any(before, after, keys, hash);
    lemma_extended_keys(before, after, keys);
    lemma_one_entry_per_key(after, hash_of);
    assert forall|k: K| keys_of(after).contains(k) <==> after.contains((hash_of(k), k)) by {
        lemma_keys_under_one_hash(after, hash_of, k);
    }
}

/// With a hashing function that gives each key one hash, and two sets whose
/// entries carry those hashes, a comparison that looks every key of the one
/// up in the other says whether the two have the same keys: `b` is what the
/// comparison returned, and what it owes for `true` and for `false` is as
/// [`crate::set::HashSet::eq_with`] states it.
pub proof fn lemma_eq_by_key<K, F: Fn(&K) -> u64>(
    mine: Set<(u64, K)>,
    others: Set<(u64, K)>,
    hash: F,
    hash_of: spec_fn(K) -> u64,
    b: bool,
)
    requires
        mine.finite(),
        others.finite(),
        hashed_by(mine, hash_of),
        hashed_by(others, hash_of),
        hashes_as(hash, hash_of),
        b ==> mine.len() == others.len() && keys_of(mine).subset_of(keys_of(others)),
        !b ==> mine.len() != others.len() || exists|key: K, h: u64|
            keys_of(mine).contains(key) && call_ensures(hash, (&key,), h)
                && !#[trigger] others.contains((h, key)),
    ensures
        b <==> keys_of(mine) == keys_of(others),
{
    lemma_one_entry_per_key(mine, hash_of);
    lemma_one_entry_per_key(others, hash_of);
    if b {
        vstd::set_lib::lemma_subset_equality(keys_of(mine), keys_of(others));
    }
    if keys_of(mine) == keys_of(others) && !b {
        let (key, h) = choose|key: K, h: u64|
            keys_of(mine).contains(key) && call_ensures(hash, (&key,), h)
                && !#[trigger] others.contains((h, key));
        lemma_keys_under_one_hash(others, hash_of, key);
    }
}

/// Puts the keys that `iter` yields in the table, each under the hash that
/// `hash` returns for it, after making room for them as far as the
/// iterator's size hint goes.
pub fn extend_keys_with<K: Eq, I, F>(table: &mut Table<K, ()>, iter: I, hash: F) where
    I: Iterator<Item = K>,
    F: Fn(&K) -> u64,

    requires
        old(table).wf(),
        obeys_eq::<K>(),
        iter.obeys_prophetic_iter_laws(),
        iter.decrease() is Some,
        old(table)@.dom().len() + iter.remaining().len() <= max_len(),
        forall|k: &K| call_requires(hash, (k,)),
    ensures
        final(table).wf(),
        final(table).spec_mode() == old(table).spec_mode(),
        extended_with(old(table)@.dom(), final(table)@.dom(), iter.remaining(), hash),
        final(table)@.dom().len() <= old(table)@.dom().len() + iter.remaining().len(),
        final(table).target_capacity() >= old(table).target_capacity(),
{
    let mut iter = iter;
    let ghost all = iter.remaining();
    let ghost start = table@.dom();
    let hint = lower_size_hint(&iter);
    proof {
        table.lemma_size();
    }
    let reserve = reservation_for(table.len() == 0, hint);
    if reserve <= max_len_of() - table.len() {
        table.reserve(reserve);
    }
    let ghost mut done: int = 0;
    proof {
        table.lemma_size();
        assert(all.take(0).len() == 0);
    }
    loop
        invariant
            table.wf(),
            obeys_eq::<K>(),
            iter.obeys_prophetic_iter_laws(),
            iter.decrease() is Some,
            forall|k: &K| call_requires(hash, (k,)),
            0 <= done <= all.len(),
            iter.remaining() == all.skip(done),
            start == old(table)@.dom(),
            extended_with(start, table@.dom(), all.take(done), hash),
            table@.dom().finite(),
            table@.dom().len() <= start.len() + done,
            start.len() + all.len() <= max_len(),
            table.target_capacity() >= old(table).target_capacity(),
            table.target_capacity() >= 0,
            table.spec_mode() == old(table).spec_mode(),
        ensures
            table.wf(),
            extended_with(start, table@.dom(), all, hash),
            table@.dom().len() <= start.len() + all.len(),
            table.target_capacity() >= old(table).target_capacity(),
            table.spec_mode() == old(table).spec_mode(),
        decreases iter.decrease()->0,
    {
        let ghost before = table@.dom();
        match iter.next() {
            Some(key) => {
                let h = hash(&key);
                let r = table.insert(h, key, (), true);
                proof {
                    let now = table@.dom();
                    let seen = all.take(done);
                    let more = all.take(done + 1);
                    assert(key == all[done]);
                    assert(all.skip(done).drop_first() =~= all.skip(done + 1));
                    assert(more[done] == key);
                    assert(now =~= before.insert((h, key)));
                    assert forall|i: int| 0 <= i < seen.len() implies more[i] == seen[i] by {}
                    assert forall|hh: u64, k: K| #[trigger] now.contains((hh, k)) implies start.contains(
                        (hh, k),
                    ) || (more.contains(k) && call_ensures(hash, (&k,), hh)) by {
                        if before.contains((hh, k)) {
                            if !start.contains((hh, k)) {
                                let i = choose|i: int| 0 <= i < seen.len() && seen[i] == k;
                                assert(more[i] == k);
                            }
                        }
                    }
                    assert forall|i: int| 0 <= i < more.len() implies stored_by(
                        now,
                        hash,
                        #[trigger] more[i],
                    ) by {
                        if i < done {
                            assert(stored_by(before, hash, seen[i]));
                            let w = choose|w: u64|
                                call_ensures(hash, (&seen[i],), w) && #[trigger] before.contains(
                                    (w, seen[i]),
                                );
                            assert(now.contains((w, more[i])));
                        } else {
                            assert(now.contains((h, more[i])));
                        }
                    }
                    table.lemma_size();
                    done = done + 1;
                }
            },
            None => {
                proof {
                    assert(all.skip(done).len() == 0);
                    assert(all.take(done) =~= all);
                }
                break ;
            },
        }
    }
}

/// A table of the keys that `iter` yields, each under the hash that `hash`
/// returns for it. Where there is a first key, the table is sized for it and
/// for as many more as the iterator's size hint says will follow.
pub fn from_keys_with<K: Eq, I, F>(iter: I, hash: F) -> (r: Table<K, ()>) where
    I: Iterator<Item = K>,
    F: Fn(&K) -> u64,

    requires
        obeys_eq::<K>(),
        iter.obeys_prophetic_iter_laws(),
        iter.decrease() is Some,
        iter.remaining().len() <= max_len(),
        forall|k: &K| call_requires(hash, (k,)),
    ensures
        r.wf(),
        r.spec_mode() == ResizeMode::Incremental(64),
        extended_with(Set::<(u64, K)>::empty(), r@.dom(), iter.remaining(), hash),
        r@.dom().len() <= iter.remaining().len(),
{
    let mut rest = iter;
    let ghost all = rest.remaining();
    match rest.next() {
        Some(key) => {
            let lower = lower_size_hint(&rest);
            let capacity = if lower < max_len_of() {
                lower + 1
            } else {
                max_len_of()
            };
            let mut table: Table<K, ()> = Table::new(capacity, ResizeMode::default());
            let h = hash(&key);
            table.insert(h, key, (), true);
            let ghost first = table@.dom();
            proof {
                assert(first =~= Set::<(u64, K)>::empty().insert((h, key)));
            }
            extend_keys_with(&mut table, rest, hash);
            proof {
                let after = table@.dom();
                let tail = all.drop_first();
                assert(all[0] == key);
                assert forall|hh: u64, k: K| #[trigger] after.contains((hh, k)) implies all.contains(
                    k,
                ) && call_ensures(hash, (&k,), hh) by {
                    if !first.contains((hh, k)) {
                        let i = choose|i: int| 0 <= i < tail.len() && tail[i] == k;
                        assert(all[i + 1] == k);
                    }
                }
                assert forall|i: int| 0 <= i < all.len() implies stored_by(
                    after,
                    hash,
                    #[trigger] all[i],
                ) by {
                    if i == 0 {
                        assert(after.contains((h, all[0])));
                    } else {
                        assert(tail[i - 1] == all[i]);
                        assert(stored_by(after, hash, tail[i - 1]));
                    }
                }
            }
            table
        },
        None => Table::new(0, ResizeMode::default()),
    }
}

/// `keys` holds a clone of `k`.
pub open spec fn holds_clone_of<K: Clone>(keys: Set<K>, k: K) -> bool {
    exists|c: K| #[trigger] keys.contains(c) && cloned::<K>(k, c)
}

/// `c` is a clone of one of `keys`.
pub open spec fn is_clone_from<K: Clone>(keys: Set<K>, c: K) -> bool {
    exists|k: K| #[trigger] keys.contains(k) && cloned::<K>(k, c)
}

/// `entries` holds a clone of `k` under a hash that `hash` returns for the
/// clone.
pub open spec fn holds_clone_by<K: Clone, F: Fn(&K) -> u64>(
    entries: Set<(u64, K)>,
    hash: F,
    k: K,
) -> bool {
    exists|c: K| cloned::<K>(k, c) && #[trigger] stored_by(entries, hash, c)
}

/// `copy` holds clones of the keys of `source`, each hashed by `hash`: every
/// key of the source has a clone there under a hash that `hash` returns for
/// the clone, and every entry there is such a clone under such a hash.
pub open spec fn cloned_with<K: Clone, F: Fn(&K) -> u64>(
    source: Set<(u64, K)>,
    copy: Set<(u64, K)>,
    hash: F,
) -> bool {
    &&& forall|k: K| #[trigger] keys_of(source).contains(k) ==> holds_clone_by(copy, hash, k)
    &&& forall|h: u64, c: K| #[trigger]
        copy.contains((h, c)) ==> call_ensures(hash, (&c,), h) && is_clone_from(
            keys_of(source),
            c,
        )
}

/// Where a clone of a key is the key, and the hashing function gives each
/// key one hash, a copy has the keys of its source, one entry for each, each
/// under its key's hash.
pub proof fn lemma_cloned_by_key<K: Clone, F: Fn(&K) -> u64>(
    source: Set<(u64, K)>,
    copy: Set<(u64, K)>,
    hash: F,
    hash_of: spec_fn(K) -> u64,
)
    requires
        copy.finite(),
        forall|k: K, c: K| #[trigger] cloned::<K>(k, c) ==> c == k,
        hashes_as(hash, hash_of),
        cloned_with(source, copy, hash),
    ensures
        hashed_by(copy, hash_of),
        keys_of(copy) == keys_of(source),
        keys_of(copy).finite(),
        copy.len() == keys_of(copy).len(),
        forall|k: K| keys_of(copy).contains(k) <==> copy.contains((hash_of(k), k)),
{
    assert(hashed_by(copy, hash_of));
    assert(keys_of(copy) =~= keys_of(source)) by {
        assert forall|k: K| keys_of(copy).contains(k) <==> keys_of(source).contains(k) by {
            if keys_of(copy).contains(k) {
                let h = choose|h: u64| #[trigger] copy.contains((h, k));
                assert(is_clone_from(keys_of(source), k));
                let o = choose|o: K| #[trigger] keys_of(source).contains(o) && cloned::<K>(o, k);
                assert(o == k);
            }
            if keys_of(source).contains(k) {
                assert(holds_clone_by(copy, hash, k));
                let c = choose|c: K| cloned::<K>(k, c) && #[trigger] stored_by(copy, hash, c);
                assert(c == k);
                let h = choose|h: u64|
                    call_ensures(hash, (&c,), h) && #[trigger] copy.contains((h, c));
                assert(copy.contains((h, k)));
            }
        }
    }
    lemma_one_entry_per_key(copy, hash_of);
    assert forall|k: K| keys_of(copy).contains(k) <==> copy.contains((hash_of(k), k)) by {
        lemma_keys_under_one_hash(copy, hash_of, k);
    }
}

/// A table of clones of the keys of `table`, each under the hash that
/// `hash` returns for the clone, with room for as many keys as `table` has,
/// and with the default resize mode.
pub fn clone_keys_with<K: Clone + Eq, F>(table: &Table<K, ()>, hash: F) -> (r: Table<K, ()>) where
    F: Fn(&K) -> u64,

    requires
        table.wf(),
        obeys_eq::<K>(),
        forall|k: &K| call_requires(hash, (k,)),
    ensures
        r.wf(),
        r.spec_mode() == ResizeMode::Incremental(64),
        cloned_with(table@.dom(), r@.dom(), hash),
        r@.dom().len() <= table@.dom().len(),
        is_capacity_for(r.target_capacity(), table@.dom().len() as int),
        r.shape() == Shape::settled(r.target_capacity()),
{
    proof {
        table.lemma_size();
        table.lemma_listing();
    }
    let mut other: Table<K, ()> = Table::new(table.len(), ResizeMode::default());
    let mut iter = table.iter();
    let ghost items = table.listing();
    let ghost source = table@.dom();
    let ghost mut seen: int = 0;
    proof {
        other.lemma_size();
    }
    loop
        invariant
            table.wf(),
            other.wf(),
            obeys_eq::<K>(),
            forall|k: &K| call_requires(hash, (k,)),
            iter.wf(),
            items == table.listing(),
            source == table@.dom(),
            lists(items, table@),
            items.len() == source.len(),
            source.len() <= max_len(),
            0 <= seen <= items.len(),
            iter.remaining() == items.skip(seen),
            other@.dom().finite(),
            other@.dom().len() <= seen,
            other.spec_mode() == ResizeMode::Incremental(64),
            is_capacity_for(other.target_capacity(), source.len() as int),
            other.shape() == Shape::settled(other.target_capacity()),
            forall|i: int|
                0 <= i < seen ==> holds_clone_by(other@.dom(), hash, (#[trigger] items[i]).0.1),
            forall|h: u64, c: K| #[trigger]
                other@.dom().contains((h, c)) ==> call_ensures(hash, (&c,), h) && is_clone_from(
                    keys_of(source),
                    c,
                ),
        decreases iter.remaining().len(),
    {
        let ghost before = other@.dom();
        match iter.next() {
            Some((_, key, _)) => {
                let copy = key.clone();
                let h = hash(&copy);
                other.insert(h, copy, (), true);
                proof {
                    let now = other@.dom();
                    assert(items[seen].0.1 == *key);
                    assert(items.skip(seen).drop_first() =~= items.skip(seen + 1));
                    assert(now =~= before.insert((h, copy)));
                    other.lemma_size();
                    assert(table@.contains_pair(items[seen].0, items[seen].1));
                    assert(source.contains((items[seen].0.0, *key)));
                    assert(keys_of(source).contains(*key));
                    assert(stored_by(now, hash, copy)) by {
                        assert(now.contains((h, copy)));
                    }
                    assert forall|i: int| 0 <= i < seen + 1 implies holds_clone_by(
                        now,
                        hash,
                        (#[trigger] items[i]).0.1,
                    ) by {
                        if i < seen {
                            let k = items[i].0.1;
                            assert(holds_clone_by(before, hash, k));
                            let c = choose|c: K|
                                cloned::<K>(k, c) && #[trigger] stored_by(before, hash, c);
                            let w = choose|w: u64|
                                call_ensures(hash, (&c,), w) && #[trigger] before.contains((w, c));
                            assert(now.contains((w, c)));
                            assert(stored_by(now, hash, c));
                        }
                    }
                    seen = seen + 1;
                }
            },
            None => {
                proof {
                    assert(seen == items.len());
                    assert forall|k: K| #[trigger] keys_of(source).contains(k) implies holds_clone_by(
                        other@.dom(),
                        hash,
                        k,
                    ) by {
                        let h0 = choose|h0: u64| #[trigger] source.contains((h0, k));
                        assert(table@.contains_key((h0, k)));
                        assert(items.contains(((h0, k), table@[(h0, k)])));
                        let i = choose|i: int|
                            0 <= i < items.len() && items[i] == ((h0, k), table@[(h0, k)]);
                        assert(holds_clone_by(other@.dom(), hash, items[i].0.1));
                    }
                }
                return other;
            },
        }
    }
}

} // verus!
