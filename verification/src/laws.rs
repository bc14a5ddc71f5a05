//! Laws of the table: what its operations do to one key, to other keys, and
//! in sequence.

use crate::bucket::lands_at;
use crate::capacity::{grown, home, probe_dist, probe_pos, threshold};
use crate::slot::Slot;
use crate::keys::{extended_with, hashes_as, lemma_extended_by_key};
use crate::map::ResizeMode;
use crate::set::{did_insert, did_remove};
use crate::table::{inserted, lookup, removed, InsertResult, Shape};
use vstd::prelude::*;

verus! {

/// A value stored under a key is the value found under it.
pub proof fn lemma_insert_then_get<K, V>(
    before: Map<(u64, K), V>,
    after: Map<(u64, K), V>,
    hash: u64,
    key: K,
    value: V,
    r: InsertResult<V>,
)
    requires
        inserted(before, after, hash, key, value, true, r),
    ensures
        lookup(after, hash, key) == Some(value),
{
}

/// An insert that may not replace leaves the key present: with the new
/// value where it was absent, with its old value where it was present.
pub proof fn lemma_insert_if_absent_then_get<K, V>(
    before: Map<(u64, K), V>,
    after: Map<(u64, K), V>,
    hash: u64,
    key: K,
    value: V,
    r: InsertResult<V>,
)
    requires
        inserted(before, after, hash, key, value, false, r),
    ensures
        lookup(after, hash, key) == if before.contains_key((hash, key)) {
            lookup(before, hash, key)
        } else {
            Some(value)
        },
        r is Inserted <==> !before.contains_key((hash, key)),
{
}

/// A key that was removed is not found.
pub proof fn lemma_remove_then_get<K, V>(
    before: Map<(u64, K), V>,
    after: Map<(u64, K), V>,
    hash: u64,
    key: K,
    r: Option<(K, V)>,
)
    requires
        removed(before, after, hash, key, r),
    ensures
        lookup(after, hash, key) is None,
        r is Some <==> before.contains_key((hash, key)),
{
}

/// An insert changes nothing under any other key.
pub proof fn lemma_insert_leaves_others<K, V>(
    before: Map<(u64, K), V>,
    after: Map<(u64, K), V>,
    hash: u64,
    key: K,
    value: V,
    replace: bool,
    r: InsertResult<V>,
    other_hash: u64,
    other_key: K,
)
    requires
        inserted(before, after, hash, key, value, replace, r),
        (other_hash, other_key) != (hash, key),
    ensures
        lookup(after, other_hash, other_key) == lookup(before, other_hash, other_key),
{
}

/// A removal changes nothing under any other key.
pub proof fn lemma_remove_leaves_others<K, V>(
    before: Map<(u64, K), V>,
    after: Map<(u64, K), V>,
    hash: u64,
    key: K,
    r: Option<(K, V)>,
    other_hash: u64,
    other_key: K,
)
    requires
        removed(before, after, hash, key, r),
        (other_hash, other_key) != (hash, key),
    ensures
        lookup(after, other_hash, other_key) == lookup(before, other_hash, other_key),
{
}

/// Insert a key, remove it, then insert another key that was absent: the
/// second key is absent before its insert and present after it, and the
/// first key stays absent.
pub proof fn lemma_insert_after_remove<K, V>(
    m0: Map<(u64, K), V>,
    m1: Map<(u64, K), V>,
    m2: Map<(u64, K), V>,
    m3: Map<(u64, K), V>,
    a: (u64, K),
    va: V,
    ra: InsertResult<V>,
    gone: Option<(K, V)>,
    b: (u64, K),
    vb: V,
    replace: bool,
    rb: InsertResult<V>,
)
    requires
        a != b,
        !m0.contains_key(b),
        inserted(m0, m1, a.0, a.1, va, true, ra),
        removed(m1, m2, a.0, a.1, gone),
        inserted(m2, m3, b.0, b.1, vb, replace, rb),
    ensures
        lookup(m2, b.0, b.1) is None,
        rb is Inserted,
        lookup(m3, b.0, b.1) == Some(vb),
        lookup(m3, a.0, a.1) is None,
        gone == Some((a.1, va)),
{
}

/// A new entry has one landing slot.
pub proof fn lemma_landing_unique<K, V>(cells: Seq<Slot<K, V>>, hash: u64, q1: int, q2: int)
    requires
        cells.len() >= 1,
        0 <= home(hash, cells.len() as int) < cells.len(),
        lands_at(cells, hash, q1),
        lands_at(cells, hash, q2),
    ensures
        q1 == q2,
{
    let cap = cells.len() as int;
    let start = home(hash, cap);
    let d1 = probe_dist(start, q1, cap);
    let d2 = probe_dist(start, q2, cap);
    assert(probe_pos(start, d1, cap) == q1);
    assert(probe_pos(start, d2, cap) == q2);
    if d1 < d2 {
        assert(!cells[probe_pos(start, d1, cap)].is_free());
    } else if d2 < d1 {
        assert(!cells[probe_pos(start, d2, cap)].is_free());
    }
}

/// Where the probe path of `hash` meets no free slot before slot `j`, and
/// the entry in `j` is removed, a new entry with `hash` lands in `j`: the
/// tombstone is taken again.
pub proof fn lemma_tombstone_is_taken<K, V>(cells: Seq<Slot<K, V>>, j: int, hash: u64)
    requires
        0 <= j < cells.len(),
        0 <= home(hash, cells.len() as int) < cells.len(),
        forall|t: int|
            0 <= t < probe_dist(home(hash, cells.len() as int), j, cells.len() as int)
                ==> !cells[#[trigger] probe_pos(
                home(hash, cells.len() as int),
                t,
                cells.len() as int,
            )].is_free(),
    ensures
        lands_at(cells.update(j, Slot::Tombstone), hash, j),
{
    let cap = cells.len() as int;
    let start = home(hash, cap);
    let after = cells.update(j, Slot::Tombstone);
    assert forall|t: int| 0 <= t < probe_dist(start, j, cap) implies !after[#[trigger] probe_pos(
        start,
        t,
        cap,
    )].is_free() by {
        assert(probe_pos(start, probe_dist(start, j, cap), cap) == j);
        assert(probe_pos(start, t, cap) != j);
    }
}

/// One operation of a history: an insert or a removal.
pub enum Op<K, V> {
    Insert { hash: u64, key: K, value: V, replace: bool },
    Remove { hash: u64, key: K },
}

impl<K, V> Op<K, V> {
    /// The hash and key the operation is about.
    pub open spec fn target(self) -> (u64, K) {
        match self {
            Op::Insert { hash, key, .. } => (hash, key),
            Op::Remove { hash, key } => (hash, key),
        }
    }

    /// The table after the operation.
    pub open spec fn apply(self, m: Map<(u64, K), V>) -> Map<(u64, K), V> {
        match self {
            Op::Insert { hash, key, value, replace } => if replace || !m.contains_key(
                (hash, key),
            ) {
                m.insert((hash, key), value)
            } else {
                m
            },
            Op::Remove { hash, key } => m.remove((hash, key)),
        }
    }
}

/// The table after the operations of `ops`, in order.
pub open spec fn run<K, V>(m: Map<(u64, K), V>, ops: Seq<Op<K, V>>) -> Map<(u64, K), V>
    decreases ops.len(),
{
    if ops.len() == 0 {
        m
    } else {
        ops.last().apply(run(m, ops.drop_last()))
    }
}

/// The operations of `ops` that are about `p`, in order.
pub open spec fn about<K, V>(ops: Seq<Op<K, V>>, p: (u64, K)) -> Seq<Op<K, V>>
    decreases ops.len(),
{
    if ops.len() == 0 {
        ops
    } else if ops.last().target() == p {
        about(ops.drop_last(), p).push(ops.last())
    } else {
        about(ops.drop_last(), p)
    }
}

/// What an insert does to the table is what [`Op::apply`] says.
pub proof fn lemma_insert_applies<K, V>(
    before: Map<(u64, K), V>,
    after: Map<(u64, K), V>,
    hash: u64,
    key: K,
    value: V,
    replace: bool,
    r: InsertResult<V>,
)
    requires
        inserted(before, after, hash, key, value, replace, r),
    ensures
        after == (Op::Insert { hash, key, value, replace }).apply(before),
{
}

/// What a removal does to the table is what [`Op::apply`] says.
pub proof fn lemma_remove_applies<K, V>(
    before: Map<(u64, K), V>,
    after: Map<(u64, K), V>,
    hash: u64,
    key: K,
    r: Option<(K, V)>,
)
    requires
        removed(before, after, hash, key, r),
    ensures
        after == (Op::<K, V>::Remove { hash, key }).apply(before),
{
    assert(after =~= before.remove((hash, key)));
}

/// What is found under a key after a history is what is found after the
/// operations about that key alone: the operations about other keys, and
/// where they stand among the others, make no difference.
pub proof fn lemma_history_by_key<K, V>(m: Map<(u64, K), V>, ops: Seq<Op<K, V>>, p: (u64, K))
    ensures
        lookup(run(m, ops), p.0, p.1) == lookup(run(m, about(ops, p)), p.0, p.1),
    decreases ops.len(),
{
    if ops.len() > 0 {
        let rest = ops.drop_last();
        lemma_history_by_key(m, rest, p);
        if ops.last().target() == p {
            let own = about(rest, p).push(ops.last());
            assert(own.drop_last() =~= about(rest, p));
            assert(own.last() == ops.last());
        }
    }
}

/// The entries after putting the keys of `keys` in, in order.
pub open spec fn insert_all<K>(entries: Set<(u64, K)>, keys: Seq<(u64, K)>) -> Set<(u64, K)>
    decreases keys.len(),
{
    if keys.len() == 0 {
        entries
    } else {
        insert_all(entries, keys.drop_last()).insert(keys.last())
    }
}

/// Putting keys in adds exactly those keys, in whatever order they come.
pub proof fn lemma_insert_all<K>(entries: Set<(u64, K)>, keys: Seq<(u64, K)>)
    ensures
        insert_all(entries, keys) == entries.union(keys.to_set()),
    decreases keys.len(),
{
    if keys.len() == 0 {
        assert(keys.to_set() =~= Set::<(u64, K)>::empty());
        assert(entries.union(keys.to_set()) =~= entries);
    } else {
        let rest = keys.drop_last();
        lemma_insert_all(entries, rest);
        assert(keys =~= rest.push(keys.last()));
        assert(keys.to_set() =~= rest.to_set().insert(keys.last())) by {
            assert forall|x: (u64, K)| keys.to_set().contains(x) <==> rest.to_set().insert(
                keys.last(),
            ).contains(x) by {
                if keys.to_set().contains(x) {
                    let i = choose|i: int| 0 <= i < keys.len() && keys[i] == x;
                    if i < rest.len() {
                        assert(rest[i] == x);
                    }
                }
                if rest.to_set().contains(x) {
                    let i = choose|i: int| 0 <= i < rest.len() && rest[i] == x;
                    assert(keys[i] == x);
                }
                if x == keys.last() {
                    assert(keys[keys.len() - 1] == x);
                }
            }
        }
        assert(insert_all(entries, keys) =~= entries.union(keys.to_set()));
    }
}

/// No insert is lost: distinct keys put in an empty set, in whatever order,
/// leave as many entries as there were keys.
pub proof fn lemma_no_lost_inserts<K>(keys: Seq<(u64, K)>)
    requires
        keys.no_duplicates(),
    ensures
        insert_all(Set::<(u64, K)>::empty(), keys).finite(),
        insert_all(Set::<(u64, K)>::empty(), keys).len() == keys.len(),
        forall|i: int|
            0 <= i < keys.len() ==> insert_all(Set::<(u64, K)>::empty(), keys).contains(
                #[trigger] keys[i],
            ),
{
    lemma_insert_all(Set::<(u64, K)>::empty(), keys);
    assert(Set::<(u64, K)>::empty().union(keys.to_set()) =~= keys.to_set());
    keys.unique_seq_to_set();
    vstd::seq_lib::seq_to_set_is_finite(keys);
    assert forall|i: int| 0 <= i < keys.len() implies keys.to_set().contains(#[trigger] keys[i]) by {}
}

/// Two runs of inserts over the same keys, in different orders, end with
/// the same entries.
pub proof fn lemma_insert_order_is_free<K>(
    entries: Set<(u64, K)>,
    one: Seq<(u64, K)>,
    other: Seq<(u64, K)>,
)
    requires
        one.to_set() == other.to_set(),
    ensures
        insert_all(entries, one) == insert_all(entries, other),
{
    lemma_insert_all(entries, one);
    lemma_insert_all(entries, other);
}

/// A table never shrinks: no operation leaves it with fewer slots to grow
/// to, and taking a share of a migration or finishing it changes nothing
/// about where the table is growing to.
pub proof fn lemma_never_shrinks(shape: Shape, mode: ResizeMode, len: int, fresh: bool)
    requires
        0 <= shape.capacity <= shape.target,
    ensures
        shape.helped(mode).target == shape.target,
        shape.finished().target == shape.target,
        shape.after_insert(mode, len, fresh).target >= shape.target,
        shape.helped(mode).capacity >= shape.capacity,
        shape.finished().capacity >= shape.capacity,
{
}

/// An insert starts a migration only in a settled table at its threshold,
/// and only for a new key; it then doubles the capacity.
pub proof fn lemma_growth_starts_at_the_threshold(
    shape: Shape,
    mode: ResizeMode,
    len: int,
    fresh: bool,
)
    requires
        shape == Shape::settled(shape.capacity),
        shape.capacity >= 0,
    ensures
        shape.after_insert(mode, len, fresh).target == if fresh && len == threshold(
            shape.capacity,
        ) {
            grown(shape.capacity)
        } else {
            shape.capacity
        },
{
}

/// In incremental mode no operation moves more than one slice: a share of a
/// migration either ends the migration or moves exactly one slice.
pub proof fn lemma_one_slice_at_a_time(shape: Shape, mode: ResizeMode)
    requires
        shape.migrating(),
        mode.slice() is Some,
    ensures
        shape.helped(mode) == shape.finished() || (shape.helped(mode).migrating()
            && shape.helped(mode).moved == shape.moved + mode.slice()->0),
        shape.helped(mode) == shape.finished() ==> shape.capacity - shape.moved
            <= mode.slice()->0,
{
}

/// Of any number of inserts of one key that take their turn one after the
/// other, into a set that lacks the key, the first reports the key as new
/// and no other does, and the set has grown by that one entry: `states`
/// holds the entries before the first insert and after each, `fresh` what
/// each reported.
pub proof fn lemma_one_insert_wins<K>(
    states: Seq<Set<(u64, K)>>,
    fresh: Seq<bool>,
    hash: u64,
    key: K,
)
    requires
        fresh.len() >= 1,
        states.len() == fresh.len() + 1,
        states[0].finite(),
        !states[0].contains((hash, key)),
        forall|i: int|
            0 <= i < fresh.len() ==> did_insert(
                #[trigger] states[i],
                states[i + 1],
                hash,
                key,
                fresh[i],
            ),
    ensures
        fresh[0],
        forall|i: int| 1 <= i < fresh.len() ==> !fresh[i],
        states.last() == states[0].insert((hash, key)),
        states.last().len() == states[0].len() + 1,
{
    assert(did_insert(states[0], states[1], hash, key, fresh[0]));
    assert forall|i: int| 1 <= i <= fresh.len() implies #[trigger] states[i] == states[0].insert(
        (hash, key),
    ) by {
        lemma_insert_chain(states, fresh, hash, key, i);
    }
    assert forall|i: int| 1 <= i < fresh.len() implies !fresh[i] by {
        assert(states[i] == states[0].insert((hash, key)));
        assert(did_insert(states[i], states[i + 1], hash, key, fresh[i]));
    }
    assert(states.last() == states[fresh.len() as int]);
}

/// After the first of a run of inserts of one key, the entries stay as that
/// insert left them.
proof fn lemma_insert_chain<K>(
    states: Seq<Set<(u64, K)>>,
    fresh: Seq<bool>,
    hash: u64,
    key: K,
    i: int,
)
    requires
        states.len() == fresh.len() + 1,
        1 <= i <= fresh.len(),
        forall|j: int|
            0 <= j < fresh.len() ==> did_insert(
                #[trigger] states[j],
                states[j + 1],
                hash,
                key,
                fresh[j],
            ),
    ensures
        states[i] == states[0].insert((hash, key)),
    decreases i,
{
    assert(did_insert(states[i - 1], states[i], hash, key, fresh[i - 1]));
    if i > 1 {
        lemma_insert_chain(states, fresh, hash, key, i - 1);
        assert(states[i] =~= states[0].insert((hash, key)));
    }
}

/// Of any number of removals of one key that take their turn one after the
/// other, from a set that holds the key, the first reports that the key
/// was there and no other does, and the set has shrunk by that one entry.
pub proof fn lemma_one_remove_wins<K>(
    states: Seq<Set<(u64, K)>>,
    was: Seq<bool>,
    hash: u64,
    key: K,
)
    requires
        was.len() >= 1,
        states.len() == was.len() + 1,
        states[0].finite(),
        states[0].contains((hash, key)),
        forall|i: int|
            0 <= i < was.len() ==> did_remove(
                #[trigger] states[i],
                states[i + 1],
                hash,
                key,
                was[i],
            ),
    ensures
        was[0],
        forall|i: int| 1 <= i < was.len() ==> !was[i],
        states.last() == states[0].remove((hash, key)),
        states.last().len() == states[0].len() - 1,
{
    assert(did_remove(states[0], states[1], hash, key, was[0]));
    assert forall|i: int| 1 <= i <= was.len() implies #[trigger] states[i] == states[0].remove(
        (hash, key),
    ) by {
        lemma_remove_chain(states, was, hash, key, i);
    }
    assert forall|i: int| 1 <= i < was.len() implies !was[i] by {
        assert(states[i] == states[0].remove((hash, key)));
        assert(did_remove(states[i], states[i + 1], hash, key, was[i]));
    }
    assert(states.last() == states[was.len() as int]);
}

/// After the first of a run of removals of one key, the entries stay as
/// that removal left them.
proof fn lemma_remove_chain<K>(
    states: Seq<Set<(u64, K)>>,
    was: Seq<bool>,
    hash: u64,
    key: K,
    i: int,
)
    requires
        states.len() == was.len() + 1,
        1 <= i <= was.len(),
        forall|j: int|
            0 <= j < was.len() ==> did_remove(
                #[trigger] states[j],
                states[j + 1],
                hash,
                key,
                was[j],
            ),
    ensures
        states[i] == states[0].remove((hash, key)),
    decreases i,
{
    assert(did_remove(states[i - 1], states[i], hash, key, was[i - 1]));
    if i > 1 {
        lemma_remove_chain(states, was, hash, key, i - 1);
        assert(states[i] =~= states[0].remove((hash, key)));
    }
}

/// No key is lost in a run of inserts: where writers put their keys into an
/// empty set, in whatever order their inserts take their turn, and no key
/// comes twice, the set ends with one entry for each key, as many as there
/// were inserts. `keys` is the run of keys in the order they were put in,
/// and the entries are related to it as [`crate::set::HashSet::extend_with`]
/// states.
pub proof fn lemma_no_key_is_lost<K, F: Fn(&K) -> u64>(
    after: Set<(u64, K)>,
    keys: Seq<K>,
    hash: F,
    hash_of: spec_fn(K) -> u64,
)
    requires
        after.finite(),
        keys.no_duplicates(),
        hashes_as(hash, hash_of),
        extended_with(Set::<(u64, K)>::empty(), after, keys, hash),
    ensures
        after.len() == keys.len(),
        forall|i: int| 0 <= i < keys.len() ==> after.contains((hash_of(keys[i]), #[trigger] keys[i])),
        forall|h: u64, k: K| #[trigger] after.contains((h, k)) ==> keys.contains(k),
{
    lemma_extended_by_key(Set::<(u64, K)>::empty(), after, keys, hash, hash_of);
    crate::set::lemma_keys_empty::<K>();
    assert(Set::<K>::empty().union(keys.to_set()) =~= keys.to_set());
    keys.unique_seq_to_set();
    assert forall|i: int| 0 <= i < keys.len() implies after.contains(
        (hash_of(keys[i]), #[trigger] keys[i]),
    ) by {
        assert(keys.to_set().contains(keys[i]));
    }
}

} // verus!
