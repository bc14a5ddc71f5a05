//! The table: the current bucket array and, while it grows, its successor.

use crate::bucket::BucketArray;
use crate::capacity::{
    capacity_for, fits, grow, grown, is_capacity_for, lemma_grown_valid, lemma_growth_margin,
    max_len, threshold, threshold_of, valid_capacity,
};
use crate::equality::{compares, obeys_eq, Equivalent};
use crate::iter::{Iter, Walk};
use crate::listing::{lemma_lists_concat, lemma_lists_len, listed, lists};
use crate::map::ResizeMode;
use vstd::prelude::*;

verus! {

/// The outcome of an insert.
pub enum InsertResult<V> {
    /// The key was absent and is now present.
    Inserted,
    /// The key was present and its value was replaced; this is the value it
    /// had.
    Replaced(V),
    /// The key was present and the insert was not allowed to replace it; the
    /// value comes back to the caller.
    Error { not_inserted: V },
}

/// The value stored under `hash` and `key`, if there is one.
pub open spec fn lookup<K, V>(m: Map<(u64, K), V>, hash: u64, key: K) -> Option<V> {
    if m.contains_key((hash, key)) {
        Some(m[(hash, key)])
    } else {
        None
    }
}

/// An insert of `value` under `hash` and `key` took the table from `before`
/// to `after` and returned `r`.
pub open spec fn inserted<K, V>(
    before: Map<(u64, K), V>,
    after: Map<(u64, K), V>,
    hash: u64,
    key: K,
    value: V,
    replace: bool,
    r: InsertResult<V>,
) -> bool {
    match r {
        InsertResult::Inserted => !before.contains_key((hash, key)) && after == before.insert(
            (hash, key),
            value,
        ),
        InsertResult::Replaced(prev) => replace && lookup(before, hash, key) == Some(prev) && after
            == before.insert((hash, key), value),
        InsertResult::Error { not_inserted } => !replace && before.contains_key((hash, key))
            && not_inserted == value && after == before,
    }
}

/// A removal under `hash` and `key` took the table from `before` to `after`
/// and returned `r`.
pub open spec fn removed<K, V>(
    before: Map<(u64, K), V>,
    after: Map<(u64, K), V>,
    hash: u64,
    key: K,
    r: Option<(K, V)>,
) -> bool {
    match r {
        Some((k, v)) => k == key && lookup(before, hash, key) == Some(v) && after == before.remove(
            (hash, key),
        ),
        None => lookup(before, hash, key) is None && after == before,
    }
}

/// A lookup under `hash` and `key` in `m` returned `r`.
pub open spec fn found<K, V>(m: Map<(u64, K), V>, hash: u64, key: K, r: Option<(&K, &V)>) -> bool {
    match r {
        Some((k, v)) => *k == key && lookup(m, hash, key) == Some(*v),
        None => lookup(m, hash, key) is None,
    }
}

/// A lookup under `hash` of what `probe` stands for returned `r` from `m`:
/// an entry stored under `hash` that `probe` stands for, or nothing where
/// `probe` stands for no key stored under `hash`.
pub open spec fn found_by<K, V, Q: Equivalent<K>>(
    m: Map<(u64, K), V>,
    hash: u64,
    probe: &Q,
    r: Option<(&K, &V)>,
) -> bool {
    match r {
        Some((k, v)) => compares(probe, *k, true) && lookup(m, hash, *k) == Some(*v),
        None => forall|k: K| #[trigger] m.contains_key((hash, k)) ==> compares(probe, k, false),
    }
}

/// A removal under `hash` of what `probe` stands for took the table from
/// `before` to `after` and returned `r`: an entry stored under `hash` that
/// `probe` stands for, now gone, or nothing where `probe` stands for no key
/// stored under `hash`.
pub open spec fn removed_by<K, V, Q: Equivalent<K>>(
    before: Map<(u64, K), V>,
    after: Map<(u64, K), V>,
    hash: u64,
    probe: &Q,
    r: Option<(K, V)>,
) -> bool {
    match r {
        Some((k, v)) => compares(probe, k, true) && lookup(before, hash, k) == Some(v) && after
            == before.remove((hash, k)),
        None => (forall|k: K| #[trigger]
            before.contains_key((hash, k)) ==> compares(probe, k, false)) && after == before,
    }
}

/// The geometry of a table: the slots of its current array, the slots it is
/// growing to, and how many slots of the current array have been moved.
pub struct Shape {
    pub capacity: int,
    pub target: int,
    pub moved: int,
}

impl Shape {
    /// A table of `capacity` slots that is not growing.
    pub open spec fn settled(capacity: int) -> Shape {
        Shape { capacity, target: capacity, moved: 0 }
    }

    /// The table is moving its entries to a larger array.
    pub open spec fn migrating(self) -> bool {
        self.capacity < self.target
    }

    /// The table once its migration is done.
    pub open spec fn finished(self) -> Shape {
        Shape::settled(self.target)
    }

    /// The table after one operation has taken its share of the migration:
    /// a slice of slots in incremental mode, all that is left in blocking
    /// mode. The migration is done when the last slot has been moved.
    pub open spec fn helped(self, mode: ResizeMode) -> Shape {
        if !self.migrating() {
            self
        } else {
            match mode.slice() {
                Some(n) => if self.moved + n < self.capacity {
                    Shape { capacity: self.capacity, target: self.target, moved: self.moved + n }
                } else {
                    self.finished()
                },
                None => self.finished(),
            }
        }
    }

    /// A settled table after it has started to grow to `target` slots and
    /// the operation that started it has taken its share. A table without
    /// slots has nothing to move.
    pub open spec fn grown_to(self, target: int, mode: ResizeMode) -> Shape {
        if self.capacity == 0 {
            Shape::settled(target)
        } else {
            Shape { capacity: self.capacity, target, moved: 0 }.helped(mode)
        }
    }

    /// The table after an insert into a table of `len` entries: the insert
    /// takes its share of a migration under way, and where its key is new
    /// and the table is at its threshold, the table starts to double.
    pub open spec fn after_insert(self, mode: ResizeMode, len: int, fresh: bool) -> Shape {
        let helped = self.helped(mode);
        if fresh && len == threshold(helped.target) {
            helped.grown_to(grown(helped.target), mode)
        } else {
            helped
        }
    }

    /// The table after room has been made for `wanted` entries: as it was
    /// where they fit, and otherwise growing to `target` slots from the end
    /// of the migration that was under way.
    pub open spec fn after_reserve(self, mode: ResizeMode, wanted: int, target: int) -> Shape {
        if fits(self.target, wanted) {
            self
        } else {
            self.finished().grown_to(target, mode)
        }
    }
}

/// A hash table over entries that carry their own hash.
///
/// The table never hashes a key. A caller hands in the hash with the key, an
/// entry keeps the hash it was stored under, and a probe matches an entry
/// when both the hash and the key agree. The table is therefore a map from
/// `(hash, key)` to value, whatever hashes it is given. With a hasher that
/// gives each key one hash, it is a map from keys.
#[verifier::reject_recursive_types(K)]
pub struct Table<K, V> {
    root: BucketArray<K, V>,
    successor: Option<BucketArray<K, V>>,
    cursor: usize,
    mode: ResizeMode,
}

impl<K, V> Table<K, V> {
    /// The entries of the table: each hash and key with its value.
    pub closed spec fn view(&self) -> Map<(u64, K), V> {
        match self.successor {
            Some(s) => self.root@.union_prefer_right(s@),
            None => self.root@,
        }
    }

    /// A successor array exists and entries are moving to it.
    pub closed spec fn migrating(&self) -> bool {
        self.successor is Some
    }

    /// The number of slots of the current array.
    pub closed spec fn spec_capacity(&self) -> int {
        self.root.cap()
    }

    /// The number of slots once the migration under way, if any, is done.
    pub closed spec fn target_capacity(&self) -> int {
        match self.successor {
            Some(s) => s.cap(),
            None => self.root.cap(),
        }
    }

    /// The number of slots of the current array that have been moved.
    pub closed spec fn progress(&self) -> int {
        self.cursor as int
    }

    /// The resize mode the table was made with.
    pub closed spec fn spec_mode(&self) -> ResizeMode {
        self.mode
    }

    /// The structure of the table: both arrays are well formed, the current
    /// one is within its threshold, and while a migration is under way the
    /// slots before the cursor hold no entry, no entry is in both arrays,
    /// and the successor has room for all of them.
    pub closed spec fn inv(&self) -> bool {
        &&& self.root.wf()
        &&& self.root@.dom().len() <= threshold(self.root.cap())
        &&& match self.successor {
            None => self.root.pristine() && self.cursor == 0,
            Some(s) => {
                &&& s.wf()
                &&& s.pristine()
                &&& self.cursor < self.root.cap()
                &&& self.root.cap() < s.cap()
                &&& forall|j: int|
                    0 <= j < self.cursor ==> !(#[trigger] self.root.cells()[j] is Occupied)
                &&& forall|p: (u64, K)|
                    !(#[trigger] self.root@.contains_key(p) && s@.contains_key(p))
                &&& self.root@.dom().len() + s@.dom().len() <= threshold(s.cap())
                &&& self.paced(0)
            },
        }
    }

    /// The migration keeps pace: with `spare` more entries in the table, the
    /// operations that it takes to move the remaining slots, a slice each,
    /// would still not fill the successor.
    spec fn paced(&self, spare: int) -> bool {
        match (self.successor, self.mode.slice()) {
            (Some(s), Some(n)) => (threshold(s.cap()) - self.root@.dom().len() - s@.dom().len()
                - spare) * n >= self.root.cap() - self.cursor,
            _ => true,
        }
    }

    /// The geometry of the table.
    pub open spec fn shape(&self) -> Shape {
        Shape {
            capacity: self.spec_capacity(),
            target: self.target_capacity(),
            moved: self.progress(),
        }
    }

    /// A migration keeps pace: the room left in the successor, times the
    /// slice, covers the slots still to move. So no operation ever has to
    /// finish a migration to find room.
    pub proof fn lemma_pace(&self)
        requires
            self.inv(),
            self.migrating(),
        ensures
            0 <= self.progress() < self.spec_capacity(),
            match self.spec_mode().slice() {
                Some(n) => (threshold(self.target_capacity()) - self@.dom().len()) * n
                    >= self.spec_capacity() - self.progress(),
                None => true,
            },
    {
        self.lemma_len();
    }

    /// The invariant of a table between operations: its structure, and no
    /// migration is left under way in blocking mode.
    pub open spec fn wf(&self) -> bool {
        self.inv() && (self.spec_mode() is Blocking ==> !self.migrating())
    }

    /// The view is finite, and within the threshold of the target capacity.
    pub proof fn lemma_size(&self)
        requires
            self.inv(),
        ensures
            self@.dom().finite(),
            self@.dom().len() <= threshold(self.target_capacity()),
            valid_capacity(self.spec_capacity()),
            valid_capacity(self.target_capacity()),
            0 <= self.spec_capacity() <= self.target_capacity(),
            self.migrating() == self.shape().migrating(),
            !self.migrating() ==> self.shape() == Shape::settled(self.spec_capacity()),
    {
        self.root.lemma_size();
        match self.successor {
            Some(s) => {
                s.lemma_size();
                self.lemma_len();
            },
            None => {},
        }
    }

    /// While migrating, the entries are those of the two arrays, counted
    /// once each.
    proof fn lemma_len(&self)
        requires
            self.inv(),
            self.successor is Some,
        ensures
            self@.dom().finite(),
            self@.dom().len() == self.root@.dom().len() + self.successor->0@.dom().len(),
    {
        let s = self.successor->0;
        self.root.lemma_size();
        s.lemma_size();
        let a = self.root@.dom();
        let b = s@.dom();
        assert(self@.dom() =~= a.union(b));
        assert(a.disjoint(b)) by {
            assert forall|p: (u64, K)| !(a.contains(p) && b.contains(p)) by {
                assert(!(self.root@.contains_key(p) && s@.contains_key(p)));
            }
        }
        vstd::set_lib::lemma_set_disjoint_lens(a, b);
    }

    /// The entries in the order a walk meets them: those still in the
    /// current array, then those in its successor, each in slot order.
    pub closed spec fn listing(&self) -> Seq<((u64, K), V)> {
        match self.successor {
            Some(s) => listed(self.root.cells(), 0) + listed(s.cells(), 0),
            None => listed(self.root.cells(), 0),
        }
    }

    /// The listing holds every entry of the table once.
    pub proof fn lemma_listing(&self)
        requires
            self.inv(),
        ensures
            lists(self.listing(), self@),
            self.listing().len() == self@.dom().len(),
    {
        self.root.lemma_listing();
        match self.successor {
            Some(s) => {
                s.lemma_listing();
                lemma_lists_concat(
                    listed(self.root.cells(), 0),
                    self.root@,
                    listed(s.cells(), 0),
                    s@,
                );
            },
            None => {},
        }
        lemma_lists_len(self.listing(), self@);
    }

    /// A walk over the entries of the table.
    pub fn iter(&self) -> (it: Iter<'_, K, V>)
        ensures
            it.wf(),
            it.remaining() == self.listing(),
    {
        let first = Walk::new(&self.root);
        match &self.successor {
            Some(s) => Iter::new(first, Walk::new(s)),
            None => {
                let second = Walk::finished(&self.root);
                proof {
                    assert(first.remaining() + second.remaining() =~= first.remaining());
                }
                Iter::new(first, second)
            },
        }
    }

    /// An empty table that holds `capacity` entries before it grows.
    pub fn new(capacity: usize, mode: ResizeMode) -> (r: Self)
        requires
            capacity <= max_len(),
        ensures
            r.wf(),
            r@ == Map::<(u64, K), V>::empty(),
            !r.migrating(),
            r.spec_mode() == mode,
            r.shape() == Shape::settled(r.spec_capacity()),
            is_capacity_for(r.spec_capacity(), capacity as int),
            capacity == 0 <==> r.spec_capacity() == 0,
    {
        let cap = capacity_for(capacity);
        let root = BucketArray::new(cap);
        proof {
            assert(root.pristine());
        }
        Table { root, successor: None, cursor: 0, mode }
    }

    /// The number of entries.
    pub fn len(&self) -> (n: usize)
        requires
            self.inv(),
        ensures
            n == self@.dom().len(),
    {
        match &self.successor {
            Some(s) => {
                proof {
                    self.lemma_len();
                    s.lemma_size();
                }
                self.root.len() + s.len()
            },
            None => self.root.len(),
        }
    }

    /// The number of slots of the current array.
    pub fn capacity(&self) -> (c: usize)
        ensures
            c == self.spec_capacity(),
    {
        self.root.capacity()
    }

    /// The number of slots once the migration under way, if any, is done.
    pub fn target(&self) -> (c: usize)
        ensures
            c == self.target_capacity(),
    {
        match &self.successor {
            Some(s) => s.capacity(),
            None => self.root.capacity(),
        }
    }

    /// Whether entries are moving to a successor array.
    pub fn is_migrating(&self) -> (b: bool)
        ensures
            b == self.migrating(),
    {
        self.successor.is_some()
    }

    /// The number of slots of the current array that have been moved.
    pub fn moved(&self) -> (n: usize)
        ensures
            n == self.progress(),
    {
        self.cursor
    }

    /// The resize mode the table was made with.
    pub fn mode(&self) -> (m: ResizeMode)
        ensures
            m == self.spec_mode(),
    {
        self.mode
    }

    /// An array whose slots hold no entry has an empty view.
    proof fn lemma_drained(a: &BucketArray<K, V>)
        requires
            a.wf(),
            forall|j: int| 0 <= j < a.cap() ==> !(#[trigger] a.cells()[j] is Occupied),
        ensures
            a@ =~= Map::<(u64, K), V>::empty(),
    {
        assert forall|p: (u64, K)| !a@.contains_key(p) by {
            if a@.contains_key(p) {
                let j = a.lemma_view_in_cell(p);
                assert(a.cells()[j] is Occupied);
            }
        }
    }
}

/// A product grows with its first factor.
proof fn lemma_mul_monotone(a: int, b: int, n: int)
    requires
        a <= b,
        n >= 0,
    ensures
        a * n <= b * n,
{
    assert(a * n <= b * n) by (nonlinear_arith)
        requires
            a <= b,
            n >= 0,
    ;
}

/// One factor less is the other factor less in the product.
proof fn lemma_mul_one_less(a: int, n: int)
    ensures
        (a - 1) * n == a * n - n,
{
    assert((a - 1) * n == a * n - n) by (nonlinear_arith);
}

/// A positive product of a positive factor has a positive other factor.
proof fn lemma_mul_positive(a: int, n: int)
    requires
        a * n >= 1,
        n >= 1,
    ensures
        a >= 1,
{
    assert(a >= 1) by (nonlinear_arith)
        requires
            a * n >= 1,
            n >= 1,
    ;
}

impl<K: Eq, V> Table<K, V> {
    /// Moves the slot at the cursor to the successor, and makes the
    /// successor the current array when that was the last slot. Without a
    /// migration under way there is nothing to move.
    fn migrate_one(&mut self)
        requires
            old(self).inv(),
            obeys_eq::<K>(),
        ensures
            final(self).inv(),
            final(self)@ == old(self)@,
            final(self).spec_mode() == old(self).spec_mode(),
            final(self).target_capacity() == old(self).target_capacity(),
            if !old(self).migrating() {
                *final(self) == *old(self)
            } else if old(self).progress() + 1 < old(self).spec_capacity() {
                &&& final(self).migrating()
                &&& final(self).progress() == old(self).progress() + 1
                &&& final(self).spec_capacity() == old(self).spec_capacity()
            } else {
                !final(self).migrating()
            },
    {
        let ghost before = *self;
        let j = self.cursor;
        let mut next: Option<BucketArray<K, V>> = None;
        std::mem::swap(&mut self.successor, &mut next);
        match next {
            Some(mut succ) => {
                let ghost succ0 = succ;
                proof {
                    self.root.lemma_size();
                    succ.lemma_size();
                }
                match self.root.vacate(j, true) {
                    Some(e) => {
                        proof {
                            before.root.lemma_cell_in_view(j as int);
                            assert(before.root@.contains_key((e.hash, e.key)));
                            assert(!succ@.contains_key((e.hash, e.key)));
                        }
                        succ.insert_new(e.hash, e.key, e.value);
                        proof {
                            assert(self.root@.union_prefer_right(succ@) =~= before@);
                        }
                    },
                    None => {},
                }
                proof {
                    assert(self.root@.dom().len() + succ@.dom().len() == before.root@.dom().len()
                        + succ0@.dom().len());
                }
                if j + 1 == self.root.capacity() {
                    proof {
                        Self::lemma_drained(&self.root);
                        assert(self.root@.union_prefer_right(succ@) =~= succ@);
                    }
                    self.root = succ;
                    self.cursor = 0;
                } else {
                    self.successor = Some(succ);
                    self.cursor = j + 1;
                    proof {
                        if self.mode.slice() is Some {
                            let n = self.mode.slice()->0;
                            let room = threshold(succ.cap()) - self.root@.dom().len()
                                - succ@.dom().len();
                            assert(before.paced(0));
                            assert(room * n >= before.root.cap() - before.cursor);
                        }
                    }
                }
            },
            None => {},
        }
    }

    /// Moves every remaining slot and makes the successor the current
    /// array.
    fn finish_migration(&mut self)
        requires
            old(self).inv(),
            obeys_eq::<K>(),
        ensures
            final(self).inv(),
            !final(self).migrating(),
            final(self)@ == old(self)@,
            final(self).spec_mode() == old(self).spec_mode(),
            final(self).shape() == old(self).shape().finished(),
    {
        while self.successor.is_some()
            invariant
                self.inv(),
                obeys_eq::<K>(),
                self@ == old(self)@,
                self.spec_mode() == old(self).spec_mode(),
                self.target_capacity() == old(self).target_capacity(),
            decreases
                    if self.migrating() {
                        self.spec_capacity() - self.progress()
                    } else {
                        0
                    },
        {
            self.migrate_one();
        }
    }

    /// Takes one operation's share of the migration: a slice of the current
    /// array in incremental mode, all of it in blocking mode. Afterwards the
    /// migration keeps pace even with one more entry in the table.
    fn assist(&mut self)
        requires
            old(self).inv(),
            obeys_eq::<K>(),
        ensures
            final(self).wf(),
            final(self).paced(1),
            final(self)@ == old(self)@,
            final(self).spec_mode() == old(self).spec_mode(),
            final(self).shape() == old(self).shape().helped(old(self).spec_mode()),
    {
        proof {
            self.lemma_size();
        }
        match self.mode {
            ResizeMode::Blocking => {
                self.finish_migration();
            },
            ResizeMode::Incremental(n) => {
                let slice: usize = if n < 2 {
                    2
                } else {
                    n
                };
                let mut k: usize = 0;
                while k < slice && self.successor.is_some()
                    invariant
                        self.inv(),
                        obeys_eq::<K>(),
                        k <= slice,
                        slice == self.mode.slice()->0,
                        self.mode.slice() is Some,
                        self@ == old(self)@,
                        self.spec_mode() == old(self).spec_mode(),
                        self.target_capacity() == old(self).target_capacity(),
                        !old(self).migrating() ==> *self == *old(self),
                        old(self).migrating() ==> if old(self).progress() + k < old(
                            self,
                        ).spec_capacity() {
                            &&& self.migrating()
                            &&& self.progress() == old(self).progress() + k
                            &&& self.spec_capacity() == old(self).spec_capacity()
                        } else {
                            !self.migrating()
                        },
                    decreases slice - k,
                {
                    self.migrate_one();
                    k += 1;
                }
                proof {
                    self.lemma_size();
                    if self.successor is Some {
                        old(self).lemma_len();
                        self.lemma_len();
                        let room = threshold(self.target_capacity()) - self@.dom().len();
                        assert(old(self).paced(0));
                        assert(room * slice >= old(self).root.cap() - old(self).cursor);
                        lemma_mul_one_less(room, slice as int);
                    }
                }
            },
        }
    }

    /// The share of a migration that one operation takes on: a slice of the
    /// current array in incremental mode, all of it in blocking mode.
    pub fn help(&mut self)
        requires
            old(self).inv(),
            obeys_eq::<K>(),
        ensures
            final(self).wf(),
            final(self)@ == old(self)@,
            final(self).spec_mode() == old(self).spec_mode(),
            final(self).shape() == old(self).shape().helped(old(self).spec_mode()),
    {
        self.assist();
    }

    /// Starts a migration to a new array of `new_cap` slots and takes the
    /// first share of it. A table without slots has nothing to move and
    /// takes the new array at once.
    fn grow_to(&mut self, new_cap: usize)
        requires
            old(self).inv(),
            !old(self).migrating(),
            obeys_eq::<K>(),
            valid_capacity(new_cap as int),
            old(self).spec_capacity() < new_cap,
            old(self)@.dom().len() < threshold(new_cap as int),
            2 * (threshold(new_cap as int) - old(self)@.dom().len()) >= old(self).spec_capacity(),
        ensures
            final(self).wf(),
            final(self).paced(1),
            final(self)@ == old(self)@,
            final(self).spec_mode() == old(self).spec_mode(),
            final(self).shape() == old(self).shape().grown_to(
                new_cap as int,
                old(self).spec_mode(),
            ),
    {
        let next = BucketArray::new(new_cap);
        proof {
            assert(next.pristine());
            self.root.lemma_size();
            next.lemma_size();
            self.lemma_size();
        }
        if self.root.capacity() == 0 {
            proof {
                assert(self.root@ =~= next@);
            }
            self.root = next;
        } else {
            proof {
                assert(self.root@.union_prefer_right(next@) =~= self.root@);
                assert(next@.dom().len() == 0);
                if self.mode.slice() is Some {
                    let n = self.mode.slice()->0;
                    let room = threshold(new_cap as int) - self.root@.dom().len();
                    lemma_mul_monotone(2, n, room);
                    assert(room * n == n * room) by (nonlinear_arith);
                    assert(room * 2 == 2 * room) by (nonlinear_arith);
                }
            }
            self.successor = Some(next);
            self.cursor = 0;
            self.assist();
        }
    }

    /// The key and value stored under `hash` and `key`. They are found in
    /// every state of a migration.
    pub fn get(&self, hash: u64, key: &K) -> (r: Option<(&K, &V)>)
        requires
            self.inv(),
            obeys_eq::<K>(),
        ensures
            found(self@, hash, *key, r),
    {
        match self.root.find(hash, key) {
            Some(j) => {
                return self.root.entry_at(j);
            },
            None => {},
        }
        match &self.successor {
            Some(s) => match s.find(hash, key) {
                Some(j) => s.entry_at(j),
                None => None,
            },
            None => None,
        }
    }

    /// The key and value stored under `hash` that `probe` stands for. They
    /// are found in every state of a migration.
    pub fn get_by<Q: Equivalent<K>>(&self, hash: u64, probe: &Q) -> (r: Option<(&K, &V)>)
        requires
            self.inv(),
        ensures
            found_by(self@, hash, probe, r),
    {
        match self.root.find_by(hash, probe) {
            Some(j) => {
                proof {
                    self.root.lemma_cell_in_view(j as int);
                    if self.successor is Some {
                        let e = self.root.cells()[j as int]->Occupied_0;
                        assert(!(self.root@.contains_key((e.hash, e.key))
                            && self.successor->0@.contains_key((e.hash, e.key))));
                    }
                }
                return self.root.entry_at(j);
            },
            None => {},
        }
        match &self.successor {
            Some(s) => match s.find_by(hash, probe) {
                Some(j) => {
                    proof {
                        s.lemma_cell_in_view(j as int);
                    }
                    s.entry_at(j)
                },
                None => None,
            },
            None => None,
        }
    }

    /// Whether an entry is stored under `hash` and `key`.
    pub fn contains(&self, hash: u64, key: &K) -> (b: bool)
        requires
            self.inv(),
            obeys_eq::<K>(),
        ensures
            b == self@.contains_key((hash, *key)),
    {
        self.get(hash, key).is_some()
    }

    /// Stores `value` under `hash` and `key`. Where an entry is already
    /// there, it is replaced if `replace` is set and left alone otherwise.
    ///
    /// The insert first takes its share of a migration under way. The table
    /// starts to grow exactly when a new entry meets a table at its
    /// threshold, and then to twice its capacity.
    pub fn insert(&mut self, hash: u64, key: K, value: V, replace: bool) -> (r: InsertResult<V>)
        requires
            old(self).wf(),
            obeys_eq::<K>(),
            old(self)@.contains_key((hash, key)) || old(self)@.dom().len() < max_len(),
        ensures
            final(self).wf(),
            final(self).spec_mode() == old(self).spec_mode(),
            inserted(old(self)@, final(self)@, hash, key, value, replace, r),
            final(self).shape() == old(self).shape().after_insert(
                old(self).spec_mode(),
                old(self)@.dom().len() as int,
                !old(self)@.contains_key((hash, key)),
            ),
    {
        self.assist();
        let ghost mid = *self;
        let ghost p = (hash, key);
        proof {
            mid.lemma_size();
            mid.lemma_keeps_room();
        }
        let mut value = value;
        match self.root.update(hash, &key, value, replace) {
            Ok(r) => {
                proof {
                    mid.root.lemma_size();
                    assert(mid.root@.contains_key(p));
                    assert(self.root@.dom() =~= mid.root@.dom());
                    if self.successor is Some {
                        let s = self.successor->0;
                        assert(!(mid.root@.contains_key(p) && s@.contains_key(p)));
                        assert forall|o: (u64, K)|
                            !(#[trigger] self.root@.contains_key(o) && s@.contains_key(o)) by {
                            assert(!(mid.root@.contains_key(o) && s@.contains_key(o)));
                        }
                        match r {
                            InsertResult::Error { .. } => {},
                            _ => {
                                assert(self@ =~= old(self)@.insert(p, value));
                            },
                        }
                    }
                    assert(self.paced(0));
                }
                return r;
            },
            Err(back) => {
                value = back;
            },
        }
        let mut next: Option<BucketArray<K, V>> = None;
        std::mem::swap(&mut self.successor, &mut next);
        match next {
            Some(mut s) => {
                let ghost s0 = s;
                let res = s.update(hash, &key, value, replace);
                self.successor = Some(s);
                match res {
                    Ok(r) => {
                        proof {
                            s0.lemma_size();
                            assert(s0@.contains_key(p));
                            assert(s@.dom() =~= s0@.dom());
                            assert(!(mid.root@.contains_key(p) && s0@.contains_key(p)));
                            assert forall|o: (u64, K)|
                                !(#[trigger] self.root@.contains_key(o) && s@.contains_key(o)) by {
                                assert(!(mid.root@.contains_key(o) && s0@.contains_key(o)));
                            }
                            match r {
                                InsertResult::Error { .. } => {},
                                _ => {
                                    assert(self@ =~= old(self)@.insert((hash, key), value));
                                },
                            }
                            assert(self.paced(0));
                        }
                        return r;
                    },
                    Err(back) => {
                        value = back;
                    },
                }
            },
            None => {},
        }
        proof {
            assert(*self == mid);
            assert(!self@.contains_key(p));
        }
        if self.successor.is_none() && self.root.len() == threshold_of(self.root.capacity()) {
            proof {
                self.root.lemma_size();
                lemma_grown_valid(self.root.cap());
                if self.root.cap() >= 1 {
                    lemma_growth_margin(self.root.cap(), grown(self.root.cap()));
                }
            }
            let next_cap = grow(self.root.capacity());
            self.grow_to(next_cap);
        }
        let ghost ready = *self;
        proof {
            ready.lemma_size();
            ready.lemma_keeps_room();
            if ready.successor is Some {
                ready.lemma_len();
            }
        }
        let mut next: Option<BucketArray<K, V>> = None;
        std::mem::swap(&mut self.successor, &mut next);
        match next {
            Some(mut s) => {
                let ghost s0 = s;
                proof {
                    s.lemma_size();
                    self.root.lemma_size();
                    assert(!s0@.contains_key(p));
                    assert(!ready.root@.contains_key(p));
                }
                s.insert_new(hash, key, value);
                self.successor = Some(s);
                proof {
                    assert(self@ =~= old(self)@.insert(p, value));
                    assert forall|o: (u64, K)|
                        !(#[trigger] self.root@.contains_key(o) && s@.contains_key(o)) by {
                        assert(!(ready.root@.contains_key(o) && s0@.contains_key(o)));
                    }
                    assert(s@.dom().len() == s0@.dom().len() + 1);
                    assert(ready.paced(1));
                    assert(self.paced(0));
                }
            },
            None => {
                proof {
                    self.root.lemma_size();
                }
                self.root.insert_new(hash, key, value);
            },
        }
        InsertResult::Inserted
    }

    /// A table that keeps pace with one more entry has room for it.
    proof fn lemma_keeps_room(&self)
        requires
            self.inv(),
            self.paced(1),
        ensures
            self.migrating() && self.spec_mode().slice() is Some ==> self@.dom().len() + 1
                < threshold(self.target_capacity()),
    {
        if self.successor is Some && self.mode.slice() is Some {
            self.lemma_len();
            let n = self.mode.slice()->0;
            let room = threshold(self.target_capacity()) - self@.dom().len() - 1;
            assert(room * n >= 1);
            lemma_mul_positive(room, n);
        }
    }

    /// Takes out the entry stored under `hash` and `key`, leaving a
    /// tombstone. The removal first takes its share of a migration under
    /// way; it never starts one, and the table does not shrink or tidy
    /// itself.
    pub fn remove(&mut self, hash: u64, key: &K) -> (r: Option<(K, V)>)
        requires
            old(self).wf(),
            obeys_eq::<K>(),
        ensures
            final(self).wf(),
            final(self).spec_mode() == old(self).spec_mode(),
            removed(old(self)@, final(self)@, hash, *key, r),
            final(self).shape() == old(self).shape().helped(old(self).spec_mode()),
    {
        self.assist();
        let ghost mid = *self;
        let ghost p = (hash, *key);
        proof {
            mid.lemma_size();
            mid.root.lemma_size();
            if mid.successor is Some && mid.mode.slice() is Some {
                mid.lemma_len();
                let n = mid.mode.slice()->0;
                let room = threshold(mid.target_capacity()) - mid@.dom().len();
                lemma_mul_monotone(room - 1, room, n);
                lemma_mul_monotone(room - 1, room + 1, n);
            }
        }
        match self.root.find(hash, key) {
            Some(j) => match self.root.vacate(j, false) {
                Some(e) => {
                    proof {
                        if self.successor is Some {
                            let s = self.successor->0;
                            assert(!(mid.root@.contains_key(p) && s@.contains_key(p)));
                            assert forall|o: (u64, K)|
                                !(#[trigger] self.root@.contains_key(o) && s@.contains_key(o)) by {
                                assert(!(mid.root@.contains_key(o) && s@.contains_key(o)));
                            }
                            assert(self@ =~= old(self)@.remove(p));
                            assert(self.root@.dom().len() == mid.root@.dom().len() - 1);
                        }
                    }
                    return Some((e.key, e.value));
                },
                None => {},
            },
            None => {},
        }
        let mut next: Option<BucketArray<K, V>> = None;
        std::mem::swap(&mut self.successor, &mut next);
        match next {
            Some(mut s) => {
                let ghost s0 = s;
                proof {
                    s0.lemma_size();
                }
                let found = s.find(hash, key);
                let out = match found {
                    Some(j) => s.vacate(j, false),
                    None => None,
                };
                self.successor = Some(s);
                proof {
                    assert forall|o: (u64, K)|
                        !(#[trigger] self.root@.contains_key(o) && s@.contains_key(o)) by {
                        assert(!(mid.root@.contains_key(o) && s0@.contains_key(o)));
                    }
                    if out is Some {
                        assert(self@ =~= old(self)@.remove(p));
                        assert(s@.dom().len() == s0@.dom().len() - 1);
                    }
                }
                match out {
                    Some(e) => Some((e.key, e.value)),
                    None => None,
                }
            },
            None => None,
        }
    }

    /// Takes out the entry stored under `hash` that `probe` stands for,
    /// leaving a tombstone; otherwise as [`Table::remove`].
    pub fn remove_by<Q: Equivalent<K>>(&mut self, hash: u64, probe: &Q) -> (r: Option<(K, V)>)
        requires
            old(self).wf(),
            obeys_eq::<K>(),
        ensures
            final(self).wf(),
            final(self).spec_mode() == old(self).spec_mode(),
            removed_by(old(self)@, final(self)@, hash, probe, r),
            final(self).shape() == old(self).shape().helped(old(self).spec_mode()),
    {
        self.assist();
        let ghost mid = *self;
        proof {
            mid.lemma_size();
            mid.root.lemma_size();
            if mid.successor is Some && mid.mode.slice() is Some {
                mid.lemma_len();
                let n = mid.mode.slice()->0;
                let room = threshold(mid.target_capacity()) - mid@.dom().len();
                lemma_mul_monotone(room - 1, room, n);
                lemma_mul_monotone(room - 1, room + 1, n);
            }
        }
        match self.root.find_by(hash, probe) {
            Some(j) => {
                proof {
                    mid.root.lemma_cell_in_view(j as int);
                }
                match self.root.vacate(j, false) {
                    Some(e) => {
                        proof {
                            let p = (e.hash, e.key);
                            if self.successor is Some {
                                let s = self.successor->0;
                                assert(!(mid.root@.contains_key(p) && s@.contains_key(p)));
                                assert forall|o: (u64, K)|
                                    !(#[trigger] self.root@.contains_key(o) && s@.contains_key(
                                        o,
                                    )) by {
                                    assert(!(mid.root@.contains_key(o) && s@.contains_key(o)));
                                }
                                assert(self@ =~= old(self)@.remove(p));
                                assert(self.root@.dom().len() == mid.root@.dom().len() - 1);
                            }
                        }
                        return Some((e.key, e.value));
                    },
                    None => {},
                }
            },
            None => {},
        }
        let mut next: Option<BucketArray<K, V>> = None;
        std::mem::swap(&mut self.successor, &mut next);
        match next {
            Some(mut s) => {
                let ghost s0 = s;
                proof {
                    s0.lemma_size();
                }
                let found = s.find_by(hash, probe);
                let out = match found {
                    Some(j) => {
                        proof {
                            s0.lemma_cell_in_view(j as int);
                        }
                        s.vacate(j, false)
                    },
                    None => None,
                };
                self.successor = Some(s);
                proof {
                    assert forall|o: (u64, K)|
                        !(#[trigger] self.root@.contains_key(o) && s@.contains_key(o)) by {
                        assert(!(mid.root@.contains_key(o) && s0@.contains_key(o)));
                    }
                    if out is Some {
                        let p = (out->0.hash, out->0.key);
                        assert(s0@.contains_key(p));
                        assert(!(mid.root@.contains_key(p) && s0@.contains_key(p)));
                        assert(self@ =~= old(self)@.remove(p));
                        assert(s@.dom().len() == s0@.dom().len() - 1);
                    }
                }
                match out {
                    Some(e) => Some((e.key, e.value)),
                    None => None,
                }
            },
            None => None,
        }
    }

    /// Makes room for `additional` more entries: where the table would have
    /// to grow before it holds them, it finishes a migration under way and
    /// starts to grow now, once, to the capacity that fits them.
    pub fn reserve(&mut self, additional: usize)
        requires
            old(self).wf(),
            obeys_eq::<K>(),
            old(self)@.dom().len() + additional <= max_len(),
        ensures
            final(self).wf(),
            final(self)@ == old(self)@,
            final(self).spec_mode() == old(self).spec_mode(),
            fits(final(self).target_capacity(), old(self)@.dom().len() + additional),
            !fits(old(self).target_capacity(), old(self)@.dom().len() + additional)
                ==> is_capacity_for(
                final(self).target_capacity(),
                old(self)@.dom().len() + additional,
            ),
            final(self).shape() == old(self).shape().after_reserve(
                old(self).spec_mode(),
                old(self)@.dom().len() + additional,
                final(self).target_capacity(),
            ),
    {
        proof {
            self.lemma_size();
        }
        let wanted = self.len() + additional;
        if threshold_of(self.target()) < wanted {
            let need = capacity_for(wanted);
            self.finish_migration();
            proof {
                self.lemma_size();
                self.root.lemma_size();
                if self.root.cap() >= 1 {
                    lemma_growth_margin(self.root.cap(), need as int);
                }
            }
            self.grow_to(need);
        }
    }

    /// Removes every entry. A migration under way is finished first; the
    /// table keeps the capacity it was growing to.
    pub fn clear(&mut self)
        requires
            old(self).wf(),
            obeys_eq::<K>(),
        ensures
            final(self).wf(),
            final(self)@ == Map::<(u64, K), V>::empty(),
            final(self).spec_mode() == old(self).spec_mode(),
            final(self).shape() == old(self).shape().finished(),
    {
        self.finish_migration();
        proof {
            self.root.lemma_size();
        }
        let fresh = BucketArray::new(self.root.capacity());
        proof {
            fresh.lemma_size();
            assert(fresh.pristine());
        }
        self.root = fresh;
    }

    /// Keeps the entries for which `keep` returns `true` and removes the
    /// others. A migration under way is finished first.
    pub fn retain<F: FnMut(&K, &V) -> bool>(&mut self, keep: F)
        requires
            old(self).wf(),
            obeys_eq::<K>(),
            forall|k: &K, v: &V| call_requires(keep, (k, v)),
        ensures
            final(self).wf(),
            final(self).spec_mode() == old(self).spec_mode(),
            final(self).shape() == old(self).shape().finished(),
            final(self)@.submap_of(old(self)@),
            forall|p: (u64, K)| #[trigger]
                old(self)@.contains_key(p) ==> call_ensures(
                    keep,
                    (&p.1, &old(self)@[p]),
                    final(self)@.contains_key(p),
                ),
    {
        self.finish_migration();
        let ghost mid = *self;
        proof {
            mid.root.lemma_size();
        }
        self.root.retain(keep);
        proof {
            self.root.lemma_size();
            assert(self.root@.dom().subset_of(mid.root@.dom()));
            vstd::set_lib::lemma_len_subset(self.root@.dom(), mid.root@.dom());
        }
    }

    /// Keeps the entries for whose key `keep` returns `true` and removes
    /// the others. A migration under way is finished first.
    pub fn retain_keys<F: FnMut(&K) -> bool>(&mut self, keep: F)
        requires
            old(self).wf(),
            obeys_eq::<K>(),
            forall|k: &K| call_requires(keep, (k,)),
        ensures
            final(self).wf(),
            final(self).spec_mode() == old(self).spec_mode(),
            final(self).shape() == old(self).shape().finished(),
            final(self)@.submap_of(old(self)@),
            forall|p: (u64, K)| #[trigger]
                old(self)@.contains_key(p) ==> call_ensures(
                    keep,
                    (&p.1,),
                    final(self)@.contains_key(p),
                ),
    {
        self.finish_migration();
        let ghost mid = *self;
        proof {
            mid.root.lemma_size();
        }
        self.root.retain_keys(keep);
        proof {
            self.root.lemma_size();
            assert(self.root@.dom().subset_of(mid.root@.dom()));
            vstd::set_lib::lemma_len_subset(self.root@.dom(), mid.root@.dom());
        }
    }
}

} // verus!
