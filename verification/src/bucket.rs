//! One generation of the table: a fixed array of slots probed linearly.

use crate::capacity::{home, home_of, next_pos, probe_dist, probe_pos, valid_capacity};
use crate::equality::{compares, lemma_key_compares, obeys_eq, Equivalent};
use crate::listing::{listed, lists};
use crate::slot::{Entry, Slot};
use crate::table::InsertResult;
use vstd::prelude::*;
use vstd::set_lib::{lemma_int_range, lemma_len_subset, set_int_range};

verus! {

/// No slot before `j` on the probe path of `hash` is empty, so a probe for
/// `hash` reaches `j`.
pub open spec fn reachable<K, V>(cells: Seq<Slot<K, V>>, hash: u64, j: int) -> bool {
    let cap = cells.len() as int;
    let start = home(hash, cap);
    forall|t: int|
        0 <= t < probe_dist(start, j, cap) ==> !(cells[#[trigger] probe_pos(start, t, cap)] is Empty)
}

/// The entry in slot `j`, if there is one, can be reached by a probe for its
/// hash.
pub open spec fn chained<K, V>(cells: Seq<Slot<K, V>>, j: int) -> bool {
    cells[j] matches Slot::Occupied(e) ==> reachable(cells, e.hash, j)
}

/// Slot `q` is where a new entry with `hash` lands: the first free slot on
/// its probe path, which is the first tombstone where one comes before the
/// first empty slot.
pub open spec fn lands_at<K, V>(cells: Seq<Slot<K, V>>, hash: u64, q: int) -> bool {
    let cap = cells.len() as int;
    let start = home(hash, cap);
    &&& 0 <= q < cap
    &&& cells[q].is_free()
    &&& forall|t: int|
        0 <= t < probe_dist(start, q, cap) ==> !cells[#[trigger] probe_pos(start, t, cap)].is_free()
}

/// A probe for `hash` that went by slot `j` has compared `probe` with the key
/// there, if one is stored there under `hash`, and `probe` does not stand for
/// it.
pub open spec fn passed<K, V, Q: Equivalent<K>>(
    cells: Seq<Slot<K, V>>,
    j: int,
    hash: u64,
    probe: &Q,
) -> bool {
    cells[j] matches Slot::Occupied(e) ==> e.hash == hash ==> compares(probe, e.key, false)
}

/// Slot `j` holds the entry of `p` with value `v`.
pub open spec fn holds<K, V>(cells: Seq<Slot<K, V>>, j: int, p: (u64, K), v: V) -> bool {
    0 <= j < cells.len() && cells[j] == Slot::Occupied(Entry { hash: p.0, key: p.1, value: v })
}

/// What a probe found.
enum Probe {
    /// The slot that holds the entry.
    Found(usize),
    /// No entry; the slot an insert should take, if the array has one.
    Vacant(Option<usize>),
}

/// A fixed array of slots with the entries it holds.
#[verifier::reject_recursive_types(K)]
pub struct BucketArray<K, V> {
    slots: Vec<Slot<K, V>>,
    live: usize,
    entries: Ghost<Map<(u64, K), V>>,
    index: Ghost<Map<(u64, K), int>>,
    taken: Ghost<Set<int>>,
}

impl<K, V> BucketArray<K, V> {
    /// The entries of the array: each hash and key with its value.
    pub closed spec fn view(&self) -> Map<(u64, K), V> {
        self.entries@
    }

    /// The slots of the array.
    pub closed spec fn cells(&self) -> Seq<Slot<K, V>> {
        self.slots@
    }

    /// The number of slots.
    pub open spec fn cap(&self) -> int {
        self.cells().len() as int
    }

    /// No slot has been forwarded: the array is not being migrated out.
    pub open spec fn pristine(&self) -> bool {
        forall|j: int| 0 <= j < self.cells().len() ==> !(#[trigger] self.cells()[j] is Forwarded)
    }

    /// The invariant of a bucket array: its size is valid, every entry sits
    /// in exactly one slot that a probe for it reaches, and the count of
    /// entries is kept.
    pub closed spec fn wf(&self) -> bool {
        let cells = self.slots@;
        &&& valid_capacity(cells.len() as int)
        &&& self.entries@.dom().finite()
        &&& self.entries@.dom().len() == self.live
        &&& self.taken@.finite()
        &&& self.taken@.len() == self.live
        &&& forall|j: int|
            #![trigger self.taken@.contains(j)]
            #![trigger cells[j]]
            self.taken@.contains(j) <==> (0 <= j < cells.len() && cells[j] is Occupied)
        &&& self.index@.dom() == self.entries@.dom()
        &&& forall|p: (u64, K)| #[trigger]
            self.entries@.dom().contains(p) ==> holds(cells, self.index@[p], p, self.entries@[p])
        &&& forall|j: int|
            0 <= j < cells.len() ==> (#[trigger] cells[j] matches Slot::Occupied(e)
                ==> self.entries@.dom().contains((e.hash, e.key)) && self.index@[(e.hash, e.key)]
                == j)
        &&& forall|j: int| 0 <= j < cells.len() ==> #[trigger] chained(cells, j)
    }

    /// An entry in a slot is an entry of the view.
    pub proof fn lemma_cell_in_view(&self, j: int)
        requires
            self.wf(),
            0 <= j < self.cap(),
            self.cells()[j] is Occupied,
        ensures
            ({
                let e = self.cells()[j]->Occupied_0;
                self@.contains_key((e.hash, e.key)) && self@[(e.hash, e.key)] == e.value
            }),
    {
        let e = self.cells()[j]->Occupied_0;
        assert(self.entries@.dom().contains((e.hash, e.key)));
    }

    /// An entry of the view sits in a slot.
    pub proof fn lemma_view_in_cell(&self, p: (u64, K)) -> (j: int)
        requires
            self.wf(),
            self@.contains_key(p),
        ensures
            holds(self.cells(), j, p, self@[p]),
    {
        assert(self.entries@.dom().contains(p));
        self.index@[p]
    }

    /// The view is finite, and no larger than the array.
    pub proof fn lemma_size(&self)
        requires
            self.wf(),
        ensures
            valid_capacity(self.cap()),
            self@.dom().finite(),
            self@.dom().len() <= self.cap(),
    {
        lemma_int_range(0, self.cap());
        assert(self.taken@.subset_of(set_int_range(0, self.cap())));
        lemma_len_subset(self.taken@, set_int_range(0, self.cap()));
    }

    /// The slots from `from` on list the entries that sit there.
    proof fn lemma_listed_from(&self, from: int)
        requires
            self.wf(),
            0 <= from <= self.slots@.len(),
        ensures
            ({
                let l = listed(self.slots@, from);
                &&& forall|i: int|
                    0 <= i < l.len() ==> self.entries@.contains_pair((#[trigger] l[i]).0, l[i].1)
                        && self.index@[l[i].0] >= from
                &&& forall|p: (u64, K)| #[trigger]
                    self.entries@.dom().contains(p) && self.index@[p] >= from ==> l.contains(
                        (p, self.entries@[p]),
                    )
                &&& forall|i: int, j: int|
                    0 <= i < j < l.len() ==> (#[trigger] l[i]).0 != (#[trigger] l[j]).0
            }),
        decreases self.slots@.len() - from,
    {
        let cells = self.slots@;
        let l = listed(cells, from);
        if from < cells.len() {
            self.lemma_listed_from(from + 1);
            let rest = listed(cells, from + 1);
            match cells[from] {
                Slot::Occupied(e) => {
                    let head = ((e.hash, e.key), e.value);
                    assert(self.entries@.dom().contains(head.0));
                    assert(l =~= seq![head] + rest);
                    assert(l[0] == head);
                    assert forall|i: int| 0 < i < l.len() implies #[trigger] l[i] == rest[i - 1] by {}
                    assert forall|i: int| 0 <= i < l.len() implies self.entries@.contains_pair(
                        (#[trigger] l[i]).0,
                        l[i].1,
                    ) && self.index@[l[i].0] >= from by {
                        if i > 0 {
                            assert(l[i] == rest[i - 1]);
                        }
                    }
                    assert forall|p: (u64, K)| #[trigger]
                        self.entries@.dom().contains(p) && self.index@[p]
                        >= from implies l.contains((p, self.entries@[p])) by {
                        assert(holds(cells, self.index@[p], p, self.entries@[p]));
                        if self.index@[p] == from {
                            assert(l[0] == (p, self.entries@[p]));
                        } else {
                            assert(rest.contains((p, self.entries@[p])));
                            let i = choose|i: int|
                                0 <= i < rest.len() && rest[i] == (p, self.entries@[p]);
                            assert(l[i + 1] == rest[i]);
                        }
                    }
                    assert forall|i: int, j: int| 0 <= i < j < l.len() implies (#[trigger] l[i]).0
                        != (#[trigger] l[j]).0 by {
                        assert(l[j] == rest[j - 1]);
                        if i > 0 {
                            assert(l[i] == rest[i - 1]);
                        }
                    }
                },
                _ => {
                    assert(l =~= rest);
                    assert forall|p: (u64, K)| #[trigger]
                        self.entries@.dom().contains(p) && self.index@[p]
                        >= from implies l.contains((p, self.entries@[p])) by {
                        assert(holds(cells, self.index@[p], p, self.entries@[p]));
                    }
                },
            }
        }
    }

    /// The slots list the entries of the view, each of them once.
    pub proof fn lemma_listing(&self)
        requires
            self.wf(),
        ensures
            lists(listed(self.cells(), 0), self@),
    {
        self.lemma_listed_from(0);
        let l = listed(self.slots@, 0);
        assert forall|p: (u64, K)| #[trigger] self@.contains_key(p) implies l.contains(
            (p, self@[p]),
        ) by {
            assert(self.entries@.dom().contains(p));
            assert(holds(self.slots@, self.index@[p], p, self.entries@[p]));
        }
    }

    /// An array of `cap` empty slots.
    pub fn new(cap: usize) -> (r: Self)
        requires
            valid_capacity(cap as int),
        ensures
            r.wf(),
            r.cap() == cap,
            r@ == Map::<(u64, K), V>::empty(),
            forall|j: int| 0 <= j < cap ==> r.cells()[j] is Empty,
    {
        let mut slots: Vec<Slot<K, V>> = Vec::new();
        let mut i: usize = 0;
        while i < cap
            invariant
                i <= cap,
                slots@.len() == i,
                forall|j: int| 0 <= j < i ==> slots@[j] is Empty,
            decreases cap - i,
        {
            slots.push(Slot::Empty);
            i += 1;
        }
        BucketArray {
            slots,
            live: 0,
            entries: Ghost(Map::empty()),
            index: Ghost(Map::empty()),
            taken: Ghost(Set::empty()),
        }
    }

    /// The number of slots.
    pub fn capacity(&self) -> (c: usize)
        ensures
            c == self.cap(),
    {
        self.slots.len()
    }

    /// The number of entries.
    pub fn len(&self) -> (n: usize)
        requires
            self.wf(),
        ensures
            n == self@.dom().len(),
    {
        self.live
    }

    /// The slot at `j`.
    pub fn cell(&self, j: usize) -> (s: &Slot<K, V>)
        requires
            j < self.cap(),
        ensures
            *s == self.cells()[j as int],
    {
        &self.slots[j]
    }

    /// The key and value in slot `j`, if it holds an entry.
    pub fn entry_at(&self, j: usize) -> (r: Option<(&K, &V)>)
        requires
            j < self.cap(),
        ensures
            match r {
                Some((k, v)) => self.cells()[j as int] matches Slot::Occupied(e) && *k == e.key
                    && *v == e.value,
                None => !(self.cells()[j as int] is Occupied),
            },
    {
        match &self.slots[j] {
            Slot::Occupied(e) => Some((&e.key, &e.value)),
            _ => None,
        }
    }
}

impl<K, V> BucketArray<K, V> {
    /// Walks the probe path of `hash` until it meets an entry with that
    /// hash that `probe` stands for, an empty slot, or the end of the path,
    /// remembering the first tombstone.
    fn probe<Q: Equivalent<K>>(&self, hash: u64, probe: &Q) -> (r: Probe)
        requires
            self.wf(),
        ensures
            match r {
                Probe::Found(j) => j < self.cap() && (self.cells()[j as int] matches Slot::Occupied(
                    e,
                ) && e.hash == hash && compares(probe, e.key, true)),
                Probe::Vacant(c) => (forall|k: K| #[trigger]
                    self@.contains_key((hash, k)) ==> compares(probe, k, false)) && match c {
                    Some(q) => lands_at(self.cells(), hash, q as int),
                    None => forall|j: int|
                        0 <= j < self.cap() ==> !(#[trigger] self.cells()[j]).is_free(),
                },
            },
    {
        let cap = self.slots.len();
        if cap == 0 {
            proof {
                assert forall|k: K| #[trigger] self@.contains_key((hash, k)) implies compares(
                    probe,
                    k,
                    false,
                ) by {
                    assert(self.entries@.dom().contains((hash, k)));
                    assert(holds(
                        self.slots@,
                        self.index@[(hash, k)],
                        (hash, k),
                        self.entries@[(hash, k)],
                    ));
                }
            }
            return Probe::Vacant(None);
        }
        let start = home_of(hash, cap);
        let mut p = start;
        let mut i: usize = 0;
        let mut tomb: Option<usize> = None;
        while i < cap
            invariant
                self.wf(),
                cap == self.slots@.len(),
                cap >= 1,
                start == home(hash, cap as int),
                start < cap,
                i <= cap,
                p < cap,
                i < cap ==> p == probe_pos(start as int, i as int, cap as int),
                forall|t: int|
                    0 <= t < i ==> !(self.slots@[#[trigger] probe_pos(
                        start as int,
                        t,
                        cap as int,
                    )] is Empty),
                forall|t: int|
                    0 <= t < i ==> passed(
                        self.slots@,
                        #[trigger] probe_pos(start as int, t, cap as int),
                        hash,
                        probe,
                    ),
                match tomb {
                    Some(q) => q < cap && self.slots@[q as int] is Tombstone && probe_dist(
                        start as int,
                        q as int,
                        cap as int,
                    ) < i && forall|t: int|
                        0 <= t < probe_dist(start as int, q as int, cap as int) ==> !(
                        self.slots@[#[trigger] probe_pos(start as int, t, cap as int)] is Tombstone),
                    None => forall|t: int|
                        0 <= t < i ==> !(self.slots@[#[trigger] probe_pos(
                            start as int,
                            t,
                            cap as int,
                        )] is Tombstone),
                },
            decreases cap - i,
        {
            match &self.slots[p] {
                Slot::Empty => {
                    proof {
                        self.lemma_absent_when_blocked(hash, probe, i as int);
                    }
                    match tomb {
                        Some(q) => {
                            return Probe::Vacant(Some(q));
                        },
                        None => {
                            return Probe::Vacant(Some(p));
                        },
                    }
                },
                Slot::Occupied(e) => {
                    if e.hash == hash && probe.equivalent(&e.key) {
                        return Probe::Found(p);
                    }
                },
                Slot::Tombstone => {
                    if tomb.is_none() {
                        tomb = Some(p);
                    }
                },
                Slot::Forwarded => {},
            }
            i += 1;
            p = next_pos(p, cap);
        }
        proof {
            self.lemma_absent_when_blocked(hash, probe, cap as int);
            if tomb is None {
                assert forall|j: int| 0 <= j < cap implies !(#[trigger] self.slots@[j]).is_free() by {
                    let t = probe_dist(start as int, j, cap as int);
                    assert(probe_pos(start as int, t, cap as int) == j);
                }
            }
        }
        Probe::Vacant(tomb)
    }

    /// A probe that has passed `i` slots without a match, and now stands at
    /// an empty slot or has gone round the array, has compared `probe` with
    /// every key stored under `hash` and found none it stands for.
    proof fn lemma_absent_when_blocked<Q: Equivalent<K>>(&self, hash: u64, probe: &Q, i: int)
        requires
            self.wf(),
            self.slots@.len() >= 1,
            0 <= i <= self.slots@.len(),
            i < self.slots@.len() ==> self.slots@[probe_pos(
                home(hash, self.slots@.len() as int),
                i,
                self.slots@.len() as int,
            )] is Empty,
            forall|t: int|
                0 <= t < i ==> passed(
                    self.slots@,
                    #[trigger] probe_pos(
                        home(hash, self.slots@.len() as int),
                        t,
                        self.slots@.len() as int,
                    ),
                    hash,
                    probe,
                ),
            0 <= home(hash, self.slots@.len() as int) < self.slots@.len(),
        ensures
            forall|k: K| #[trigger] self@.contains_key((hash, k)) ==> compares(probe, k, false),
    {
        let cap = self.slots@.len() as int;
        let start = home(hash, cap);
        assert forall|k: K| #[trigger] self@.contains_key((hash, k)) implies compares(
            probe,
            k,
            false,
        ) by {
            assert(self.entries@.dom().contains((hash, k)));
            let j = self.index@[(hash, k)];
            assert(holds(self.slots@, j, (hash, k), self.entries@[(hash, k)]));
            let d = probe_dist(start, j, cap);
            assert(probe_pos(start, d, cap) == j);
            assert(chained(self.slots@, j));
            if d < i {
                assert(passed(self.slots@, probe_pos(start, d, cap), hash, probe));
            } else if d == i {
                assert(false);
            } else {
                assert(!(self.slots@[probe_pos(start, i, cap)] is Empty));
                assert(false);
            }
        }
    }

    /// The slot of an entry stored under `hash` that `probe` stands for, if
    /// the array has one. Where it has none, `probe` was compared with
    /// every key stored under `hash` and stands for none of them.
    pub fn find_by<Q: Equivalent<K>>(&self, hash: u64, probe: &Q) -> (r: Option<usize>)
        requires
            self.wf(),
        ensures
            match r {
                Some(j) => j < self.cap() && (self.cells()[j as int] matches Slot::Occupied(e)
                    && e.hash == hash && compares(probe, e.key, true)),
                None => forall|k: K| #[trigger]
                    self@.contains_key((hash, k)) ==> compares(probe, k, false),
            },
    {
        match self.probe(hash, probe) {
            Probe::Found(j) => Some(j),
            Probe::Vacant(_) => None,
        }
    }
}

impl<K: Eq, V> BucketArray<K, V> {
    /// What a probe for the key itself finds.
    fn probe_key(&self, hash: u64, key: &K) -> (r: Probe)
        requires
            self.wf(),
            obeys_eq::<K>(),
        ensures
            match r {
                Probe::Found(j) => holds(self.cells(), j as int, (hash, *key), self@[(hash, *key)])
                    && self@.contains_key((hash, *key)),
                Probe::Vacant(c) => !self@.contains_key((hash, *key)) && match c {
                    Some(q) => lands_at(self.cells(), hash, q as int),
                    None => forall|j: int|
                        0 <= j < self.cap() ==> !(#[trigger] self.cells()[j]).is_free(),
                },
            },
    {
        let r = self.probe(hash, key);
        proof {
            match r {
                Probe::Found(j) => {
                    let e = self.slots@[j as int]->Occupied_0;
                    lemma_key_compares(key, e.key, true);
                    assert(self.entries@.dom().contains((e.hash, e.key)));
                },
                Probe::Vacant(_) => {
                    if self@.contains_key((hash, *key)) {
                        lemma_key_compares(key, *key, false);
                    }
                },
            }
        }
        r
    }

    /// The slot that holds the entry of `hash` and `key`, if the array has
    /// it.
    pub fn find(&self, hash: u64, key: &K) -> (r: Option<usize>)
        requires
            self.wf(),
            obeys_eq::<K>(),
        ensures
            match r {
                Some(j) => self@.contains_key((hash, *key)) && holds(
                    self.cells(),
                    j as int,
                    (hash, *key),
                    self@[(hash, *key)],
                ),
                None => !self@.contains_key((hash, *key)),
            },
    {
        match self.probe_key(hash, key) {
            Probe::Found(j) => Some(j),
            Probe::Vacant(_) => None,
        }
    }

    /// Puts a new entry in the free slot `q`, which a probe for `hash`
    /// reaches.
    fn place(&mut self, q: usize, hash: u64, key: K, value: V)
        requires
            old(self).wf(),
            lands_at(old(self).cells(), hash, q as int),
            !old(self)@.contains_key((hash, key)),
        ensures
            final(self).wf(),
            final(self)@ == old(self)@.insert((hash, key), value),
            final(self).cells() == old(self).cells().update(
                q as int,
                Slot::Occupied(Entry { hash, key, value }),
            ),
    {
        proof {
            let cap = self.slots@.len() as int;
            lemma_int_range(0, cap);
            assert(self.taken@.subset_of(set_int_range(0, cap).remove(q as int)));
            lemma_len_subset(self.taken@, set_int_range(0, cap).remove(q as int));
            lemma_chain_update(
                self.slots@,
                q as int,
                Slot::Occupied(Entry { hash, key, value }),
            );
        }
        let ghost p = (hash, key);
        let ghost before = *self;
        self.entries = Ghost(self.entries@.insert(p, value));
        self.index = Ghost(self.index@.insert(p, q as int));
        self.taken = Ghost(self.taken@.insert(q as int));
        self.live = self.live + 1;
        self.slots[q] = Slot::Occupied(Entry { hash, key, value });
        proof {
            let cells = self.slots@;
            assert(self.index@.dom() =~= self.entries@.dom());
            assert forall|o: (u64, K)| #[trigger]
                self.entries@.dom().contains(o) implies holds(
                cells,
                self.index@[o],
                o,
                self.entries@[o],
            ) by {
                if o != p {
                    assert(before.entries@.dom().contains(o));
                }
            }
        }
    }

    /// Puts a new entry in the array, in the slot where it lands.
    pub fn insert_new(&mut self, hash: u64, key: K, value: V)
        requires
            old(self).wf(),
            old(self).pristine(),
            obeys_eq::<K>(),
            !old(self)@.contains_key((hash, key)),
            old(self)@.dom().len() < old(self).cap(),
        ensures
            final(self).wf(),
            final(self).pristine(),
            final(self).cap() == old(self).cap(),
            final(self)@ == old(self)@.insert((hash, key), value),
            exists|q: int|
                #![trigger lands_at(old(self).cells(), hash, q)]
                lands_at(old(self).cells(), hash, q) && final(self).cells() == old(
                    self,
                ).cells().update(q, Slot::Occupied(Entry { hash, key, value })),
    {
        match self.probe_key(hash, &key) {
            Probe::Vacant(Some(q)) => {
                self.place(q, hash, key, value);
                proof {
                    assert(lands_at(old(self).cells(), hash, q as int));
                }
            },
            _ => {
                proof {
                    let cap = self.slots@.len() as int;
                    lemma_int_range(0, cap);
                    assert(self.taken@ =~= set_int_range(0, cap)) by {
                        assert forall|j: int| 0 <= j < cap implies self.taken@.contains(j) by {
                            assert(!self.cells()[j].is_free());
                            assert(!(self.cells()[j] is Forwarded));
                        }
                    }
                    assert(false);
                }
            },
        }
    }

    /// Puts `value` in place of the value in slot `j` and hands back the
    /// value that was there. A slot without an entry is left as it is.
    pub fn replace_at(&mut self, j: usize, value: V) -> (r: Result<V, V>)
        requires
            old(self).wf(),
            j < old(self).cap(),
        ensures
            final(self).wf(),
            match r {
                Ok(prev) => old(self).cells()[j as int] matches Slot::Occupied(e) && prev == e.value
                    && final(self)@ == old(self)@.insert((e.hash, e.key), value)
                    && final(self).cells() == old(self).cells().update(
                    j as int,
                    Slot::Occupied(Entry { hash: e.hash, key: e.key, value }),
                ),
                Err(back) => !(old(self).cells()[j as int] is Occupied) && back == value
                    && *final(self) == *old(self),
            },
    {
        match &self.slots[j] {
            Slot::Occupied(_) => {},
            _ => {
                return Err(value);
            },
        }
        let ghost before = *self;
        let mut out = Slot::Tombstone;
        std::mem::swap(&mut self.slots[j], &mut out);
        match out {
            Slot::Occupied(e) => {
                let ghost p = (e.hash, e.key);
                proof {
                    assert(before.entries@.dom().contains(p));
                    assert(chained(before.slots@, j as int));
                    lemma_chain_update(
                        before.slots@,
                        j as int,
                        Slot::Occupied(Entry { hash: e.hash, key: e.key, value }),
                    );
                }
                self.entries = Ghost(self.entries@.insert(p, value));
                self.slots[j] = Slot::Occupied(Entry { hash: e.hash, key: e.key, value });
                proof {
                    let cells = self.slots@;
                    assert(cells =~= before.slots@.update(
                        j as int,
                        Slot::Occupied(Entry { hash: e.hash, key: e.key, value }),
                    ));
                    assert(self.index@.dom() =~= self.entries@.dom());
                    assert(self.entries@.dom() =~= before.entries@.dom());
                    assert forall|o: (u64, K)| #[trigger]
                        self.entries@.dom().contains(o) implies holds(
                        cells,
                        self.index@[o],
                        o,
                        self.entries@[o],
                    ) by {
                        assert(before.entries@.dom().contains(o));
                    }
                }
                Ok(e.value)
            },
            _ => Err(value),
        }
    }

    /// Stores `value` under `hash` and `key` if an entry is there already:
    /// in its place where `replace` is set, not at all otherwise. Where no
    /// entry is there, the value comes back.
    pub fn update(&mut self, hash: u64, key: &K, value: V, replace: bool) -> (r: Result<
        InsertResult<V>,
        V,
    >)
        requires
            old(self).wf(),
            obeys_eq::<K>(),
        ensures
            final(self).wf(),
            final(self).cap() == old(self).cap(),
            old(self).pristine() ==> final(self).pristine(),
            forall|j: int|
                0 <= j < old(self).cap() ==> (#[trigger] final(self).cells()[j] is Occupied
                    <==> old(self).cells()[j] is Occupied),
            match r {
                Ok(InsertResult::Replaced(prev)) => replace && old(self)@.contains_key(
                    (hash, *key),
                ) && prev == old(self)@[(hash, *key)] && final(self)@ == old(self)@.insert(
                    (hash, *key),
                    value,
                ),
                Ok(InsertResult::Error { not_inserted }) => !replace && old(self)@.contains_key(
                    (hash, *key),
                ) && not_inserted == value && *final(self) == *old(self),
                Ok(InsertResult::Inserted) => false,
                Err(back) => !old(self)@.contains_key((hash, *key)) && back == value
                    && *final(self) == *old(self),
            },
    {
        match self.find(hash, key) {
            Some(j) => {
                if replace {
                    match self.replace_at(j, value) {
                        Ok(prev) => Ok(InsertResult::Replaced(prev)),
                        Err(back) => Err(back),
                    }
                } else {
                    Ok(InsertResult::Error { not_inserted: value })
                }
            },
            None => Err(value),
        }
    }

    /// Takes the entry out of slot `j` and leaves a tombstone, or a
    /// forwarding mark where `forward` is set. A slot without an entry is
    /// left as it is.
    pub fn vacate(&mut self, j: usize, forward: bool) -> (r: Option<Entry<K, V>>)
        requires
            old(self).wf(),
            j < old(self).cap(),
        ensures
            final(self).wf(),
            match r {
                Some(e) => old(self).cells()[j as int] == Slot::Occupied(e)
                    && final(self)@ == old(self)@.remove((e.hash, e.key))
                    && final(self).cells() == old(self).cells().update(
                    j as int,
                    if forward {
                        Slot::Forwarded
                    } else {
                        Slot::Tombstone
                    },
                ),
                None => !(old(self).cells()[j as int] is Occupied) && *final(self) == *old(self),
            },
    {
        match &self.slots[j] {
            Slot::Occupied(_) => {},
            _ => {
                return None;
            },
        }
        let ghost before = *self;
        let mut out = if forward {
            Slot::Forwarded
        } else {
            Slot::Tombstone
        };
        let ghost mark = out;
        std::mem::swap(&mut self.slots[j], &mut out);
        match out {
            Slot::Occupied(e) => {
                let ghost p = (e.hash, e.key);
                proof {
                    assert(before.entries@.dom().contains(p));
                    assert(before.taken@.contains(j as int));
                    lemma_chain_update(before.slots@, j as int, mark);
                }
                self.entries = Ghost(self.entries@.remove(p));
                self.index = Ghost(self.index@.remove(p));
                self.taken = Ghost(self.taken@.remove(j as int));
                self.live = self.live - 1;
                proof {
                    let cells = self.slots@;
                    assert(cells =~= before.slots@.update(j as int, mark));
                    assert(self.index@.dom() =~= self.entries@.dom());
                    assert forall|o: (u64, K)| #[trigger]
                        self.entries@.dom().contains(o) implies holds(
                        cells,
                        self.index@[o],
                        o,
                        self.entries@[o],
                    ) by {
                        assert(before.entries@.dom().contains(o));
                    }
                }
                Some(e)
            },
            _ => None,
        }
    }
}

impl<K: Eq, V> BucketArray<K, V> {
    /// What a pass that keeps some entries and drops the others has done
    /// when it has judged the slots before `j`: the entries in those slots
    /// are present as they were judged, the others are all present, and
    /// nothing has moved.
    spec fn judged_up_to(
        &self,
        start: &Self,
        j: int,
        judged: spec_fn((u64, K), V, bool) -> bool,
    ) -> bool {
        &&& self.slots@.len() == start.slots@.len()
        &&& self.entries@.submap_of(start.entries@)
        &&& self.index@.submap_of(start.index@)
        &&& forall|i: int|
            0 <= i < self.slots@.len() ==> #[trigger] self.slots@[i] == start.slots@[i] || (
            start.slots@[i] is Occupied && self.slots@[i] is Tombstone)
        &&& forall|p: (u64, K)| #[trigger]
            start.entries@.dom().contains(p) ==> if start.index@[p] < j {
                judged(p, start.entries@[p], self.entries@.dom().contains(p))
            } else {
                self.entries@.dom().contains(p)
            }
    }

    /// Judging slot `j`, and dropping its entry where the verdict is to drop
    /// it, takes such a pass one slot further.
    proof fn lemma_judged_step(
        &self,
        before: &Self,
        start: &Self,
        j: int,
        judged: spec_fn((u64, K), V, bool) -> bool,
    )
        requires
            start.wf(),
            before.wf(),
            self.wf(),
            0 <= j < before.slots@.len(),
            before.judged_up_to(start, j, judged),
            before.slots@[j] matches Slot::Occupied(e) ==> judged(
                (e.hash, e.key),
                e.value,
                self.slots@[j] is Occupied,
            ),
            *self == *before || (before.slots@[j] matches Slot::Occupied(e) && self.entries@
                == before.entries@.remove((e.hash, e.key)) && self.slots@ == before.slots@.update(
                j,
                Slot::Tombstone,
            )),
        ensures
            self.judged_up_to(start, j + 1, judged),
    {
        assert forall|p: (u64, K)| #[trigger]
            start.entries@.dom().contains(p) implies if start.index@[p] < j + 1 {
            judged(p, start.entries@[p], self.entries@.dom().contains(p))
        } else {
            self.entries@.dom().contains(p)
        } by {
            let i = start.index@[p];
            assert(holds(start.slots@, i, p, start.entries@[p]));
            if before.entries@.dom().contains(p) {
                assert(before.index@[p] == i);
                assert(holds(before.slots@, i, p, before.entries@[p]));
            }
            if i == j && !before.entries@.dom().contains(p) {
                assert(!(before.slots@[j] is Occupied));
            }
        }
        assert(self.index@.submap_of(start.index@)) by {
            assert forall|o: (u64, K)| #[trigger]
                self.index@.dom().contains(o) implies before.index@.dom().contains(o)
                && self.index@[o] == before.index@[o] by {
                assert(self.entries@.dom().contains(o));
                assert(holds(self.slots@, self.index@[o], o, self.entries@[o]));
                assert(before.entries@.dom().contains(o));
            }
        }
    }

    /// A pass that has judged every slot has judged every entry.
    proof fn lemma_judged_all(&self, start: &Self, judged: spec_fn((u64, K), V, bool) -> bool)
        requires
            start.wf(),
            self.judged_up_to(start, start.slots@.len() as int, judged),
        ensures
            self@.submap_of(start@),
            self.cap() == start.cap(),
            forall|i: int|
                0 <= i < self.cap() ==> #[trigger] self.cells()[i] == start.cells()[i] || (
                start.cells()[i] is Occupied && self.cells()[i] is Tombstone),
            forall|p: (u64, K)| #[trigger]
                start@.contains_key(p) ==> judged(p, start@[p], self@.contains_key(p)),
    {
        assert forall|p: (u64, K)| #[trigger] start@.contains_key(p) implies judged(
            p,
            start@[p],
            self@.contains_key(p),
        ) by {
            assert(start.entries@.dom().contains(p));
            assert(holds(start.slots@, start.index@[p], p, start.entries@[p]));
        }
    }

    /// Keeps the entries for which `keep` returns `true` and leaves a
    /// tombstone for each of the others.
    pub fn retain<F: FnMut(&K, &V) -> bool>(&mut self, mut keep: F)
        requires
            old(self).wf(),
            forall|k: &K, v: &V| call_requires(keep, (k, v)),
        ensures
            final(self).wf(),
            final(self).cap() == old(self).cap(),
            forall|i: int|
                0 <= i < final(self).cap() ==> #[trigger] final(self).cells()[i] == old(
                    self,
                ).cells()[i] || (old(self).cells()[i] is Occupied && final(self).cells()[i]
                    is Tombstone),
            final(self)@.submap_of(old(self)@),
            forall|p: (u64, K)| #[trigger]
                old(self)@.contains_key(p) ==> call_ensures(
                    keep,
                    (&p.1, &old(self)@[p]),
                    final(self)@.contains_key(p),
                ),
    {
        let ghost keep0 = keep;
        let ghost judged = |p: (u64, K), v: V, b: bool| call_ensures(keep0, (&p.1, &v), b);
        let cap = self.slots.len();
        let mut j: usize = 0;
        while j < cap
            invariant
                self.wf(),
                old(self).wf(),
                j <= cap,
                cap == old(self).slots@.len(),
                keep == keep0,
                forall|k: &K, v: &V| call_requires(keep, (k, v)),
                judged == (|p: (u64, K), v: V, b: bool| call_ensures(keep0, (&p.1, &v), b)),
                self.judged_up_to(old(self), j as int, judged),
            decreases cap - j,
        {
            let ghost before = *self;
            let drop = match &self.slots[j] {
                Slot::Occupied(e) => !keep(&e.key, &e.value),
                _ => false,
            };
            if drop {
                self.vacate(j, false);
            }
            proof {
                self.lemma_judged_step(&before, old(self), j as int, judged);
            }
            j += 1;
        }
        proof {
            self.lemma_judged_all(old(self), judged);
        }
    }

    /// Keeps the entries for whose key `keep` returns `true` and leaves a
    /// tombstone for each of the others.
    pub fn retain_keys<F: FnMut(&K) -> bool>(&mut self, mut keep: F)
        requires
            old(self).wf(),
            forall|k: &K| call_requires(keep, (k,)),
        ensures
            final(self).wf(),
            final(self).cap() == old(self).cap(),
            forall|i: int|
                0 <= i < final(self).cap() ==> #[trigger] final(self).cells()[i] == old(
                    self,
                ).cells()[i] || (old(self).cells()[i] is Occupied && final(self).cells()[i]
                    is Tombstone),
            final(self)@.submap_of(old(self)@),
            forall|p: (u64, K)| #[trigger]
                old(self)@.contains_key(p) ==> call_ensures(
                    keep,
                    (&p.1,),
                    final(self)@.contains_key(p),
                ),
    {
        let ghost keep0 = keep;
        let ghost judged = |p: (u64, K), v: V, b: bool| call_ensures(keep0, (&p.1,), b);
        let cap = self.slots.len();
        let mut j: usize = 0;
        while j < cap
            invariant
                self.wf(),
                old(self).wf(),
                j <= cap,
                cap == old(self).slots@.len(),
                keep == keep0,
                forall|k: &K| call_requires(keep, (k,)),
                judged == (|p: (u64, K), v: V, b: bool| call_ensures(keep0, (&p.1,), b)),
                self.judged_up_to(old(self), j as int, judged),
            decreases cap - j,
        {
            let ghost before = *self;
            let drop = match &self.slots[j] {
                Slot::Occupied(e) => !keep(&e.key),
                _ => false,
            };
            if drop {
                self.vacate(j, false);
            }
            proof {
                self.lemma_judged_step(&before, old(self), j as int, judged);
            }
            j += 1;
        }
        proof {
            self.lemma_judged_all(old(self), judged);
        }
    }
}

/// Changing one slot to something that is not empty keeps every entry
/// reachable, provided that an entry put there is reachable itself.
proof fn lemma_chain_update<K, V>(cells: Seq<Slot<K, V>>, q: int, x: Slot<K, V>)
    requires
        0 <= q < cells.len(),
        forall|j: int| 0 <= j < cells.len() ==> #[trigger] chained(cells, j),
        !(x is Empty),
        x matches Slot::Occupied(e) ==> reachable(cells, e.hash, q),
    ensures
        forall|j: int| 0 <= j < cells.len() ==> #[trigger] chained(cells.update(q, x), j),
{
    let after = cells.update(q, x);
    assert forall|j: int| 0 <= j < cells.len() implies #[trigger] chained(after, j) by {
        if j != q {
            assert(chained(cells, j));
        }
    }
}

} // verus!
