//! Walking the entries of a table.

use crate::bucket::BucketArray;
use crate::listing::listed;
use crate::slot::Slot;
use vstd::prelude::*;

verus! {

/// A walk over the entries of one bucket array, in slot order.
#[verifier::reject_recursive_types(K)]
pub struct Walk<'a, K, V> {
    array: &'a BucketArray<K, V>,
    pos: usize,
}

impl<'a, K, V> Walk<'a, K, V> {
    /// The entries still to come.
    pub closed spec fn remaining(&self) -> Seq<((u64, K), V)> {
        listed(self.array.cells(), self.pos as int)
    }

    /// The walk stands inside its array or at its end.
    pub closed spec fn wf(&self) -> bool {
        self.pos <= self.array.cap()
    }

    /// A walk over all of `array`.
    pub fn new(array: &'a BucketArray<K, V>) -> (w: Self)
        ensures
            w.wf(),
            w.remaining() == listed(array.cells(), 0),
    {
        Walk { array, pos: 0 }
    }

    /// A walk that has reached the end of `array`.
    pub fn finished(array: &'a BucketArray<K, V>) -> (w: Self)
        ensures
            w.wf(),
            w.remaining() == Seq::<((u64, K), V)>::empty(),
    {
        Walk { array, pos: array.capacity() }
    }

    /// The next entry: its hash, key and value.
    pub fn next(&mut self) -> (r: Option<(u64, &'a K, &'a V)>)
        requires
            old(self).wf(),
        ensures
            final(self).wf(),
            match r {
                Some((h, k, v)) => old(self).remaining().len() > 0 && old(self).remaining()[0] == (
                    (h, *k),
                    *v,
                ) && final(self).remaining() == old(self).remaining().drop_first(),
                None => old(self).remaining().len() == 0 && final(self).remaining() == old(
                    self,
                ).remaining(),
            },
    {
        let array = self.array;
        let cap = array.capacity();
        while self.pos < cap
            invariant
                self.pos <= cap,
                cap == array.cap(),
                array == self.array,
                self.array == old(self).array,
                listed(array.cells(), self.pos as int) == old(self).remaining(),
            decreases cap - self.pos,
        {
            let j = self.pos;
            self.pos = j + 1;
            match array.cell(j) {
                Slot::Occupied(e) => {
                    proof {
                        let rest = listed(array.cells(), j + 1);
                        assert(old(self).remaining() =~= seq![((e.hash, e.key), e.value)] + rest);
                        assert(old(self).remaining().drop_first() =~= rest);
                    }
                    return Some((e.hash, &e.key, &e.value));
                },
                _ => {},
            }
        }
        None
    }
}

impl<'a, K, V> Clone for Walk<'a, K, V> {
    /// A second walk that stands where this one stands.
    fn clone(&self) -> (r: Self)
        ensures
            r == *self,
    {
        Walk { array: self.array, pos: self.pos }
    }
}

/// A walk over the entries of a table: those still in the current array,
/// then those in its successor.
#[verifier::reject_recursive_types(K)]
pub struct Iter<'a, K, V> {
    first: Walk<'a, K, V>,
    second: Walk<'a, K, V>,
}

impl<'a, K, V> Iter<'a, K, V> {
    /// The entries still to come.
    pub closed spec fn remaining(&self) -> Seq<((u64, K), V)> {
        self.first.remaining() + self.second.remaining()
    }

    /// Both walks stand inside their arrays.
    pub closed spec fn wf(&self) -> bool {
        self.first.wf() && self.second.wf()
    }

    /// The walk `first` followed by the walk `second`.
    pub fn new(first: Walk<'a, K, V>, second: Walk<'a, K, V>) -> (it: Self)
        requires
            first.wf(),
            second.wf(),
        ensures
            it.wf(),
            it.remaining() == first.remaining() + second.remaining(),
    {
        Iter { first, second }
    }

    /// The next entry: its hash, key and value.
    pub fn next(&mut self) -> (r: Option<(u64, &'a K, &'a V)>)
        requires
            old(self).wf(),
        ensures
            final(self).wf(),
            match r {
                Some((h, k, v)) => old(self).remaining().len() > 0 && old(self).remaining()[0] == (
                    (h, *k),
                    *v,
                ) && final(self).remaining() == old(self).remaining().drop_first(),
                None => old(self).remaining().len() == 0 && final(self).remaining() == old(
                    self,
                ).remaining(),
            },
    {
        match self.first.next() {
            Some(item) => {
                proof {
                    assert(self.remaining() =~= old(self).remaining().drop_first());
                }
                Some(item)
            },
            None => {
                let r = self.second.next();
                proof {
                    assert(old(self).remaining() =~= old(self).second.remaining());
                    assert(self.remaining() =~= self.second.remaining());
                }
                r
            },
        }
    }
}

impl<'a, K, V> Clone for Iter<'a, K, V> {
    /// A second walk that stands where this one stands.
    fn clone(&self) -> (r: Self)
        ensures
            r == *self,
    {
        Iter { first: self.first.clone(), second: self.second.clone() }
    }
}

} // verus!
