//! What the table asks of a key type's `==`, and of a value that is looked
//! up in place of a key.

use vstd::prelude::*;
use vstd::std_specs::cmp::PartialEqSpec;

verus! {

/// The executable `==` on `K` decides equality of values: it follows its
/// specification, and two keys compare equal exactly when they are the same
/// value. Every lookup relies on it; the integer types satisfy it.
pub open spec fn obeys_eq<K: PartialEq>() -> bool {
    &&& K::obeys_eq_spec()
    &&& forall|a: K, b: K| #[trigger] a.eq_spec(&b) <==> (a == b)
}

/// A value that can be looked up in place of a key of type `K`: a borrowed
/// or otherwise different form of the key. For a lookup to find the key it
/// stands for, it must hash as that key does.
pub trait Equivalent<K> {
    /// Whether this value stands for `key`.
    fn equivalent(&self, key: &K) -> (b: bool);
}

impl<K: Eq> Equivalent<K> for K {
    /// A key stands for the keys that are equal to it.
    fn equivalent(&self, key: &K) -> (b: bool)
        ensures
            obeys_eq::<K>() ==> b == (*self == *key),
    {
        *self == *key
    }
}

/// Comparing `probe` with `key` may give `b`.
pub open spec fn compares<K, Q: Equivalent<K>>(probe: &Q, key: K, b: bool) -> bool {
    call_ensures(Q::equivalent, (probe, &key), b)
}

/// Where `==` on keys decides equality, comparing a key with a key says
/// whether the two are the same.
pub proof fn lemma_key_compares<K: Eq>(probe: &K, key: K, b: bool)
    requires
        obeys_eq::<K>(),
        compares::<K, K>(probe, key, b),
    ensures
        b == (*probe == key),
{
}

} // verus!
