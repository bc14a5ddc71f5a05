//! Listing the entries of a table in slot order.

use crate::slot::Slot;
use vstd::prelude::*;

verus! {

/// The entries in the slots from `from` on, in slot order: each hash and key
/// with its value.
pub open spec fn listed<K, V>(cells: Seq<Slot<K, V>>, from: int) -> Seq<((u64, K), V)>
    decreases cells.len() - from,
{
    if from < 0 || from >= cells.len() {
        Seq::empty()
    } else {
        match cells[from] {
            Slot::Occupied(e) => seq![((e.hash, e.key), e.value)] + listed(cells, from + 1),
            _ => listed(cells, from + 1),
        }
    }
}

/// `items` lists the entries of `m`, each of them once.
pub open spec fn lists<K, V>(items: Seq<((u64, K), V)>, m: Map<(u64, K), V>) -> bool {
    &&& forall|i: int| 0 <= i < items.len() ==> m.contains_pair(#[trigger] items[i].0, items[i].1)
    &&& forall|p: (u64, K)| #[trigger] m.contains_key(p) ==> items.contains((p, m[p]))
    &&& forall|i: int, j: int|
        0 <= i < j < items.len() ==> (#[trigger] items[i]).0 != (#[trigger] items[j]).0
}

/// A listing has as many items as the map has entries.
pub proof fn lemma_lists_len<K, V>(items: Seq<((u64, K), V)>, m: Map<(u64, K), V>)
    requires
        lists(items, m),
    ensures
        m.dom().finite(),
        items.len() == m.dom().len(),
{
    let keys = items.map_values(|x: ((u64, K), V)| x.0);
    assert(keys.no_duplicates()) by {
        assert forall|i: int, j: int| 0 <= i < keys.len() && 0 <= j < keys.len() && i != j implies keys[i]
            != keys[j] by {
            if i < j {
                assert(items[i].0 != items[j].0);
            } else {
                assert(items[j].0 != items[i].0);
            }
        }
    }
    assert(keys.to_set() =~= m.dom()) by {
        assert forall|p: (u64, K)| keys.to_set().contains(p) <==> m.dom().contains(p) by {
            if keys.to_set().contains(p) {
                let i = choose|i: int| 0 <= i < keys.len() && keys[i] == p;
                assert(m.contains_pair(items[i].0, items[i].1));
            }
            if m.dom().contains(p) {
                assert(m.contains_key(p));
                assert(items.contains((p, m[p])));
                let i = choose|i: int| 0 <= i < items.len() && items[i] == (p, m[p]);
                assert(keys[i] == p);
            }
        }
    }
    keys.unique_seq_to_set();
    vstd::seq_lib::seq_to_set_is_finite(keys);
}

/// The listings of two maps that share no key, one after the other, list
/// their union.
pub proof fn lemma_lists_concat<K, V>(
    a: Seq<((u64, K), V)>,
    m: Map<(u64, K), V>,
    b: Seq<((u64, K), V)>,
    n: Map<(u64, K), V>,
)
    requires
        lists(a, m),
        lists(b, n),
        forall|p: (u64, K)| !(#[trigger] m.contains_key(p) && n.contains_key(p)),
    ensures
        lists(a + b, m.union_prefer_right(n)),
{
    let all = a + b;
    let u = m.union_prefer_right(n);
    assert forall|i: int| 0 <= i < all.len() implies u.contains_pair(
        #[trigger] all[i].0,
        all[i].1,
    ) by {
        if i < a.len() {
            assert(all[i] == a[i]);
            assert(m.contains_pair(a[i].0, a[i].1));
            assert(!(m.contains_key(a[i].0) && n.contains_key(a[i].0)));
        } else {
            assert(all[i] == b[i - a.len()]);
            assert(n.contains_pair(b[i - a.len()].0, b[i - a.len()].1));
        }
    }
    assert forall|p: (u64, K)| #[trigger] u.contains_key(p) implies all.contains((p, u[p])) by {
        if n.contains_key(p) {
            assert(b.contains((p, n[p])));
            let i = choose|i: int| 0 <= i < b.len() && b[i] == (p, n[p]);
            assert(all[a.len() + i] == b[i]);
        } else {
            assert(m.contains_key(p));
            assert(a.contains((p, m[p])));
            let i = choose|i: int| 0 <= i < a.len() && a[i] == (p, m[p]);
            assert(all[i] == a[i]);
        }
    }
    assert forall|i: int, j: int| 0 <= i < j < all.len() implies (#[trigger] all[i]).0 != (
    #[trigger] all[j]).0 by {
        if j < a.len() {
            assert(all[i] == a[i] && all[j] == a[j]);
        } else if i >= a.len() {
            assert(all[i] == b[i - a.len()] && all[j] == b[j - a.len()]);
        } else {
            assert(all[i] == a[i] && all[j] == b[j - a.len()]);
            assert(m.contains_pair(a[i].0, a[i].1));
            assert(n.contains_pair(b[j - a.len()].0, b[j - a.len()].1));
            assert(!(m.contains_key(a[i].0) && n.contains_key(a[i].0)));
        }
    }
}

} // verus!
