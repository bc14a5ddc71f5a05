//! Sizing arithmetic: the load threshold, the growth rule, and the positions
//! a probe visits.

use vstd::arithmetic::power2::{is_pow2, is_pow2_equiv, lemma_pow2_unfold, pow2};
use vstd::layout::unsigned_int_max_values;
use vstd::prelude::*;

verus! {

/// The largest number of slots a bucket array may have: the largest power of
/// two that a `usize` can hold.
pub const MAX_CAPACITY: usize = usize::MAX / 2 + 1;

/// The number of entries an array of `cap` slots holds before it must grow:
/// three quarters of its slots, rounded up.
pub open spec fn threshold(cap: int) -> int {
    cap - cap / 4
}

/// The largest number of entries a table can hold.
pub open spec fn max_len() -> int {
    threshold(MAX_CAPACITY as int)
}

/// A capacity is valid when it is zero (nothing allocated yet) or a power of
/// two no larger than [`MAX_CAPACITY`].
pub open spec fn valid_capacity(cap: int) -> bool {
    cap == 0 || (is_pow2(cap) && cap <= MAX_CAPACITY)
}

/// The capacity that follows `cap` when an array grows: twice as many slots,
/// or one slot where nothing was allocated.
pub open spec fn grown(cap: int) -> int {
    if cap == 0 {
        1
    } else {
        2 * cap
    }
}

/// An array of `cap` slots holds `n` entries without growing.
pub open spec fn fits(cap: int, n: int) -> bool {
    valid_capacity(cap) && threshold(cap) >= n
}

/// `cap` is the capacity chosen for `n` entries: the smallest that fits them.
pub open spec fn is_capacity_for(cap: int, n: int) -> bool {
    fits(cap, n) && forall|other: int| fits(other, n) ==> cap <= other
}

/// The slot at which the probe for `hash` starts in an array of `cap` slots:
/// the low bits of the hash.
pub open spec fn home(hash: u64, cap: int) -> int {
    (hash & ((cap - 1) as u64)) as int
}

/// The slot visited at step `t` of a probe that started at `start`: linear
/// probing, wrapping at the end of the array.
pub open spec fn probe_pos(start: int, t: int, cap: int) -> int {
    if start + t < cap {
        start + t
    } else {
        start + t - cap
    }
}

/// The step at which a probe that started at `start` reaches slot `j`.
pub open spec fn probe_dist(start: int, j: int, cap: int) -> int {
    if j >= start {
        j - start
    } else {
        j + cap - start
    }
}

/// The largest capacity is a power of two, whatever the width of `usize`.
pub proof fn lemma_max_capacity_is_pow2()
    ensures
        is_pow2(MAX_CAPACITY as int),
{
    unsigned_int_max_values();
    let b = usize::BITS as nat;
    assert(b == 32 || b == 64);
    lemma_pow2_unfold(b);
    assert(pow2(b) == 2 * pow2((b - 1) as nat));
    assert(MAX_CAPACITY as int == pow2((b - 1) as nat) as int);
    vstd::arithmetic::power2::lemma_pow2((b - 1) as nat);
    assert(vstd::arithmetic::power::pow(2, (b - 1) as nat) == MAX_CAPACITY as int);
    is_pow2_equiv(MAX_CAPACITY as int);
}

/// Doubling a power of two gives a power of two.
pub proof fn lemma_double_is_pow2(cap: int)
    requires
        is_pow2(cap),
    ensures
        is_pow2(2 * cap),
{
    reveal(is_pow2);
    assert(cap > 0);
    assert((2 * cap) / 2 == cap);
}

/// Of two powers of two, the smaller is at most half the larger.
pub proof fn lemma_pow2_below(a: int, b: int)
    requires
        is_pow2(a),
        is_pow2(b),
        a < b,
    ensures
        2 * a <= b,
    decreases a,
{
    reveal(is_pow2);
    if a > 1 {
        lemma_pow2_below(a / 2, b / 2);
    }
}

/// A valid capacity below the maximum can grow.
pub proof fn lemma_grown_valid(cap: int)
    requires
        valid_capacity(cap),
        cap < MAX_CAPACITY,
    ensures
        valid_capacity(grown(cap)),
        grown(cap) > cap,
        threshold(grown(cap)) > threshold(cap),
{
    lemma_max_capacity_is_pow2();
    reveal(is_pow2);
    if cap > 0 {
        lemma_double_is_pow2(cap);
        lemma_pow2_below(cap, MAX_CAPACITY as int);
    }
}

/// Growing leaves room: twice the room that the larger threshold adds covers
/// the slots of the smaller array.
pub proof fn lemma_growth_margin(cap: int, target: int)
    requires
        valid_capacity(cap),
        valid_capacity(target),
        1 <= cap < target,
    ensures
        2 * (threshold(target) - threshold(cap)) >= cap,
{
    reveal(is_pow2);
    lemma_pow2_below(cap, target);
    if cap > 2 {
        assert(is_pow2(cap / 2));
        assert(cap % 4 == 0);
    }
}

/// A probe that goes once round the array visits every slot once: each step
/// lands in the array, each slot is reached at one step, and step and slot
/// are inverse to each other.
pub proof fn lemma_probe_round_trip(start: int, j: int, cap: int)
    requires
        0 <= start < cap,
        0 <= j < cap,
    ensures
        0 <= probe_dist(start, j, cap) < cap,
        probe_pos(start, probe_dist(start, j, cap), cap) == j,
        0 <= probe_pos(start, j, cap) < cap,
        probe_dist(start, probe_pos(start, j, cap), cap) == j,
{
}

/// Computes [`max_len`].
pub fn max_len_of() -> (r: usize)
    ensures
        r == max_len(),
{
    MAX_CAPACITY - MAX_CAPACITY / 4
}

/// Computes [`threshold`].
pub fn threshold_of(cap: usize) -> (r: usize)
    ensures
        r == threshold(cap as int),
{
    cap - cap / 4
}

/// Computes [`home`].
pub fn home_of(hash: u64, cap: usize) -> (r: usize)
    requires
        cap >= 1,
    ensures
        r == home(hash, cap as int),
        r < cap,
{
    let mask: u64 = (cap - 1) as u64;
    let low: u64 = hash & mask;
    assert(low <= mask) by (bit_vector)
        requires
            low == hash & mask,
    ;
    low as usize
}

/// The position after `p` on a probe path.
pub fn next_pos(p: usize, cap: usize) -> (r: usize)
    requires
        p < cap,
    ensures
        r < cap,
        r == probe_pos(p as int, 1, cap as int),
{
    if p + 1 == cap {
        0
    } else {
        p + 1
    }
}

/// Computes [`grown`].
pub fn grow(cap: usize) -> (r: usize)
    requires
        valid_capacity(cap as int),
        cap < MAX_CAPACITY,
    ensures
        r == grown(cap as int),
        valid_capacity(r as int),
{
    proof {
        lemma_grown_valid(cap as int);
    }
    if cap == 0 {
        1
    } else {
        2 * cap
    }
}

/// The capacity for `n` entries: zero for none, otherwise the smallest power
/// of two whose threshold reaches `n`.
pub fn capacity_for(n: usize) -> (cap: usize)
    requires
        n <= max_len(),
    ensures
        is_capacity_for(cap as int, n as int),
        n == 0 <==> cap == 0,
{
    if n == 0 {
        assert forall|other: int| fits(other, 0) implies 0 <= other by {
            reveal(is_pow2);
        }
        return 0;
    }
    let mut cap: usize = 1;
    proof {
        reveal(is_pow2);
        lemma_max_capacity_is_pow2();
    }
    while threshold_of(cap) < n
        invariant
            1 <= n <= max_len(),
            1 <= cap,
            is_pow2(cap as int),
            cap <= MAX_CAPACITY,
            forall|other: int| fits(other, n as int) ==> cap <= other,
        decreases MAX_CAPACITY - cap,
    {
        proof {
            lemma_grown_valid(cap as int);
            assert forall|other: int| fits(other, n as int) implies 2 * cap <= other by {
                lemma_pow2_below(cap as int, other);
            }
        }
        cap = 2 * cap;
    }
    cap
}

} // verus!
