//! Arithmetic of arena growth: powers of two and the capacity of a fresh arena.

use vstd::arithmetic::power2::{
    lemma2_to64, lemma_pow2_strictly_increases, lemma_pow2_unfold, pow2,
};
use vstd::layout::signed_int_min_max_values;
use vstd::prelude::*;

verus! {

/// `p` is a power of two.
pub open spec fn is_power_of_two(p: nat) -> bool {
    exists|k: nat| p == pow2(k)
}

/// `p` is the least power of two that is at least `n`.
pub open spec fn is_next_power_of_two(n: nat, p: nat) -> bool {
    &&& is_power_of_two(p)
    &&& n <= p
    &&& forall|q: nat| is_power_of_two(q) && n <= q ==> p <= q
}

/// The least power of two that is at least `n`; it is 1 for 0 and for 1.
pub open spec fn next_power_of_two(n: nat) -> nat {
    choose|p: nat| is_next_power_of_two(n, p)
}

/// Powers of two are ordered as their exponents are.
pub proof fn lemma_pow2_order(a: nat, b: nat)
    ensures
        a < b <==> pow2(a) < pow2(b),
        a <= b <==> pow2(a) <= pow2(b),
{
    if a < b {
        lemma_pow2_strictly_increases(a, b);
    }
    if b < a {
        lemma_pow2_strictly_increases(b, a);
    }
}

/// A power of two `pow2(k)` with `n <= pow2(k)` whose half is below `n` (or
/// which is 1) is the least power of two that is at least `n`.
pub proof fn lemma_next_power_of_two_is(n: nat, k: nat)
    requires
        n <= pow2(k),
        k > 0 ==> pow2((k - 1) as nat) < n,
    ensures
        next_power_of_two(n) == pow2(k),
        is_next_power_of_two(n, pow2(k)),
{
    let p = pow2(k);
    assert(is_power_of_two(p));
    assert forall|q: nat| is_power_of_two(q) && n <= q implies p <= q by {
        let j = choose|j: nat| q == pow2(j);
        if k > 0 {
            lemma_pow2_order((k - 1) as nat, j);
            lemma_pow2_order(k, j);
        } else {
            lemma_pow2_order(0, j);
        }
    }
    assert(is_next_power_of_two(n, p));
    let c = next_power_of_two(n);
    assert(is_next_power_of_two(n, c));
}

/// Every number has a least power of two above or at it, and that power is
/// below twice the number unless the number is 0.
pub proof fn lemma_next_power_of_two_from(n: nat)
    ensures
        is_next_power_of_two(n, next_power_of_two(n)),
        n <= next_power_of_two(n),
        n > 0 ==> next_power_of_two(n) < 2 * n,
        n == 0 ==> next_power_of_two(n) == 1,
{
    let k = lemma_exponent_for(n);
    lemma_next_power_of_two_is(n, k);
    if k > 0 {
        lemma_pow2_unfold(k);
    } else {
        lemma2_to64();
    }
}

/// There is an exponent `k` with `n <= pow2(k)` such that `pow2(k - 1) < n`
/// unless `k` is 0.
proof fn lemma_exponent_for(n: nat) -> (k: nat)
    ensures
        n <= pow2(k),
        k > 0 ==> pow2((k - 1) as nat) < n,
    decreases n,
{
    lemma2_to64();
    if n <= 1 {
        0
    } else {
        let half = (n + 1) / 2;
        let j = lemma_exponent_for(half);
        lemma_pow2_unfold(j + 1);
        if j > 0 {
            lemma_pow2_unfold(j);
        }
        j + 1
    }
}

/// The capacity of the arena that replaces one of capacity `capacity` when a
/// text of `len` bytes does not fit: the old capacity rounded up to a power
/// of two, and room for the text on top of that.
pub open spec fn grown_capacity(capacity: nat, len: nat) -> nat {
    next_power_of_two(capacity) + len
}

/// An arena of capacity `capacity` that holds `used` bytes is full for a text
/// of `len` bytes: appending it would reach or pass the capacity.
pub open spec fn is_full(used: nat, capacity: nat, len: nat) -> bool {
    used + len >= capacity
}

/// The most bytes an arena can be created for.
pub open spec fn max_capacity() -> nat {
    isize::MAX as nat
}

/// The most table entries that room can be reserved for at once. An entry
/// takes at most 24 bytes.
pub open spec fn max_reserved_entries() -> nat {
    max_capacity() / 24
}

/// The largest power of two that the machine can count to is one more than
/// the largest capacity of an arena, and no number up to it is rounded up
/// beyond it.
pub proof fn lemma_next_power_of_two_fits(n: nat)
    requires
        n <= max_capacity() + 1,
    ensures
        next_power_of_two(n) <= max_capacity() + 1 <= usize::MAX,
        is_power_of_two(max_capacity() + 1),
{
    let k = lemma_exponent_for(n);
    lemma_next_power_of_two_is(n, k);
    let top = (isize::BITS - 1) as nat;
    signed_int_min_max_values();
    assert(max_capacity() + 1 == pow2(top));
    if k > 0 {
        lemma_pow2_order((k - 1) as nat, top);
        lemma_pow2_order(k, top);
    } else {
        lemma_pow2_order(0, top);
    }
}

/// Rounds `n` up to the least power of two that is at least `n`. The number
/// must not be above the largest power of two that the machine can count to.
pub fn round_up_to_power_of_two(n: usize) -> (p: usize)
    requires
        n <= max_capacity() + 1,
    ensures
        p == next_power_of_two(n as nat),
{
    let mut p: usize = 1;
    let ghost mut k: nat = 0;
    proof {
        lemma2_to64();
    }
    while p < n
        invariant
            n <= max_capacity() + 1,
            p >= 1,
            p == pow2(k),
            k > 0 ==> pow2((k - 1) as nat) < n,
        decreases
            (if p < n {
                n - p
            } else {
                0
            }),
    {
        proof {
            lemma_next_power_of_two_fits(n as nat);
            lemma_next_power_of_two_from(n as nat);
            let m = choose|m: nat| next_power_of_two(n as nat) == pow2(m);
            lemma_pow2_order(k, m);
            lemma_pow2_order(k + 1, m);
            lemma_pow2_unfold(k + 1);
        }
        p = p * 2;
        proof {
            k = k + 1;
        }
    }
    proof {
        lemma_next_power_of_two_is(n as nat, k);
    }
    p
}

/// Tells whether an arena of capacity `capacity` that holds `used` bytes is
/// full for a text of `len` bytes.
pub fn arena_is_full(used: usize, capacity: usize, len: usize) -> (full: bool)
    ensures
        full == is_full(used as nat, capacity as nat, len as nat),
{
    used >= capacity || len >= capacity - used
}

/// Computes the capacity of the arena that replaces a full one of capacity
/// `capacity` for a text of `len` bytes, or `None` where no arena can be that
/// large.
pub fn checked_grown_capacity(capacity: usize, len: usize) -> (grown: Option<usize>)
    ensures
        (match grown {
            Some(grown) => grown == grown_capacity(capacity as nat, len as nat) && grown
                <= max_capacity(),
            None => grown_capacity(capacity as nat, len as nat) > max_capacity(),
        }),
{
    let max: usize = isize::MAX as usize;
    if capacity > max {
        proof {
            lemma_next_power_of_two_from(capacity as nat);
        }
        return None;
    }
    proof {
        lemma_next_power_of_two_fits(capacity as nat);
    }
    let rounded: usize = round_up_to_power_of_two(capacity);
    if rounded > max || len > max - rounded {
        None
    } else {
        Some(rounded + len)
    }
}

} // verus!
