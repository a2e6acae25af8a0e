//! Wrapping cursors over buffers whose length is a power of two.
//!
//! A cursor counts items forever and wraps with `usize`. It names the buffer slot
//! `cursor % capacity`, computed as `cursor & (capacity - 1)`. Both agree, and the
//! slot of a cursor is unaffected by the wrap, because the capacity divides the
//! number of `usize` values.
use vstd::prelude::*;
use vstd::arithmetic::div_mod::{
    lemma_add_mod_noop, lemma_fundamental_div_mod, lemma_mod_multiples_vanish, lemma_small_mod,
};
use vstd::arithmetic::power2::{
    lemma_pow2_adds, lemma_pow2_pos, lemma_pow2_strictly_increases, lemma_pow2_unfold, pow2,
};
use vstd::bits::{lemma_usize_low_bits_mask_is_mod, low_bits_mask};

verus! {

/// Whether `n` is one of 1, 2, 4, 8, and so on.
pub open spec fn power_of_two(n: int) -> bool {
    exists|e: nat| #[trigger] pow2(e) == n
}

/// How far `to` lies ahead of `from`, for cursors that wrap.
pub open spec fn distance(from: usize, to: usize) -> int {
    if from <= to {
        to - from
    } else {
        to - from + usize::MAX + 1
    }
}

/// `cursor` moved forward by `steps`, wrapping.
pub open spec fn advance(cursor: usize, steps: int) -> int {
    if cursor + steps <= usize::MAX {
        cursor + steps
    } else {
        cursor + steps - usize::MAX - 1
    }
}

/// The slot that a cursor names in a buffer of `capacity` slots.
pub open spec fn slot_of(cursor: int, capacity: int) -> int {
    cursor % capacity
}

/// The least power of two that is at least `n`.
pub open spec fn is_rounded_up(n: int, rounded: int) -> bool {
    &&& power_of_two(rounded)
    &&& n <= rounded
    &&& forall|e: nat| n <= #[trigger] pow2(e) ==> rounded <= pow2(e)
}

/// The least power of two that is at least `n`.
pub open spec fn next_power(n: int) -> int {
    choose|rounded: int| is_rounded_up(n, rounded)
}

/// Rounding up has one result.
pub proof fn lemma_next_power(n: int, rounded: int)
    requires
        is_rounded_up(n, rounded),
    ensures
        next_power(n) == rounded,
{
    let other = next_power(n);
    assert(is_rounded_up(n, other));
    let d = choose|e: nat| #[trigger] pow2(e) == rounded;
    let e = choose|e: nat| #[trigger] pow2(e) == other;
    assert(n <= pow2(d) && n <= pow2(e));
}

/// The largest power of two that `usize` holds.
pub open spec fn largest_power_of_two() -> int {
    usize::MAX / 2 + 1
}

proof fn lemma_usize_range()
    ensures
        usize::MAX + 1 == pow2(usize::BITS as nat),
        largest_power_of_two() == pow2((usize::BITS - 1) as nat),
        usize::BITS >= 32,
{
    vstd::layout::unsigned_int_max_values();
    lemma_pow2_unfold(usize::BITS as nat);
}

/// No power of two that `usize` holds exceeds the largest one.
pub proof fn lemma_largest()
    ensures
        forall|n: usize| #[trigger] power_of_two(n as int) ==> n <= largest_power_of_two(),
        power_of_two(largest_power_of_two()),
{
    lemma_usize_range();
    assert forall|n: usize| #[trigger] power_of_two(n as int) implies n
        <= largest_power_of_two() by {
        lemma_power_of_two_divides(n);
        let e = choose|e: nat| e < usize::BITS && #[trigger] pow2(e) == n;
        if e < usize::BITS - 1 {
            lemma_pow2_strictly_increases(e, (usize::BITS - 1) as nat);
        }
    }
}

/// Every power of two that `usize` holds divides the number of `usize` values.
pub proof fn lemma_power_of_two_divides(cap: usize)
    requires
        power_of_two(cap as int),
    ensures
        0 < cap,
        (usize::MAX + 1) % (cap as int) == 0,
        exists|e: nat| e < usize::BITS && #[trigger] pow2(e) == cap,
{
    lemma_usize_range();
    let e = choose|e: nat| #[trigger] pow2(e) == cap;
    lemma_pow2_pos(e);
    if e >= usize::BITS {
        if e > usize::BITS {
            lemma_pow2_strictly_increases(usize::BITS as nat, e);
        }
        assert(false);
    }
    let rest = (usize::BITS - e) as nat;
    lemma_pow2_adds(e, rest);
    lemma_mod_multiples_vanish(pow2(rest) as int, 0, cap as int);
    assert(pow2(rest) * cap == cap * pow2(rest)) by (nonlinear_arith);
    lemma_small_mod(0, cap as nat);
}

/// Masking by `cap - 1` is taking the remainder by `cap`.
pub proof fn lemma_mask_is_slot(cursor: usize, mask: usize, cap: usize)
    requires
        power_of_two(cap as int),
        mask == cap - 1,
    ensures
        cursor & mask == slot_of(cursor as int, cap as int),
        (cursor & mask) < cap,
{
    lemma_power_of_two_divides(cap);
    let e = choose|e: nat| e < usize::BITS && #[trigger] pow2(e) == cap;
    lemma_usize_low_bits_mask_is_mod(cursor, e);
    assert(low_bits_mask(e) == mask);
}

/// Wrapping does not change the slot of a cursor.
pub proof fn lemma_slot_of_advance(cursor: usize, steps: int, cap: usize)
    requires
        power_of_two(cap as int),
        0 <= steps <= usize::MAX,
    ensures
        slot_of(advance(cursor, steps), cap as int) == slot_of(cursor + steps, cap as int),
{
    lemma_power_of_two_divides(cap);
    if cursor + steps > usize::MAX {
        let a = cursor + steps - usize::MAX - 1;
        let m = cap as int;
        lemma_fundamental_div_mod(usize::MAX + 1, m);
        let q = (usize::MAX + 1) / m;
        lemma_mod_multiples_vanish(q, a, m);
        assert(m * q + a == cursor + steps);
    }
}

/// Fewer than `cap` steps apart, two cursors name two slots.
pub proof fn lemma_slots_differ(cursor: int, i: int, j: int, cap: int)
    requires
        0 < cap,
        0 <= cursor,
        0 <= i < j < cap,
    ensures
        slot_of(cursor + i, cap) != slot_of(cursor + j, cap),
{
    if slot_of(cursor + i, cap) == slot_of(cursor + j, cap) {
        lemma_fundamental_div_mod(cursor + i, cap);
        lemma_fundamental_div_mod(cursor + j, cap);
        let p = (cursor + i) / cap;
        let q = (cursor + j) / cap;
        assert(cap * q - cap * p == j - i);
        assert(false) by (nonlinear_arith)
            requires
                cap * q - cap * p == j - i,
                0 < j - i < cap,
        ;
    }
}

/// `cap` steps bring a cursor back to its slot.
pub proof fn lemma_slot_repeats(cursor: int, cap: int)
    requires
        0 < cap,
    ensures
        slot_of(cursor + cap, cap) == slot_of(cursor, cap),
{
    lemma_mod_multiples_vanish(1, cursor, cap);
    assert(cap * 1 + cursor == cursor + cap);
}

/// Every slot of the buffer is the slot of one of the `cap` cursors from `cursor` on.
pub proof fn lemma_slot_covered(cursor: int, slot: int, cap: int) -> (k: int)
    requires
        0 < cap,
        0 <= slot < cap,
    ensures
        0 <= k < cap,
        slot_of(cursor + k, cap) == slot,
{
    let k = (slot - cursor) % cap;
    lemma_add_mod_noop(cursor, slot - cursor, cap);
    lemma_add_mod_noop(cursor, k, cap);
    vstd::arithmetic::div_mod::lemma_mod_twice(slot - cursor, cap);
    lemma_small_mod(slot as nat, cap as nat);
    k
}

/// Rounds up to a power of two; `None` where no such `usize` exists.
pub fn checked_next_power_of_two(n: usize) -> (rounded: Option<usize>)
    ensures
        rounded is Some <==> n <= largest_power_of_two(),
        rounded matches Some(p) ==> is_rounded_up(n as int, p as int),
{
    proof {
        lemma_usize_range();
    }
    let mut p: usize = 1;
    let ghost mut e: nat = 0;
    proof {
        vstd::arithmetic::power2::lemma2_to64();
    }
    assert forall|d: nat| #[trigger] pow2(d) >= 1 by {
        lemma_pow2_pos(d);
    }
    while p < n
        invariant
            1 <= p,
            p == pow2(e),
            e < usize::BITS,
            largest_power_of_two() == pow2((usize::BITS - 1) as nat),
            usize::BITS >= 32,
            forall|d: nat| n <= #[trigger] pow2(d) ==> p <= pow2(d),
        decreases usize::BITS - e,
    {
        if p > usize::MAX / 2 {
            return None;
        }
        proof {
            if e < usize::BITS - 1 {
            } else {
                assert(false);
            }
            lemma_pow2_unfold(e + 1);
            assert forall|d: nat| n <= #[trigger] pow2(d) implies 2 * p <= pow2(d) by {
                if d <= e {
                    if d < e {
                        lemma_pow2_strictly_increases(d, e);
                    }
                    assert(false);
                } else if d > e + 1 {
                    lemma_pow2_strictly_increases(e + 1, d);
                }
            }
            e = e + 1;
        }
        p = p * 2;
    }
    proof {
        if e < usize::BITS - 1 {
            lemma_pow2_strictly_increases(e, (usize::BITS - 1) as nat);
        }
    }
    Some(p)
}

/// Every number up to the largest power of two can be rounded up.
pub proof fn lemma_rounds_up(n: int)
    requires
        n <= largest_power_of_two(),
    ensures
        exists|rounded: int| is_rounded_up(n, rounded),
{
    lemma_usize_range();
    lemma_rounds_up_from(n, 0, (usize::BITS - 1) as nat);
}

proof fn lemma_rounds_up_from(n: int, e: nat, top: nat)
    requires
        e <= top,
        n <= pow2(top),
        forall|d: nat| d < e ==> #[trigger] pow2(d) < n,
    ensures
        exists|rounded: int| is_rounded_up(n, rounded),
    decreases top - e,
{
    if n <= pow2(e) {
        let rounded = pow2(e) as int;
        assert forall|d: nat| n <= #[trigger] pow2(d) implies rounded <= pow2(d) by {
            if d > e {
                lemma_pow2_strictly_increases(e, d);
            }
        }
        assert(is_rounded_up(n, rounded));
    } else {
        lemma_rounds_up_from(n, e + 1, top);
    }
}

/// Rounding up keeps powers of two as they are and never doubles: the result is a power of two,
/// no smaller than what was asked for and less than twice as large.
pub proof fn law_rounding_up_never_doubles(n: int, rounded: int)
    requires
        is_rounded_up(n, rounded),
    ensures
        exists|e: nat| #[trigger] pow2(e) == rounded,
        n <= rounded,
        1 <= n ==> rounded < 2 * n,
        n <= 1 ==> rounded == 1,
        forall|e: nat| #[trigger] pow2(e) == n ==> rounded == n,
{
    let e = choose|e: nat| #[trigger] pow2(e) == rounded;
    lemma_pow2_pos(e);
    if e > 0 {
        lemma_pow2_unfold(e);
        let half = (e - 1) as nat;
        lemma_pow2_pos(half);
        assert(pow2(half) < pow2(e));
        assert(n > pow2(half));
    } else {
        vstd::arithmetic::power2::lemma2_to64();
    }
    vstd::arithmetic::power2::lemma2_to64();
}

/// Cursors that wrap count like those that do not: moving one forward puts that many items
/// between its old and its new place, and items ahead are told apart by their slots as long as
/// there are no more of them than slots.
pub proof fn law_cursors_count_across_the_wrap(cursor: usize, steps: usize)
    ensures
        0 <= advance(cursor, steps as int) <= usize::MAX,
        distance(cursor, advance(cursor, steps as int) as usize) == steps,
        distance(cursor, cursor) == 0,
{
}

} // verus!
