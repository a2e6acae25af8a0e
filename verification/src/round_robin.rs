//! Fair rotation over a fixed or growing number of slots.
use vstd::arithmetic::div_mod::{lemma_add_mod_noop, lemma_mod_twice};
use vstd::prelude::*;

verus! {

/// Returns the slot that `cursor` points at and moves the cursor one past it.
///
/// A cursor beyond the end wraps around, so a list that shrank or a large
/// starting value is harmless.
pub fn next(cursor: &mut usize, len: usize) -> (slot: usize)
    requires
        0 < len,
    ensures
        slot == *old(cursor) % len,
        *final(cursor) == slot + 1,
{
    let slot: usize = *cursor % len;
    *cursor = slot + 1;
    slot
}

/// The slot that attempt number `k` of a rotation over `len` slots looks at, where
/// the rotation starts with the cursor at `start`.
pub open spec fn attempt(start: int, k: int, len: int) -> int {
    (start + k) % len
}

/// The first attempt, not before attempt `from`, whose slot is a hit; `len` where
/// none is.
pub open spec fn first_hit(hit: spec_fn(int) -> bool, start: int, from: int, len: int) -> int
    decreases len - from,
{
    if from >= len || hit(attempt(start, from, len)) {
        from
    } else {
        first_hit(hit, start, from + 1, len)
    }
}

/// Where a rotation whose first hit is attempt `k` leaves the cursor.
pub open spec fn rested(start: int, k: int, len: int) -> int {
    if len == 0 {
        start
    } else if k < len {
        attempt(start, k, len) + 1
    } else {
        attempt(start, len - 1, len) + 1
    }
}

/// The attempt after the one that selected `attempt(start, k, len)` looks at the
/// following slot.
pub proof fn lemma_next_attempt(start: int, k: int, len: int)
    requires
        0 < len,
    ensures
        (attempt(start, k, len) + 1) % len == attempt(start, k + 1, len),
        0 <= attempt(start, k, len) < len,
{
    lemma_add_mod_noop(start + k, 1, len);
    lemma_add_mod_noop(attempt(start, k, len), 1, len);
    lemma_mod_twice(start + k, len);
}

/// A whole rotation looks at every slot: whatever the position, each slot is the
/// subject of exactly one of `len` consecutive attempts.
pub proof fn law_rotation_visits_every_slot(start: int, slot: int, len: int)
    requires
        0 <= start,
        0 <= slot < len,
    ensures
        exists|k: int| 0 <= k < len && #[trigger] attempt(start, k, len) == slot,
        forall|i: int, j: int|
            0 <= i < j < len ==> #[trigger] attempt(start, i, len) != #[trigger] attempt(
                start,
                j,
                len,
            ),
{
    let k = crate::cursor::lemma_slot_covered(start, slot, len);
    assert(attempt(start, k, len) == slot);
    assert forall|i: int, j: int| 0 <= i < j < len implies #[trigger] attempt(start, i, len)
        != #[trigger] attempt(start, j, len) by {
        crate::cursor::lemma_slots_differ(start, i, j, len);
    }
}

/// What the first hit is.
pub proof fn lemma_first_hit(hit: spec_fn(int) -> bool, start: int, from: int, len: int)
    requires
        0 <= start,
        0 <= from <= len,
    ensures
        from <= first_hit(hit, start, from, len) <= len,
        first_hit(hit, start, from, len) < len ==> {
            let slot = attempt(start, first_hit(hit, start, from, len), len);
            0 <= slot < len && hit(slot)
        },
        forall|k: int|
            from <= k < first_hit(hit, start, from, len) ==> !hit(#[trigger] attempt(start, k, len)),
    decreases len - from,
{
    if from < len {
        lemma_next_attempt(start, from, len);
        if !hit(attempt(start, from, len)) {
            lemma_first_hit(hit, start, from + 1, len);
        }
    }
}

/// Two rotations that hit the same slots hit first at the same attempt.
pub proof fn lemma_same_hits(
    a: spec_fn(int) -> bool,
    b: spec_fn(int) -> bool,
    start: int,
    from: int,
    len: int,
)
    requires
        0 <= start,
        0 <= from <= len,
        forall|slot: int| 0 <= slot < len ==> #[trigger] a(slot) == b(slot),
    ensures
        first_hit(a, start, from, len) == first_hit(b, start, from, len),
    decreases len - from,
{
    if from < len {
        lemma_next_attempt(start, from, len);
        assert(a(attempt(start, from, len)) == b(attempt(start, from, len)));
        lemma_same_hits(a, b, start, from + 1, len);
    }
}

/// A rotation misses only where no slot is a hit, wherever it starts.
pub proof fn law_rotation_finds_a_hit(hit: spec_fn(int) -> bool, start: int, len: int)
    requires
        0 <= start,
        0 <= len,
    ensures
        first_hit(hit, start, 0, len) < len <==> exists|slot: int|
            0 <= slot < len && #[trigger] hit(slot),
{
    lemma_first_hit(hit, start, 0, len);
    if first_hit(hit, start, 0, len) < len {
        assert(hit(attempt(start, first_hit(hit, start, 0, len), len)));
    } else if exists|slot: int| 0 <= slot < len && #[trigger] hit(slot) {
        let slot = choose|slot: int| 0 <= slot < len && #[trigger] hit(slot);
        law_rotation_visits_every_slot(start, slot, len);
        let k = choose|k: int| 0 <= k < len && #[trigger] attempt(start, k, len) == slot;
        assert(!hit(attempt(start, k, len)));
    }
}

/// After a rotation that missed, the next one starts at the same slot again.
pub proof fn lemma_rested_twice(start: int, len: int)
    requires
        0 <= start,
        0 <= len,
    ensures
        rested(rested(start, len, len), len, len) == rested(start, len, len),
        0 <= rested(start, len, len),
{
    if len > 0 {
        let p = attempt(start, len - 1, len) + 1;
        lemma_next_attempt(start, len - 1, len);
        crate::cursor::lemma_slot_repeats(p - 1, len);
        assert(attempt(p, len - 1, len) == (p - 1) % len);
        vstd::arithmetic::div_mod::lemma_small_mod((p - 1) as nat, len as nat);
    }
}


/// A rotation starts at its cursor and takes the first hit that it comes to: no slot between the
/// cursor and the hit is one. The next rotation starts with the slot after the hit, or at the
/// same slot again where there was none.
pub proof fn law_rotations_take_the_first_hit(hit: spec_fn(int) -> bool, start: int, len: int)
    requires
        0 <= start,
        0 < len,
    ensures
        ({
            let k = first_hit(hit, start, 0, len);
            &&& 0 <= k <= len
            &&& k < len ==> hit((start + k) % len)
            &&& forall|j: int| 0 <= j < k ==> !hit(#[trigger] attempt(start, j, len))
            &&& forall|j: int| #[trigger] attempt(start, j, len) == (start + j) % len
            &&& k < len ==> rested(start, k, len) % len == (start + k + 1) % len
            &&& k == len ==> rested(start, k, len) % len == start % len
            &&& 0 <= rested(start, k, len)
        }),
{
    let k = first_hit(hit, start, 0, len);
    lemma_first_hit(hit, start, 0, len);
    lemma_next_attempt(start, k, len);
    lemma_next_attempt(start, len - 1, len);
    vstd::arithmetic::div_mod::lemma_mod_multiples_vanish(1, start, len);
    assert(attempt(start, len, len) == start % len);
}

} // verus!
