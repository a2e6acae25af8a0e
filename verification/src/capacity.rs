//! How large a channel is when its declaration does not say.
use crate::backend::Backend;
use crate::Shape;
use vstd::arithmetic::div_mod::{lemma_div_is_ordered, lemma_div_is_ordered_by_denominator};
use vstd::prelude::*;

verus! {

/// The bytes that one ring is meant to hold.
pub const TARGET_BYTES: usize = 1_048_576;

/// The capacity of channels that are not sized by their values.
pub const PLAIN_CAPACITY: usize = 1_024;

/// The larger of two numbers.
pub open spec fn larger(a: int, b: int) -> int {
    if a < b {
        b
    } else {
        a
    }
}

/// The capacity that is chosen for a computed number of slots.
pub open spec fn plateau_of(slots: int) -> int {
    if slots < 128 {
        64
    } else if slots < 512 {
        256
    } else if slots < 2_048 {
        1_024
    } else {
        4_096
    }
}

/// The slots that the values of a ring get.
pub open spec fn slots_of(value_bytes: int, producers: int, consumers: int) -> int {
    TARGET_BYTES as int / larger(value_bytes, 1) / larger(larger(producers, consumers), 1)
}

/// The capacity that is chosen for a computed number of slots.
pub fn plateau(slots: usize) -> (capacity: usize)
    ensures
        capacity == plateau_of(slots as int),
{
    if slots < 128 {
        64
    } else if slots < 512 {
        256
    } else if slots < 2_048 {
        1_024
    } else {
        4_096
    }
}

/// The capacity of a ring of plain values.
pub fn automatic(value_bytes: usize, producers: usize, consumers: usize) -> (capacity: usize)
    ensures
        capacity == plateau_of(slots_of(value_bytes as int, producers as int, consumers as int)),
{
    let bytes: usize = if value_bytes == 0 {
        1
    } else {
        value_bytes
    };
    let most: usize = if producers < consumers {
        consumers
    } else {
        producers
    };
    let sides: usize = if most == 0 {
        1
    } else {
        most
    };
    plateau(TARGET_BYTES / bytes / sides)
}

/// The capacity of a ring of `T`.
pub fn automatic_for<T>(producers: usize, consumers: usize) -> (capacity: usize)
    ensures
        capacity == plateau_of(
            slots_of(vstd::layout::size_of::<T>() as int, producers as int, consumers as int),
        ),
{
    automatic(core::mem::size_of::<T>(), producers, consumers)
}

/// The slots that the values of a leased channel get.
pub open spec fn leased_slots(value_bytes: int, producers: int, consumers: int) -> int {
    (TARGET_BYTES * consumers) / (larger(value_bytes, 1) * producers)
}

/// The capacity of a leased channel before it is rounded to batches.
pub open spec fn leased_plateau(value_bytes: int, producers: int, consumers: int) -> int {
    let chosen = plateau_of(leased_slots(value_bytes, producers, consumers));
    if value_bytes > 64 && chosen > 1_024 {
        1_024
    } else {
        chosen
    }
}

/// `slots`, rounded up to whole batches.
pub open spec fn whole_batches(slots: int, batch: int) -> int {
    if slots % batch == 0 {
        slots
    } else {
        slots + (batch - slots % batch)
    }
}

/// The capacity of a leased channel, if it can be counted.
pub fn leased(value_bytes: usize, producers: usize, consumers: usize, batch: usize) -> (capacity:
    Option<usize>)
    requires
        producers > 0,
        batch > 0,
    ensures
        capacity is Some <==> whole_batches(
            leased_plateau(value_bytes as int, producers as int, consumers as int),
            batch as int,
        ) <= usize::MAX,
        capacity matches Some(slots) ==> slots == whole_batches(
            leased_plateau(value_bytes as int, producers as int, consumers as int),
            batch as int,
        ),
{
    let bytes: u128 = if value_bytes == 0 {
        1
    } else {
        value_bytes as u128
    };
    proof {
        let v = bytes as int;
        let p = producers as int;
        let c = consumers as int;
        assert(0 < v * p <= u64::MAX * u64::MAX) by (nonlinear_arith)
            requires
                0 < v <= u64::MAX,
                0 < p <= u64::MAX,
        ;
        assert(0 <= TARGET_BYTES * c <= 1_048_576 * u64::MAX) by (nonlinear_arith)
            requires
                0 <= c <= u64::MAX,
                TARGET_BYTES == 1_048_576,
        ;
    }
    let wide: u128 = (TARGET_BYTES as u128) * (consumers as u128) / (bytes * (producers as u128));
    let computed: usize = if wide < 2_048 {
        wide as usize
    } else {
        2_048
    };
    let mut chosen: usize = plateau(computed);
    if value_bytes > 64 && chosen > 1_024 {
        chosen = 1_024;
    }
    let rest: usize = chosen % batch;
    if rest == 0 {
        Some(chosen)
    } else {
        chosen.checked_add(batch - rest)
    }
}

/// Automatic capacities lie between 64 and 4,096, and neither larger values nor more
/// endpoints get a larger ring.
pub proof fn law_larger_values_get_no_larger_rings(
    a_bytes: int,
    a_producers: int,
    a_consumers: int,
    b_bytes: int,
    b_producers: int,
    b_consumers: int,
)
    requires
        0 <= a_bytes <= b_bytes,
        0 <= a_producers <= b_producers,
        0 <= a_consumers <= b_consumers,
    ensures
        64 <= plateau_of(slots_of(b_bytes, b_producers, b_consumers)),
        plateau_of(slots_of(b_bytes, b_producers, b_consumers)) <= plateau_of(
            slots_of(a_bytes, a_producers, a_consumers),
        ),
        plateau_of(slots_of(a_bytes, a_producers, a_consumers)) <= 4_096,
{
    let target = TARGET_BYTES as int;
    let x = larger(a_bytes, 1);
    let y = larger(b_bytes, 1);
    let m = larger(larger(a_producers, a_consumers), 1);
    let n = larger(larger(b_producers, b_consumers), 1);
    lemma_div_is_ordered_by_denominator(target, x, y);
    lemma_div_is_ordered(target / y, target / x, n);
    assert(0 <= target / x) by (nonlinear_arith)
        requires
            target >= 0,
            x >= 1,
    ;
    lemma_div_is_ordered_by_denominator(target / x, m, n);
}

/// What a declaration comes to for values of so many bytes, with so many producers and
/// consumers. A number in the declaration stands. Storage that is not bounded by its
/// capacity is not sized by its values.
pub open spec fn chosen(
    explicit: Option<usize>,
    bounded: bool,
    value_bytes: int,
    producers: int,
    consumers: int,
) -> int {
    match explicit {
        Some(capacity) => capacity as int,
        None => if bounded {
            plateau_of(slots_of(value_bytes, producers, consumers))
        } else {
            PLAIN_CAPACITY as int
        },
    }
}

/// What a declaration comes to for so many producers and consumers of `T`.
fn choose_for<T, B: Backend<T>>(
    explicit: Option<usize>,
    producers: usize,
    consumers: usize,
) -> (capacity: usize)
    ensures
        capacity == chosen(
            explicit,
            B::bounded(),
            vstd::layout::size_of::<T>() as int,
            producers as int,
            consumers as int,
        ),
{
    match explicit {
        Some(capacity) => capacity,
        None => if B::bounded_capacity() {
            automatic_for::<T>(producers, consumers)
        } else {
            PLAIN_CAPACITY
        },
    }
}

/// The capacity of a channel of `T` whose declaration has its number of producers, or how
/// many are expected: fixed channels, and dynamic ones without a bound.
pub fn selected<T, B: Backend<T>>(shape: &Shape) -> (capacity: usize)
    ensures
        capacity == chosen(
            shape.capacity,
            B::bounded(),
            vstd::layout::size_of::<T>() as int,
            shape.producers as int,
            shape.consumers as int,
        ),
{
    choose_for::<T, B>(shape.capacity, shape.producers, shape.consumers)
}

/// The capacity of a channel of `T` with a pool of producer slots, all of which count.
pub fn selected_pool<T, B: Backend<T>>(shape: &Shape) -> (capacity: usize)
    ensures
        capacity == chosen(
            shape.capacity,
            B::bounded(),
            vstd::layout::size_of::<T>() as int,
            shape.max_producers as int,
            shape.consumers as int,
        ),
{
    choose_for::<T, B>(shape.capacity, shape.max_producers, shape.consumers)
}

/// The capacity of a dynamic channel of `T` whose number of producers is bounded.
pub fn selected_array<T, B: Backend<T>>(shape: &Shape) -> (capacity: usize)
    ensures
        capacity == chosen(
            shape.capacity,
            B::bounded(),
            vstd::layout::size_of::<T>() as int,
            shape.array_producers as int,
            shape.consumers as int,
        ),
{
    choose_for::<T, B>(shape.capacity, shape.array_producers, shape.consumers)
}

/// The capacity of a broadcast or a brokered channel under a declaration. A number in the
/// declaration stands.
pub fn selected_plain(shape: &Shape) -> (capacity: usize)
    ensures
        capacity == match shape.capacity {
            Some(chosen) => chosen,
            None => PLAIN_CAPACITY,
        },
{
    match shape.capacity {
        Some(chosen) => chosen,
        None => PLAIN_CAPACITY,
    }
}

/// The capacity of one lane: a producer's capacity, divided among its lanes and rounded down.
pub open spec fn lane_share(capacity: int, consumers: int) -> int {
    capacity / larger(consumers, 1)
}

/// The capacity of each lane of a grid of `T`: what a producer gets, divided among the
/// consumers.
pub fn automatic_lane<T>(producers: usize, consumers: usize) -> (capacity: usize)
    ensures
        capacity == lane_share(
            plateau_of(
                slots_of(vstd::layout::size_of::<T>() as int, producers as int, consumers as int),
            ),
            consumers as int,
        ),
{
    let whole: usize = automatic_for::<T>(producers, consumers);
    if consumers == 0 {
        whole
    } else {
        whole / consumers
    }
}


/// An automatic capacity is one of 64, 256, 1,024 and 4,096, and the nearest of them: less than
/// twice and no less than half the slots that were computed, as far as there is such a one.
pub proof fn law_plateaus_are_near(slots: int)
    ensures
        ({
            let chosen = plateau_of(slots);
            &&& chosen == 64 || chosen == 256 || chosen == 1_024 || chosen == 4_096
            &&& 32 <= slots < 8_192 ==> chosen <= 2 * slots && slots < 2 * chosen
            &&& slots < 64 ==> chosen == 64
            &&& slots >= 4_096 ==> chosen == 4_096
        }),
{
}

/// A ring is meant to hold one mebibyte in all, divided among its busier side: the slots are as
/// many as fit, and one more would not.
pub proof fn law_rings_hold_a_mebibyte(value_bytes: int, producers: int, consumers: int)
    requires
        0 < value_bytes,
        0 < producers,
        0 < consumers,
    ensures
        ({
            let slots = slots_of(value_bytes, producers, consumers);
            let sides = if producers < consumers {
                consumers
            } else {
                producers
            };
            0 <= slots && slots * sides * value_bytes <= 1_048_576 < (slots + 1) * sides
                * value_bytes
        }),
        slots_of(0, producers, consumers) == slots_of(1, producers, consumers),
        slots_of(value_bytes, 0, consumers) == slots_of(value_bytes, 1, consumers),
        slots_of(value_bytes, producers, 0) == slots_of(value_bytes, producers, 1),
{
    let sides = if producers < consumers {
        consumers
    } else {
        producers
    };
    let whole = 1_048_576int / value_bytes;
    let slots = slots_of(value_bytes, producers, consumers);
    lemma_quotient(1_048_576, value_bytes);
    lemma_quotient(whole, sides);
    assert(slots * sides * value_bytes <= whole * value_bytes) by (nonlinear_arith)
        requires
            slots * sides <= whole,
            0 < value_bytes,
    ;
    assert((slots + 1) * sides * value_bytes >= (whole + 1) * value_bytes) by (nonlinear_arith)
        requires
            (slots + 1) * sides >= whole + 1,
            0 < value_bytes,
    ;
}

proof fn lemma_quotient(a: int, b: int)
    requires
        0 <= a,
        0 < b,
    ensures
        0 <= a / b,
        (a / b) * b <= a < (a / b + 1) * b,
{
    vstd::arithmetic::div_mod::lemma_fundamental_div_mod(a, b);
    vstd::arithmetic::div_mod::lemma_mod_bound(a, b);
    let q = a / b;
    assert(q * b <= a < (q + 1) * b && 0 <= q) by (nonlinear_arith)
        requires
            a == b * q + a % b,
            0 <= a % b < b,
            0 <= a,
    ;
}

/// The pool of a leased channel is meant to hold one mebibyte for every consumer, divided among
/// the producers; where values are wide it has at most 1,024 slots.
pub proof fn law_leased_pools_hold_a_mebibyte(value_bytes: int, producers: int, consumers: int)
    requires
        0 < value_bytes,
        0 < producers,
        0 <= consumers,
    ensures
        ({
            let slots = leased_slots(value_bytes, producers, consumers);
            0 <= slots && slots * (value_bytes * producers) <= 1_048_576 * consumers < (slots + 1)
                * (value_bytes * producers)
        }),
        ({
            let chosen = leased_plateau(value_bytes, producers, consumers);
            let slots = leased_slots(value_bytes, producers, consumers);
            &&& chosen == 64 || chosen == 256 || chosen == 1_024 || chosen == 4_096
            &&& value_bytes > 64 ==> chosen <= 1_024
            &&& 32 <= slots < 8_192 && (value_bytes <= 64 || slots < 2_048) ==> chosen <= 2 * slots
                && slots < 2 * chosen
            &&& slots < 64 ==> chosen == 64
            &&& slots >= 2_048 && value_bytes > 64 ==> chosen == 1_024
            &&& slots >= 4_096 && value_bytes <= 64 ==> chosen == 4_096
        }),
{
    assert(value_bytes * producers > 0) by (nonlinear_arith)
        requires
            0 < value_bytes,
            0 < producers,
    ;
    lemma_quotient(1_048_576 * consumers, value_bytes * producers);
}

/// A leased capacity is a number of whole batches: the least one that reaches the slots.
pub proof fn law_leased_capacities_are_whole_batches(slots: int, batch: int)
    requires
        0 <= slots,
        0 < batch,
    ensures
        ({
            let whole = whole_batches(slots, batch);
            &&& whole % batch == 0
            &&& slots <= whole < slots + batch
        }),
{
    let r = slots % batch;
    let q = slots / batch;
    vstd::arithmetic::div_mod::lemma_fundamental_div_mod(slots, batch);
    vstd::arithmetic::div_mod::lemma_mod_bound(slots, batch);
    if r != 0 {
        let whole = slots + (batch - r);
        assert(whole == (q + 1) * batch) by (nonlinear_arith)
            requires
                slots == batch * q + r,
                whole == slots + (batch - r),
        ;
        vstd::arithmetic::div_mod::lemma_mod_multiples_basic(q + 1, batch);
    }
}

/// The lanes of a producer share its capacity evenly: together they hold no more than it, and
/// one slot more for each would be too much.
pub proof fn law_lanes_share_a_capacity(capacity: int, consumers: int)
    requires
        0 <= capacity,
        0 < consumers,
    ensures
        0 <= lane_share(capacity, consumers),
        lane_share(capacity, consumers) * consumers <= capacity < (lane_share(capacity, consumers)
            + 1) * consumers,
{
    lemma_quotient(capacity, consumers);
}

/// A number in a declaration stands, whatever the channel carries and whoever uses it; and
/// storage without a bound is sized the same whatever it carries.
pub proof fn law_declared_capacities_stand(
    explicit: Option<usize>,
    bounded: bool,
    value_bytes: int,
    producers: int,
    consumers: int,
)
    ensures
        ({
            let capacity = chosen(explicit, bounded, value_bytes, producers, consumers);
            &&& explicit matches Some(n) ==> capacity == n
            &&& explicit is None && !bounded ==> capacity == 1_024
            &&& explicit is None && bounded ==> capacity == plateau_of(
                slots_of(value_bytes, producers, consumers),
            )
        }),
{
}

} // verus!
