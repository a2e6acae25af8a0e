//! Sets of small numbers as bitmasks.
use vstd::prelude::*;

verus! {

/// Whether bit `i` of a mask is set.
pub open spec fn bit_set(mask: u64, i: int) -> bool {
    0 <= i < 64 && (mask >> (i as u64)) & 1 == 1
}

/// A mask is zero where no bit of it is set.
pub proof fn lemma_empty_mask(mask: u64)
    ensures
        mask == 0 <==> forall|j: int| !(#[trigger] bit_set(mask, j)),
        mask != 0 ==> exists|j: int| #[trigger] bit_set(mask, j),
{
    assert forall|j: int| !(#[trigger] bit_set(0, j)) by {
        let k = j as u64;
        assert((0u64 >> k) & 1 == 0) by (bit_vector);
    }
    if mask != 0 {
        let at = mask.trailing_zeros() as u64;
        assert(at < 64 && (mask >> at) & 1 == 1);
        assert(bit_set(mask, at as int));
    }
}

/// The mask of one index; indices from 64 on select nothing.
pub fn bit(i: usize) -> (mask: u64)
    ensures
        forall|j: int| #[trigger] bit_set(mask, j) <==> j == i && j < 64,
{
    if i >= 64 {
        proof {
            lemma_empty_mask(0);
        }
        return 0;
    }
    let at: u64 = i as u64;
    let mask: u64 = 1u64 << at;
    assert forall|j: int| #[trigger] bit_set(mask, j) <==> j == i by {
        if 0 <= j < 64 {
            let k = j as u64;
            assert(at < 64 && k < 64 ==> (((1u64 << at) >> k) & 1 == 1 <==> k == at)) by (bit_vector);
        }
    }
    mask
}

/// The members of two masks together.
pub fn union(a: u64, b: u64) -> (mask: u64)
    ensures
        forall|j: int| #[trigger] bit_set(mask, j) <==> bit_set(a, j) || bit_set(b, j),
{
    assert forall|j: int| #[trigger] bit_set(a | b, j) <==> bit_set(a, j) || bit_set(b, j) by {
        let k = j as u64;
        assert(((a | b) >> k) & 1 == 1 <==> ((a >> k) & 1 == 1 || (b >> k) & 1 == 1))
            by (bit_vector);
    }
    a | b
}

/// The members that two masks have in common.
pub fn common(a: u64, b: u64) -> (mask: u64)
    ensures
        forall|j: int| #[trigger] bit_set(mask, j) <==> bit_set(a, j) && bit_set(b, j),
{
    assert forall|j: int| #[trigger] bit_set(a & b, j) <==> bit_set(a, j) && bit_set(b, j) by {
        let k = j as u64;
        assert(((a & b) >> k) & 1 == 1 <==> ((a >> k) & 1 == 1 && (b >> k) & 1 == 1))
            by (bit_vector);
    }
    a & b
}

/// The members of `a` that are not members of `b`.
pub fn without(a: u64, b: u64) -> (mask: u64)
    ensures
        forall|j: int| #[trigger] bit_set(mask, j) <==> bit_set(a, j) && !bit_set(b, j),
{
    assert forall|j: int| #[trigger] bit_set(a & !b, j) <==> bit_set(a, j) && !bit_set(b, j) by {
        if 0 <= j < 64 {
            let k = j as u64;
            assert(k < 64 ==> (((a & !b) >> k) & 1 == 1 <==> ((a >> k) & 1 == 1 && (b >> k) & 1
                != 1))) by (bit_vector);
        }
    }
    a & !b
}

/// Whether `i` is a member of a mask.
pub fn has(mask: u64, i: usize) -> (member: bool)
    ensures
        member == bit_set(mask, i as int),
{
    if i >= 64 {
        return false;
    }
    (mask >> (i as u64)) & 1 == 1
}

/// The first `n` numbers, and none from 64 on.
pub fn first(n: usize) -> (mask: u64)
    ensures
        forall|j: int| #[trigger] bit_set(mask, j) <==> 0 <= j < n && j < 64,
{
    if n >= 64 {
        assert forall|j: int| #[trigger] bit_set(u64::MAX, j) <==> 0 <= j < 64 by {
            if 0 <= j < 64 {
                let k = j as u64;
                assert(k < 64 ==> (0xffff_ffff_ffff_ffffu64 >> k) & 1 == 1) by (bit_vector);
            }
        }
        return u64::MAX;
    }
    let width: u64 = n as u64;
    assert(width < 64 ==> (1u64 << width) >= 1) by (bit_vector);
    let mask: u64 = (1u64 << width) - 1;
    assert forall|j: int| #[trigger] bit_set(mask, j) <==> 0 <= j < n by {
        if 0 <= j < 64 {
            let k = j as u64;
            assert(width < 64 && k < 64 ==> (((((1u64 << width) - 1) as u64) >> k) & 1 == 1 <==> k
                < width)) by (bit_vector);
        }
    }
    mask
}

/// The lowest bit set in `mask`, and the mask without it.
pub fn split_lowest(mask: u64) -> (split: (usize, u64))
    requires
        mask != 0,
    ensures
        bit_set(mask, split.0 as int),
        forall|j: int| 0 <= j < split.0 ==> !bit_set(mask, j),
        forall|j: int| #[trigger] bit_set(split.1, j) <==> bit_set(mask, j) && j != split.0,
{
    let index: u32 = mask.trailing_zeros();
    let at: u64 = index as u64;
    let rest: u64 = mask & (mask - 1);
    proof {
        assert(at < 64 && (mask >> at) & 1 == 1);
        assert forall|j: int| 0 <= j < at implies !(#[trigger] bit_set(mask, j)) by {
            let k = j as u64;
            assert((mask >> k) & 1u64 == 0);
        }
        let shift = (64 - at) as u64;
        assert(mask << shift == 0);
        assert forall|j: int| #[trigger] bit_set(rest, j) <==> bit_set(mask, j) && j != at by {
            if 0 <= j < 64 {
                let k = j as u64;
                assert(((mask & ((mask - 1) as u64)) >> k) & 1 == 1 <==> (mask >> k) & 1 == 1 && k
                    != at) by (bit_vector)
                    requires
                        mask != 0,
                        at < 64,
                        k < 64,
                        (mask >> at) & 1 == 1,
                        shift == 64 - at,
                        mask << shift == 0,
                ;
            }
        }
    }
    (index as usize, rest)
}

} // verus!
