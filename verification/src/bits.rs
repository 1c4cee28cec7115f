//! Member masks: one bit per group member.

use vstd::prelude::*;

verus! {

/// Whether the mask has the bit of member `i`.
pub open spec fn has_bit(mask: u8, i: int) -> bool {
    0 <= i < 8 && (mask >> (i as u8)) & 1 == 1
}

/// The mask without the bit of member `i`.
pub open spec fn without(mask: u8, i: int) -> u8 {
    mask & !(1u8 << (i as u8))
}

/// The bits of a mask without one of them.
pub proof fn lemma_without(mask: u8, member: int)
    requires
        0 <= member < 8,
    ensures
        forall|i: int| #[trigger] has_bit(without(mask, member), i) <==> has_bit(mask, i) && i
            != member,
{
    lemma_difference(mask, 1u8 << (member as u8));
    lemma_bit(member);
}

/// The bit of a member is that of no other member.
pub proof fn lemma_bit(member: int)
    requires
        0 <= member < 8,
    ensures
        forall|i: int| #[trigger] has_bit(1u8 << (member as u8), i) <==> i == member,
{
    assert forall|i: int| #[trigger] has_bit(1u8 << (member as u8), i) <==> i == member by {
        if 0 <= i < 8 {
            lemma_single(member as u8, i as u8);
        }
    }
}

/// The bit of a member.
pub fn member_bit(member: u32) -> (bit: u8)
    requires
        member < 8,
    ensures
        bit == 1u8 << (member as u8),
        forall|i: int| #[trigger] has_bit(bit, i) <==> i == member,
{
    let m: u8 = member as u8;
    let bit: u8 = 1u8 << m;
    proof {
        lemma_bit(member as int);
    }
    bit
}

proof fn lemma_single(m: u8, j: u8)
    requires
        m < 8,
        j < 8,
    ensures
        (((1u8 << m) >> j) & 1 == 1) <==> m == j,
{
    assert((((1u8 << m) >> j) & 1 == 1) <==> m == j) by (bit_vector)
        requires
            m < 8,
            j < 8,
    ;
}

/// The bits of two masks together.
pub proof fn lemma_union(a: u8, b: u8)
    ensures
        forall|i: int| #[trigger] has_bit(a | b, i) <==> has_bit(a, i) || has_bit(b, i),
{
    assert forall|i: int| #[trigger] has_bit(a | b, i) <==> has_bit(a, i) || has_bit(b, i) by {
        if 0 <= i < 8 {
            let j = i as u8;
            assert((((a | b) >> j) & 1 == 1) <==> ((a >> j) & 1 == 1) || ((b >> j) & 1 == 1))
                by (bit_vector)
                requires
                    j < 8,
            ;
        }
    }
}

/// The bits of one mask that another lacks.
pub proof fn lemma_difference(a: u8, b: u8)
    ensures
        forall|i: int| #[trigger] has_bit(a & !b, i) <==> has_bit(a, i) && !has_bit(b, i),
{
    assert forall|i: int| #[trigger] has_bit(a & !b, i) <==> has_bit(a, i) && !has_bit(b, i) by {
        if 0 <= i < 8 {
            let j = i as u8;
            assert((((a & !b) >> j) & 1 == 1) <==> ((a >> j) & 1 == 1) && !((b >> j) & 1 == 1))
                by (bit_vector)
                requires
                    j < 8,
            ;
        }
    }
}

/// The bits that two masks share.
pub proof fn lemma_intersection(a: u8, b: u8)
    ensures
        forall|i: int| #[trigger] has_bit(a & b, i) <==> has_bit(a, i) && has_bit(b, i),
{
    assert forall|i: int| #[trigger] has_bit(a & b, i) <==> has_bit(a, i) && has_bit(b, i) by {
        if 0 <= i < 8 {
            let j = i as u8;
            assert((((a & b) >> j) & 1 == 1) <==> ((a >> j) & 1 == 1) && ((b >> j) & 1 == 1))
                by (bit_vector)
                requires
                    j < 8,
            ;
        }
    }
}

/// Only the zero mask has no bits.
pub proof fn lemma_empty(mask: u8)
    ensures
        mask == 0 <==> (forall|i: int| !#[trigger] has_bit(mask, i)),
{
    if mask == 0 {
        assert forall|i: int| !#[trigger] has_bit(mask, i) by {
            if 0 <= i < 8 {
                let j = i as u8;
                assert((0u8 >> j) & 1 != 1) by (bit_vector);
            }
        }
    } else {
        assert((mask >> 0u8) & 1 == 1 || (mask >> 1u8) & 1 == 1 || (mask >> 2u8) & 1 == 1 || (mask
            >> 3u8) & 1 == 1 || (mask >> 4u8) & 1 == 1 || (mask >> 5u8) & 1 == 1 || (mask >> 6u8)
            & 1 == 1 || (mask >> 7u8) & 1 == 1) by (bit_vector)
            requires
                mask != 0,
        ;
        assert(has_bit(mask, 0) || has_bit(mask, 1) || has_bit(mask, 2) || has_bit(mask, 3) || has_bit(mask, 4) || has_bit(
            mask,
            5,
        ) || has_bit(mask, 6) || has_bit(mask, 7));
    }
}

/// The mask of the first `count` members.
pub fn full_mask(count: usize) -> (mask: u8)
    requires
        count <= 4,
    ensures
        forall|i: int| #[trigger] has_bit(mask, i) <==> 0 <= i < count,
{
    let mut mask: u8 = 0;
    proof {
        lemma_empty(0);
    }
    for k in 0..count
        invariant
            count <= 4,
            forall|i: int| #[trigger] has_bit(mask, i) <==> 0 <= i < k,
    {
        let bit = member_bit(k as u32);
        proof {
            lemma_union(mask, bit);
        }
        mask = mask | bit;
    }
    mask
}

/// Member `i` is in a mask exactly when the mask, divided by two to the power `i`, is odd.
pub proof fn law_bits_are_binary_digits(mask: u8)
    ensures
        has_bit(mask, 0) <==> mask % 2 == 1,
        has_bit(mask, 1) <==> mask / 2 % 2 == 1,
        has_bit(mask, 2) <==> mask / 4 % 2 == 1,
        has_bit(mask, 3) <==> mask / 8 % 2 == 1,
        forall|i: int| #[trigger] has_bit(mask, i) ==> 0 <= i < 8,
{
    assert(((mask >> 0u8) & 1 == 1) == (mask % 2 == 1)) by (bit_vector);
    assert(((mask >> 1u8) & 1 == 1) == (mask / 2 % 2 == 1)) by (bit_vector);
    assert(((mask >> 2u8) & 1 == 1) == (mask / 4 % 2 == 1)) by (bit_vector);
    assert(((mask >> 3u8) & 1 == 1) == (mask / 8 % 2 == 1)) by (bit_vector);
}

} // verus!
