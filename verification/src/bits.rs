use vstd::prelude::*;
use vstd::std_specs::bits::{axiom_u64_leading_zeros, axiom_u64_trailing_zeros, u64_leading_zeros};

verus! {

/// Whether bit `index` of `mask` is set.
pub open spec fn bit(mask: u64, index: int) -> bool {
    0 <= index < 64 && (mask >> (index as u64)) & 1u64 == 1u64
}

/// The positions of the set bits of `mask`.
pub open spec fn ones(mask: u64) -> Set<int> {
    Set::new(|index: int| bit(mask, index))
}

/// The set bits of `mask` below `limit`.
pub open spec fn ones_below(mask: u64, limit: int) -> Set<int> {
    Set::new(|index: int| index < limit && bit(mask, index))
}

/// The set bits of a mask are a finite set of positions under 64.
pub proof fn lemma_ones_finite(mask: u64, limit: int)
    ensures
        ones_below(mask, limit).finite(),
        ones_below(mask, limit).subset_of(vstd::set_lib::set_int_range(0, 64)),
        ones(mask).finite(),
        ones(mask).len() <= 64,
{
    let range = vstd::set_lib::set_int_range(0, 64);
    vstd::set_lib::lemma_int_range(0, 64);
    assert(ones_below(mask, limit).subset_of(range));
    vstd::set_lib::lemma_len_subset(ones_below(mask, limit), range);
    assert(ones(mask).subset_of(range));
    vstd::set_lib::lemma_len_subset(ones(mask), range);
}

/// Bit `index` of a union is set exactly when it is set in either side.
pub proof fn lemma_bit_or(a: u64, b: u64, index: u64)
    requires
        index < 64,
    ensures
        ((a | b) >> index) & 1u64 == 1u64 <==> ((a >> index) & 1u64 == 1u64 || (b >> index)
            & 1u64 == 1u64),
{
    assert(((a | b) >> index) & 1u64 == 1u64 <==> ((a >> index) & 1u64 == 1u64 || (b >> index)
        & 1u64 == 1u64)) by (bit_vector)
        requires
            index < 64,
    ;
}

/// The set bits of a union are the union of the set bits.
pub proof fn lemma_ones_or(a: u64, b: u64)
    ensures
        ones(a | b) == ones(a).union(ones(b)),
{
    assert forall|index: int| ones(a | b).contains(index) <==> ones(a).union(ones(b)).contains(
        index,
    ) by {
        if 0 <= index < 64 {
            lemma_bit_or(a, b, index as u64);
        }
    }
    assert(ones(a | b) =~= ones(a).union(ones(b)));
}

/// The set bits of an intersection are the intersection of the set bits.
pub proof fn lemma_ones_and(a: u64, b: u64)
    ensures
        ones(a & b) == ones(a).intersect(ones(b)),
{
    assert forall|index: int| ones(a & b).contains(index) <==> ones(a).intersect(ones(b)).contains(
        index,
    ) by {
        if 0 <= index < 64 {
            let i = index as u64;
            assert(((a & b) >> i) & 1u64 == 1u64 <==> ((a >> i) & 1u64 == 1u64 && (b >> i) & 1u64
                == 1u64)) by (bit_vector)
                requires
                    i < 64,
            ;
        }
    }
    assert(ones(a & b) =~= ones(a).intersect(ones(b)));
}

/// Two masks with the same set bits are the same mask.
pub proof fn lemma_ones_injective(a: u64, b: u64)
    requires
        ones(a) == ones(b),
    ensures
        a == b,
{
    assert forall|index: int| !ones(a ^ b).contains(index) by {
        if 0 <= index < 64 {
            let i = index as u64;
            assert(ones(a).contains(index) == ones(b).contains(index));
            assert(ones(a).contains(index) == ((a >> i) & 1u64 == 1u64));
            assert(ones(b).contains(index) == ((b >> i) & 1u64 == 1u64));
            assert(ones(a ^ b).contains(index) == (((a ^ b) >> i) & 1u64 == 1u64));
            assert(((a ^ b) >> i) & 1u64 == 1u64 <==> (((a >> i) & 1u64 == 1u64) != ((b >> i)
                & 1u64 == 1u64))) by (bit_vector)
                requires
                    i < 64,
            ;
        }
    }
    assert(ones(a ^ b) =~= Set::<int>::empty());
    lemma_ones_empty(a ^ b);
    assert(a ^ b == 0 ==> a == b) by (bit_vector);
}

/// The single bit `index` names exactly one position.
pub proof fn lemma_ones_single(index: u64)
    requires
        index < 64,
    ensures
        ones(1u64 << index) == set![index as int],
{
    assert forall|other: int| ones(1u64 << index).contains(other) <==> other == index as int by {
        if 0 <= other < 64 {
            let o = other as u64;
            assert(((1u64 << index) >> o) & 1u64 == 1u64 <==> o == index) by (bit_vector)
                requires
                    index < 64,
                    o < 64,
            ;
        }
    }
    assert(ones(1u64 << index) =~= set![index as int]);
}

/// A mask with no set bit is zero, and zero has no set bit.
pub proof fn lemma_ones_empty(mask: u64)
    ensures
        ones(mask).is_empty() <==> mask == 0,
{
    lemma_ones_finite(mask, 64);
    if mask == 0 {
        assert forall|index: int| !ones(mask).contains(index) by {
            if 0 <= index < 64 {
                let i = index as u64;
                assert((0u64 >> i) & 1u64 == 0u64) by (bit_vector);
            }
        }
        assert(ones(mask) =~= Set::<int>::empty());
    } else {
        axiom_u64_trailing_zeros(mask);
        let low = vstd::std_specs::bits::u64_trailing_zeros(mask) as int;
        assert(ones(mask).contains(low));
    }
}

/// The set bits of a complement are the positions under 64 that are clear.
pub proof fn lemma_ones_not(mask: u64)
    ensures
        forall|index: int| #[trigger] ones(!mask).contains(index) <==> (0 <= index < 64
            && !ones(mask).contains(index)),
{
    assert forall|index: int| #[trigger] ones(!mask).contains(index) <==> (0 <= index < 64
        && !ones(mask).contains(index)) by {
        if 0 <= index < 64 {
            let i = index as u64;
            assert(((!mask) >> i) & 1u64 == 1u64 <==> !((mask >> i) & 1u64 == 1u64)) by (bit_vector)
                requires
                    i < 64,
            ;
        }
    }
}

/// Every set bit of `mask` lies below `64 - leading_zeros(mask)`, and where `mask` is not zero the
/// bit just below that bound is set: it is the highest.
pub proof fn lemma_highest_one(mask: u64)
    ensures
        0 <= 64 - u64_leading_zeros(mask) <= 64,
        forall|index: int| #[trigger] ones(mask).contains(index) ==> index < 64 - u64_leading_zeros(
            mask,
        ),
        mask != 0 ==> ones(mask).contains(63 - u64_leading_zeros(mask)),
{
    axiom_u64_leading_zeros(mask);
    let top = 64 - u64_leading_zeros(mask);
    assert forall|index: int| #[trigger] ones(mask).contains(index) implies index < top by {
        if index >= top {
            let i = index as u64;
            assert((mask >> i) & 1u64 == 0u64);
        }
    }
    if mask != 0 {
        let i = (63 - u64_leading_zeros(mask)) as u64;
        assert((mask >> i) & 1u64 != 0u64);
        assert((mask >> i) & 1u64 != 0u64 ==> (mask >> i) & 1u64 == 1u64) by (bit_vector);
    }
}

/// How many bits of `mask` are set.
pub fn count_ones(mask: u64) -> (count: u32)
    ensures
        count == ones(mask).len(),
        count <= 64,
{
    let mut count: u32 = 0;
    let mut index: u64 = 0;
    proof {
        lemma_ones_finite(mask, 0);
        assert(ones_below(mask, 0) =~= Set::<int>::empty());
    }
    while index < 64
        invariant
            index <= 64,
            count == ones_below(mask, index as int).len(),
            count <= index,
        decreases 64 - index,
    {
        proof {
            lemma_ones_finite(mask, index as int);
            lemma_ones_finite(mask, index + 1);
        }
        if (mask >> index) & 1u64 == 1u64 {
            assert(ones_below(mask, index + 1) =~= ones_below(mask, index as int).insert(
                index as int,
            ));
            count = count + 1;
        } else {
            assert(ones_below(mask, index + 1) =~= ones_below(mask, index as int));
        }
        index = index + 1;
    }
    assert(ones_below(mask, 64) =~= ones(mask));
    count
}

} // verus!
