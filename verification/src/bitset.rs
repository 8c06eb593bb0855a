//! Sets of block numbers, kept by a `fixedbitset` bit set.

use fixedbitset::FixedBitSet;
use vstd::prelude::*;

verus! {

/// The number of bits of the set.
pub uninterp spec fn bitset_len(bits: FixedBitSet) -> nat;

/// The numbers of the bits that are set.
pub uninterp spec fn bitset_ones(bits: FixedBitSet) -> Set<int>;

/// `FixedBitSet::with_capacity`: a set of `n` bits, none of them set.
#[verifier::external_body]
pub(crate) fn bitset_with_capacity(n: usize) -> (bits: FixedBitSet)
    ensures
        bitset_len(bits) == n,
        bitset_ones(bits) == Set::<int>::empty(),
{
    FixedBitSet::with_capacity(n)
}

/// `FixedBitSet::len`: the number of bits, set or not.
#[verifier::external_body]
pub(crate) fn bitset_length(bits: &FixedBitSet) -> (n: usize)
    ensures
        n == bitset_len(*bits),
{
    bits.len()
}

/// `FixedBitSet::insert`: sets one bit. The outside function panics on a bit past the end.
#[verifier::external_body]
pub(crate) fn bitset_insert(bits: &mut FixedBitSet, bit: usize)
    requires
        bit < bitset_len(*old(bits)),
    ensures
        bitset_len(*final(bits)) == bitset_len(*old(bits)),
        bitset_ones(*final(bits)) == bitset_ones(*old(bits)).insert(bit as int),
{
    bits.insert(bit)
}

/// `FixedBitSet::clear`: clears every bit.
#[verifier::external_body]
pub(crate) fn bitset_clear(bits: &mut FixedBitSet)
    ensures
        bitset_len(*final(bits)) == bitset_len(*old(bits)),
        bitset_ones(*final(bits)) == Set::<int>::empty(),
{
    bits.clear()
}

/// Whether each number of the list is above those before it.
pub open spec fn rising(list: Seq<usize>) -> bool {
    forall|i: int, j: int| 0 <= i < j < list.len() ==> list[i] < list[j]
}

/// `FixedBitSet::ones`: the numbers of the bits that are set, in rising order.
#[verifier::external_body]
pub(crate) fn bitset_list(bits: &FixedBitSet) -> (r: Vec<usize>)
    ensures
        rising(r@),
        forall|i: int| 0 <= i < r@.len() ==> bitset_ones(*bits).contains(#[trigger] r@[i] as int),
        forall|bit: int|
            (#[trigger] r@.contains(bit as usize)) || !(0 <= bit <= usize::MAX && bitset_ones(
                *bits,
            ).contains(bit)),
{
    bits.ones().collect()
}

} // verus!
