//! Small helpers.

use crate::bitset::{bitset_insert, bitset_len, bitset_length, bitset_ones};
use fixedbitset::FixedBitSet;
use vstd::prelude::*;

verus! {

/// Sets the whole `FixedBitSet` to ones.
pub fn fill_fixedbitset_with_ones(bitset: &mut FixedBitSet)
    ensures
        bitset_len(*final(bitset)) == bitset_len(*old(bitset)),
        bitset_ones(*final(bitset)) =~= bitset_ones(*old(bitset)).union(
            vstd::set_lib::set_int_range(0, bitset_len(*old(bitset)) as int),
        ),
{
    let n = bitset_length(bitset);
    let mut i: usize = 0;
    while i < n
        invariant
            i <= n,
            n == bitset_len(*bitset),
            n == bitset_len(*old(bitset)),
            bitset_ones(*bitset) =~= bitset_ones(*old(bitset)).union(
                vstd::set_lib::set_int_range(0, i as int),
            ),
        decreases n - i,
    {
        bitset_insert(bitset, i);
        i += 1;
    }
}

/// Computes the sum of two 3-tuples.
pub fn tuple_3_add(left: (usize, usize, usize), right: (usize, usize, usize)) -> (sum: (
    usize,
    usize,
    usize,
))
    requires
        left.0 + right.0 <= usize::MAX,
        left.1 + right.1 <= usize::MAX,
        left.2 + right.2 <= usize::MAX,
    ensures
        sum.0 == left.0 + right.0,
        sum.1 == left.1 + right.1,
        sum.2 == left.2 + right.2,
{
    (left.0 + right.0, left.1 + right.1, left.2 + right.2)
}

/// Computes the sum of two 4-tuples.
pub fn tuple_4_add(
    left: (usize, usize, usize, usize),
    right: (usize, usize, usize, usize),
) -> (sum: (usize, usize, usize, usize))
    requires
        left.0 + right.0 <= usize::MAX,
        left.1 + right.1 <= usize::MAX,
        left.2 + right.2 <= usize::MAX,
        left.3 + right.3 <= usize::MAX,
    ensures
        sum.0 == left.0 + right.0,
        sum.1 == left.1 + right.1,
        sum.2 == left.2 + right.2,
        sum.3 == left.3 + right.3,
{
    (left.0 + right.0, left.1 + right.1, left.2 + right.2, left.3 + right.3)
}

/// The text that bytes are read as when what is no UTF-8 is replaced by U+FFFD.
pub uninterp spec fn lossy_text(bytes: Seq<u8>) -> Seq<char>;

/// `String::from_utf8_lossy`: the text of the bytes, with U+FFFD in place of what is no
/// UTF-8. Bytes that are UTF-8 give the text they encode.
#[verifier::external_body]
fn from_utf8_lossy(bytes: &Vec<u8>) -> (text: String)
    ensures
        text@ == lossy_text(bytes@),
        vstd::utf8::valid_utf8(bytes@) ==> text@ == vstd::utf8::decode_utf8(bytes@),
{
    String::from_utf8_lossy(bytes).into_owned()
}

/// Things that can be turned into a string even where they are no text.
pub trait IntoStringLossy: Sized {
    /// The text that the thing is turned into.
    spec fn spec_lossy(self) -> Seq<char>;

    /// Turns the thing into a string. What is no text is replaced by U+FFFD.
    fn into_string_lossy(self) -> (text: String)
        ensures
            text@ == self.spec_lossy(),
    ;
}

impl IntoStringLossy for Vec<u8> {
    open spec fn spec_lossy(self) -> Seq<char> {
        lossy_text(self@)
    }

    fn into_string_lossy(self) -> (text: String)
        ensures
            vstd::utf8::valid_utf8(self@) ==> text@ == vstd::utf8::decode_utf8(self@),
    {
        from_utf8_lossy(&self)
    }
}

} // verus!
