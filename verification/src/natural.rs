//! Comparing names in natural order, where a run of decimal digits counts as a number.

use std::cmp::Ordering;
use vstd::prelude::*;

verus! {

/// How two names stand to each other in natural order: runs of decimal digits that begin
/// with no zero are compared as numbers, runs that begin with a zero digit by digit, and
/// every other byte by its value.
pub uninterp spec fn natural_order(lhs: Seq<u8>, rhs: Seq<u8>) -> Ordering;

/// The decimal digit that a byte stands for, if it stands for one.
pub open spec fn spec_digit_of(byte: u8) -> Option<isize> {
    if 0x30 <= byte <= 0x39 {
        Some((byte - 0x30) as isize)
    } else {
        None
    }
}

/// Gives the decimal digit that a byte stands for, if it stands for one.
#[verifier::when_used_as_spec(spec_digit_of)]
pub fn digit_of(byte: u8) -> (digit: Option<isize>)
    ensures
        digit == spec_digit_of(byte),
{
    if 0x30 <= byte && byte <= 0x39 {
        Some((byte - 0x30) as isize)
    } else {
        None
    }
}

/// Whether a byte is passed over when names are compared: none is.
fn passed_over(_byte: u8) -> (r: bool)
    ensures
        !r,
{
    false
}

/// How two bytes stand to each other by their value.
fn byte_order(a: u8, b: u8) -> (r: Ordering)
    ensures
        r == (if a < b {
            Ordering::Less
        } else if a == b {
            Ordering::Equal
        } else {
            Ordering::Greater
        }),
{
    if a < b {
        Ordering::Less
    } else if a == b {
        Ordering::Equal
    } else {
        Ordering::Greater
    }
}

/// `natord::compare_iter` on the bytes of two names, where no byte is passed over, bytes
/// that are no digits are compared by their value, and the digits are the bytes from `0`
/// to `9`. The result depends on the two names alone.
#[verifier::external_body]
fn natord_compare(lhs: &[u8], rhs: &[u8]) -> (r: Ordering)
    ensures
        r == natural_order(lhs@, rhs@),
{
    natord::compare_iter(
        lhs.iter(),
        rhs.iter(),
        |b| passed_over(**b),
        |a, b| byte_order(**a, **b),
        |b| digit_of(**b),
    )
}

/// Compares two names, given as bytes, in natural order.
pub fn compare_naturally(lhs: &[u8], rhs: &[u8]) -> (r: Ordering)
    ensures
        r == natural_order(lhs@, rhs@),
{
    natord_compare(lhs, rhs)
}

} // verus!
