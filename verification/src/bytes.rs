//! Fixed-width integers inside byte strings.

use byteorder::{BigEndian, ByteOrder, LittleEndian};
use vstd::prelude::*;

verus! {

/// The 32-bit number whose least significant byte comes first in `s`.
pub open spec fn le_u32(s: Seq<u8>) -> u32
    recommends
        s.len() >= 4,
{
    (s[0] as int + s[1] as int * 0x100 + s[2] as int * 0x1_0000 + s[3] as int * 0x100_0000) as u32
}

/// The 32-bit number whose most significant byte comes first in `s`.
pub open spec fn be_u32(s: Seq<u8>) -> u32
    recommends
        s.len() >= 4,
{
    (s[3] as int + s[2] as int * 0x100 + s[1] as int * 0x1_0000 + s[0] as int * 0x100_0000) as u32
}

/// The 32-bit number at the front of `s` in the given byte order.
pub open spec fn u32_at(s: Seq<u8>, big_endian: bool) -> u32
    recommends
        s.len() >= 4,
{
    if big_endian {
        be_u32(s)
    } else {
        le_u32(s)
    }
}

/// The 64-bit number at the front of `s`: two 32-bit halves in the given byte order, the
/// low half first whatever the byte order is.
pub open spec fn u64_at(s: Seq<u8>, big_endian: bool) -> u64
    recommends
        s.len() >= 8,
{
    (u32_at(s, big_endian) as int + u32_at(s.subrange(4, 8), big_endian) as int
        * 0x1_0000_0000) as u64
}

/// `byteorder::LittleEndian::read_u32`: the first four bytes of `buf` as a little-endian
/// number. The outside function panics on a shorter buffer.
#[verifier::external_body]
pub(crate) fn read_le_u32(buf: &[u8]) -> (v: u32)
    requires
        buf@.len() >= 4,
    ensures
        v == le_u32(buf@),
{
    LittleEndian::read_u32(buf)
}

/// `byteorder::BigEndian::read_u32`: the first four bytes of `buf` as a big-endian number.
/// The outside function panics on a shorter buffer.
#[verifier::external_body]
pub(crate) fn read_be_u32(buf: &[u8]) -> (v: u32)
    requires
        buf@.len() >= 4,
    ensures
        v == be_u32(buf@),
{
    BigEndian::read_u32(buf)
}

/// `str::eq`: whether two strings hold the same text.
#[verifier::external_body]
pub(crate) fn same_text(a: &str, b: &str) -> (r: bool)
    ensures
        r == (a@ == b@),
{
    a == b
}

/// `String::from_utf8`: the text that well-formed UTF-8 encodes, and nothing for other bytes.
#[verifier::external_body]
pub(crate) fn string_from_utf8(bytes: Vec<u8>) -> (r: Option<String>)
    ensures
        vstd::utf8::valid_utf8(bytes@) ==> r is Some && r->0@ == vstd::utf8::decode_utf8(bytes@),
        !vstd::utf8::valid_utf8(bytes@) ==> r is None,
{
    String::from_utf8(bytes).ok()
}

} // verus!
