//! The records of a note or data file, as they are read.

use crate::bytes::{be_u32, read_be_u32, string_from_utf8};
use crate::error::{Error, ErrorKind, Location, Result};
use crate::intern::Symbol;
use std::collections::BTreeMap;
use vstd::prelude::*;
use vstd::string::StringSliceAdditionalSpecFns;

verus! {

/// File type.
#[derive(Copy, Clone, PartialEq, Eq, Structural, Hash, Debug)]
pub enum Type {
    /// A note file, written by the compiler.
    Gcno,
    /// A data file, written by the instrumented program.
    Gcda,
}

impl Type {
    /// The file extension of the type.
    pub fn name(self) -> (s: &'static str)
        ensures
            s@ == (if self is Gcno {
                "gcno"@
            } else {
                "gcda"@
            }),
    {
        match self {
            Type::Gcno => "gcno",
            Type::Gcda => "gcda",
        }
    }
}

/// Tag of a record.
#[derive(Copy, Clone, PartialEq, Eq, Structural, Hash, Debug)]
pub struct Tag(pub u32);

/// The tag for the end of file.
pub const EOF_TAG: u32 = 0;

/// The tag of a function record.
pub const FUNCTION_TAG: u32 = 0x0100_0000;

/// The tag of a block list.
pub const BLOCKS_TAG: u32 = 0x0141_0000;

/// The tag of an arc list.
pub const ARCS_TAG: u32 = 0x0143_0000;

/// The tag of a line list.
pub const LINES_TAG: u32 = 0x0145_0000;

/// The tag of a list of arc counters.
pub const COUNTER_BASE_TAG: u32 = 0x01a1_0000;

/// The tag of an object summary.
pub const OBJECT_SUMMARY_TAG: u32 = 0xa100_0000;

/// The tag of a program summary.
pub const PROGRAM_SUMMARY_TAG: u32 = 0xa300_0000;

/// The raw number of the version that no file has.
pub const INVALID_VERSION: u32 = 0;

/// The raw number of version 4.7, `"407*"`, from which on the format differs.
pub const VERSION_4_7: u32 = 0x3430_372a;

/// File version.
#[derive(Copy, Clone, PartialEq, Eq, Structural, PartialOrd, Ord, Hash, Debug)]
pub struct Version(pub u32);

impl Version {
    /// Whether a raw number passes the version mask.
    pub open spec fn spec_supported(raw_version: u32) -> bool {
        raw_version & 0x8080_80ff == 0x2a
    }

    /// The version that stands for "no file yet".
    pub open spec fn spec_invalid() -> Version {
        Version(INVALID_VERSION)
    }

    /// The version that stands for "no file yet".
    #[verifier::when_used_as_spec(spec_invalid)]
    pub fn invalid() -> (v: Version)
        ensures
            v == Version::spec_invalid(),
    {
        Version(INVALID_VERSION)
    }

    /// Converts a raw version number, which must pass the version mask.
    pub fn try_from(raw_version: u32) -> (r: Result<Version>)
        ensures
            Self::spec_supported(raw_version) ==> r == Ok::<Version, Error>(Version(raw_version)),
            !Self::spec_supported(raw_version) ==> r is Err && r->Err_0.kind
                == ErrorKind::UnsupportedVersion(raw_version) && r->Err_0.trail@ == Seq::<Location>::empty(),
    {
        if raw_version & 0x8080_80ff == 0x2a {
            Ok(Version(raw_version))
        } else {
            Err(Error::new(ErrorKind::UnsupportedVersion(raw_version)))
        }
    }

    /// Reads a version from the four characters it is written as, such as `"407*"`.
    pub fn from_str(s: &str) -> (r: Result<Version>)
        ensures
            s.spec_bytes().len() == 4 && Self::spec_supported(be_u32(s.spec_bytes())) ==> r
                == Ok::<Version, Error>(Version(be_u32(s.spec_bytes()))),
            s.spec_bytes().len() == 4 && !Self::spec_supported(be_u32(s.spec_bytes())) ==> r is Err
                && r->Err_0.kind == ErrorKind::UnsupportedVersion(be_u32(s.spec_bytes())),
            s.spec_bytes().len() != 4 ==> r is Err && r->Err_0.kind
                == ErrorKind::UnsupportedVersion(0),
    {
        let bytes = s.as_bytes();
        if bytes.len() != 4 {
            return Err(Error::new(ErrorKind::UnsupportedVersion(0)));
        }
        Version::try_from(read_be_u32(bytes))
    }

    /// The bytes that the version is written as, the first first.
    pub open spec fn spec_bytes(self) -> Seq<u8> {
        seq![
            (self.0 >> 24) as u8,
            ((self.0 >> 16) & 0xff) as u8,
            ((self.0 >> 8) & 0xff) as u8,
            (self.0 & 0xff) as u8,
        ]
    }

    /// The characters that the bytes of the version stand for.
    pub open spec fn spec_chars(self) -> Seq<char> {
        seq![
            self.spec_bytes()[0] as char,
            self.spec_bytes()[1] as char,
            self.spec_bytes()[2] as char,
            self.spec_bytes()[3] as char,
        ]
    }

    /// The four characters that the version is written as, such as `"407*"`. A version
    /// that fails the version mask and is not made of characters has the empty name.
    pub fn name(self) -> (text: String)
        ensures
            Self::spec_supported(self.0) ==> text@ == self.spec_chars(),
            vstd::utf8::valid_utf8(self.spec_bytes()) ==> text@ == vstd::utf8::decode_utf8(
                self.spec_bytes(),
            ),
            !vstd::utf8::valid_utf8(self.spec_bytes()) ==> text@ == Seq::<char>::empty(),
    {
        let mut bytes: Vec<u8> = Vec::new();
        bytes.push((self.0 >> 24) as u8);
        bytes.push(((self.0 >> 16) & 0xff) as u8);
        bytes.push(((self.0 >> 8) & 0xff) as u8);
        bytes.push((self.0 & 0xff) as u8);
        proof {
            assert(bytes@ =~= self.spec_bytes());
            if Self::spec_supported(self.0) {
                let v = self.0;
                assert(v & 0x8080_80ff == 0x2a ==> (v >> 24) < 0x80 && ((v >> 16) & 0xff) < 0x80
                    && ((v >> 8) & 0xff) < 0x80 && (v & 0xff) == 0x2a) by (bit_vector);
                let chars = self.spec_chars();
                assert(vstd::utf8::is_ascii_chars(chars));
                vstd::utf8::is_ascii_chars_encode_utf8(chars);
                assert(vstd::utf8::encode_utf8(chars) =~= self.spec_bytes());
                vstd::utf8::encode_utf8_valid_utf8(chars);
                vstd::utf8::encode_utf8_decode_utf8(chars);
            }
        }
        match string_from_utf8(bytes) {
            Some(text) => text,
            None => String::new(),
        }
    }

    /// The raw number.
    pub fn raw(self) -> (r: u32)
        ensures
            r == self.0,
    {
        self.0
    }

    /// Whether the format is that of version 4.7 or later.
    pub open spec fn spec_is_4_7(self) -> bool {
        self.0 >= VERSION_4_7
    }

    /// Tells whether the format is that of version 4.7 or later.
    #[verifier::when_used_as_spec(spec_is_4_7)]
    pub fn is_4_7(self) -> (b: bool)
        ensures
            b == self.spec_is_4_7(),
    {
        self.0 >= VERSION_4_7
    }
}

impl Default for Version {
    fn default() -> (v: Version)
        ensures
            v == Version::spec_invalid(),
    {
        Version(INVALID_VERSION)
    }
}

/// Function identifier, by which a data file refers to a function of its note file.
#[derive(Copy, Clone, PartialEq, Eq, Structural, PartialOrd, Ord, Hash, Debug)]
pub struct Ident(pub u32);

/// Source location of a function.
#[derive(Copy, Clone, PartialEq, Eq, Structural, Hash, Debug)]
pub struct Source {
    /// Function name
    pub name: Symbol,
    /// File name
    pub filename: Symbol,
    /// Line number
    pub line: u32,
}

/// Information of a function.
#[derive(Copy, Clone, PartialEq, Eq, Structural, Hash, Debug)]
pub struct Function {
    /// The line-number checksum of this function.
    pub lineno_checksum: u32,
    /// The checksum of the function's graph. Zero before version 4.7.
    pub cfg_checksum: u32,
    /// The source location of this function, which a data file of version 4.7 or later
    /// does not give.
    pub source: Option<Source>,
}

/// The block is unexpected.
pub const BLOCK_ATTR_UNEXPECTED: u16 = 2;

/// The block ends with a call that may not return.
pub const BLOCK_ATTR_CALL_SITE: u16 = 0x1000;

/// The block starts with the return from a call.
pub const BLOCK_ATTR_CALL_RETURN: u16 = 0x2000;

/// The block is the landing pad of a non-local jump.
pub const BLOCK_ATTR_NONLOCAL_RETURN: u16 = 0x4000;

/// The block is reached by exceptions only.
pub const BLOCK_ATTR_EXCEPTIONAL: u16 = 0x8000;

/// Every bit of a block attribute.
pub const BLOCK_ATTR_ALL: u16 = 0xf002;

/// The arc is on the spanning tree, and has no counter of its own.
pub const ARC_ATTR_ON_TREE: u16 = 1;

/// The arc is fake: it stands for control flow that does not return.
pub const ARC_ATTR_FAKE: u16 = 2;

/// The arc is a fall-through.
pub const ARC_ATTR_FALLTHROUGH: u16 = 4;

/// The arc leads to a handler.
pub const ARC_ATTR_THROW: u16 = 0x10;

/// The arc is for a call that returns abnormally.
pub const ARC_ATTR_CALL_NON_RETURN: u16 = 0x20;

/// The arc is for a non-local jump.
pub const ARC_ATTR_NONLOCAL_RETURN: u16 = 0x40;

/// The arc is an unconditional branch.
pub const ARC_ATTR_UNCONDITIONAL: u16 = 0x80;

/// Every bit of an arc attribute.
pub const ARC_ATTR_ALL: u16 = 0xf7;

/// The bits of an arc attribute that a note file may set.
pub const ARC_ATTR_FROM_GCNO: u16 = 7;

/// Attributes of a block: a set of the `BLOCK_ATTR_` flags.
#[derive(Copy, Clone, PartialEq, Eq, Structural, Hash, Debug)]
pub struct BlockAttr {
    /// The flags, as bits.
    pub bits: u16,
}

/// Attributes of an arc: a set of the `ARC_ATTR_` flags.
#[derive(Copy, Clone, PartialEq, Eq, Structural, Hash, Debug)]
pub struct ArcAttr {
    /// The flags, as bits.
    pub bits: u16,
}

/// Whether every flag of `mask` is among `bits`.
pub open spec fn has_all(bits: u16, mask: u16) -> bool {
    bits & mask == mask
}

/// Whether some flag of `mask` is among `bits`.
pub open spec fn has_any(bits: u16, mask: u16) -> bool {
    bits & mask != 0
}

impl BlockAttr {
    /// The attribute with no flag.
    pub fn empty() -> (a: BlockAttr)
        ensures
            a.bits == 0,
    {
        BlockAttr { bits: 0 }
    }

    /// Whether every flag of `mask` is set.
    pub open spec fn spec_contains(self, mask: u16) -> bool {
        has_all(self.bits, mask)
    }

    /// Tells whether every flag of `mask` is set.
    #[verifier::when_used_as_spec(spec_contains)]
    pub fn contains(self, mask: u16) -> (b: bool)
        ensures
            b == self.spec_contains(mask),
    {
        self.bits & mask == mask
    }

    /// Sets the flags of `mask`.
    pub fn insert(&mut self, mask: u16)
        ensures
            final(self).bits == old(self).bits | mask,
    {
        self.bits = self.bits | mask;
    }

    /// Clears the flags of `mask`.
    pub fn remove(&mut self, mask: u16)
        ensures
            final(self).bits == old(self).bits & !mask,
    {
        self.bits = self.bits & !mask;
    }

    /// The attribute with the known flags of `bits`.
    pub fn from_bits_truncate(bits: u16) -> (a: BlockAttr)
        ensures
            a.bits == bits & BLOCK_ATTR_ALL,
    {
        BlockAttr { bits: bits & BLOCK_ATTR_ALL }
    }

    /// Whether a note file may hold `flags` as a block attribute.
    pub open spec fn spec_allowed_from_gcno(flags: u32) -> bool {
        flags & !2u32 == 0
    }

    /// Converts the attribute of a block as a note file holds it. Only `UNEXPECTED` may be
    /// set there.
    pub fn from_gcno(flags: u32) -> (r: Result<BlockAttr>)
        ensures
            Self::spec_allowed_from_gcno(flags) ==> r is Ok && r->Ok_0.bits == flags,
            !Self::spec_allowed_from_gcno(flags) ==> r is Err && r->Err_0.kind
                == ErrorKind::UnsupportedAttr("block", flags) && r->Err_0.trail@ == Seq::<Location>::empty(),
    {
        if flags & !2u32 == 0 {
            assert(flags & !2u32 == 0 ==> flags <= 2 && (flags as u16) & 0xf002u16 == flags as u16)
                by (bit_vector);
            Ok(BlockAttr::from_bits_truncate(flags as u16))
        } else {
            Err(Error::new(ErrorKind::UnsupportedAttr("block", flags)))
        }
    }
}

impl Default for BlockAttr {
    fn default() -> (a: BlockAttr)
        ensures
            a.bits == 0,
    {
        BlockAttr { bits: 0 }
    }
}

impl ArcAttr {
    /// The attribute with no flag.
    pub fn empty() -> (a: ArcAttr)
        ensures
            a.bits == 0,
    {
        ArcAttr { bits: 0 }
    }

    /// Whether every flag of `mask` is set.
    pub open spec fn spec_contains(self, mask: u16) -> bool {
        has_all(self.bits, mask)
    }

    /// Tells whether every flag of `mask` is set.
    #[verifier::when_used_as_spec(spec_contains)]
    pub fn contains(self, mask: u16) -> (b: bool)
        ensures
            b == self.spec_contains(mask),
    {
        self.bits & mask == mask
    }

    /// Whether some flag of `mask` is set.
    pub open spec fn spec_intersects(self, mask: u16) -> bool {
        has_any(self.bits, mask)
    }

    /// Tells whether some flag of `mask` is set.
    #[verifier::when_used_as_spec(spec_intersects)]
    pub fn intersects(self, mask: u16) -> (b: bool)
        ensures
            b == self.spec_intersects(mask),
    {
        self.bits & mask != 0
    }

    /// Sets the flags of `mask`.
    pub fn insert(&mut self, mask: u16)
        ensures
            final(self).bits == old(self).bits | mask,
    {
        self.bits = self.bits | mask;
    }

    /// The attribute with the known flags of `bits`.
    pub fn from_bits_truncate(bits: u16) -> (a: ArcAttr)
        ensures
            a.bits == bits & ARC_ATTR_ALL,
    {
        ArcAttr { bits: bits & ARC_ATTR_ALL }
    }

    /// Whether a note file may hold `flags` as an arc attribute.
    pub open spec fn spec_allowed_from_gcno(flags: u32) -> bool {
        flags & !7u32 == 0
    }

    /// Converts the attribute of an arc as a note file holds it. Only `ON_TREE`, `FAKE` and
    /// `FALLTHROUGH` may be set there.
    pub fn from_gcno(flags: u32) -> (r: Result<ArcAttr>)
        ensures
            Self::spec_allowed_from_gcno(flags) ==> r is Ok && r->Ok_0.bits == flags,
            !Self::spec_allowed_from_gcno(flags) ==> r is Err && r->Err_0.kind
                == ErrorKind::UnsupportedAttr("arc", flags) && r->Err_0.trail@ == Seq::<Location>::empty(),
    {
        if flags & !7u32 == 0 {
            assert(flags & !7u32 == 0 ==> flags <= 7 && (flags as u16) & 0xf7u16 == flags as u16)
                by (bit_vector);
            Ok(ArcAttr::from_bits_truncate(flags as u16))
        } else {
            Err(Error::new(ErrorKind::UnsupportedAttr("arc", flags)))
        }
    }
}

impl Default for ArcAttr {
    fn default() -> (a: ArcAttr)
        ensures
            a.bits == 0,
    {
        ArcAttr { bits: 0 }
    }
}

/// List of basic blocks.
#[derive(Clone, PartialEq, Eq, Hash, Debug)]
pub struct Blocks {
    /// The attributes of each block, in sequence.
    pub flags: Vec<BlockAttr>,
}

/// Index of a block in the [`Blocks`] of its function.
#[derive(Copy, Clone, PartialEq, Eq, Structural, PartialOrd, Ord, Hash, Debug)]
pub struct BlockIndex(pub u32);

/// An arc.
#[derive(Copy, Clone, PartialEq, Eq, Structural, Hash, Debug)]
pub struct Arc {
    /// The block the arc leads to. The source is in the [`Arcs`] that holds the arc.
    pub dest_block: BlockIndex,
    /// The attribute of this arc.
    pub flags: ArcAttr,
}

/// The arcs that leave one block.
#[derive(Clone, PartialEq, Eq, Hash, Debug)]
pub struct Arcs {
    /// The block the arcs leave.
    pub src_block: BlockIndex,
    /// The arcs.
    pub arcs: Vec<Arc>,
}

/// A source line entry of a basic block.
#[derive(Copy, Clone, PartialEq, Eq, Structural, Hash, Debug)]
pub enum Line {
    /// A line number inside the basic block.
    LineNumber(u32),
    /// The file that the line numbers after it are in.
    FileName(Symbol),
}

/// The source lines of one block.
#[derive(Clone, PartialEq, Eq, Hash, Debug)]
pub struct Lines {
    /// The block.
    pub block_number: BlockIndex,
    /// The entries: typically a file name, then line numbers.
    pub lines: Vec<Line>,
}

/// How often each arc without `ON_TREE` was taken, in the order of the note file.
#[derive(Clone, PartialEq, Eq, Hash, Debug)]
pub struct ArcCounts {
    /// The counters.
    pub counts: Vec<u64>,
}

/// A bucket in the [`Histogram`].
#[derive(Copy, Clone, PartialEq, Eq, Structural, Hash, Debug)]
pub struct HistogramBucket {
    /// Number of counters whose value falls within the bucket.
    pub num: u32,
    /// Smallest value in the bucket.
    pub min: u64,
    /// Sum of the values in the bucket.
    pub sum: u64,
}

impl Default for HistogramBucket {
    fn default() -> (b: HistogramBucket)
        ensures
            b == (HistogramBucket { num: 0, min: u64::MAX, sum: 0 }),
    {
        HistogramBucket { num: 0, min: u64::MAX, sum: 0 }
    }
}

/// Histogram in a [`Summary`].
#[derive(Clone, PartialEq, Eq, Hash, Debug)]
pub struct Histogram {
    /// The buckets that are present, by index.
    pub buckets: BTreeMap<u32, HistogramBucket>,
}

/// Object summary.
#[derive(Clone, PartialEq, Eq, Hash, Debug)]
pub struct Summary {
    /// Checksum of the object.
    pub checksum: u32,
    /// Number of counters.
    pub num: u32,
    /// Number of program runs.
    pub runs: u32,
    /// Sum of all counters.
    pub sum: u64,
    /// Maximum count of a single run.
    pub max: u64,
    /// Sum of individual maximum counts.
    pub sum_max: u64,
    /// Histogram of counter values.
    pub histogram: Option<Histogram>,
}

/// A record in a note or data file.
#[derive(Clone, PartialEq, Eq, Hash, Debug)]
pub enum Record {
    /// A function is announced. Both kinds of file have these.
    Function(Ident, Function),
    /// The blocks of the function, in a note file.
    Blocks(Blocks),
    /// The arcs that leave one block, in a note file.
    Arcs(Arcs),
    /// The source lines of one block, in a note file.
    Lines(Lines),
    /// The arc counters of the function, in a data file.
    ArcCounts(ArcCounts),
    /// A summary, in a data file.
    Summary(Summary),
}

/// The content of a note or data file.
#[derive(Clone, PartialEq, Eq, Hash, Debug)]
pub struct Gcov {
    /// File type.
    pub ty: Type,
    /// File version.
    pub version: Version,
    /// The stamp pairs a note file with the data files that belong to it.
    pub stamp: u32,
    /// The records, in the order of the file.
    pub records: Vec<Record>,
    /// Where the file came from, if anyone said.
    pub src: Option<String>,
}

} // verus!
