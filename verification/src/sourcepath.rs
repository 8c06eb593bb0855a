//! Source path categorization.
//!
//! A note file names the source of every function and line, also of those that come from the
//! standard library or from other crates. The path tells which kind of source it is, so
//! that a report can leave out what its reader did not write.

use crate::bytes::same_text;
use vstd::prelude::*;
use vstd::slice::slice_subrange;
use vstd::string::StringSliceAdditionalSpecFns;

verus! {

/// The path is in the local workspace.
pub const SOURCE_TYPE_LOCAL: u8 = 1;

/// The "path" is part of macro declaration.
pub const SOURCE_TYPE_MACROS: u8 = 2;

/// Unknown kind of path.
pub const SOURCE_TYPE_UNKNOWN: u8 = 4;

/// The path is of external crates.
pub const SOURCE_TYPE_CRATES: u8 = 8;

/// The path is in the Rust standard libraries.
pub const SOURCE_TYPE_RUSTSRC: u8 = 16;

/// The default set of interesting source paths: local, macros and unknown.
pub const SOURCE_TYPE_DEFAULT: u8 = 7;

/// Every kind of source path.
pub const SOURCE_TYPE_ALL: u8 = 31;

/// The type of source path: a set of the `SOURCE_TYPE_` flags.
#[derive(Copy, Clone, PartialEq, Eq, Structural, Hash, Debug)]
pub struct SourceType {
    /// The flags, as bits.
    pub bits: u8,
}

/// The error raised when [`SourceType::from_str`] encounters an unrecognized string.
#[derive(Copy, Clone, PartialEq, Eq, Structural, Debug)]
pub struct UnsupportedSourceTypeName;

/// The flags that a name stands for.
pub open spec fn named_bits(name: Seq<char>) -> Option<u8> {
    if name == "local"@ {
        Some(SOURCE_TYPE_LOCAL)
    } else if name == "macros"@ {
        Some(SOURCE_TYPE_MACROS)
    } else if name == "rustsrc"@ {
        Some(SOURCE_TYPE_RUSTSRC)
    } else if name == "crates"@ {
        Some(SOURCE_TYPE_CRATES)
    } else if name == "unknown"@ {
        Some(SOURCE_TYPE_UNKNOWN)
    } else if name == "all"@ {
        Some(SOURCE_TYPE_ALL)
    } else {
        None
    }
}

/// The flags that the first `n` names stand for together, if every one of them is a name.
pub open spec fn named_union(names: Seq<&str>, n: nat) -> Option<u8>
    decreases n,
{
    if n == 0 {
        Some(0u8)
    } else {
        match (named_union(names, (n - 1) as nat), named_bits(names[n - 1]@)) {
            (Some(rest), Some(bits)) => Some(rest | bits),
            _ => None,
        }
    }
}

/// Names that are refused stay refused.
proof fn lemma_named_union_refused(names: Seq<&str>, a: nat, b: nat)
    requires
        a <= b,
        named_union(names, a) is None,
    ensures
        named_union(names, b) is None,
    decreases b,
{
    if a < b {
        lemma_named_union_refused(names, a, (b - 1) as nat);
    }
}

impl SourceType {
    /// Parses the name of a kind of source path: `local`, `macros`, `rustsrc`, `crates`,
    /// `unknown`, or `all` for all of them.
    pub fn from_str(s: &str) -> (r: Result<SourceType, UnsupportedSourceTypeName>)
        ensures
            match named_bits(s@) {
                Some(bits) => r == Ok::<SourceType, UnsupportedSourceTypeName>(SourceType { bits }),
                None => r is Err,
            },
    {
        if same_text(s, "local") {
            Ok(SourceType { bits: SOURCE_TYPE_LOCAL })
        } else if same_text(s, "macros") {
            Ok(SourceType { bits: SOURCE_TYPE_MACROS })
        } else if same_text(s, "rustsrc") {
            Ok(SourceType { bits: SOURCE_TYPE_RUSTSRC })
        } else if same_text(s, "crates") {
            Ok(SourceType { bits: SOURCE_TYPE_CRATES })
        } else if same_text(s, "unknown") {
            Ok(SourceType { bits: SOURCE_TYPE_UNKNOWN })
        } else if same_text(s, "all") {
            Ok(SourceType { bits: SOURCE_TYPE_ALL })
        } else {
            Err(UnsupportedSourceTypeName)
        }
    }

    /// Parses names with [`SourceType::from_str`], and returns the union of all flags.
    pub fn from_multi_str(strings: &Vec<&str>) -> (r: Result<SourceType, UnsupportedSourceTypeName>)
        ensures
            match named_union(strings@, strings@.len()) {
                Some(bits) => r == Ok::<SourceType, UnsupportedSourceTypeName>(SourceType { bits }),
                None => r is Err,
            },
    {
        let mut bits: u8 = 0;
        let mut i: usize = 0;
        while i < strings.len()
            invariant
                i <= strings.len(),
                named_union(strings@, i as nat) == Some(bits),
            decreases strings.len() - i,
        {
            match SourceType::from_str(strings[i]) {
                Ok(more) => {
                    bits = bits | more.bits;
                },
                Err(e) => {
                    proof {
                        lemma_named_union_refused(strings@, (i + 1) as nat, strings@.len());
                    }
                    return Err(e);
                },
            }
            i += 1;
        }
        Ok(SourceType { bits })
    }

    /// The prefix that a path of this kind is shown with, once the part that says its kind
    /// is taken off.
    pub fn prefix(self) -> (prefix: &'static str)
        ensures
            prefix@ == (if self.bits == SOURCE_TYPE_LOCAL {
                "."@
            } else if self.bits == SOURCE_TYPE_RUSTSRC {
                "\u{ab}rust\u{bb}"@
            } else if self.bits == SOURCE_TYPE_CRATES {
                "\u{ab}crates\u{bb}"@
            } else {
                ""@
            }),
    {
        if self.bits == SOURCE_TYPE_LOCAL {
            "."
        } else if self.bits == SOURCE_TYPE_RUSTSRC {
            "\u{ab}rust\u{bb}"
        } else if self.bits == SOURCE_TYPE_CRATES {
            "\u{ab}crates\u{bb}"
        } else {
            ""
        }
    }
}

/// Whether `text` starts with `prefix`.
pub open spec fn starts_with(text: Seq<u8>, prefix: Seq<u8>) -> bool {
    prefix.len() <= text.len() && text.subrange(0, prefix.len() as int) == prefix
}

/// Whether `text` ends with `suffix`.
pub open spec fn ends_with(text: Seq<u8>, suffix: Seq<u8>) -> bool {
    suffix.len() <= text.len() && text.subrange(text.len() - suffix.len(), text.len() as int)
        == suffix
}

/// The place of the first byte `b` among the first `n` bytes of `text`, or `n` where there
/// is none.
pub open spec fn first_place(text: Seq<u8>, b: u8, n: nat) -> nat
    decreases n,
{
    if n == 0 {
        0
    } else {
        let before = first_place(text, b, (n - 1) as nat);
        if before < n - 1 {
            before
        } else if text[n - 1] == b {
            (n - 1) as nat
        } else {
            n
        }
    }
}

fn bytes_start_with(text: &[u8], prefix: &[u8]) -> (r: bool)
    ensures
        r == starts_with(text@, prefix@),
{
    if prefix.len() > text.len() {
        return false;
    }
    let mut i: usize = 0;
    while i < prefix.len()
        invariant
            i <= prefix.len(),
            prefix.len() <= text.len(),
            forall|j: int| 0 <= j < i ==> text@[j] == prefix@[j],
        decreases prefix.len() - i,
    {
        if text[i] != prefix[i] {
            proof {
                assert(text@.subrange(0, prefix@.len() as int)[i as int] == text@[i as int]);
            }
            return false;
        }
        i += 1;
    }
    proof {
        assert(text@.subrange(0, prefix@.len() as int) =~= prefix@);
    }
    true
}

fn bytes_end_with(text: &[u8], suffix: &[u8]) -> (r: bool)
    ensures
        r == ends_with(text@, suffix@),
{
    if suffix.len() > text.len() {
        return false;
    }
    let tail = slice_subrange(text, text.len() - suffix.len(), text.len());
    let r = bytes_start_with(tail, suffix);
    proof {
        assert(tail@.subrange(0, suffix@.len() as int) =~= tail@);
    }
    r
}

fn find_byte(text: &[u8], b: u8) -> (place: usize)
    ensures
        place == first_place(text@, b, text@.len()),
        place <= text@.len(),
{
    let mut i: usize = 0;
    while i < text.len() && text[i] != b
        invariant
            i <= text.len(),
            first_place(text@, b, i as nat) == i,
        decreases text.len() - i,
    {
        i += 1;
    }
    proof {
        lemma_first_place_stays(text@, b, i as nat, text@.len());
    }
    i
}

proof fn lemma_first_place_stays(text: Seq<u8>, b: u8, i: nat, n: nat)
    requires
        i <= n <= text.len(),
        first_place(text, b, i) == i,
        i < text.len() ==> text[i as int] == b,
    ensures
        first_place(text, b, n) == i,
    decreases n,
{
    if i < n {
        lemma_first_place_stays(text, b, i, (n - 1) as nat);
    }
}

/// The kind of a source path and the number of bytes at its head that say so, which are
/// taken off for display.
///
/// A path under `crates_path`, the path of the workspace, is local. A path under
/// `registry_path`, where the sources of other crates are kept, is of another crate, and
/// loses the directory of the registry too. A path that starts with `<` and ends with
/// ` macros>` is of a macro. A path under one of the directories that the standard library
/// is built in is of the standard library.
pub fn identify_source_path(path: &str, crates_path: &str, registry_path: &str, separator: u8) -> (r:
    (SourceType, usize))
    ensures
        r == identified(path.spec_bytes(), crates_path.spec_bytes(), registry_path.spec_bytes(), separator),
{
    let text = path.as_bytes();
    let registry = registry_path.as_bytes();
    if bytes_start_with(text, crates_path.as_bytes()) {
        (SourceType { bits: SOURCE_TYPE_LOCAL }, crates_path.as_bytes().len())
    } else if bytes_start_with(text, registry) {
        let subpath = slice_subrange(text, registry.len(), text.len());
        let place = find_byte(subpath, separator);
        let first_slash = if place < subpath.len() {
            place + 1
        } else {
            0
        };
        (SourceType { bits: SOURCE_TYPE_CRATES }, registry.len() + first_slash)
    } else if bytes_start_with(text, "<".as_bytes()) && bytes_end_with(text, " macros>".as_bytes()) {
        (SourceType { bits: SOURCE_TYPE_MACROS }, 0)
    } else if bytes_start_with(text, "/Users/travis/build/rust-lang/rust/".as_bytes()) {
        (
            SourceType { bits: SOURCE_TYPE_RUSTSRC },
            "/Users/travis/build/rust-lang/rust/".as_bytes().len(),
        )
    } else if bytes_start_with(text, "/checkout/".as_bytes()) {
        (SourceType { bits: SOURCE_TYPE_RUSTSRC }, "/checkout/".as_bytes().len())
    } else if bytes_start_with(text, "C:\\projects\\rust\\".as_bytes()) {
        (SourceType { bits: SOURCE_TYPE_RUSTSRC }, "C:\\projects\\rust\\".as_bytes().len())
    } else {
        (SourceType { bits: SOURCE_TYPE_UNKNOWN }, 0)
    }
}

/// What [`identify_source_path`] gives, over the bytes of the paths.
pub open spec fn identified(path: Seq<u8>, crates_path: Seq<u8>, registry_path: Seq<u8>, separator: u8)
    -> (SourceType, usize) {
    if starts_with(path, crates_path) {
        (SourceType { bits: SOURCE_TYPE_LOCAL }, crates_path.len() as usize)
    } else if starts_with(path, registry_path) {
        let subpath = path.subrange(registry_path.len() as int, path.len() as int);
        let place = first_place(subpath, separator, subpath.len());
        (
            SourceType { bits: SOURCE_TYPE_CRATES },
            (registry_path.len() + (if place < subpath.len() {
                place + 1
            } else {
                0
            })) as usize,
        )
    } else if starts_with(path, "<".spec_bytes()) && ends_with(path, " macros>".spec_bytes()) {
        (SourceType { bits: SOURCE_TYPE_MACROS }, 0usize)
    } else if starts_with(path, "/Users/travis/build/rust-lang/rust/".spec_bytes()) {
        (
            SourceType { bits: SOURCE_TYPE_RUSTSRC },
            "/Users/travis/build/rust-lang/rust/".spec_bytes().len() as usize,
        )
    } else if starts_with(path, "/checkout/".spec_bytes()) {
        (SourceType { bits: SOURCE_TYPE_RUSTSRC }, "/checkout/".spec_bytes().len() as usize)
    } else if starts_with(path, "C:\\projects\\rust\\".spec_bytes()) {
        (SourceType { bits: SOURCE_TYPE_RUSTSRC }, "C:\\projects\\rust\\".spec_bytes().len() as usize)
    } else {
        (SourceType { bits: SOURCE_TYPE_UNKNOWN }, 0usize)
    }
}

} // verus!
