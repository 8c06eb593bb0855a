//! Reader of note and data files.
//!
//! A [`Reader`] is made from the bytes of a file, which reads the head of the file, and
//! then reads the records. What the bytes are read as is stated in [`crate::format`].

use crate::bytes::{read_be_u32, read_le_u32, string_from_utf8};
use crate::error::{Error, ErrorKind, IsEof, Location, Result};
use crate::format::{
    after, agrees, agrees_view, arc_item, arc_items, block_flag, block_flags, bucket_item,
    bucket_items, bucket_map, count_items, left, lemma_until_eof_end, lemma_until_eof_step,
    line_item, line_items, parse_arc_counts, parse_arcs, parse_blocks, parse_body, parse_function,
    parse_header, parse_lines, parse_record, parse_records, parse_summary, read_32, read_64,
    read_bitvector, read_source, read_string, record_items, set_bits, summary_head, trimmed,
    until_eof, Failure, Input, RecordModel, SummaryModel,
};
use crate::intern::{Interner, Symbol};
use crate::model::{lemma_views_push, views};
use crate::raw::{
    Histogram, HistogramBucket, Summary, ARCS_TAG, BLOCKS_TAG, COUNTER_BASE_TAG, EOF_TAG,
    FUNCTION_TAG, LINES_TAG, OBJECT_SUMMARY_TAG, PROGRAM_SUMMARY_TAG,
};
use crate::raw::{
    Arc, ArcAttr, ArcCounts, Arcs, BlockAttr, BlockIndex, Blocks, Function, Gcov, Ident, Line,
    Lines, Record, Source, Type, Version,
};
use std::collections::BTreeMap;
use vstd::prelude::*;
use vstd::slice::{slice_subrange, slice_to_vec};

verus! {

/// Bytes that are read from the front: the bytes from `pos` up to `end` are left.
pub struct Stream {
    data: Vec<u8>,
    pos: usize,
    end: usize,
}

/// A stream, as a mathematical value.
pub struct StreamModel {
    pub data: Seq<u8>,
    pub pos: int,
    pub end: int,
}

impl View for Stream {
    type V = StreamModel;

    closed spec fn view(&self) -> StreamModel {
        StreamModel { data: self.data@, pos: self.pos as int, end: self.end as int }
    }
}

impl Stream {
    /// Whether the positions lie inside the bytes.
    pub open spec fn wf(&self) -> bool {
        0 <= self@.pos <= self@.end <= self@.data.len()
    }

    /// A stream of all the bytes given.
    pub fn new(data: Vec<u8>) -> (s: Stream)
        ensures
            s.wf(),
            s@ == (StreamModel { data: data@, pos: 0, end: data@.len() as int }),
    {
        let end = data.len();
        Stream { data, pos: 0, end }
    }

    /// The number of bytes left.
    pub fn remaining(&self) -> (n: usize)
        requires
            self.wf(),
        ensures
            n == self@.end - self@.pos,
    {
        self.end - self.pos
    }

    /// Takes `n` bytes from the front, or nothing if fewer are left; the bytes that are
    /// left are given up then.
    pub fn read_exact(&mut self, n: usize) -> (r: Option<Vec<u8>>)
        requires
            old(self).wf(),
        ensures
            final(self).wf(),
            final(self)@.data == old(self)@.data,
            final(self)@.end == old(self)@.end,
            old(self)@.end - old(self)@.pos >= n ==> r is Some && r->0@ == old(self)@.data.subrange(
                old(self)@.pos,
                old(self)@.pos + n,
            ) && final(self)@.pos == old(self)@.pos + n,
            old(self)@.end - old(self)@.pos < n ==> r is None && final(self)@.pos
                == old(self)@.end,
    {
        if self.end - self.pos >= n {
            let bytes = slice_to_vec(slice_subrange(self.data.as_slice(), self.pos, self.pos + n));
            self.pos = self.pos + n;
            Some(bytes)
        } else {
            self.pos = self.end;
            None
        }
    }

    /// Takes up to `n` bytes from the front: as many as are left, if fewer are left.
    pub fn read_up_to(&mut self, n: u64) -> (bytes: Vec<u8>)
        requires
            old(self).wf(),
        ensures
            final(self).wf(),
            final(self)@.data == old(self)@.data,
            final(self)@.end == old(self)@.end,
            final(self)@.pos == (if n <= old(self)@.end - old(self)@.pos {
                old(self)@.pos + n
            } else {
                old(self)@.end
            }),
            bytes@ == old(self)@.data.subrange(old(self)@.pos, final(self)@.pos),
    {
        let available = self.end - self.pos;
        let taken = if n <= available as u64 {
            n as usize
        } else {
            available
        };
        let bytes = slice_to_vec(slice_subrange(self.data.as_slice(), self.pos, self.pos + taken));
        self.pos = self.pos + taken;
        bytes
    }

    /// Bounds the stream to its next `n` bytes, or to what is left if that is less, and
    /// returns the end it had.
    pub fn take(&mut self, n: u64) -> (outer: usize)
        requires
            old(self).wf(),
        ensures
            final(self).wf(),
            outer == old(self)@.end,
            final(self)@.data == old(self)@.data,
            final(self)@.pos == old(self)@.pos,
            final(self)@.end == (if n <= old(self)@.end - old(self)@.pos {
                old(self)@.pos + n
            } else {
                old(self)@.end
            }),
    {
        let outer = self.end;
        let available = self.end - self.pos;
        if n <= available as u64 {
            self.end = self.pos + n as usize;
        }
        outer
    }

    /// Gives the stream the end that [`Stream::take`] returned.
    pub fn release(&mut self, outer: usize)
        requires
            old(self).wf(),
            old(self)@.end <= outer <= old(self)@.data.len(),
        ensures
            final(self).wf(),
            final(self)@ == (StreamModel { end: outer as int, ..old(self)@ }),
    {
        self.end = outer;
    }
}

/// Consumes the whole stream to the end.
pub fn consume_to_end(reader: &mut Stream) -> (r: Result<()>)
    requires
        old(reader).wf(),
    ensures
        final(reader).wf(),
        r is Ok,
        final(reader)@ == (StreamModel { pos: old(reader)@.end, ..old(reader)@ }),
{
    reader.pos = reader.end;
    Ok(())
}

/// The reader of a note or data file.
pub struct Reader {
    stream: Stream,
    cursor: u64,
    ty: Type,
    version: Version,
    stamp: u32,
    is_big_endian: bool,
}

/// A reader, as a mathematical value.
pub struct ReaderModel {
    pub data: Seq<u8>,
    pub pos: int,
    pub end: int,
    pub cursor: u64,
    pub ty: Type,
    pub version: Version,
    pub stamp: u32,
    pub big_endian: bool,
}

impl View for Reader {
    type V = ReaderModel;

    closed spec fn view(&self) -> ReaderModel {
        ReaderModel {
            data: self.stream@.data,
            pos: self.stream@.pos,
            end: self.stream@.end,
            cursor: self.cursor,
            ty: self.ty,
            version: self.version,
            stamp: self.stamp,
            big_endian: self.is_big_endian,
        }
    }
}

/// The first `n` bytes without the zero bytes at their end.
fn trim(bytes: &mut Vec<u8>)
    ensures
        final(bytes)@ == trimmed(old(bytes)@, old(bytes)@.len()),
{
    let mut n: usize = bytes.len();
    while n > 0 && bytes[n - 1] == 0
        invariant
            n <= bytes.len(),
            bytes@ == old(bytes)@,
            trimmed(bytes@, bytes@.len()) == trimmed(bytes@, n as nat),
        decreases n,
    {
        n -= 1;
    }
    bytes.truncate(n);
    proof {
        if n > 0 {
            assert(bytes@ =~= old(bytes)@.subrange(0, n as int));
        } else {
            assert(bytes@ =~= Seq::<u8>::empty());
        }
    }
}

impl Reader {
    /// Whether the positions lie inside the bytes.
    pub open spec fn wf(&self) -> bool {
        0 <= self@.pos <= self@.end <= self@.data.len()
    }

    /// What is left to read, with the strings interned so far.
    pub open spec fn input(&self, names: Seq<Seq<char>>) -> Input {
        Input {
            data: self@.data,
            pos: self@.pos,
            end: self@.end,
            cursor: self@.cursor,
            big_endian: self@.big_endian,
            names,
        }
    }

    /// Whether the reader reads the same file as `other`.
    pub open spec fn same_file(&self, other: &Reader) -> bool {
        &&& self@.ty == other@.ty
        &&& self@.version == other@.version
        &&& self@.stamp == other@.stamp
    }

    /// The number of bytes that are left to read.
    pub fn remaining(&self) -> (n: usize)
        requires
            self.wf(),
        ensures
            n == self@.end - self@.pos,
    {
        self.stream.remaining()
    }

    /// The count of the bytes that were asked for so far.
    pub fn cursor(&self) -> (c: u64)
        ensures
            c == self@.cursor,
    {
        self.cursor
    }

    /// The kind of the file.
    pub fn ty(&self) -> (ty: Type)
        ensures
            ty == self@.ty,
    {
        self.ty
    }

    /// The version of the file.
    pub fn version(&self) -> (version: Version)
        ensures
            version == self@.version,
    {
        self.version
    }

    /// The stamp of the file.
    pub fn stamp(&self) -> (stamp: u32)
        ensures
            stamp == self@.stamp,
    {
        self.stamp
    }

    /// Reads a 32-bit number.
    fn read_32(&mut self, Ghost(names): Ghost<Seq<Seq<char>>>) -> (r: Result<u32>)
        requires
            old(self).wf(),
        ensures
            final(self).wf(),
            final(self).same_file(old(self)),
            agrees(r, read_32(old(self).input(names)).value),
            final(self).input(names) == read_32(old(self).input(names)).rest,
    {
        let cursor = self.cursor;
        self.cursor = cursor.wrapping_add(4);
        match self.stream.read_exact(4) {
            Some(bytes) => {
                let value = if self.is_big_endian {
                    read_be_u32(bytes.as_slice())
                } else {
                    read_le_u32(bytes.as_slice())
                };
                Ok(value)
            },
            None => Err(Location::Cursor(cursor).wrap_error(Error::new(ErrorKind::Eof))),
        }
    }

    /// Reads a 64-bit number.
    fn read_64(&mut self, Ghost(names): Ghost<Seq<Seq<char>>>) -> (r: Result<u64>)
        requires
            old(self).wf(),
        ensures
            final(self).wf(),
            final(self).same_file(old(self)),
            agrees(r, read_64(old(self).input(names)).value),
            final(self).input(names) == read_64(old(self).input(names)).rest,
    {
        let cursor = self.cursor;
        self.cursor = cursor.wrapping_add(8);
        match self.stream.read_exact(8) {
            Some(bytes) => {
                let low_bytes = slice_subrange(bytes.as_slice(), 0, 4);
                let high_bytes = slice_subrange(bytes.as_slice(), 4, 8);
                let (low, high) = if self.is_big_endian {
                    (read_be_u32(low_bytes), read_be_u32(high_bytes))
                } else {
                    (read_le_u32(low_bytes), read_le_u32(high_bytes))
                };
                Ok(low as u64 + high as u64 * 0x1_0000_0000)
            },
            None => Err(Location::Cursor(cursor).wrap_error(Error::new(ErrorKind::Eof))),
        }
    }

    /// Reads a string and interns it.
    fn read_string(&mut self, interner: &mut Interner) -> (r: Result<Symbol>)
        requires
            old(self).wf(),
            old(interner).wf(),
        ensures
            final(self).wf(),
            final(interner).wf(),
            final(self).same_file(old(self)),
            agrees(r, read_string(old(self).input(old(interner)@)).value),
            final(self).input(final(interner)@) == read_string(
                old(self).input(old(interner)@),
            ).rest,
    {
        let words = match self.read_32(Ghost(interner@)) {
            Ok(words) => words,
            Err(e) => {
                return Err(e);
            },
        };
        let wanted: u64 = words as u64 * 4;
        let cursor = self.cursor;
        self.cursor = cursor.wrapping_add(wanted);
        let mut bytes = self.stream.read_up_to(wanted);
        trim(&mut bytes);
        match string_from_utf8(bytes) {
            Some(name) => Ok(interner.intern(name.as_str())),
            None => Err(Location::Cursor(cursor).wrap_error(Error::new(ErrorKind::FromUtf8))),
        }
    }

    /// Reads the eight words that say which buckets of a histogram are present.
    fn read_histogram_bitvector(&mut self, Ghost(names): Ghost<Seq<Seq<char>>>) -> (r: Result<
        Vec<u32>,
    >)
        requires
            old(self).wf(),
        ensures
            final(self).wf(),
            final(self).same_file(old(self)),
            agrees_view(r, read_bitvector(old(self).input(names)).value),
            final(self).input(names) == read_bitvector(old(self).input(names)).rest,
    {
        let cursor = self.cursor;
        self.cursor = cursor.wrapping_add(32);
        match self.stream.read_exact(32) {
            Some(bytes) => {
                let ghost start = old(self)@.pos;
                let ghost data = old(self)@.data;
                let mut decoded: Vec<u32> = Vec::new();
                let mut k: usize = 0;
                while k < 8
                    invariant
                        k <= 8,
                        bytes@.len() == 32,
                        0 <= start,
                        start + 32 <= data.len(),
                        bytes@ == data.subrange(start, start + 32),
                        decoded@.len() == k,
                        forall|j: int|
                            0 <= j < k ==> decoded@[j] == crate::bytes::u32_at(
                                data.subrange(start + 4 * j, start + 4 * j + 4),
                                self.is_big_endian,
                            ),
                    decreases 8 - k,
                {
                    let word = slice_subrange(bytes.as_slice(), 4 * k, 4 * k + 4);
                    proof {
                        assert(word@ =~= data.subrange(start + 4 * k, start + 4 * k + 4));
                    }
                    let value = if self.is_big_endian {
                        read_be_u32(word)
                    } else {
                        read_le_u32(word)
                    };
                    decoded.push(value);
                    k += 1;
                }
                proof {
                    assert(decoded@ =~= read_bitvector(old(self).input(names)).value->Ok_0);
                }
                Ok(decoded)
            },
            None => Err(Location::Cursor(cursor).wrap_error(Error::new(ErrorKind::Eof))),
        }
    }

    /// Parses the head of the file, and creates a reader of its records.
    pub fn new(data: Vec<u8>) -> (r: Result<Reader>)
        ensures
            match parse_header(data@) {
                Ok(header) => r is Ok && r->Ok_0.wf() && r->Ok_0@ == (ReaderModel {
                    data: data@,
                    pos: 12,
                    end: data@.len() as int,
                    cursor: 12,
                    ty: header.ty,
                    version: header.version,
                    stamp: header.stamp,
                    big_endian: header.big_endian,
                }),
                Err(f) => r is Err && r->Err_0.kind == f.kind && r->Err_0.trail@ == f.trail,
            },
    {
        let mut stream = Stream::new(data);
        let magic = match stream.read_exact(4) {
            Some(bytes) => read_le_u32(bytes.as_slice()),
            None => {
                return Err(Error::new(ErrorKind::Eof));
            },
        };
        let (ty, is_big_endian) = if magic == 0x6763_6e6f {
            (Type::Gcno, false)
        } else if magic == 0x6f6e_6367 {
            (Type::Gcno, true)
        } else if magic == 0x6763_6461 {
            (Type::Gcda, false)
        } else if magic == 0x6164_6367 {
            (Type::Gcda, true)
        } else {
            return Err(Error::new(ErrorKind::UnknownFileType(magic)));
        };
        let mut reader = Reader {
            stream,
            cursor: 4,
            ty,
            version: Version::invalid(),
            stamp: 0,
            is_big_endian,
        };
        let raw = match reader.read_32(Ghost(Seq::empty())) {
            Ok(raw) => raw,
            Err(e) => {
                return Err(e);
            },
        };
        let version = match Version::try_from(raw) {
            Ok(version) => version,
            Err(e) => {
                return Err(Location::Cursor(4).wrap_error(e));
            },
        };
        reader.version = version;
        let stamp = match reader.read_32(Ghost(Seq::empty())) {
            Ok(stamp) => stamp,
            Err(e) => {
                return Err(e);
            },
        };
        reader.stamp = stamp;
        Ok(reader)
    }
}

impl Reader {
    /// Whether the reader has gone forward from where `other` stands, in the same bytes.
    pub open spec fn moved_from(&self, other: &Reader) -> bool {
        &&& self.same_file(other)
        &&& self@.data == other@.data
        &&& self@.end == other@.end
        &&& self@.pos >= other@.pos
        &&& self@.big_endian == other@.big_endian
    }

    /// Reads one attribute of a block.
    fn read_block_flag(&mut self, Ghost(names): Ghost<Seq<Seq<char>>>) -> (r: Result<BlockAttr>)
        requires
            old(self).wf(),
        ensures
            final(self).wf(),
            final(self).moved_from(old(self)),
            agrees(r, block_flag(old(self).input(names)).value),
            final(self).input(names) == block_flag(old(self).input(names)).rest,
            r is Ok ==> final(self)@.pos > old(self)@.pos,
    {
        let cursor = self.cursor;
        let raw = match self.read_32(Ghost(names)) {
            Ok(raw) => raw,
            Err(e) => {
                return Err(e);
            },
        };
        match BlockAttr::from_gcno(raw) {
            Ok(attr) => Ok(attr),
            Err(e) => Err(Location::Cursor(cursor).wrap_error(e)),
        }
    }

    /// Parses a block list.
    fn parse_blocks(&mut self, Ghost(names): Ghost<Seq<Seq<char>>>) -> (r: Result<Blocks>)
        requires
            old(self).wf(),
        ensures
            final(self).wf(),
            final(self).moved_from(old(self)),
            agrees_view(r, parse_blocks(old(self).input(names)).value),
            final(self).input(names) == parse_blocks(old(self).input(names)).rest,
    {
        let ghost start = self.input(names);
        let mut flags: Vec<BlockAttr> = Vec::new();
        loop
            invariant
                self.wf(),
                self.moved_from(old(self)),
                start == old(self).input(names),
                after(flags@, until_eof(block_flags(), self.input(names))) == until_eof(
                    block_flags(),
                    start,
                ),
            decreases self@.end - self@.pos,
        {
            let ghost before = self.input(names);
            match self.read_block_flag(Ghost(names)) {
                Ok(flag) => {
                    proof {
                        lemma_until_eof_step(block_flags(), flags@, before);
                    }
                    flags.push(flag);
                },
                Err(e) => {
                    proof {
                        lemma_until_eof_end(block_flags(), flags@, before);
                    }
                    if e.is_eof() {
                        return Ok(Blocks { flags });
                    } else {
                        return Err(e);
                    }
                },
            }
        }
    }

    /// Reads one arc.
    fn read_arc(&mut self, Ghost(names): Ghost<Seq<Seq<char>>>) -> (r: Result<Arc>)
        requires
            old(self).wf(),
        ensures
            final(self).wf(),
            final(self).moved_from(old(self)),
            agrees(r, arc_item(old(self).input(names)).value),
            final(self).input(names) == arc_item(old(self).input(names)).rest,
            r is Ok ==> final(self)@.pos > old(self)@.pos,
    {
        let dest = match self.read_32(Ghost(names)) {
            Ok(dest) => dest,
            Err(e) => {
                return Err(e);
            },
        };
        let cursor = self.cursor;
        let raw = match self.read_32(Ghost(names)) {
            Ok(raw) => raw,
            Err(e) => {
                return Err(e);
            },
        };
        match ArcAttr::from_gcno(raw) {
            Ok(flags) => Ok(Arc { dest_block: BlockIndex(dest), flags }),
            Err(e) => Err(Location::Cursor(cursor).wrap_error(e)),
        }
    }

    /// Parses an arc list.
    fn parse_arcs(&mut self, Ghost(names): Ghost<Seq<Seq<char>>>) -> (r: Result<Arcs>)
        requires
            old(self).wf(),
        ensures
            final(self).wf(),
            final(self).moved_from(old(self)),
            agrees_view(r, parse_arcs(old(self).input(names)).value),
            final(self).input(names) == parse_arcs(old(self).input(names)).rest,
    {
        let src = match self.read_32(Ghost(names)) {
            Ok(src) => src,
            Err(e) => {
                return Err(e);
            },
        };
        let ghost start = self.input(names);
        let mut arcs: Vec<Arc> = Vec::new();
        loop
            invariant
                self.wf(),
                self.moved_from(old(self)),
                start == read_32(old(self).input(names)).rest,
                read_32(old(self).input(names)).value == Ok::<u32, Failure>(src),
                after(arcs@, until_eof(arc_items(), self.input(names))) == until_eof(
                    arc_items(),
                    start,
                ),
            decreases self@.end - self@.pos,
        {
            let ghost before = self.input(names);
            match self.read_arc(Ghost(names)) {
                Ok(arc) => {
                    proof {
                        lemma_until_eof_step(arc_items(), arcs@, before);
                    }
                    arcs.push(arc);
                },
                Err(e) => {
                    proof {
                        lemma_until_eof_end(arc_items(), arcs@, before);
                    }
                    if e.is_eof() {
                        return Ok(Arcs { src_block: BlockIndex(src), arcs });
                    } else {
                        return Err(e);
                    }
                },
            }
        }
    }

    /// Reads one line entry.
    fn read_line(&mut self, interner: &mut Interner) -> (r: Result<Line>)
        requires
            old(self).wf(),
            old(interner).wf(),
        ensures
            final(self).wf(),
            final(interner).wf(),
            final(self).moved_from(old(self)),
            agrees(r, line_item(old(self).input(old(interner)@)).value),
            final(self).input(final(interner)@) == line_item(old(self).input(old(interner)@)).rest,
            r is Ok ==> final(self)@.pos > old(self)@.pos,
    {
        let number = match self.read_32(Ghost(interner@)) {
            Ok(number) => number,
            Err(e) => {
                return Err(e);
            },
        };
        if number != 0 {
            Ok(Line::LineNumber(number))
        } else {
            match self.read_string(interner) {
                Ok(name) => Ok(Line::FileName(name)),
                Err(e) => Err(e),
            }
        }
    }

    /// Parses a line list.
    fn parse_lines(&mut self, interner: &mut Interner) -> (r: Result<Lines>)
        requires
            old(self).wf(),
            old(interner).wf(),
        ensures
            final(self).wf(),
            final(interner).wf(),
            final(self).moved_from(old(self)),
            agrees_view(r, parse_lines(old(self).input(old(interner)@)).value),
            final(self).input(final(interner)@) == parse_lines(
                old(self).input(old(interner)@),
            ).rest,
    {
        let block = match self.read_32(Ghost(interner@)) {
            Ok(block) => block,
            Err(e) => {
                return Err(e);
            },
        };
        let ghost start = self.input(interner@);
        let mut lines: Vec<Line> = Vec::new();
        loop
            invariant
                self.wf(),
                interner.wf(),
                self.moved_from(old(self)),
                start == read_32(old(self).input(old(interner)@)).rest,
                read_32(old(self).input(old(interner)@)).value == Ok::<u32, Failure>(block),
                after(lines@, until_eof(line_items(), self.input(interner@))) == until_eof(
                    line_items(),
                    start,
                ),
            decreases self@.end - self@.pos,
        {
            let ghost before = self.input(interner@);
            match self.read_line(interner) {
                Ok(line) => {
                    proof {
                        lemma_until_eof_step(line_items(), lines@, before);
                    }
                    lines.push(line);
                },
                Err(e) => {
                    proof {
                        lemma_until_eof_end(line_items(), lines@, before);
                    }
                    if e.is_eof() {
                        let _ = lines.pop();
                        return Ok(Lines { block_number: BlockIndex(block), lines });
                    } else {
                        return Err(e);
                    }
                },
            }
        }
    }

    /// Parses a list of arc counters.
    fn parse_arc_counts(&mut self, Ghost(names): Ghost<Seq<Seq<char>>>) -> (r: Result<ArcCounts>)
        requires
            old(self).wf(),
        ensures
            final(self).wf(),
            final(self).moved_from(old(self)),
            match (r, parse_arc_counts(old(self).input(names)).value) {
                (Ok(counts), Ok(expected)) => counts.counts@ == expected,
                (Err(e), Err(f)) => e.kind == f.kind && e.trail@ == f.trail,
                _ => false,
            },
            final(self).input(names) == parse_arc_counts(old(self).input(names)).rest,
    {
        let ghost start = self.input(names);
        let mut counts: Vec<u64> = Vec::new();
        loop
            invariant
                self.wf(),
                self.moved_from(old(self)),
                start == old(self).input(names),
                after(counts@, until_eof(count_items(), self.input(names))) == until_eof(
                    count_items(),
                    start,
                ),
            decreases self@.end - self@.pos,
        {
            let ghost before = self.input(names);
            match self.read_64(Ghost(names)) {
                Ok(count) => {
                    proof {
                        lemma_until_eof_step(count_items(), counts@, before);
                    }
                    counts.push(count);
                },
                Err(e) => {
                    proof {
                        lemma_until_eof_end(count_items(), counts@, before);
                    }
                    if e.is_eof() {
                        return Ok(ArcCounts { counts });
                    } else {
                        return Err(e);
                    }
                },
            }
        }
    }

    /// Reads name, file and line of a function.
    fn read_source(&mut self, interner: &mut Interner) -> (r: Result<Source>)
        requires
            old(self).wf(),
            old(interner).wf(),
        ensures
            final(self).wf(),
            final(interner).wf(),
            final(self).moved_from(old(self)),
            agrees(r, read_source(old(self).input(old(interner)@)).value),
            final(self).input(final(interner)@) == read_source(
                old(self).input(old(interner)@),
            ).rest,
    {
        let name = match self.read_string(interner) {
            Ok(name) => name,
            Err(e) => {
                return Err(e);
            },
        };
        let filename = match self.read_string(interner) {
            Ok(filename) => filename,
            Err(e) => {
                return Err(e);
            },
        };
        match self.read_32(Ghost(interner@)) {
            Ok(line) => Ok(Source { name, filename, line }),
            Err(e) => Err(e),
        }
    }

    /// Parses a function record.
    fn parse_function(&mut self, interner: &mut Interner) -> (r: Result<(Ident, Function)>)
        requires
            old(self).wf(),
            old(interner).wf(),
        ensures
            final(self).wf(),
            final(interner).wf(),
            final(self).moved_from(old(self)),
            agrees(
                r,
                parse_function(
                    old(self).input(old(interner)@),
                    old(self)@.ty,
                    old(self)@.version,
                ).value,
            ),
            final(self).input(final(interner)@) == parse_function(
                old(self).input(old(interner)@),
                old(self)@.ty,
                old(self)@.version,
            ).rest,
    {
        let ident = match self.read_32(Ghost(interner@)) {
            Ok(ident) => ident,
            Err(e) => {
                return Err(e);
            },
        };
        let lineno_checksum = match self.read_32(Ghost(interner@)) {
            Ok(checksum) => checksum,
            Err(e) => {
                return Err(e);
            },
        };
        let cfg_checksum = if self.version.is_4_7() {
            match self.read_32(Ghost(interner@)) {
                Ok(checksum) => checksum,
                Err(e) => {
                    return Err(e);
                },
            }
        } else {
            0
        };
        let source = match self.ty {
            Type::Gcno => {
                match self.read_source(interner) {
                    Ok(source) => Some(source),
                    Err(e) => {
                        return Err(e);
                    },
                }
            },
            Type::Gcda => {
                if !self.version.is_4_7() {
                    match self.read_string(interner) {
                        Ok(name) => Some(Source { name, filename: Symbol::unknown(), line: 0 }),
                        Err(e) => {
                            return Err(e);
                        },
                    }
                } else {
                    None
                }
            },
        };
        let _ = consume_to_end(&mut self.stream);
        Ok((Ident(ident), Function { lineno_checksum, cfg_checksum, source }))
    }
}

/// The bits of the eight words that are set, in rising order.
fn present_buckets(words: &Vec<u32>) -> (present: Vec<u32>)
    requires
        words@.len() == 8,
    ensures
        present@ == set_bits(words@, 256),
{
    let mut present: Vec<u32> = Vec::new();
    let mut position: u32 = 0;
    while position < 256
        invariant
            position <= 256,
            words@.len() == 8,
            present@ == set_bits(words@, position as nat),
        decreases 256 - position,
    {
        let word = words[(position / 32) as usize];
        let bit: u32 = position % 32;
        if word & (1u32 << bit) != 0 {
            present.push(position);
        }
        position += 1;
    }
    present
}

/// The buckets by their indices.
fn index_buckets(buckets: &Vec<HistogramBucket>, present: &Vec<u32>) -> (map: BTreeMap<
    u32,
    HistogramBucket,
>)
    ensures
        map@ == bucket_map(buckets@, present@, buckets@.len()),
{
    let mut map: BTreeMap<u32, HistogramBucket> = BTreeMap::new();
    let mut k: usize = 0;
    while k < buckets.len()
        invariant
            k <= buckets.len(),
            map@ == bucket_map(buckets@, present@, k as nat),
        decreases buckets.len() - k,
    {
        let index = if k < present.len() {
            present[k]
        } else {
            256
        };
        map.insert(index, buckets[k]);
        k += 1;
    }
    map
}

impl Reader {
    /// Reads one bucket of a histogram.
    fn read_bucket(&mut self, Ghost(names): Ghost<Seq<Seq<char>>>) -> (r: Result<HistogramBucket>)
        requires
            old(self).wf(),
        ensures
            final(self).wf(),
            final(self).moved_from(old(self)),
            agrees(r, bucket_item(old(self).input(names)).value),
            final(self).input(names) == bucket_item(old(self).input(names)).rest,
            r is Ok ==> final(self)@.pos > old(self)@.pos,
    {
        let num = match self.read_32(Ghost(names)) {
            Ok(num) => num,
            Err(e) => {
                return Err(e);
            },
        };
        let min = match self.read_64(Ghost(names)) {
            Ok(min) => min,
            Err(e) => {
                return Err(e);
            },
        };
        match self.read_64(Ghost(names)) {
            Ok(sum) => Ok(HistogramBucket { num, min, sum }),
            Err(e) => Err(e),
        }
    }

    /// Reads the numbers at the head of a summary.
    fn read_summary_head(&mut self, Ghost(names): Ghost<Seq<Seq<char>>>) -> (r: Result<Summary>)
        requires
            old(self).wf(),
        ensures
            final(self).wf(),
            final(self).moved_from(old(self)),
            agrees_view(r, summary_head(old(self).input(names)).value),
            final(self).input(names) == summary_head(old(self).input(names)).rest,
    {
        let checksum = match self.read_32(Ghost(names)) {
            Ok(v) => v,
            Err(e) => {
                return Err(e);
            },
        };
        let num = match self.read_32(Ghost(names)) {
            Ok(v) => v,
            Err(e) => {
                return Err(e);
            },
        };
        let runs = match self.read_32(Ghost(names)) {
            Ok(v) => v,
            Err(e) => {
                return Err(e);
            },
        };
        let sum = match self.read_64(Ghost(names)) {
            Ok(v) => v,
            Err(e) => {
                return Err(e);
            },
        };
        let max = match self.read_64(Ghost(names)) {
            Ok(v) => v,
            Err(e) => {
                return Err(e);
            },
        };
        match self.read_64(Ghost(names)) {
            Ok(sum_max) => Ok(Summary { checksum, num, runs, sum, max, sum_max, histogram: None }),
            Err(e) => Err(e),
        }
    }

    /// Parses a summary.
    fn parse_summary(&mut self, Ghost(names): Ghost<Seq<Seq<char>>>) -> (r: Result<Summary>)
        requires
            old(self).wf(),
        ensures
            final(self).wf(),
            final(self).moved_from(old(self)),
            agrees_view(r, parse_summary(old(self).input(names)).value),
            final(self).input(names) == parse_summary(old(self).input(names)).rest,
    {
        let mut summary = match self.read_summary_head(Ghost(names)) {
            Ok(summary) => summary,
            Err(e) => {
                return Err(e);
            },
        };
        let ghost head = summary@;
        let words = match self.read_histogram_bitvector(Ghost(names)) {
            Ok(words) => words,
            Err(_) => {
                return Ok(summary);
            },
        };
        let present = present_buckets(&words);
        let ghost start = self.input(names);
        let mut buckets: Vec<HistogramBucket> = Vec::new();
        loop
            invariant
                self.wf(),
                self.moved_from(old(self)),
                summary@ == head,
                head.histogram is None,
                summary_head(old(self).input(names)).value == Ok::<SummaryModel, Failure>(head),
                read_bitvector(summary_head(old(self).input(names)).rest).value == Ok::<
                    Seq<u32>,
                    Failure,
                >(words@),
                start == read_bitvector(summary_head(old(self).input(names)).rest).rest,
                present@ == set_bits(words@, 256),
                after(buckets@, until_eof(bucket_items(), self.input(names))) == until_eof(
                    bucket_items(),
                    start,
                ),
            decreases self@.end - self@.pos,
        {
            let ghost before = self.input(names);
            match self.read_bucket(Ghost(names)) {
                Ok(bucket) => {
                    proof {
                        lemma_until_eof_step(bucket_items(), buckets@, before);
                    }
                    buckets.push(bucket);
                },
                Err(e) => {
                    proof {
                        lemma_until_eof_end(bucket_items(), buckets@, before);
                    }
                    if e.is_eof() {
                        summary.histogram = Some(
                            Histogram { buckets: index_buckets(&buckets, &present) },
                        );
                        return Ok(summary);
                    } else {
                        return Err(e);
                    }
                },
            }
        }
    }

    /// Parses the body of a record with the given tag, which stands at the place `start`.
    fn parse_body(&mut self, tag: u32, start: u64, interner: &mut Interner) -> (r: Result<Record>)
        requires
            old(self).wf(),
            old(interner).wf(),
        ensures
            final(self).wf(),
            final(interner).wf(),
            final(self).moved_from(old(self)),
            agrees_view(
                r,
                parse_body(
                    old(self).input(old(interner)@),
                    tag,
                    start,
                    old(self)@.ty,
                    old(self)@.version,
                ).value,
            ),
            final(self).input(final(interner)@) == parse_body(
                old(self).input(old(interner)@),
                tag,
                start,
                old(self)@.ty,
                old(self)@.version,
            ).rest,
    {
        if tag == FUNCTION_TAG {
            match self.parse_function(interner) {
                Ok((ident, function)) => Ok(Record::Function(ident, function)),
                Err(e) => Err(e),
            }
        } else if tag == BLOCKS_TAG {
            match self.parse_blocks(Ghost(interner@)) {
                Ok(blocks) => Ok(Record::Blocks(blocks)),
                Err(e) => Err(e),
            }
        } else if tag == ARCS_TAG {
            match self.parse_arcs(Ghost(interner@)) {
                Ok(arcs) => Ok(Record::Arcs(arcs)),
                Err(e) => Err(e),
            }
        } else if tag == LINES_TAG {
            match self.parse_lines(interner) {
                Ok(lines) => Ok(Record::Lines(lines)),
                Err(e) => Err(e),
            }
        } else if tag == COUNTER_BASE_TAG {
            match self.parse_arc_counts(Ghost(interner@)) {
                Ok(counts) => Ok(Record::ArcCounts(counts)),
                Err(e) => Err(e),
            }
        } else if tag == OBJECT_SUMMARY_TAG || tag == PROGRAM_SUMMARY_TAG {
            match self.parse_summary(Ghost(interner@)) {
                Ok(summary) => Ok(Record::Summary(summary)),
                Err(e) => Err(e),
            }
        } else if tag == EOF_TAG {
            Err(Error::new(ErrorKind::Eof))
        } else {
            Err(Location::Cursor(start).wrap_error(Error::new(ErrorKind::UnknownTag(tag))))
        }
    }

    /// Reads one record: its head, and its body from the bytes that the head gives it.
    fn read_record(&mut self, interner: &mut Interner) -> (r: Result<Record>)
        requires
            old(self).wf(),
            old(interner).wf(),
        ensures
            final(self).wf(),
            final(interner).wf(),
            final(self).moved_from(old(self)),
            agrees_view(
                r,
                parse_record(
                    old(self).input(old(interner)@),
                    old(self)@.ty,
                    old(self)@.version,
                ).value,
            ),
            final(self).input(final(interner)@) == parse_record(
                old(self).input(old(interner)@),
                old(self)@.ty,
                old(self)@.version,
            ).rest,
            r is Ok ==> final(self)@.pos > old(self)@.pos,
    {
        let start = self.cursor;
        let tag = match self.read_32(Ghost(interner@)) {
            Ok(tag) => tag,
            Err(e) => {
                return Err(e);
            },
        };
        let words = match self.read_32(Ghost(interner@)) {
            Ok(words) => words,
            Err(e) => {
                return Err(e);
            },
        };
        let length: u64 = words as u64 * 4;
        let cursor = self.cursor;
        let outer = self.stream.take(length);
        let result = self.parse_body(tag, start, interner);
        self.stream.release(outer);
        self.cursor = cursor.wrapping_add(length);
        result
    }

    /// Parses the records of the file.
    ///
    /// The records are read up to the end of the bytes or to a record with the tag zero. A
    /// record that the bytes end in ends the reading too. The strings of the file are
    /// interned in `interner`.
    pub fn parse(&mut self, interner: &mut Interner) -> (r: Result<Gcov>)
        requires
            old(self).wf(),
            old(interner).wf(),
        ensures
            final(self).wf(),
            final(interner).wf(),
            final(self).moved_from(old(self)),
            match parse_records(
                old(self).input(old(interner)@),
                old(self)@.ty,
                old(self)@.version,
            ).value {
                Ok(records) => r is Ok && views(r->Ok_0.records@) == records && r->Ok_0.ty == old(
                    self,
                )@.ty && r->Ok_0.version == old(self)@.version && r->Ok_0.stamp == old(
                    self,
                )@.stamp && r->Ok_0.src is None,
                Err(f) => r is Err && r->Err_0.kind == f.kind && r->Err_0.trail@ == f.trail,
            },
            final(self).input(final(interner)@) == parse_records(
                old(self).input(old(interner)@),
                old(self)@.ty,
                old(self)@.version,
            ).rest,
    {
        let ghost start = self.input(interner@);
        let ghost item = record_items(self@.ty, self@.version);
        let mut records: Vec<Record> = Vec::new();
        proof {
            assert(views(records@) =~= Seq::<RecordModel>::empty());
        }
        loop
            invariant
                self.wf(),
                interner.wf(),
                self.moved_from(old(self)),
                start == old(self).input(old(interner)@),
                item == record_items(old(self)@.ty, old(self)@.version),
                after(views(records@), until_eof(item, self.input(interner@))) == until_eof(
                    item,
                    start,
                ),
            decreases self@.end - self@.pos,
        {
            let ghost before = self.input(interner@);
            match self.read_record(interner) {
                Ok(record) => {
                    proof {
                        lemma_until_eof_step(item, views(records@), before);
                        lemma_views_push(records@, record);
                    }
                    records.push(record);
                },
                Err(e) => {
                    proof {
                        lemma_until_eof_end(item, views(records@), before);
                    }
                    if e.is_eof() {
                        return Ok(
                            Gcov {
                                ty: self.ty,
                                version: self.version,
                                stamp: self.stamp,
                                records,
                                src: None,
                            },
                        );
                    } else {
                        return Err(e);
                    }
                },
            }
        }
    }
}

} // verus!
