//! The format of note and data files: what a sequence of bytes is read as.
//!
//! A file starts with a magic number, which gives the kind of file and the byte order, a
//! version and a stamp. Records follow: a tag, a length in words of four bytes, and a body
//! of that length. What a body holds is read from the body alone; what it does not use is
//! skipped.

use crate::bytes::{u32_at, u64_at};
use crate::error::{Error, ErrorKind, Location};
use crate::intern::{Interner, Symbol};
use crate::model::{ArcsModel, LinesModel};
use crate::raw::{
    Arc, ArcAttr, BlockAttr, BlockIndex, Function, Histogram, HistogramBucket, Ident, Line, Record,
    Source, Summary, Type, Version, ARCS_TAG, BLOCKS_TAG, COUNTER_BASE_TAG, EOF_TAG, FUNCTION_TAG,
    LINES_TAG, OBJECT_SUMMARY_TAG, PROGRAM_SUMMARY_TAG,
};
use vstd::prelude::*;

verus! {

/// The bytes that are being read: the bytes `data` from `pos` up to `end`. `cursor` counts
/// the bytes that were asked for, and `names` are the strings interned so far.
pub struct Input {
    pub data: Seq<u8>,
    pub pos: int,
    pub end: int,
    pub cursor: u64,
    pub big_endian: bool,
    pub names: Seq<Seq<char>>,
}

/// An error: its kind, and the places it is reported at.
pub struct Failure {
    pub kind: ErrorKind,
    pub trail: Seq<Location>,
}

/// What reading gave, and what is left to read.
pub struct Step<T> {
    pub value: Result<T, Failure>,
    pub rest: Input,
}

/// Whether the positions lie inside the bytes.
pub open spec fn input_ok(i: Input) -> bool {
    0 <= i.pos <= i.end <= i.data.len()
}

/// The number of bytes left.
pub open spec fn left(i: Input) -> int {
    i.end - i.pos
}

/// The input after `n` bytes were read.
pub open spec fn advance(i: Input, n: int) -> Input {
    Input { pos: i.pos + n, cursor: i.cursor.wrapping_add(n as u64), ..i }
}

/// The input after `n` bytes were asked for and fewer were there.
pub open spec fn exhaust(i: Input, n: int) -> Input {
    Input { pos: i.end, cursor: i.cursor.wrapping_add(n as u64), ..i }
}

/// The end of the bytes, met at the given count of bytes.
pub open spec fn eof_at(cursor: u64) -> Failure {
    Failure { kind: ErrorKind::Eof, trail: seq![Location::Cursor(cursor)] }
}

/// A 32-bit number.
pub open spec fn read_32(i: Input) -> Step<u32> {
    if left(i) >= 4 {
        Step {
            value: Ok(u32_at(i.data.subrange(i.pos, i.pos + 4), i.big_endian)),
            rest: advance(i, 4),
        }
    } else {
        Step { value: Err(eof_at(i.cursor)), rest: exhaust(i, 4) }
    }
}

/// A 64-bit number: two 32-bit numbers, the low half first.
pub open spec fn read_64(i: Input) -> Step<u64> {
    if left(i) >= 8 {
        Step {
            value: Ok(u64_at(i.data.subrange(i.pos, i.pos + 8), i.big_endian)),
            rest: advance(i, 8),
        }
    } else {
        Step { value: Err(eof_at(i.cursor)), rest: exhaust(i, 8) }
    }
}

/// The first `n` bytes without the zero bytes at their end.
pub open spec fn trimmed(bytes: Seq<u8>, n: nat) -> Seq<u8>
    decreases n,
{
    if n == 0 {
        Seq::empty()
    } else if bytes[n - 1] != 0 {
        bytes.subrange(0, n as int)
    } else {
        trimmed(bytes, (n - 1) as nat)
    }
}

/// A string: a length in words, and as many words of UTF-8, filled up with zero bytes. A
/// string that the bytes end in is taken as far as it goes. The string is interned.
pub open spec fn read_string(i: Input) -> Step<Symbol> {
    let length = read_32(i);
    match length.value {
        Err(e) => Step { value: Err(e), rest: length.rest },
        Ok(words) => {
            let j = length.rest;
            let wanted = words as int * 4;
            let taken = if wanted <= left(j) {
                wanted
            } else {
                left(j)
            };
            let raw = j.data.subrange(j.pos, j.pos + taken);
            let text = trimmed(raw, raw.len());
            let after = Input { pos: j.pos + taken, cursor: j.cursor.wrapping_add(wanted as u64), ..j };
            if vstd::utf8::valid_utf8(text) {
                let name = vstd::utf8::decode_utf8(text);
                Step {
                    value: Ok(Symbol(Interner::spec_handle(j.names, name) as usize)),
                    rest: Input { names: Interner::spec_intern(j.names, name), ..after },
                }
            } else {
                Step {
                    value: Err(
                        Failure { kind: ErrorKind::FromUtf8, trail: seq![Location::Cursor(j.cursor)] },
                    ),
                    rest: after,
                }
            }
        },
    }
}

/// What `item` reads again and again until the bytes end. Another error ends the reading
/// with that error.
pub open spec fn until_eof<T>(item: spec_fn(Input) -> Step<T>, i: Input) -> Step<Seq<T>>
    decreases left(i),
{
    let first = item(i);
    match first.value {
        Err(e) => if e.kind is Eof {
            Step { value: Ok(Seq::empty()), rest: first.rest }
        } else {
            Step { value: Err(e), rest: first.rest }
        },
        Ok(x) => if 0 <= left(first.rest) < left(i) {
            let more = until_eof(item, first.rest);
            Step {
                value: match more.value {
                    Ok(xs) => Ok(seq![x].add(xs)),
                    Err(e) => Err(e),
                },
                rest: more.rest,
            }
        } else {
            Step { value: Ok(seq![x]), rest: first.rest }
        },
    }
}

/// The step with `front` put before what was read.
pub open spec fn after<T>(front: Seq<T>, step: Step<Seq<T>>) -> Step<Seq<T>> {
    Step {
        value: match step.value {
            Ok(xs) => Ok(front.add(xs)),
            Err(e) => Err(e),
        },
        rest: step.rest,
    }
}

/// Reading on after one more item.
pub proof fn lemma_until_eof_step<T>(item: spec_fn(Input) -> Step<T>, front: Seq<T>, i: Input)
    requires
        item(i).value is Ok,
        0 <= left(item(i).rest) < left(i),
    ensures
        after(front, until_eof(item, i)) == after(
            front.push(item(i).value->Ok_0),
            until_eof(item, item(i).rest),
        ),
{
    let x = item(i).value->Ok_0;
    let more = until_eof(item, item(i).rest);
    if more.value is Ok {
        assert(front.add(seq![x].add(more.value->Ok_0)) =~= front.push(x).add(more.value->Ok_0));
    }
}

/// Reading ends with the items read so far when the bytes end, and with the error on
/// another error.
pub proof fn lemma_until_eof_end<T>(item: spec_fn(Input) -> Step<T>, front: Seq<T>, i: Input)
    requires
        item(i).value is Err,
    ensures
        after(front, until_eof(item, i)) == (Step {
            value: if item(i).value->Err_0.kind is Eof {
                Ok(front)
            } else {
                Err(item(i).value->Err_0)
            },
            rest: item(i).rest,
        }),
{
    assert(front.add(Seq::<T>::empty()) =~= front);
}

/// One attribute of a block.
pub open spec fn block_flag(i: Input) -> Step<BlockAttr> {
    let raw = read_32(i);
    match raw.value {
        Err(e) => Step { value: Err(e), rest: raw.rest },
        Ok(flags) => Step {
            value: if BlockAttr::spec_allowed_from_gcno(flags) {
                Ok(BlockAttr { bits: flags as u16 })
            } else {
                Err(
                    Failure {
                        kind: ErrorKind::UnsupportedAttr("block", flags),
                        trail: seq![Location::Cursor(i.cursor)],
                    },
                )
            },
            rest: raw.rest,
        },
    }
}

/// Reading one attribute of a block.
pub open spec fn block_flags() -> spec_fn(Input) -> Step<BlockAttr> {
    |j: Input| block_flag(j)
}

/// Reading one arc.
pub open spec fn arc_items() -> spec_fn(Input) -> Step<Arc> {
    |j: Input| arc_item(j)
}

/// Reading one line entry.
pub open spec fn line_items() -> spec_fn(Input) -> Step<Line> {
    |j: Input| line_item(j)
}

/// Reading one arc counter.
pub open spec fn count_items() -> spec_fn(Input) -> Step<u64> {
    |j: Input| read_64(j)
}

/// Reading one bucket of a histogram.
pub open spec fn bucket_items() -> spec_fn(Input) -> Step<HistogramBucket> {
    |j: Input| bucket_item(j)
}

/// Reading one record of a file of the given kind and version.
pub open spec fn record_items(ty: Type, version: Version) -> spec_fn(Input) -> Step<RecordModel> {
    |j: Input| parse_record(j, ty, version)
}

/// The body of a block list: the attributes of the blocks.
pub open spec fn parse_blocks(i: Input) -> Step<Seq<BlockAttr>> {
    until_eof(block_flags(), i)
}

/// One arc: the block it leads to, and its attribute.
pub open spec fn arc_item(i: Input) -> Step<Arc> {
    let dest = read_32(i);
    match dest.value {
        Err(e) => Step { value: Err(e), rest: dest.rest },
        Ok(dest_block) => {
            let raw = read_32(dest.rest);
            match raw.value {
                Err(e) => Step { value: Err(e), rest: raw.rest },
                Ok(flags) => Step {
                    value: if ArcAttr::spec_allowed_from_gcno(flags) {
                        Ok(
                            Arc {
                                dest_block: BlockIndex(dest_block),
                                flags: ArcAttr { bits: flags as u16 },
                            },
                        )
                    } else {
                        Err(
                            Failure {
                                kind: ErrorKind::UnsupportedAttr("arc", flags),
                                trail: seq![Location::Cursor(dest.rest.cursor)],
                            },
                        )
                    },
                    rest: raw.rest,
                },
            }
        },
    }
}

/// The body of an arc list: the block that the arcs leave, and the arcs.
pub open spec fn parse_arcs(i: Input) -> Step<ArcsModel> {
    let src = read_32(i);
    match src.value {
        Err(e) => Step { value: Err(e), rest: src.rest },
        Ok(src_block) => {
            let arcs = until_eof(arc_items(), src.rest);
            Step {
                value: match arcs.value {
                    Ok(arcs) => Ok(ArcsModel { src_block: BlockIndex(src_block), arcs }),
                    Err(e) => Err(e),
                },
                rest: arcs.rest,
            }
        },
    }
}

/// One line entry: a line number, or a zero and the name of a file.
pub open spec fn line_item(i: Input) -> Step<Line> {
    let number = read_32(i);
    match number.value {
        Err(e) => Step { value: Err(e), rest: number.rest },
        Ok(n) => if n != 0 {
            Step { value: Ok(Line::LineNumber(n)), rest: number.rest }
        } else {
            let name = read_string(number.rest);
            Step {
                value: match name.value {
                    Ok(symbol) => Ok(Line::FileName(symbol)),
                    Err(e) => Err(e),
                },
                rest: name.rest,
            }
        },
    }
}

/// The body of a line list: the block, and its line entries but the last, which is the
/// empty file name that ends the list.
pub open spec fn parse_lines(i: Input) -> Step<LinesModel> {
    let block = read_32(i);
    match block.value {
        Err(e) => Step { value: Err(e), rest: block.rest },
        Ok(block_number) => {
            let lines = until_eof(line_items(), block.rest);
            Step {
                value: match lines.value {
                    Ok(lines) => Ok(
                        LinesModel {
                            block_number: BlockIndex(block_number),
                            lines: if lines.len() > 0 {
                                lines.drop_last()
                            } else {
                                lines
                            },
                        },
                    ),
                    Err(e) => Err(e),
                },
                rest: lines.rest,
            }
        },
    }
}

/// The body of a list of arc counters.
pub open spec fn parse_arc_counts(i: Input) -> Step<Seq<u64>> {
    until_eof(count_items(), i)
}

/// Name, file and line of a function.
pub open spec fn read_source(i: Input) -> Step<Source> {
    let name = read_string(i);
    match name.value {
        Err(e) => Step { value: Err(e), rest: name.rest },
        Ok(name_symbol) => {
            let filename = read_string(name.rest);
            match filename.value {
                Err(e) => Step { value: Err(e), rest: filename.rest },
                Ok(filename_symbol) => {
                    let line = read_32(filename.rest);
                    Step {
                        value: match line.value {
                            Ok(line) => Ok(
                                Source { name: name_symbol, filename: filename_symbol, line },
                            ),
                            Err(e) => Err(e),
                        },
                        rest: line.rest,
                    }
                },
            }
        },
    }
}

/// The source of a function as the kind and version of the file give it: a note file
/// gives name, file and line; a data file before version 4.7 gives the name; a later data
/// file gives nothing.
pub open spec fn function_source(i: Input, ty: Type, version: Version) -> Step<Option<Source>> {
    if ty is Gcno {
        let source = read_source(i);
        Step {
            value: match source.value {
                Ok(source) => Ok(Some(source)),
                Err(e) => Err(e),
            },
            rest: source.rest,
        }
    } else if !version.spec_is_4_7() {
        let name = read_string(i);
        Step {
            value: match name.value {
                Ok(name) => Ok(
                    Some(Source { name, filename: Symbol::spec_unknown(), line: 0 }),
                ),
                Err(e) => Err(e),
            },
            rest: name.rest,
        }
    } else {
        Step { value: Ok(None), rest: i }
    }
}

/// The body of a function record: identifier, checksum of the lines, from version 4.7 on
/// the checksum of the graph, and the source. The rest of the body is skipped.
pub open spec fn parse_function(i: Input, ty: Type, version: Version) -> Step<(Ident, Function)> {
    let ident = read_32(i);
    match ident.value {
        Err(e) => Step { value: Err(e), rest: ident.rest },
        Ok(ident_value) => {
            let lineno = read_32(ident.rest);
            match lineno.value {
                Err(e) => Step { value: Err(e), rest: lineno.rest },
                Ok(lineno_checksum) => {
                    let cfg = if version.spec_is_4_7() {
                        read_32(lineno.rest)
                    } else {
                        Step { value: Ok(0u32), rest: lineno.rest }
                    };
                    match cfg.value {
                        Err(e) => Step { value: Err(e), rest: cfg.rest },
                        Ok(cfg_checksum) => {
                            let source = function_source(cfg.rest, ty, version);
                            match source.value {
                                Err(e) => Step { value: Err(e), rest: source.rest },
                                Ok(source_value) => Step {
                                    value: Ok(
                                        (
                                            Ident(ident_value),
                                            Function {
                                                lineno_checksum,
                                                cfg_checksum,
                                                source: source_value,
                                            },
                                        ),
                                    ),
                                    rest: Input { pos: source.rest.end, ..source.rest },
                                },
                            }
                        },
                    }
                },
            }
        },
    }
}

/// The kind of file and the byte order that a magic number stands for.
pub open spec fn magic_kind(magic: u32) -> Option<(Type, bool)> {
    if magic == 0x6763_6e6f {
        Some((Type::Gcno, false))
    } else if magic == 0x6f6e_6367 {
        Some((Type::Gcno, true))
    } else if magic == 0x6763_6461 {
        Some((Type::Gcda, false))
    } else if magic == 0x6164_6367 {
        Some((Type::Gcda, true))
    } else {
        None
    }
}

/// What the head of a file gives.
pub struct Header {
    pub ty: Type,
    pub big_endian: bool,
    pub version: Version,
    pub stamp: u32,
}

/// The head of a file: magic number, version and stamp.
pub open spec fn parse_header(data: Seq<u8>) -> Result<Header, Failure> {
    if data.len() < 4 {
        Err(Failure { kind: ErrorKind::Eof, trail: Seq::empty() })
    } else {
        match magic_kind(crate::bytes::le_u32(data.subrange(0, 4))) {
            None => Err(
                Failure {
                    kind: ErrorKind::UnknownFileType(crate::bytes::le_u32(data.subrange(0, 4))),
                    trail: Seq::empty(),
                },
            ),
            Some((ty, big_endian)) => {
                let start = Input {
                    data,
                    pos: 4,
                    end: data.len() as int,
                    cursor: 4,
                    big_endian,
                    names: Seq::empty(),
                };
                let version = read_32(start);
                match version.value {
                    Err(e) => Err(e),
                    Ok(raw) => if !Version::spec_supported(raw) {
                        Err(
                            Failure {
                                kind: ErrorKind::UnsupportedVersion(raw),
                                trail: seq![Location::Cursor(4)],
                            },
                        )
                    } else {
                        let stamp = read_32(version.rest);
                        match stamp.value {
                            Err(e) => Err(e),
                            Ok(stamp) => Ok(Header { ty, big_endian, version: Version(raw), stamp }),
                        }
                    },
                }
            },
        }
    }
}

/// The eight words that say which buckets of a histogram are present.
pub open spec fn read_bitvector(i: Input) -> Step<Seq<u32>> {
    if left(i) >= 32 {
        Step {
            value: Ok(
                Seq::new(
                    8,
                    |k: int| u32_at(i.data.subrange(i.pos + 4 * k, i.pos + 4 * k + 4), i.big_endian),
                ),
            ),
            rest: advance(i, 32),
        }
    } else {
        Step { value: Err(eof_at(i.cursor)), rest: exhaust(i, 32) }
    }
}

/// Whether the bit `position` of the words is set, the lowest bit of the first word being
/// bit 0.
pub open spec fn bit_set(words: Seq<u32>, position: int) -> bool {
    words[position / 32] & (1u32 << ((position % 32) as u32)) != 0
}

/// The bits below `n` that are set, in rising order.
pub open spec fn set_bits(words: Seq<u32>, n: nat) -> Seq<u32>
    decreases n,
{
    if n == 0 {
        Seq::empty()
    } else {
        let rest = set_bits(words, (n - 1) as nat);
        if bit_set(words, n - 1) {
            rest.push((n - 1) as u32)
        } else {
            rest
        }
    }
}

/// One bucket of a histogram.
pub open spec fn bucket_item(i: Input) -> Step<HistogramBucket> {
    let num = read_32(i);
    match num.value {
        Err(e) => Step { value: Err(e), rest: num.rest },
        Ok(num_value) => {
            let min = read_64(num.rest);
            match min.value {
                Err(e) => Step { value: Err(e), rest: min.rest },
                Ok(min_value) => {
                    let sum = read_64(min.rest);
                    Step {
                        value: match sum.value {
                            Ok(sum_value) => Ok(
                                HistogramBucket { num: num_value, min: min_value, sum: sum_value },
                            ),
                            Err(e) => Err(e),
                        },
                        rest: sum.rest,
                    }
                },
            }
        },
    }
}

/// The first `n` buckets by their indices: the buckets stand in the order of the bits that
/// are set, and a bucket without a bit has the index 256.
pub open spec fn bucket_map(buckets: Seq<HistogramBucket>, present: Seq<u32>, n: nat) -> Map<
    u32,
    HistogramBucket,
>
    decreases n,
{
    if n == 0 {
        Map::empty()
    } else {
        bucket_map(buckets, present, (n - 1) as nat).insert(
            if n - 1 < present.len() {
                present[n - 1]
            } else {
                256u32
            },
            buckets[n - 1],
        )
    }
}

/// A summary, as a mathematical value.
pub struct SummaryModel {
    pub checksum: u32,
    pub num: u32,
    pub runs: u32,
    pub sum: u64,
    pub max: u64,
    pub sum_max: u64,
    pub histogram: Option<Map<u32, HistogramBucket>>,
}

/// The numbers at the head of a summary.
pub open spec fn summary_head(i: Input) -> Step<SummaryModel> {
    let checksum = read_32(i);
    match checksum.value {
        Err(e) => Step { value: Err(e), rest: checksum.rest },
        Ok(checksum_value) => {
            let num = read_32(checksum.rest);
            match num.value {
                Err(e) => Step { value: Err(e), rest: num.rest },
                Ok(num_value) => {
                    let runs = read_32(num.rest);
                    match runs.value {
                        Err(e) => Step { value: Err(e), rest: runs.rest },
                        Ok(runs_value) => {
                            let sum = read_64(runs.rest);
                            match sum.value {
                                Err(e) => Step { value: Err(e), rest: sum.rest },
                                Ok(sum_value) => {
                                    let max = read_64(sum.rest);
                                    match max.value {
                                        Err(e) => Step { value: Err(e), rest: max.rest },
                                        Ok(max_value) => {
                                            let sum_max = read_64(max.rest);
                                            Step {
                                                value: match sum_max.value {
                                                    Ok(sum_max_value) => Ok(
                                                        SummaryModel {
                                                            checksum: checksum_value,
                                                            num: num_value,
                                                            runs: runs_value,
                                                            sum: sum_value,
                                                            max: max_value,
                                                            sum_max: sum_max_value,
                                                            histogram: None,
                                                        },
                                                    ),
                                                    Err(e) => Err(e),
                                                },
                                                rest: sum_max.rest,
                                            }
                                        },
                                    }
                                },
                            }
                        },
                    }
                },
            }
        },
    }
}

/// The body of a summary: six numbers, and a histogram if the body goes on.
pub open spec fn parse_summary(i: Input) -> Step<SummaryModel> {
    let head = summary_head(i);
    match head.value {
        Err(e) => head,
        Ok(summary) => {
            let words = read_bitvector(head.rest);
            match words.value {
                Err(_) => Step { value: Ok(summary), rest: words.rest },
                Ok(bits) => {
                    let buckets = until_eof(bucket_items(), words.rest);
                    Step {
                        value: match buckets.value {
                            Ok(buckets) => Ok(
                                SummaryModel {
                                    histogram: Some(
                                        bucket_map(buckets, set_bits(bits, 256), buckets.len()),
                                    ),
                                    ..summary
                                },
                            ),
                            Err(e) => Err(e),
                        },
                        rest: buckets.rest,
                    }
                },
            }
        },
    }
}

/// A record, as a mathematical value.
pub enum RecordModel {
    Function(Ident, Function),
    Blocks(Seq<BlockAttr>),
    Arcs(ArcsModel),
    Lines(LinesModel),
    ArcCounts(Seq<u64>),
    Summary(SummaryModel),
}

/// The step with the value turned into another.
pub open spec fn map_step<A, B>(step: Step<A>, f: spec_fn(A) -> B) -> Step<B> {
    Step {
        value: match step.value {
            Ok(a) => Ok(f(a)),
            Err(e) => Err(e),
        },
        rest: step.rest,
    }
}

/// The body of a record with the given tag, or the error of the tag: the tag zero stands
/// for the end of the file, and a tag that is not known is refused at the place `start` of
/// the record.
pub open spec fn parse_body(body: Input, tag: u32, start: u64, ty: Type, version: Version) -> Step<
    RecordModel,
> {
    if tag == FUNCTION_TAG {
        map_step(
            parse_function(body, ty, version),
            |f: (Ident, Function)| RecordModel::Function(f.0, f.1),
        )
    } else if tag == BLOCKS_TAG {
        map_step(parse_blocks(body), |b: Seq<BlockAttr>| RecordModel::Blocks(b))
    } else if tag == ARCS_TAG {
        map_step(parse_arcs(body), |a: ArcsModel| RecordModel::Arcs(a))
    } else if tag == LINES_TAG {
        map_step(parse_lines(body), |l: LinesModel| RecordModel::Lines(l))
    } else if tag == COUNTER_BASE_TAG {
        map_step(parse_arc_counts(body), |c: Seq<u64>| RecordModel::ArcCounts(c))
    } else if tag == OBJECT_SUMMARY_TAG || tag == PROGRAM_SUMMARY_TAG {
        map_step(parse_summary(body), |s: SummaryModel| RecordModel::Summary(s))
    } else if tag == EOF_TAG {
        Step { value: Err(Failure { kind: ErrorKind::Eof, trail: Seq::empty() }), rest: body }
    } else {
        Step {
            value: Err(
                Failure { kind: ErrorKind::UnknownTag(tag), trail: seq![Location::Cursor(start)] },
            ),
            rest: body,
        }
    }
}

/// One record: tag, length in words, and a body of that length or as much of it as there
/// is. The count of bytes goes on by the length whatever the body holds.
pub open spec fn parse_record(i: Input, ty: Type, version: Version) -> Step<RecordModel> {
    let tag = read_32(i);
    match tag.value {
        Err(e) => Step { value: Err(e), rest: tag.rest },
        Ok(tag_value) => {
            let words = read_32(tag.rest);
            match words.value {
                Err(e) => Step { value: Err(e), rest: words.rest },
                Ok(words_value) => {
                    let j = words.rest;
                    let length = words_value as int * 4;
                    let body = Input {
                        end: if length <= left(j) {
                            j.pos + length
                        } else {
                            j.end
                        },
                        ..j
                    };
                    let parsed = parse_body(body, tag_value, i.cursor, ty, version);
                    Step {
                        value: parsed.value,
                        rest: Input {
                            end: j.end,
                            cursor: j.cursor.wrapping_add(length as u64),
                            ..parsed.rest
                        },
                    }
                },
            }
        },
    }
}

/// The records of a file, up to the end of the bytes or to the tag zero.
pub open spec fn parse_records(i: Input, ty: Type, version: Version) -> Step<Seq<RecordModel>> {
    until_eof(record_items(ty, version), i)
}

/// The bytes after the head of a file.
pub open spec fn after_header(data: Seq<u8>, big_endian: bool, names: Seq<Seq<char>>) -> Input {
    Input { data, pos: 12, end: data.len() as int, cursor: 12, big_endian, names }
}

impl View for Histogram {
    type V = Map<u32, HistogramBucket>;

    open spec fn view(&self) -> Map<u32, HistogramBucket> {
        self.buckets@
    }
}

impl View for Summary {
    type V = SummaryModel;

    open spec fn view(&self) -> SummaryModel {
        SummaryModel {
            checksum: self.checksum,
            num: self.num,
            runs: self.runs,
            sum: self.sum,
            max: self.max,
            sum_max: self.sum_max,
            histogram: match self.histogram {
                Some(histogram) => Some(histogram@),
                None => None,
            },
        }
    }
}

impl View for Record {
    type V = RecordModel;

    open spec fn view(&self) -> RecordModel {
        match *self {
            Record::Function(ident, function) => RecordModel::Function(ident, function),
            Record::Blocks(blocks) => RecordModel::Blocks(blocks@),
            Record::Arcs(arcs) => RecordModel::Arcs(arcs@),
            Record::Lines(lines) => RecordModel::Lines(lines@),
            Record::ArcCounts(counts) => RecordModel::ArcCounts(counts.counts@),
            Record::Summary(summary) => RecordModel::Summary(summary@),
        }
    }
}

/// Whether the result is the one that the format gives.
pub open spec fn agrees<T>(r: Result<T, Error>, v: Result<T, Failure>) -> bool {
    match (r, v) {
        (Ok(a), Ok(b)) => a == b,
        (Err(e), Err(f)) => e.kind == f.kind && e.trail@ == f.trail,
        _ => false,
    }
}

/// Whether the result has the view that the format gives.
pub open spec fn agrees_view<T: View>(r: Result<T, Error>, v: Result<T::V, Failure>) -> bool {
    match (r, v) {
        (Ok(a), Ok(b)) => a@ == b,
        (Err(e), Err(f)) => e.kind == f.kind && e.trail@ == f.trail,
        _ => false,
    }
}

} // verus!
