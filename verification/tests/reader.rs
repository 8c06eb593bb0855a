use cov::error::{ErrorKind, Location};
use cov::intern::{Interner, Symbol};
use cov::raw::{
    Arc, ArcAttr, ArcCounts, Arcs, BlockAttr, BlockIndex, Blocks, Function, HistogramBucket,
    Ident, Line, Lines, Record, Source, Type, Version,
};
use cov::reader::{consume_to_end, Reader, Stream};

const NOTES: u32 = 0x6763_6e6f;
const DATA: u32 = 0x6763_6461;
const V407: u32 = 0x3430_372a;
const V402: u32 = 0x3430_322a;

/// The bytes of a file from its words and raw strings, in the byte order asked for.
enum Item {
    Word(u32),
    Raw(Vec<u8>),
}

fn encode(items: &[Item], big_endian: bool) -> Vec<u8> {
    let mut bytes = Vec::new();
    for item in items {
        match item {
            Item::Word(w) => {
                if big_endian {
                    bytes.extend_from_slice(&w.to_be_bytes());
                } else {
                    bytes.extend_from_slice(&w.to_le_bytes());
                }
            }
            Item::Raw(raw) => bytes.extend_from_slice(raw),
        }
    }
    bytes
}

fn string(text: &str) -> Vec<Item> {
    let mut raw = text.as_bytes().to_vec();
    raw.push(0);
    while raw.len() % 4 != 0 {
        raw.push(0);
    }
    vec![Item::Word((raw.len() / 4) as u32), Item::Raw(raw)]
}

fn words(values: &[u32]) -> Vec<Item> {
    values.iter().map(|v| Item::Word(*v)).collect()
}

fn size(items: &[Item]) -> u32 {
    let mut bytes = 0;
    for item in items {
        bytes += match item {
            Item::Word(_) => 4,
            Item::Raw(raw) => raw.len(),
        };
    }
    (bytes / 4) as u32
}

fn record(tag: u32, body: Vec<Item>) -> Vec<Item> {
    let mut items = vec![Item::Word(tag), Item::Word(size(&body))];
    items.extend(body);
    items
}

fn file(magic: u32, version: u32, stamp: u32, records: Vec<Vec<Item>>) -> Vec<Item> {
    let mut items = words(&[magic, version, stamp]);
    for r in records {
        items.extend(r);
    }
    items
}

fn notes_items() -> Vec<Item> {
    let mut function = words(&[3, 0x1111, 0x2222]);
    function.extend(string("main"));
    function.extend(string("x.c"));
    function.push(Item::Word(7));
    let mut lines = words(&[2]);
    lines.push(Item::Word(0));
    lines.extend(string("x.c"));
    lines.extend(words(&[8, 9]));
    lines.push(Item::Word(0));
    lines.push(Item::Word(0));
    file(
        NOTES,
        V407,
        0xabcd,
        vec![
            record(0x0100_0000, function),
            record(0x0141_0000, words(&[0, 0, 2])),
            record(0x0143_0000, words(&[0, 2, 5])),
            record(0x0143_0000, words(&[2, 1, 0])),
            record(0x0145_0000, lines),
        ],
    )
}

fn expected_notes_records(main: Symbol, x_c: Symbol) -> Vec<Record> {
    vec![
        Record::Function(
            Ident(3),
            Function {
                lineno_checksum: 0x1111,
                cfg_checksum: 0x2222,
                source: Some(Source { name: main, filename: x_c, line: 7 }),
            },
        ),
        Record::Blocks(Blocks {
            flags: vec![BlockAttr { bits: 0 }, BlockAttr { bits: 0 }, BlockAttr { bits: 2 }],
        }),
        Record::Arcs(Arcs {
            src_block: BlockIndex(0),
            arcs: vec![Arc { dest_block: BlockIndex(2), flags: ArcAttr { bits: 5 } }],
        }),
        Record::Arcs(Arcs {
            src_block: BlockIndex(2),
            arcs: vec![Arc { dest_block: BlockIndex(1), flags: ArcAttr { bits: 0 } }],
        }),
        Record::Lines(Lines {
            block_number: BlockIndex(2),
            lines: vec![Line::FileName(x_c), Line::LineNumber(8), Line::LineNumber(9)],
        }),
    ]
}

#[test]
fn test_consume_to_end() {
    let mut reader = Stream::new(b"abcde123456fghijkl".to_vec());
    let top = reader.read_exact(5).unwrap();
    let outer = reader.take(6);
    consume_to_end(&mut reader).unwrap();
    reader.release(outer);
    let bottom = reader.read_exact(7).unwrap();
    assert_eq!(&top[..], b"abcde");
    assert_eq!(&bottom[..], b"fghijkl");
    assert_eq!(reader.remaining(), 0);
}

#[test]
fn test_stream_short_read_gives_up_the_rest() {
    let mut reader = Stream::new(b"abc".to_vec());
    assert_eq!(reader.read_exact(4), None);
    assert_eq!(reader.remaining(), 0);
    let mut reader = Stream::new(b"abcdef".to_vec());
    assert_eq!(reader.read_up_to(4), b"abcd".to_vec());
    assert_eq!(reader.read_up_to(4), b"ef".to_vec());
}

#[test]
fn test_parse_notes_little_endian() {
    let mut interner = Interner::new();
    let mut reader = Reader::new(encode(&notes_items(), false)).unwrap();
    let gcov = reader.parse(&mut interner).unwrap();
    assert_eq!(gcov.ty, Type::Gcno);
    assert_eq!(gcov.version, Version(V407));
    assert_eq!(gcov.stamp, 0xabcd);
    assert_eq!(gcov.src, None);
    assert_eq!(gcov.records, expected_notes_records(Symbol(1), Symbol(2)));
    assert_eq!(interner.resolve(Symbol(1)), Ok("main"));
    assert_eq!(interner.resolve(Symbol(2)), Ok("x.c"));
    // the empty file name that ends a line list is interned too
    assert_eq!(interner.resolve(Symbol(3)), Ok(""));
    assert_eq!(interner.len(), 4);
}

#[test]
fn test_parse_notes_big_endian_reads_the_same() {
    let mut interner = Interner::new();
    let mut reader = Reader::new(encode(&notes_items(), true)).unwrap();
    let gcov = reader.parse(&mut interner).unwrap();
    assert_eq!(gcov.ty, Type::Gcno);
    assert_eq!(gcov.version, Version(V407));
    assert_eq!(gcov.stamp, 0xabcd);
    assert_eq!(gcov.records, expected_notes_records(Symbol(1), Symbol(2)));
}

#[test]
fn test_parse_reads_all_records_up_to_the_end() {
    let bytes = encode(&notes_items(), false);
    let length = bytes.len();
    let mut interner = Interner::new();
    let mut reader = Reader::new(bytes).unwrap();
    assert_eq!(reader.ty(), Type::Gcno);
    assert_eq!(reader.version(), Version(V407));
    assert_eq!(reader.stamp(), 0xabcd);
    assert_eq!(reader.cursor(), 12);
    assert_eq!(reader.remaining(), length - 12);
    let gcov = reader.parse(&mut interner).unwrap();
    assert!(!gcov.records.is_empty());
    assert_eq!(gcov.records.len(), 5);
    assert_eq!(reader.remaining(), 0);
}

#[test]
fn test_parse_data_with_counts_in_both_byte_orders() {
    let items = file(
        DATA,
        V407,
        0xabcd,
        vec![
            record(0x0100_0000, words(&[3, 0x1111, 0x2222])),
            record(0x01a1_0000, words(&[0x0000_0005, 0x0000_0001, 0xffff_fffe, 0])),
        ],
    );
    let expected = vec![
        Record::Function(
            Ident(3),
            Function { lineno_checksum: 0x1111, cfg_checksum: 0x2222, source: None },
        ),
        Record::ArcCounts(ArcCounts { counts: vec![0x1_0000_0005, 0xffff_fffe] }),
    ];
    for big_endian in [false, true] {
        let mut interner = Interner::new();
        let mut reader = Reader::new(encode(&items, big_endian)).unwrap();
        let gcov = reader.parse(&mut interner).unwrap();
        assert_eq!(gcov.ty, Type::Gcda);
        assert_eq!(gcov.records, expected);
    }
}

#[test]
fn test_big_endian_bytes_of_a_counter() {
    // In a big-endian file the low half of a counter still comes first.
    let mut bytes = vec![0x67, 0x63, 0x64, 0x61, 0x34, 0x30, 0x37, 0x2a, 0, 0, 0, 1];
    bytes.extend_from_slice(&[0x01, 0xa1, 0, 0, 0, 0, 0, 2]);
    bytes.extend_from_slice(&[0x11, 0x22, 0x33, 0x44, 0x55, 0x66, 0x77, 0x88]);
    let mut interner = Interner::new();
    let mut reader = Reader::new(bytes).unwrap();
    let gcov = reader.parse(&mut interner).unwrap();
    assert_eq!(gcov.stamp, 1);
    assert_eq!(
        gcov.records,
        vec![Record::ArcCounts(ArcCounts { counts: vec![0x5566_7788_1122_3344] })]
    );
}

#[test]
fn test_data_before_4_7_names_the_function() {
    let mut function = words(&[3, 0x1111]);
    function.extend(string("main"));
    let items = file(DATA, V402, 1, vec![record(0x0100_0000, function)]);
    let mut interner = Interner::new();
    let mut reader = Reader::new(encode(&items, false)).unwrap();
    let gcov = reader.parse(&mut interner).unwrap();
    assert_eq!(
        gcov.records,
        vec![Record::Function(
            Ident(3),
            Function {
                lineno_checksum: 0x1111,
                cfg_checksum: 0,
                source: Some(Source { name: Symbol(1), filename: Symbol::unknown(), line: 0 }),
            },
        )]
    );
}

#[test]
fn test_unknown_file_type() {
    let e = Reader::new(encode(&words(&[0x1234_5678, V407, 0]), false)).err().unwrap();
    assert_eq!(e.kind, ErrorKind::UnknownFileType(0x1234_5678));
    assert_eq!(e.trail, vec![]);
}

#[test]
fn test_unsupported_version() {
    let e = Reader::new(encode(&words(&[NOTES, 0x3430_3700, 0]), false)).err().unwrap();
    assert_eq!(e.kind, ErrorKind::UnsupportedVersion(0x3430_3700));
    assert_eq!(e.trail, vec![Location::Cursor(4)]);
    assert!(Version::try_from(0x3430_372a).is_ok());
    assert_eq!(
        Version::try_from(0x8030_372a).err().unwrap().kind,
        ErrorKind::UnsupportedVersion(0x8030_372a)
    );
}

#[test]
fn test_short_header_is_eof() {
    let e = Reader::new(vec![0x6f, 0x6e]).err().unwrap();
    assert_eq!(e.kind, ErrorKind::Eof);
    assert_eq!(e.trail, vec![]);
    let e = Reader::new(encode(&words(&[NOTES, V407]), false)).err().unwrap();
    assert_eq!(e.kind, ErrorKind::Eof);
    assert_eq!(e.trail, vec![Location::Cursor(8)]);
}

#[test]
fn test_unknown_tag() {
    let items = file(NOTES, V407, 1, vec![record(0x0141_0000, words(&[0])), record(0x0999_0000, vec![])]);
    let mut interner = Interner::new();
    let mut reader = Reader::new(encode(&items, false)).unwrap();
    let e = reader.parse(&mut interner).err().unwrap();
    assert_eq!(e.kind, ErrorKind::UnknownTag(0x0999_0000));
    assert_eq!(e.trail, vec![Location::Cursor(24)]);
}

#[test]
fn test_tag_zero_ends_the_file() {
    let items = file(
        NOTES,
        V407,
        1,
        vec![record(0x0141_0000, words(&[0])), record(0, vec![]), record(0x0141_0000, words(&[2]))],
    );
    let mut interner = Interner::new();
    let mut reader = Reader::new(encode(&items, false)).unwrap();
    let gcov = reader.parse(&mut interner).unwrap();
    assert_eq!(gcov.records, vec![Record::Blocks(Blocks { flags: vec![BlockAttr { bits: 0 }] })]);
}

#[test]
fn test_unsupported_block_attr() {
    let items = file(NOTES, V407, 1, vec![record(0x0141_0000, words(&[0, 4]))]);
    let mut interner = Interner::new();
    let mut reader = Reader::new(encode(&items, false)).unwrap();
    let e = reader.parse(&mut interner).err().unwrap();
    assert_eq!(e.kind, ErrorKind::UnsupportedAttr("block", 4));
    assert_eq!(e.trail, vec![Location::Cursor(24)]);
}

#[test]
fn test_unsupported_arc_attr() {
    let items = file(NOTES, V407, 1, vec![record(0x0143_0000, words(&[0, 1, 8]))]);
    let mut interner = Interner::new();
    let mut reader = Reader::new(encode(&items, false)).unwrap();
    let e = reader.parse(&mut interner).err().unwrap();
    assert_eq!(e.kind, ErrorKind::UnsupportedAttr("arc", 8));
    assert_eq!(e.trail, vec![Location::Cursor(28)]);
    assert!(ArcAttr::from_gcno(7).is_ok());
    assert!(BlockAttr::from_gcno(2).is_ok());
}

#[test]
fn test_invalid_utf8() {
    let mut function = words(&[3, 0x1111, 0x2222]);
    function.push(Item::Word(1));
    function.push(Item::Raw(vec![0xff, 0xfe, 0, 0]));
    let items = file(NOTES, V407, 1, vec![record(0x0100_0000, function)]);
    let mut interner = Interner::new();
    let mut reader = Reader::new(encode(&items, false)).unwrap();
    let e = reader.parse(&mut interner).err().unwrap();
    assert_eq!(e.kind, ErrorKind::FromUtf8);
    assert_eq!(e.trail, vec![Location::Cursor(36)]);
}

#[test]
fn test_record_cut_short_ends_the_file() {
    let mut items = file(NOTES, V407, 1, vec![record(0x0141_0000, words(&[0, 2]))]);
    // A summary that announces more than the bytes hold.
    items.extend(words(&[0xa100_0000, 9, 1, 2]));
    let mut interner = Interner::new();
    let mut reader = Reader::new(encode(&items, false)).unwrap();
    let gcov = reader.parse(&mut interner).unwrap();
    assert_eq!(
        gcov.records,
        vec![Record::Blocks(Blocks { flags: vec![BlockAttr { bits: 0 }, BlockAttr { bits: 2 }] })]
    );
}

#[test]
fn test_body_beyond_its_content_is_skipped() {
    let mut function = words(&[3, 0x1111, 0x2222, 0xdead, 0xbeef]);
    function.extend(words(&[1, 2, 3]));
    let items = file(
        DATA,
        V407,
        1,
        vec![record(0x0100_0000, function), record(0x01a1_0000, words(&[4, 0]))],
    );
    let mut interner = Interner::new();
    let mut reader = Reader::new(encode(&items, false)).unwrap();
    let gcov = reader.parse(&mut interner).unwrap();
    assert_eq!(
        gcov.records,
        vec![
            Record::Function(
                Ident(3),
                Function { lineno_checksum: 0x1111, cfg_checksum: 0x2222, source: None },
            ),
            Record::ArcCounts(ArcCounts { counts: vec![4] }),
        ]
    );
}

#[test]
fn test_summary_without_histogram() {
    let items = file(
        DATA,
        V407,
        1,
        vec![record(0xa100_0000, words(&[1, 2, 3, 4, 0, 5, 0, 6, 1]))],
    );
    let mut interner = Interner::new();
    let mut reader = Reader::new(encode(&items, false)).unwrap();
    let gcov = reader.parse(&mut interner).unwrap();
    match &gcov.records[0] {
        Record::Summary(summary) => {
            assert_eq!(summary.checksum, 1);
            assert_eq!(summary.num, 2);
            assert_eq!(summary.runs, 3);
            assert_eq!(summary.sum, 4);
            assert_eq!(summary.max, 5);
            assert_eq!(summary.sum_max, 0x1_0000_0006);
            assert_eq!(summary.histogram, None);
        }
        other => panic!("{:?}", other),
    }
}

#[test]
fn test_summary_with_histogram() {
    let mut body = words(&[1, 2, 3, 4, 0, 5, 0, 6, 0]);
    // buckets 1 and 33 are present
    body.extend(words(&[2, 2, 0, 0, 0, 0, 0, 0]));
    body.extend(words(&[10, 11, 0, 12, 0]));
    body.extend(words(&[20, 21, 0, 22, 0]));
    body.extend(words(&[30, 31, 0, 32, 0]));
    let items = file(DATA, V407, 1, vec![record(0xa300_0000, body)]);
    let mut interner = Interner::new();
    let mut reader = Reader::new(encode(&items, true)).unwrap();
    let gcov = reader.parse(&mut interner).unwrap();
    match &gcov.records[0] {
        Record::Summary(summary) => {
            let histogram = summary.histogram.as_ref().unwrap();
            let buckets: Vec<(u32, HistogramBucket)> =
                histogram.buckets.iter().map(|(k, v)| (*k, *v)).collect();
            assert_eq!(
                buckets,
                vec![
                    (1, HistogramBucket { num: 10, min: 11, sum: 12 }),
                    (33, HistogramBucket { num: 20, min: 21, sum: 22 }),
                    (256, HistogramBucket { num: 30, min: 31, sum: 32 }),
                ]
            );
        }
        other => panic!("{:?}", other),
    }
}

#[test]
fn test_strings_are_interned_once() {
    let mut lines = words(&[0]);
    for name in ["a.c", "b.c", "a.c"] {
        lines.push(Item::Word(0));
        lines.extend(string(name));
        lines.push(Item::Word(1));
    }
    lines.push(Item::Word(0));
    lines.push(Item::Word(0));
    let items = file(NOTES, V407, 1, vec![record(0x0145_0000, lines)]);
    let mut interner = Interner::new();
    let known = interner.intern("b.c");
    let mut reader = Reader::new(encode(&items, false)).unwrap();
    let gcov = reader.parse(&mut interner).unwrap();
    assert_eq!(
        gcov.records,
        vec![Record::Lines(Lines {
            block_number: BlockIndex(0),
            lines: vec![
                Line::FileName(Symbol(2)),
                Line::LineNumber(1),
                Line::FileName(known),
                Line::LineNumber(1),
                Line::FileName(Symbol(2)),
                Line::LineNumber(1),
            ],
        })]
    );
    assert_eq!(interner.resolve(Symbol(3)), Ok(""));
    assert_eq!(interner.len(), 4);
}

#[test]
fn test_version_from_str() {
    assert_eq!(Version::from_str("407*").unwrap(), Version(V407));
    assert_eq!(Version::from_str("402*").unwrap(), Version(V402));
    assert_eq!(Version::from_str("4070").err().unwrap().kind, ErrorKind::UnsupportedVersion(0x3430_3730));
    assert_eq!(Version::from_str("40*").err().unwrap().kind, ErrorKind::UnsupportedVersion(0));
    assert_eq!(Version::from_str("").err().unwrap().kind, ErrorKind::UnsupportedVersion(0));
}

#[test]
fn test_version_name_and_order() {
    assert_eq!(Version(V407).name(), "407*");
    assert_eq!(Version(V402).name(), "402*");
    assert_eq!(Version(V407).raw(), V407);
    assert!(Version(V407).is_4_7());
    assert!(!Version(V402).is_4_7());
    assert!(Version(0x3530_312a).is_4_7());
    assert_eq!(Version::default(), Version::invalid());
    assert_eq!(Type::Gcno.name(), "gcno");
    assert_eq!(Type::Gcda.name(), "gcda");
}
