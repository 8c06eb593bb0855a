use cov::error::{ErrorKind, Location};
use cov::graph::Graph;
use cov::intern::Symbol;
use cov::raw::{
    Arc, ArcAttr, ArcCounts, Arcs, BlockAttr, BlockIndex, Blocks, Function, Gcov, Ident, Line,
    Lines, Record, Source, Type, Version, ARC_ATTR_CALL_NON_RETURN, ARC_ATTR_FAKE,
    ARC_ATTR_FALLTHROUGH, ARC_ATTR_NONLOCAL_RETURN, ARC_ATTR_ON_TREE, ARC_ATTR_THROW,
    ARC_ATTR_UNCONDITIONAL, BLOCK_ATTR_CALL_RETURN, BLOCK_ATTR_CALL_SITE,
    BLOCK_ATTR_EXCEPTIONAL, BLOCK_ATTR_NONLOCAL_RETURN,
};
use cov::report::{Branch, Report};

const V407: Version = Version(0x3430_372a);
const V402: Version = Version(0x3430_322a);
const FILE: Symbol = Symbol(1);
const MAIN: Symbol = Symbol(2);

fn function_record(ident: u32) -> Record {
    Record::Function(
        Ident(ident),
        Function {
            lineno_checksum: 11,
            cfg_checksum: 22,
            source: Some(Source { name: MAIN, filename: FILE, line: 1 }),
        },
    )
}

fn data_function(ident: u32) -> Record {
    Record::Function(Ident(ident), Function { lineno_checksum: 11, cfg_checksum: 22, source: None })
}

fn blocks(n: usize) -> Record {
    Record::Blocks(Blocks { flags: vec![BlockAttr { bits: 0 }; n] })
}

fn arcs(src: u32, dests: &[(u32, u16)]) -> Record {
    Record::Arcs(Arcs {
        src_block: BlockIndex(src),
        arcs: dests
            .iter()
            .map(|(dest, flags)| Arc { dest_block: BlockIndex(*dest), flags: ArcAttr { bits: *flags } })
            .collect(),
    })
}

fn lines(block: u32, numbers: &[u32]) -> Record {
    let mut entries = vec![Line::FileName(FILE)];
    entries.extend(numbers.iter().map(|n| Line::LineNumber(*n)));
    Record::Lines(Lines { block_number: BlockIndex(block), lines: entries })
}

fn counts(values: &[u64]) -> Record {
    Record::ArcCounts(ArcCounts { counts: values.to_vec() })
}

fn gcov(ty: Type, version: Version, stamp: u32, records: Vec<Record>) -> Gcov {
    Gcov { ty, version, stamp, records, src: None }
}

/// `int main() { return 0; }`: entry, exit and one block between them.
fn trivial_notes(stamp: u32) -> Gcov {
    gcov(
        Type::Gcno,
        V407,
        stamp,
        vec![
            function_record(1),
            blocks(3),
            arcs(0, &[(2, 0)]),
            arcs(2, &[(1, ARC_ATTR_ON_TREE)]),
            lines(2, &[3]),
        ],
    )
}

fn trivial_data(stamp: u32, runs: u64) -> Gcov {
    gcov(Type::Gcda, V407, stamp, vec![data_function(1), counts(&[runs])])
}

/// `if (argc == 1) { puts(..); if (**argv == '?') { puts(..); } }`
fn branches_notes(stamp: u32) -> Gcov {
    gcov(
        Type::Gcno,
        V407,
        stamp,
        vec![
            function_record(1),
            blocks(6),
            arcs(0, &[(2, ARC_ATTR_ON_TREE | ARC_ATTR_FALLTHROUGH)]),
            arcs(2, &[(3, 0), (5, ARC_ATTR_ON_TREE)]),
            arcs(3, &[(4, 0), (5, ARC_ATTR_ON_TREE)]),
            arcs(4, &[(5, ARC_ATTR_ON_TREE)]),
            arcs(5, &[(1, 0)]),
            lines(2, &[10]),
            lines(3, &[11, 12]),
            lines(4, &[13]),
            lines(5, &[16]),
        ],
    )
}

fn merge(graph: &mut Graph, file: Gcov) -> cov::error::Result<()> {
    assert!(graph.can_merge(&file));
    graph.merge(file)
}

fn analyzed(files: Vec<Gcov>) -> Graph {
    let mut graph = Graph::new();
    for file in files {
        merge(&mut graph, file).unwrap();
    }
    assert!(graph.is_analyzable());
    graph.analyze();
    graph
}

fn line_counts(report: &Report, file: Symbol) -> Vec<(u32, u64)> {
    report.files[&file.index()].lines.iter().map(|(n, l)| (*n, l.count)).collect()
}

fn block_counts(graph: &Graph) -> Vec<Option<u64>> {
    (0..graph.block_count()).map(|b| graph.block(b).count).collect()
}

fn arc_counts(graph: &Graph) -> Vec<Option<u64>> {
    (0..graph.arc_count()).map(|e| graph.arc(e).count).collect()
}

#[test]
fn test_trivial() {
    let graph = analyzed(vec![trivial_notes(7), trivial_data(7, 1)]);
    assert_eq!(block_counts(&graph), vec![Some(1), Some(1), Some(1)]);
    assert_eq!(arc_counts(&graph), vec![Some(1), Some(1)]);
    assert!(graph.verify_counts());
    let report = graph.report();
    assert_eq!(report.files.len(), 1);
    assert_eq!(line_counts(&report, FILE), vec![(3, 1)]);
    let file = &report.files[&FILE.index()];
    assert!(file.lines[0].1.branches.is_empty());
    assert_eq!(file.functions.len(), 1);
    let function = file.functions[0];
    assert_eq!(function.name, MAIN);
    assert_eq!(function.line, 1);
    assert_eq!(function.column, 0);
    assert_eq!(function.summary.blocks_count, 3);
    assert_eq!(function.summary.blocks_executed, 3);
    assert_eq!(function.summary.entry_count, 1);
    assert_eq!(function.summary.exit_count, 1);
    assert_eq!(function.summary.branches_count, 0);
    assert_eq!(function.summary.branches_executed, 0);
    assert_eq!(function.summary.branches_taken, 0);
}

#[test]
fn test_branches() {
    let graph = analyzed(vec![
        branches_notes(7),
        gcov(Type::Gcda, V407, 7, vec![data_function(1), counts(&[1, 0, 1])]),
    ]);
    assert_eq!(
        block_counts(&graph),
        vec![Some(1), Some(1), Some(1), Some(1), Some(0), Some(1)]
    );
    assert!(graph.verify_counts());
    let report = graph.report();
    assert_eq!(
        line_counts(&report, FILE),
        vec![(10, 1), (11, 1), (12, 1), (13, 0), (16, 1)]
    );
    let file = &report.files[&FILE.index()];
    let outer: Vec<(u64, u32)> = file.lines[0].1.branches.iter().map(|b| (b.count, b.line)).collect();
    assert_eq!(outer, vec![(0, 16), (1, 11)]);
    let inner: Vec<(u64, u32)> = file.lines[2].1.branches.iter().map(|b| (b.count, b.line)).collect();
    assert_eq!(inner, vec![(1, 16), (0, 13)]);
    assert!(file.lines[1].1.branches.is_empty());
    assert!(file.lines[3].1.branches.is_empty());
    assert!(file.lines[4].1.branches.is_empty());
    assert_eq!(
        file.lines[0].1.branches[0],
        Branch { count: 0, attr: ArcAttr { bits: ARC_ATTR_ON_TREE }, filename: FILE, line: 16, column: 0 }
    );
    let summary = file.functions[0].summary;
    assert_eq!(summary.blocks_count, 6);
    assert_eq!(summary.blocks_executed, 5);
    assert_eq!(summary.entry_count, 1);
    assert_eq!(summary.exit_count, 1);
    assert_eq!(summary.branches_count, 4);
    assert_eq!(summary.branches_executed, 4);
    assert_eq!(summary.branches_taken, 2);
}

#[test]
fn test_merge_two_objects() {
    let graph = analyzed(vec![
        branches_notes(7),
        branches_notes(8),
        gcov(Type::Gcda, V407, 7, vec![data_function(1), counts(&[1, 0, 1])]),
        gcov(Type::Gcda, V407, 8, vec![data_function(1), counts(&[1, 1, 1])]),
    ]);
    assert_eq!(graph.function_count(), 1);
    assert_eq!(graph.block_count(), 6);
    let report = graph.report();
    assert_eq!(
        line_counts(&report, FILE),
        vec![(10, 2), (11, 2), (12, 2), (13, 1), (16, 2)]
    );
}

#[test]
fn test_version_mismatch() {
    let mut graph = Graph::new();
    merge(&mut graph, trivial_notes(7)).unwrap();
    let before = (graph.version(), graph.function_count(), block_counts(&graph), arc_counts(&graph));
    let e = merge(&mut graph, gcov(Type::Gcda, V402, 7, vec![data_function(1), counts(&[1])]))
        .err()
        .unwrap();
    assert_eq!(e.kind, ErrorKind::VersionMismatch(V407, V402));
    assert_eq!(e.trail, vec![]);
    assert_eq!(graph.function_count(), 1);
    assert_eq!(
        (graph.version(), graph.function_count(), block_counts(&graph), arc_counts(&graph)),
        before
    );
}

#[test]
fn test_version_mismatch_names_the_file() {
    let mut graph = Graph::new();
    merge(&mut graph, trivial_notes(7)).unwrap();
    let mut data = trivial_data(7, 1);
    data.version = V402;
    data.src = Some("x.gcda".to_string());
    let e = merge(&mut graph, data).err().unwrap();
    assert_eq!(e.kind, ErrorKind::VersionMismatch(V407, V402));
    assert_eq!(e.trail, vec![Location::File("x.gcda".to_string())]);
}

#[test]
fn test_missing_function() {
    let mut graph = Graph::new();
    merge(&mut graph, trivial_notes(7)).unwrap();
    let before = arc_counts(&graph);
    let e = merge(&mut graph, gcov(Type::Gcda, V407, 7, vec![data_function(9), counts(&[5])]))
        .err()
        .unwrap();
    assert_eq!(e.kind, ErrorKind::MissingFunction(7, Ident(9)));
    assert_eq!(e.trail, vec![Location::RecordIndex(0)]);
    assert_eq!(arc_counts(&graph), before);
    // the stamp is part of the identity
    let e = merge(&mut graph, trivial_data(8, 1)).err().unwrap();
    assert_eq!(e.kind, ErrorKind::MissingFunction(8, Ident(1)));
    assert_eq!(arc_counts(&graph), before);
}

#[test]
fn test_data_before_notes_is_missing_function() {
    let mut graph = Graph::new();
    let e = merge(&mut graph, trivial_data(7, 1)).err().unwrap();
    assert_eq!(e.kind, ErrorKind::MissingFunction(7, Ident(1)));
    assert_eq!(graph.function_count(), 0);
    assert_eq!(graph.block_count(), 0);
}

#[test]
fn test_counts_mismatch() {
    let mut graph = Graph::new();
    merge(&mut graph, branches_notes(7)).unwrap();
    let e = merge(&mut graph, gcov(Type::Gcda, V407, 7, vec![data_function(1), counts(&[1, 0])]))
        .err()
        .unwrap();
    assert_eq!(e.kind, ErrorKind::CountsMismatch("arcs", Type::Gcda, 2, 3));
    assert_eq!(e.trail, vec![]);
    assert_eq!(
        arc_counts(&graph),
        vec![None, Some(0), None, Some(0), None, None, Some(0)]
    );
}

#[test]
fn test_record_without_function() {
    let mut graph = Graph::new();
    let e = merge(&mut graph, gcov(Type::Gcno, V407, 7, vec![blocks(3), function_record(1)]))
        .err()
        .unwrap();
    assert_eq!(e.kind, ErrorKind::RecordWithoutFunction);
    assert_eq!(e.trail, vec![Location::RecordIndex(0)]);
    assert_eq!(graph.function_count(), 0);
}

#[test]
fn test_inherited_lines() {
    let notes = gcov(
        Type::Gcno,
        V407,
        7,
        vec![
            function_record(1),
            blocks(5),
            arcs(0, &[(2, 0)]),
            arcs(2, &[(3, ARC_ATTR_ON_TREE)]),
            arcs(3, &[(4, ARC_ATTR_ON_TREE)]),
            arcs(4, &[(1, ARC_ATTR_ON_TREE)]),
            lines(2, &[5, 6]),
            lines(4, &[9]),
        ],
    );
    let mut graph = Graph::new();
    merge(&mut graph, notes).unwrap();
    assert_eq!(graph.block(0).lines, vec![]);
    assert_eq!(graph.block(1).lines, vec![]);
    assert_eq!(
        graph.block(2).lines,
        vec![Line::FileName(FILE), Line::LineNumber(5), Line::LineNumber(6)]
    );
    assert_eq!(graph.block(3).lines, vec![Line::FileName(FILE), Line::LineNumber(6)]);
    assert_eq!(graph.block(4).lines, vec![Line::FileName(FILE), Line::LineNumber(9)]);
    assert_eq!(graph.block(3).iter_lines(), vec![(FILE, 6)]);
    merge(&mut graph, gcov(Type::Gcda, V407, 7, vec![data_function(1), counts(&[4])])).unwrap();
    graph.analyze();
    let report = graph.report();
    assert_eq!(line_counts(&report, FILE), vec![(5, 4), (6, 4), (9, 4)]);
}

#[test]
fn test_inherited_lines_without_file_name_or_number() {
    let notes = gcov(
        Type::Gcno,
        V407,
        7,
        vec![
            function_record(1),
            blocks(4),
            Record::Lines(Lines { block_number: BlockIndex(1), lines: vec![Line::LineNumber(5)] }),
            Record::Lines(Lines { block_number: BlockIndex(0), lines: vec![Line::FileName(FILE)] }),
        ],
    );
    let mut graph = Graph::new();
    merge(&mut graph, notes).unwrap();
    assert_eq!(graph.block(0).lines, vec![Line::FileName(FILE)]);
    assert_eq!(graph.block(1).lines, vec![Line::LineNumber(5)]);
    assert_eq!(
        graph.block(2).lines,
        vec![Line::FileName(Symbol::unknown()), Line::LineNumber(5)]
    );
    assert_eq!(graph.block(1).iter_lines(), vec![(Symbol::unknown(), 5)]);
}

#[test]
fn test_merging_notes_twice_changes_nothing() {
    let mut once = Graph::new();
    merge(&mut once, branches_notes(7)).unwrap();
    let mut twice = Graph::new();
    merge(&mut twice, branches_notes(7)).unwrap();
    merge(&mut twice, branches_notes(7)).unwrap();
    assert_eq!(once.function_count(), twice.function_count());
    assert_eq!(once.block_count(), twice.block_count());
    assert_eq!(once.arc_count(), twice.arc_count());
    assert_eq!(block_counts(&once), block_counts(&twice));
    assert_eq!(arc_counts(&once), arc_counts(&twice));
    for b in 0..once.block_count() {
        assert_eq!(once.block(b), twice.block(b));
    }
    for e in 0..once.arc_count() {
        assert_eq!(once.arc(e), twice.arc(e));
        assert_eq!(once.arc_ends(e), twice.arc_ends(e));
    }
    let data = gcov(Type::Gcda, V407, 7, vec![data_function(1), counts(&[1, 0, 1])]);
    merge(&mut once, data.clone()).unwrap();
    merge(&mut twice, data).unwrap();
    once.analyze();
    twice.analyze();
    assert_eq!(once.report(), twice.report());
}

#[test]
fn test_first_file_gives_the_version() {
    let mut graph = Graph::new();
    assert_eq!(graph.version(), Version::invalid());
    merge(&mut graph, trivial_notes(7)).unwrap();
    assert_eq!(graph.version(), V407);
}

#[test]
fn test_arcs_on_tree_have_no_count() {
    let mut graph = Graph::new();
    merge(&mut graph, branches_notes(7)).unwrap();
    assert_eq!(
        arc_counts(&graph),
        vec![None, Some(0), None, Some(0), None, None, Some(0)]
    );
    assert_eq!(graph.function(0).arcs, vec![1, 3, 6]);
    assert_eq!(graph.function(0).nodes, vec![0, 1, 2, 3, 4, 5]);
    assert_eq!(graph.arc_ends(1), (2, 3));
    assert!(graph.block(0).is_entry_block());
    assert!(!graph.block(1).is_entry_block());
    assert!(!graph.verify_counts());
}

#[test]
fn test_counts_add_up_over_data_files() {
    let mut graph = Graph::new();
    merge(&mut graph, trivial_notes(7)).unwrap();
    merge(&mut graph, trivial_data(7, 3)).unwrap();
    merge(&mut graph, trivial_data(7, 4)).unwrap();
    assert_eq!(graph.arc(0).count, Some(7));
    merge(&mut graph, trivial_data(7, u64::MAX)).unwrap();
    assert_eq!(graph.arc(0).count, Some(6));
}

#[test]
fn test_unconditional_arcs() {
    let graph = analyzed(vec![
        branches_notes(7),
        gcov(Type::Gcda, V407, 7, vec![data_function(1), counts(&[1, 0, 1])]),
    ]);
    let unconditional: Vec<bool> = (0..graph.arc_count())
        .map(|e| graph.arc(e).attr.contains(ARC_ATTR_UNCONDITIONAL))
        .collect();
    assert_eq!(unconditional, vec![true, false, false, false, false, true, true]);
}

/// A call in block 2 that may not return, and a jump back into block 3 from the entry.
fn throwing_notes() -> Gcov {
    gcov(
        Type::Gcno,
        V407,
        7,
        vec![
            function_record(1),
            blocks(6),
            arcs(0, &[(2, ARC_ATTR_ON_TREE | ARC_ATTR_FALLTHROUGH), (3, ARC_ATTR_FAKE)]),
            arcs(2, &[(3, ARC_ATTR_FALLTHROUGH), (1, ARC_ATTR_FAKE), (4, 0)]),
            arcs(3, &[(1, ARC_ATTR_ON_TREE)]),
            arcs(4, &[(1, ARC_ATTR_ON_TREE)]),
            lines(2, &[4]),
            lines(3, &[5]),
            lines(4, &[6]),
        ],
    )
}

#[test]
fn test_catch_blocks() {
    let mut graph = Graph::new();
    merge(&mut graph, throwing_notes()).unwrap();
    merge(&mut graph, gcov(Type::Gcda, V407, 7, vec![data_function(1), counts(&[0, 5, 1, 2])]))
        .unwrap();
    graph.analyze();
    let attrs: Vec<u16> = (0..graph.arc_count()).map(|e| graph.arc(e).attr.bits).collect();
    assert_eq!(
        attrs,
        vec![
            ARC_ATTR_ON_TREE | ARC_ATTR_FALLTHROUGH | ARC_ATTR_UNCONDITIONAL,
            ARC_ATTR_FAKE | ARC_ATTR_NONLOCAL_RETURN,
            ARC_ATTR_FALLTHROUGH,
            ARC_ATTR_FAKE | ARC_ATTR_CALL_NON_RETURN,
            ARC_ATTR_THROW,
            ARC_ATTR_ON_TREE | ARC_ATTR_UNCONDITIONAL,
            ARC_ATTR_ON_TREE | ARC_ATTR_UNCONDITIONAL,
        ]
    );
    let blocks: Vec<u16> = (0..graph.block_count()).map(|b| graph.block(b).attr.bits).collect();
    assert_eq!(
        blocks,
        vec![
            0,
            0,
            BLOCK_ATTR_CALL_SITE,
            BLOCK_ATTR_NONLOCAL_RETURN,
            BLOCK_ATTR_EXCEPTIONAL,
            BLOCK_ATTR_EXCEPTIONAL,
        ]
    );
}

#[test]
fn test_call_return() {
    let notes = gcov(
        Type::Gcno,
        V407,
        7,
        vec![
            function_record(1),
            blocks(4),
            arcs(0, &[(2, ARC_ATTR_ON_TREE)]),
            arcs(2, &[(3, ARC_ATTR_FALLTHROUGH), (1, ARC_ATTR_FAKE)]),
            arcs(3, &[(1, ARC_ATTR_ON_TREE)]),
        ],
    );
    let mut graph = Graph::new();
    merge(&mut graph, notes).unwrap();
    graph.analyze();
    assert_eq!(graph.block(2).attr.bits, BLOCK_ATTR_CALL_SITE);
    assert_eq!(graph.block(3).attr.bits, BLOCK_ATTR_CALL_RETURN);
    assert_eq!(graph.arc(1).attr.bits, ARC_ATTR_FALLTHROUGH | ARC_ATTR_UNCONDITIONAL);
}

#[test]
fn test_exit_count_leaves_out_fake_arcs() {
    let mut graph = Graph::new();
    merge(&mut graph, throwing_notes()).unwrap();
    merge(&mut graph, gcov(Type::Gcda, V407, 7, vec![data_function(1), counts(&[0, 5, 1, 2])]))
        .unwrap();
    graph.analyze();
    assert_eq!(
        arc_counts(&graph),
        vec![Some(8), Some(0), Some(5), Some(1), Some(2), Some(5), Some(2)]
    );
    assert_eq!(block_counts(&graph)[1], Some(8));
    let report = graph.report();
    let summary = report.files[&FILE.index()].functions[0].summary;
    assert_eq!(summary.entry_count, 8);
    assert_eq!(summary.exit_count, 7);
    assert!(summary.entry_count >= summary.exit_count);
}

#[test]
fn test_unsolvable_counts_stay_unknown() {
    let notes = gcov(
        Type::Gcno,
        V407,
        7,
        vec![
            function_record(1),
            blocks(4),
            arcs(2, &[(3, ARC_ATTR_ON_TREE)]),
            arcs(3, &[(2, ARC_ATTR_ON_TREE)]),
        ],
    );
    let mut graph = Graph::new();
    merge(&mut graph, notes).unwrap();
    graph.analyze();
    assert!(!graph.verify_counts());
    assert_eq!(block_counts(&graph), vec![Some(0), Some(0), None, None]);
}

#[test]
fn test_can_merge() {
    let graph = Graph::new();
    assert!(!graph.can_merge(&gcov(
        Type::Gcno,
        V407,
        7,
        vec![function_record(1), blocks(2), arcs(0, &[(2, 0)])]
    )));
    assert!(!graph.can_merge(&gcov(
        Type::Gcno,
        V407,
        7,
        vec![function_record(1), blocks(2), arcs(5, &[(1, 0)])]
    )));
    assert!(!graph.can_merge(&gcov(Type::Gcda, V407, 7, vec![counts(&[1])])));
    assert!(graph.can_merge(&gcov(Type::Gcda, V407, 7, vec![data_function(1), counts(&[1])])));
    assert!(graph.can_merge(&gcov(Type::Gcno, V407, 7, vec![blocks(2)])));
}

#[test]
fn test_analyzable() {
    let mut graph = Graph::new();
    assert!(graph.is_analyzable());
    merge(&mut graph, gcov(Type::Gcno, V407, 7, vec![function_record(1), blocks(1)])).unwrap();
    assert!(!graph.is_analyzable());
    let mut graph = Graph::new();
    merge(&mut graph, gcov(Type::Gcno, V402, 7, vec![function_record(1), blocks(1)])).unwrap();
    assert!(graph.is_analyzable());
    let mut graph = Graph::new();
    merge(&mut graph, gcov(Type::Gcno, V402, 7, vec![function_record(1)])).unwrap();
    assert!(!graph.is_analyzable());
}

#[test]
fn test_exit_block_before_4_7_is_the_last() {
    let notes = gcov(
        Type::Gcno,
        V402,
        7,
        vec![
            function_record(1),
            blocks(3),
            arcs(0, &[(1, 0)]),
            arcs(1, &[(2, ARC_ATTR_ON_TREE)]),
            lines(1, &[3]),
        ],
    );
    let mut graph = Graph::new();
    merge(&mut graph, notes).unwrap();
    assert_eq!(graph.function(0).exit_block(V402), 2);
    assert_eq!(graph.function(0).exit_block(V407), 1);
    assert_eq!(graph.function(0).entry_block(), 0);
    assert_eq!(graph.function(0).node(BlockIndex(1)), 1);
    let mut data = trivial_data(7, 2);
    data.version = V402;
    data.records[0] = Record::Function(
        Ident(1),
        Function {
            lineno_checksum: 11,
            cfg_checksum: 22,
            source: Some(Source { name: MAIN, filename: Symbol::unknown(), line: 0 }),
        },
    );
    merge(&mut graph, data).unwrap();
    graph.analyze();
    assert_eq!(block_counts(&graph), vec![Some(2), Some(2), Some(2)]);
}

#[test]
fn test_line_takes_the_greatest_count_of_its_blocks() {
    let notes = gcov(
        Type::Gcno,
        V407,
        7,
        vec![
            function_record(1),
            blocks(5),
            arcs(0, &[(2, 0)]),
            arcs(2, &[(3, 0), (4, ARC_ATTR_ON_TREE)]),
            arcs(3, &[(1, ARC_ATTR_ON_TREE)]),
            arcs(4, &[(1, ARC_ATTR_ON_TREE)]),
            lines(2, &[10]),
            lines(3, &[10, 11]),
            lines(4, &[11]),
        ],
    );
    let graph = analyzed(vec![
        notes,
        gcov(Type::Gcda, V407, 7, vec![data_function(1), counts(&[9, 3])]),
    ]);
    assert_eq!(block_counts(&graph), vec![Some(9), Some(9), Some(9), Some(3), Some(6)]);
    let report = graph.report();
    assert_eq!(line_counts(&report, FILE), vec![(10, 9), (11, 6)]);
}

#[test]
fn test_function_without_source_is_reported_under_unknown() {
    let notes = gcov(
        Type::Gcno,
        V407,
        7,
        vec![
            Record::Function(
                Ident(1),
                Function { lineno_checksum: 11, cfg_checksum: 22, source: None },
            ),
            blocks(2),
        ],
    );
    let graph = analyzed(vec![notes]);
    let report = graph.report();
    let file = &report.files[&0];
    assert_eq!(file.functions.len(), 1);
    assert_eq!(file.functions[0].name, Symbol::unknown());
    assert!(file.lines.is_empty());
}

#[test]
fn test_analysis_twice_changes_nothing() {
    let mut graph = analyzed(vec![
        branches_notes(7),
        gcov(Type::Gcda, V407, 7, vec![data_function(1), counts(&[1, 0, 1])]),
    ]);
    let blocks = block_counts(&graph);
    let arcs = arc_counts(&graph);
    let attrs: Vec<u16> = (0..graph.block_count()).map(|b| graph.block(b).attr.bits).collect();
    let report = graph.report();
    graph.analyze();
    assert_eq!(block_counts(&graph), blocks);
    assert_eq!(arc_counts(&graph), arcs);
    let again: Vec<u16> = (0..graph.block_count()).map(|b| graph.block(b).attr.bits).collect();
    assert_eq!(again, attrs);
    assert_eq!(graph.report(), report);
}

#[test]
fn test_order_of_data_files_does_not_matter() {
    let first = gcov(Type::Gcda, V407, 7, vec![data_function(1), counts(&[1, 0, 1])]);
    let second = gcov(Type::Gcda, V407, 7, vec![data_function(1), counts(&[5, 2, 5])]);
    let one = analyzed(vec![branches_notes(7), first.clone(), second.clone()]);
    let other = analyzed(vec![branches_notes(7), second, first]);
    assert_eq!(arc_counts(&one), arc_counts(&other));
    assert_eq!(block_counts(&one), block_counts(&other));
    assert_eq!(one.report(), other.report());
}

#[test]
fn test_counts_that_contradict_each_other() {
    // the arc into the body was taken once, the arc out of it five times
    let notes = gcov(
        Type::Gcno,
        V407,
        7,
        vec![function_record(1), blocks(3), arcs(0, &[(2, 0)]), arcs(2, &[(1, 0)])],
    );
    let graph = analyzed(vec![
        notes,
        gcov(Type::Gcda, V407, 7, vec![data_function(1), counts(&[1, 5])]),
    ]);
    assert_eq!(block_counts(&graph), vec![Some(1), Some(5), Some(5)]);
    let report = graph.report();
    let summary = report.files[&FILE.index()].functions[0].summary;
    assert_eq!(summary.entry_count, 1);
    assert_eq!(summary.exit_count, 5);
}

#[test]
fn test_exceptional_blocks_are_the_unreachable_ones() {
    let notes = gcov(
        Type::Gcno,
        V407,
        7,
        vec![
            function_record(1),
            blocks(6),
            arcs(0, &[(2, ARC_ATTR_ON_TREE)]),
            arcs(2, &[(1, ARC_ATTR_ON_TREE)]),
            arcs(3, &[(4, ARC_ATTR_ON_TREE)]),
            arcs(5, &[(5, ARC_ATTR_ON_TREE)]),
        ],
    );
    let graph = analyzed(vec![notes]);
    let exceptional: Vec<bool> = (0..graph.block_count())
        .map(|b| graph.block(b).attr.contains(BLOCK_ATTR_EXCEPTIONAL))
        .collect();
    assert_eq!(exceptional, vec![false, false, false, true, true, true]);
}

#[test]
fn test_two_functions_in_one_file() {
    let mut records = vec![
        function_record(1),
        blocks(3),
        arcs(0, &[(2, 0)]),
        arcs(2, &[(1, ARC_ATTR_ON_TREE)]),
        lines(2, &[3]),
    ];
    records.extend(vec![
        Record::Function(
            Ident(2),
            Function {
                lineno_checksum: 33,
                cfg_checksum: 44,
                source: Some(Source { name: Symbol(3), filename: FILE, line: 8 }),
            },
        ),
        blocks(3),
        arcs(0, &[(2, 0)]),
        arcs(2, &[(1, ARC_ATTR_ON_TREE)]),
        lines(2, &[9]),
    ]);
    let data = gcov(
        Type::Gcda,
        V407,
        7,
        vec![
            data_function(1),
            counts(&[2]),
            Record::Function(
                Ident(2),
                Function { lineno_checksum: 33, cfg_checksum: 44, source: None },
            ),
            counts(&[0]),
        ],
    );
    let graph = analyzed(vec![gcov(Type::Gcno, V407, 7, records), data]);
    assert_eq!(graph.function_count(), 2);
    assert_eq!(graph.block_count(), 6);
    assert_eq!(graph.function(1).nodes, vec![3, 4, 5]);
    let report = graph.report();
    assert_eq!(line_counts(&report, FILE), vec![(3, 2), (9, 0)]);
    let file = &report.files[&FILE.index()];
    assert_eq!(file.functions.len(), 2);
    assert_eq!(file.functions[0].name, MAIN);
    assert_eq!(file.functions[1].name, Symbol(3));
    assert_eq!(file.functions[1].line, 8);
    let summary = file.summary();
    assert_eq!(summary.lines_count, 2);
    assert_eq!(summary.lines_covered, 1);
    assert_eq!(summary.functions_count, 2);
    assert_eq!(summary.functions_called, 1);
}

#[test]
fn test_counts_balance_after_analysis() {
    let graph = analyzed(vec![
        branches_notes(7),
        gcov(Type::Gcda, V407, 7, vec![data_function(1), counts(&[2, 1, 3])]),
    ]);
    assert!(graph.verify_counts());
    for b in 0..graph.block_count() {
        let count = graph.block(b).count.unwrap();
        let mut leaves: u64 = 0;
        let mut enters: u64 = 0;
        for e in 0..graph.arc_count() {
            let (from, to) = graph.arc_ends(e);
            if from == b {
                leaves += graph.arc(e).count.unwrap();
            }
            if to == b {
                enters += graph.arc(e).count.unwrap();
            }
        }
        // block 0 is the entry block, block 1 the exit block
        if b != 1 {
            assert_eq!(leaves, count, "what leaves block {}", b);
        }
        if b != 0 {
            assert_eq!(enters, count, "what enters block {}", b);
        }
    }
}

#[test]
fn test_each_count_is_deduced_from_those_before_it() {
    // entry -> body counted, body -> exit on the tree: the entry and the body get the count
    // of the counted arc, the tree arc what is missing to the body, the exit its sum
    let graph = analyzed(vec![trivial_notes(7), trivial_data(7, 4)]);
    assert_eq!(block_counts(&graph), vec![Some(4), Some(4), Some(4)]);
    assert_eq!(arc_counts(&graph), vec![Some(4), Some(4)]);
}
