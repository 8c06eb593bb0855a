//! The mathematical model of the control-flow graph, and what merging a file does to it.

use crate::error::{ErrorKind, Location};
use crate::intern::Symbol;
use crate::raw::{
    Arc, ArcAttr, Arcs, BlockAttr, BlockIndex, Blocks, Function, Ident, Line, Lines, Record, Source,
    Type, Version, ARC_ATTR_ON_TREE,
};
use vstd::prelude::*;

verus! {

/// The views of the items of a sequence.
pub open spec fn views<T: View>(s: Seq<T>) -> Seq<T::V> {
    s.map_values(|t: T| t@)
}

/// The views of a sequence with one more item are the views with one more view.
pub proof fn lemma_views_push<T: View>(s: Seq<T>, t: T)
    ensures
        views(s.push(t)) == views(s).push(t@),
{
    assert(views(s.push(t)) =~= views(s).push(t@));
}

/// The arcs that leave one block.
pub struct ArcsModel {
    pub src_block: BlockIndex,
    pub arcs: Seq<Arc>,
}

/// The source lines of one block.
pub struct LinesModel {
    pub block_number: BlockIndex,
    pub lines: Seq<Line>,
}

impl View for Blocks {
    type V = Seq<BlockAttr>;

    open spec fn view(&self) -> Seq<BlockAttr> {
        self.flags@
    }
}

impl View for Arcs {
    type V = ArcsModel;

    open spec fn view(&self) -> ArcsModel {
        ArcsModel { src_block: self.src_block, arcs: self.arcs@ }
    }
}

impl View for Lines {
    type V = LinesModel;

    open spec fn view(&self) -> LinesModel {
        LinesModel { block_number: self.block_number, lines: self.lines@ }
    }
}

/// What a note file says of one function: two functions with the same model are the same
/// function.
pub struct IdentityModel {
    pub function: Function,
    pub blocks: Seq<BlockAttr>,
    pub arcs: Seq<ArcsModel>,
    pub lines: Seq<LinesModel>,
}

/// Arc information for analysis.
#[derive(Copy, Clone, PartialEq, Eq, Hash, Debug)]
pub struct ArcInfo {
    /// The position of the function that owns the arc.
    pub index: usize,
    /// The number of the arc among the arcs that leave its block.
    pub arc: usize,
    /// How often the arc was taken, once that is known.
    pub count: Option<u64>,
    /// The attributes.
    pub attr: ArcAttr,
}

/// A block of the graph.
pub struct BlockModel {
    pub index: usize,
    pub block: usize,
    pub count: Option<u64>,
    pub attr: BlockAttr,
    pub lines: Seq<Line>,
}

/// A function of the graph: its blocks in order, and its arcs without `ON_TREE` in order.
pub struct FunctionModel {
    pub arcs: Seq<usize>,
    pub nodes: Seq<usize>,
    pub source: Option<Source>,
}

/// The whole graph.
pub struct GraphModel {
    /// The version of the files merged so far.
    pub version: Version,
    /// The functions, by position.
    pub functions: Seq<FunctionModel>,
    /// What the note files said of each function, by position.
    pub identities: Seq<IdentityModel>,
    /// The position of the function that a data file means, by the key of its identity.
    pub data_index: Map<u128, usize>,
    /// The blocks of all functions.
    pub blocks: Seq<BlockModel>,
    /// The arcs of all functions.
    pub arcs: Seq<ArcInfo>,
    /// The block that each arc leaves, and the one it enters.
    pub edges: Seq<(nat, nat)>,
}

/// The key under which the data index holds a function: stamp of the file, identifier and
/// the two checksums of the function, 32 bits each.
pub open spec fn data_key(stamp: u32, ident: Ident, function: Function) -> u128 {
    (((stamp as int * 0x1_0000_0000 + ident.0 as int) * 0x1_0000_0000
        + function.lineno_checksum as int) * 0x1_0000_0000 + function.cfg_checksum as int) as u128
}

/// The graph that nothing was merged into.
pub open spec fn empty_graph() -> GraphModel {
    GraphModel {
        version: Version::spec_invalid(),
        functions: Seq::empty(),
        identities: Seq::empty(),
        data_index: Map::empty(),
        blocks: Seq::empty(),
        arcs: Seq::empty(),
        edges: Seq::empty(),
    }
}

/// The entry of `lines` that a block takes its lines from, among the first `n` entries: the
/// one with the greatest block number that is not above `block`, and of several such the
/// last.
pub open spec fn nearest_lines(lines: Seq<LinesModel>, block: nat, n: nat) -> Option<int>
    decreases n,
{
    if n == 0 {
        None
    } else {
        let prev = nearest_lines(lines, block, (n - 1) as nat);
        let k = lines[n - 1].block_number.0;
        if k <= block && (prev is None || lines[prev->0].block_number.0 <= k) {
            Some(n - 1)
        } else {
            prev
        }
    }
}

/// The file name that stands last among the first `n` entries, or the unknown one.
pub open spec fn last_file_name(lines: Seq<Line>, n: nat) -> Symbol
    decreases n,
{
    if n == 0 {
        Symbol::spec_unknown()
    } else {
        match lines[n - 1] {
            Line::FileName(name) => name,
            Line::LineNumber(_) => last_file_name(lines, (n - 1) as nat),
        }
    }
}

/// The line number that stands last among the first `n` entries, or zero.
pub open spec fn last_line_number(lines: Seq<Line>, n: nat) -> u32
    decreases n,
{
    if n == 0 {
        0
    } else {
        match lines[n - 1] {
            Line::LineNumber(number) => number,
            Line::FileName(_) => last_line_number(lines, (n - 1) as nat),
        }
    }
}

/// What a block without lines of its own inherits from the lines of an earlier block: the
/// last file name and the last line number.
pub open spec fn inherited_lines(lines: Seq<Line>) -> Seq<Line> {
    seq![
        Line::FileName(last_file_name(lines, lines.len())),
        Line::LineNumber(last_line_number(lines, lines.len())),
    ]
}

/// The lines of the block with the given number.
pub open spec fn block_lines(lines: Seq<LinesModel>, block: nat) -> Seq<Line> {
    match nearest_lines(lines, block, lines.len()) {
        None => Seq::empty(),
        Some(j) => if lines[j].block_number.0 == block {
            lines[j].lines
        } else {
            inherited_lines(lines[j].lines)
        },
    }
}

/// The number of arcs in the first `n` arc lists.
pub open spec fn total_arcs(arcs: Seq<ArcsModel>, n: nat) -> nat
    decreases n,
{
    if n == 0 {
        0
    } else {
        total_arcs(arcs, (n - 1) as nat) + arcs[n - 1].arcs.len()
    }
}

/// Whether the arcs of the function join blocks of the function.
pub open spec fn valid_identity(id: IdentityModel) -> bool {
    forall|j: int|
        0 <= j < id.arcs.len() ==> (#[trigger] id.arcs[j]).src_block.0 < id.blocks.len()
            && forall|k: int|
            0 <= k < id.arcs[j].arcs.len() ==> (#[trigger] id.arcs[j].arcs[k]).dest_block.0
                < id.blocks.len()
}

/// The most blocks, and the most arcs, that a graph takes.
pub const GRAPH_LIMIT: usize = 0xffff_ffff;

/// Whether the parts of the graph fit together, with functions owning blocks up to position
/// `owners`.
pub open spec fn model_shape(m: GraphModel, owners: nat) -> bool {
    &&& m.identities.len() == m.functions.len()
    &&& m.identities.no_duplicates()
    &&& m.blocks.len() <= GRAPH_LIMIT
    &&& m.arcs.len() == m.edges.len()
    &&& m.edges.len() <= GRAPH_LIMIT
    &&& forall|e: int|
        0 <= e < m.edges.len() ==> (#[trigger] m.edges[e]).0 < m.blocks.len() && m.edges[e].1
            < m.blocks.len()
    &&& forall|f: int, i: int|
        0 <= f < m.functions.len() && 0 <= i < m.functions[f].nodes.len() ==> (
        #[trigger] m.functions[f].nodes[i]) < m.blocks.len()
    &&& forall|f: int, k: int|
        0 <= f < m.functions.len() && 0 <= k < m.functions[f].arcs.len() ==> (
        #[trigger] m.functions[f].arcs[k]) < m.arcs.len()
    &&& forall|f: int| 0 <= f < m.functions.len() ==> (#[trigger] m.functions[f]).nodes.no_duplicates()
    &&& forall|f: int| 0 <= f < m.functions.len() ==> (#[trigger] m.functions[f]).arcs.no_duplicates()
    &&& forall|f: int, i: int|
        0 <= f < m.functions.len() && 0 <= i < m.functions[f].nodes.len() ==> m.blocks[(
        #[trigger] m.functions[f].nodes[i]) as int].index == f && m.blocks[m.functions[f].nodes[i] as int].block
            == i
    &&& forall|b: int|
        0 <= b < m.blocks.len() && (#[trigger] m.blocks[b]).index < m.functions.len()
            ==> m.functions[m.blocks[b].index as int].nodes.contains(b as usize)
    &&& forall|e: int|
        0 <= e < m.edges.len() ==> m.blocks[(#[trigger] m.edges[e]).0 as int].index
            == m.blocks[m.edges[e].1 as int].index
    &&& forall|key: u128| #[trigger]
        m.data_index.contains_key(key) ==> m.data_index[key] < m.functions.len()
    &&& forall|b: int| 0 <= b < m.blocks.len() ==> (#[trigger] m.blocks[b]).index < owners
}

/// Whether the parts of the graph fit together.
pub open spec fn model_wf(m: GraphModel) -> bool {
    model_shape(m, m.functions.len())
}

/// The graph and the function under construction.
pub struct Building {
    pub graph: GraphModel,
    pub function: FunctionModel,
}

/// The graph with the blocks of a new function added, not yet with lines.
pub open spec fn add_blocks_model(m: GraphModel, source: Option<Source>, flags: Seq<BlockAttr>)
    -> Building {
    let position = m.functions.len() as usize;
    let base = m.blocks.len();
    Building {
        graph: GraphModel {
            blocks: m.blocks.add(
                Seq::new(
                    flags.len(),
                    |i: int|
                        BlockModel {
                            index: position,
                            block: i as usize,
                            count: None,
                            attr: flags[i],
                            lines: Seq::empty(),
                        },
                ),
            ),
            ..m
        },
        function: FunctionModel {
            arcs: Seq::empty(),
            nodes: Seq::new(flags.len(), |i: int| (base + i) as usize),
            source,
        },
    }
}

/// The arc as it enters the graph: one on the tree has no count yet, another has count 0.
pub open spec fn new_arc_info(position: usize, number: usize, arc: Arc) -> ArcInfo {
    ArcInfo {
        index: position,
        arc: number,
        count: if arc.flags.spec_contains(ARC_ATTR_ON_TREE) {
            None
        } else {
            Some(0u64)
        },
        attr: arc.flags,
    }
}

/// The state after the first `n` arcs of `arcs` were added.
pub open spec fn add_arcs_model(b: Building, arcs: ArcsModel, n: nat) -> Building
    decreases n,
{
    if n == 0 {
        b
    } else {
        let before = add_arcs_model(b, arcs, (n - 1) as nat);
        let arc = arcs.arcs[n - 1];
        let position = before.graph.functions.len() as usize;
        let edge = before.graph.arcs.len() as usize;
        let source = before.function.nodes[arcs.src_block.0 as int];
        let target = before.function.nodes[arc.dest_block.0 as int];
        Building {
            graph: GraphModel {
                arcs: before.graph.arcs.push(new_arc_info(position, (n - 1) as usize, arc)),
                edges: before.graph.edges.push((source as nat, target as nat)),
                ..before.graph
            },
            function: FunctionModel {
                arcs: if arc.flags.spec_contains(ARC_ATTR_ON_TREE) {
                    before.function.arcs
                } else {
                    before.function.arcs.push(edge)
                },
                ..before.function
            },
        }
    }
}

/// The state after the first `n` arc lists were added.
pub open spec fn add_all_arcs_model(b: Building, arcs: Seq<ArcsModel>, n: nat) -> Building
    decreases n,
{
    if n == 0 {
        b
    } else {
        let before = add_all_arcs_model(b, arcs, (n - 1) as nat);
        add_arcs_model(before, arcs[n - 1], arcs[n - 1].arcs.len())
    }
}

/// The blocks after the first `n` blocks of the function under construction got their lines.
pub open spec fn add_lines_model(
    blocks: Seq<BlockModel>,
    nodes: Seq<usize>,
    lines: Seq<LinesModel>,
    n: nat,
) -> Seq<BlockModel>
    decreases n,
{
    if n == 0 {
        blocks
    } else {
        let before = add_lines_model(blocks, nodes, lines, (n - 1) as nat);
        let node = nodes[n - 1] as int;
        before.update(
            node,
            BlockModel { lines: block_lines(lines, before[node].block as nat), ..before[node] },
        )
    }
}

/// The graph with one more function.
pub open spec fn add_function_model(m: GraphModel, id: IdentityModel) -> GraphModel {
    let with_blocks = add_blocks_model(m, id.function.source, id.blocks);
    let with_arcs = add_all_arcs_model(with_blocks, id.arcs, id.arcs.len());
    GraphModel {
        blocks: add_lines_model(
            with_arcs.graph.blocks,
            with_arcs.function.nodes,
            id.lines,
            with_arcs.function.nodes.len(),
        ),
        functions: with_arcs.graph.functions.push(with_arcs.function),
        identities: with_arcs.graph.identities.push(id),
        ..with_arcs.graph
    }
}

/// A function of a note file, as far as its records were read.
pub struct Pending {
    pub ident: Ident,
    pub identity: IdentityModel,
}

/// The functions of a note file after one more record, or nothing where the record comes
/// before the first function record and is a block, arc or line list.
pub open spec fn collect_step(pending: Seq<Pending>, record: Record) -> Option<Seq<Pending>> {
    let last = pending.len() - 1;
    match record {
        Record::Function(ident, function) => Some(
            pending.push(
                Pending {
                    ident,
                    identity: IdentityModel {
                        function,
                        blocks: Seq::empty(),
                        arcs: Seq::empty(),
                        lines: Seq::empty(),
                    },
                },
            ),
        ),
        Record::Blocks(blocks) => if pending.len() == 0 {
            None
        } else {
            Some(
                pending.update(
                    last,
                    Pending {
                        identity: IdentityModel { blocks: blocks@, ..pending[last].identity },
                        ..pending[last]
                    },
                ),
            )
        },
        Record::Arcs(arcs) => if pending.len() == 0 {
            None
        } else {
            Some(
                pending.update(
                    last,
                    Pending {
                        identity: IdentityModel {
                            arcs: pending[last].identity.arcs.push(arcs@),
                            ..pending[last].identity
                        },
                        ..pending[last]
                    },
                ),
            )
        },
        Record::Lines(lines) => if pending.len() == 0 {
            None
        } else {
            Some(
                pending.update(
                    last,
                    Pending {
                        identity: IdentityModel {
                            lines: pending[last].identity.lines.push(lines@),
                            ..pending[last].identity
                        },
                        ..pending[last]
                    },
                ),
            )
        },
        _ => Some(pending),
    }
}

/// The functions of a note file after its first `n` records, or nothing where one of these
/// records is refused.
pub open spec fn collect(records: Seq<Record>, n: nat) -> Option<Seq<Pending>>
    decreases n,
{
    if n == 0 {
        Some(Seq::empty())
    } else {
        match collect(records, (n - 1) as nat) {
            None => None,
            Some(pending) => collect_step(pending, records[n - 1]),
        }
    }
}

/// The graph after one function of a note file with the given stamp was merged: a function
/// that the graph knows is only entered in the data index, another is added first.
pub open spec fn merge_function_model(m: GraphModel, stamp: u32, p: Pending) -> GraphModel {
    let key = data_key(stamp, p.ident, p.identity.function);
    if m.identities.contains(p.identity) {
        GraphModel {
            data_index: m.data_index.insert(key, m.identities.index_of(p.identity) as usize),
            ..m
        }
    } else {
        let added = add_function_model(m, p.identity);
        GraphModel {
            data_index: added.data_index.insert(key, m.functions.len() as usize),
            ..added
        }
    }
}

/// The graph after the first `n` functions of a note file were merged.
pub open spec fn merge_functions_model(m: GraphModel, stamp: u32, pending: Seq<Pending>, n: nat)
    -> GraphModel
    decreases n,
{
    if n == 0 {
        m
    } else {
        merge_function_model(
            merge_functions_model(m, stamp, pending, (n - 1) as nat),
            stamp,
            pending[n - 1],
        )
    }
}

/// The count of an arc after a data file reported `more`.
pub open spec fn bump(count: Option<u64>, more: u64) -> Option<u64> {
    match count {
        None => Some(more),
        Some(c) => Some(c.wrapping_add(more)),
    }
}

/// The arcs after the first `n` counters were added to the arcs that `ids` names.
pub open spec fn add_counts_model(arcs: Seq<ArcInfo>, ids: Seq<usize>, counts: Seq<u64>, n: nat)
    -> Seq<ArcInfo>
    decreases n,
{
    if n == 0 {
        arcs
    } else {
        let before = add_counts_model(arcs, ids, counts, (n - 1) as nat);
        let e = ids[n - 1] as int;
        before.update(e, ArcInfo { count: bump(before[e].count, counts[n - 1]), ..before[e] })
    }
}

/// Where the merge of a data file stands: the graph, the function that counters go to, and
/// the error that ended the merge with the index of its record.
pub struct DataState {
    pub graph: GraphModel,
    pub current: Option<usize>,
    pub failure: Option<(ErrorKind, nat)>,
}

/// The state after one more record of a data file with the given stamp.
pub open spec fn data_step(s: DataState, stamp: u32, record: Record, index: nat) -> DataState {
    match record {
        Record::Function(ident, function) => {
            let key = data_key(stamp, ident, function);
            if s.graph.data_index.contains_key(key) {
                DataState { current: Some(s.graph.data_index[key]), ..s }
            } else {
                DataState { failure: Some((ErrorKind::MissingFunction(stamp, ident), index)), ..s }
            }
        },
        Record::ArcCounts(counts) => {
            let ids = s.graph.functions[s.current->0 as int].arcs;
            if counts.counts@.len() == ids.len() {
                DataState {
                    graph: GraphModel {
                        arcs: add_counts_model(s.graph.arcs, ids, counts.counts@, ids.len()),
                        ..s.graph
                    },
                    ..s
                }
            } else {
                DataState {
                    failure: Some(
                        (
                            ErrorKind::CountsMismatch(
                                "arcs",
                                Type::Gcda,
                                counts.counts@.len() as usize,
                                ids.len() as usize,
                            ),
                            index,
                        ),
                    ),
                    ..s
                }
            }
        },
        _ => s,
    }
}

/// The state after the first `n` records of a data file, or after the record that failed.
pub open spec fn merge_data_model(m: GraphModel, stamp: u32, records: Seq<Record>, n: nat)
    -> DataState
    decreases n,
{
    if n == 0 {
        DataState { graph: m, current: None, failure: None }
    } else {
        let before = merge_data_model(m, stamp, records, (n - 1) as nat);
        if before.failure is Some {
            before
        } else {
            data_step(before, stamp, records[n - 1], (n - 1) as nat)
        }
    }
}

/// The number of blocks of the first `n` functions of a note file.
pub open spec fn pending_blocks(pending: Seq<Pending>, n: nat) -> nat
    decreases n,
{
    if n == 0 {
        0
    } else {
        pending_blocks(pending, (n - 1) as nat) + pending[n - 1].identity.blocks.len()
    }
}

/// The number of arcs of the first `n` functions of a note file.
pub open spec fn pending_arcs(pending: Seq<Pending>, n: nat) -> nat
    decreases n,
{
    if n == 0 {
        0
    } else {
        pending_arcs(pending, (n - 1) as nat) + total_arcs(
            pending[n - 1].identity.arcs,
            pending[n - 1].identity.arcs.len(),
        )
    }
}

/// Whether a file of the given version can be merged into the graph: it is the first, or
/// it has the version of those before it.
pub open spec fn version_accepted(m: GraphModel, version: Version) -> bool {
    m.version == Version::spec_invalid() || m.version == version
}

/// Whether the graph can take the file. A note file takes part with the functions it
/// announces: their arcs must join blocks of their own function, and the graph must have
/// room for their blocks and arcs. In a data file a function record must come before the
/// first list of counters. A file that is refused for its version, or for a record before
/// its first function, is taken as it is.
pub open spec fn can_merge_model(m: GraphModel, ty: Type, version: Version, records: Seq<Record>)
    -> bool {
    version_accepted(m, version) ==> match ty {
        Type::Gcno => match collect(records, records.len()) {
            None => true,
            Some(pending) => {
                &&& forall|i: int|
                    0 <= i < pending.len() ==> valid_identity((#[trigger] pending[i]).identity)
                &&& m.blocks.len() + pending_blocks(pending, pending.len()) <= GRAPH_LIMIT
                &&& m.arcs.len() + pending_arcs(pending, pending.len()) <= GRAPH_LIMIT
            },
        },
        Type::Gcda => counts_follow_function(records),
    }
}

/// Whether a function record comes before each list of counters.
pub open spec fn counts_follow_function(records: Seq<Record>) -> bool {
    forall|i: int|
        0 <= i < records.len() && (#[trigger] records[i]) is ArcCounts ==> exists|j: int|
            0 <= j < i && (#[trigger] records[j]) is Function
}

/// The graph after the file was merged, or after the part of it that was merged before an
/// error.
pub open spec fn merge_model(
    m: GraphModel,
    ty: Type,
    version: Version,
    stamp: u32,
    records: Seq<Record>,
) -> GraphModel {
    if !version_accepted(m, version) {
        m
    } else {
        let adopted = GraphModel { version, ..m };
        match ty {
            Type::Gcno => match collect(records, records.len()) {
                None => adopted,
                Some(pending) => merge_functions_model(adopted, stamp, pending, pending.len()),
            },
            Type::Gcda => merge_data_model(adopted, stamp, records, records.len()).graph,
        }
    }
}

/// The index of the first record of a note file that is refused, where one is.
pub open spec fn refused_record(records: Seq<Record>, i: int) -> bool {
    0 <= i < records.len() && collect(records, i as nat) is Some && collect(
        records,
        (i + 1) as nat,
    ) is None
}

/// The error that ends the merge of the file, where one does, with the index of the record
/// it is reported at, if any.
pub open spec fn merge_failure(
    m: GraphModel,
    ty: Type,
    version: Version,
    stamp: u32,
    records: Seq<Record>,
) -> Option<(ErrorKind, Option<nat>)> {
    if !version_accepted(m, version) {
        Some((ErrorKind::VersionMismatch(m.version, version), None))
    } else {
        match ty {
            Type::Gcno => match collect(records, records.len()) {
                None => Some(
                    (
                        ErrorKind::RecordWithoutFunction,
                        Some((choose|i: int| refused_record(records, i)) as nat),
                    ),
                ),
                Some(_) => None,
            },
            Type::Gcda => match merge_data_model(
                GraphModel { version, ..m },
                stamp,
                records,
                records.len(),
            ).failure {
                None => None,
                Some((kind, index)) => Some(
                    (
                        kind,
                        if kind is MissingFunction {
                            Some(index)
                        } else {
                            None
                        },
                    ),
                ),
            },
        }
    }
}

/// The places that an error of a merge passes through: the record it is reported at, if
/// any, then the file, if its path is known.
pub open spec fn failure_trail(at: Option<nat>, src: Option<String>) -> Seq<Location> {
    let inner = match at {
        Some(index) => seq![Location::RecordIndex(index as usize)],
        None => Seq::empty(),
    };
    match src {
        Some(path) => inner.push(Location::File(path)),
        None => inner,
    }
}

} // verus!
