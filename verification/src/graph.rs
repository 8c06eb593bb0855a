//! The control-flow graph of all functions: merging files into it, completing its counts,
//! and reading the coverage report off it.

use crate::intern::Symbol;
use crate::model::{
    add_all_arcs_model, add_arcs_model, add_blocks_model, add_function_model, add_lines_model,
    block_lines, data_key, empty_graph, inherited_lines, last_file_name, last_line_number,
    lemma_views_push, model_shape, model_wf, nearest_lines, new_arc_info, total_arcs,
    valid_identity, views, ArcInfo, ArcsModel, BlockModel, Building, FunctionModel, GraphModel,
    IdentityModel, GRAPH_LIMIT,
};
use crate::projection::line_pairs;
use crate::raw::{
    Arc, Arcs, BlockAttr, BlockIndex, Blocks, Function, Ident, Line, Lines, Source, Version,
    ARC_ATTR_ON_TREE,
};
use crate::topology::{
    topology_add_edge, topology_add_node, topology_edges, topology_endpoints, topology_new,
    topology_nodes, Topology,
};
use std::collections::HashMap;
use vstd::prelude::*;

pub mod marks;
pub mod merge;
pub mod reporting;
pub mod solve;

verus! {

/// Block information for analysis.
#[derive(Clone, PartialEq, Eq, Hash, Debug)]
pub struct BlockInfo {
    /// The position of the function that owns the block.
    pub index: usize,
    /// The number of the block inside its function.
    pub block: usize,
    /// How often the block was run, once that is known.
    pub count: Option<u64>,
    /// The attributes.
    pub attr: BlockAttr,
    /// The source lines of the block.
    pub lines: Vec<Line>,
}

impl View for BlockInfo {
    type V = BlockModel;

    open spec fn view(&self) -> BlockModel {
        BlockModel {
            index: self.index,
            block: self.block,
            count: self.count,
            attr: self.attr,
            lines: self.lines@,
        }
    }
}

impl BlockInfo {
    /// Whether the block is an entry block.
    pub fn is_entry_block(&self) -> (r: bool)
        ensures
            r == (self.block == 0),
    {
        self.block == 0
    }

    /// The file names and line numbers of the block: each line number with the file name
    /// that stands last before it, or with the unknown one.
    pub fn iter_lines(&self) -> (pairs: Vec<(Symbol, u32)>)
        ensures
            pairs@ == line_pairs(self.lines@, self.lines@.len()),
    {
        let mut pairs: Vec<(Symbol, u32)> = Vec::new();
        let mut filename = Symbol::unknown();
        let mut i: usize = 0;
        while i < self.lines.len()
            invariant
                i <= self.lines.len(),
                pairs@ == line_pairs(self.lines@, i as nat),
                filename == last_file_name(self.lines@, i as nat),
            decreases self.lines.len() - i,
        {
            match self.lines[i] {
                Line::FileName(name) => {
                    filename = name;
                },
                Line::LineNumber(number) => {
                    pairs.push((filename, number));
                },
            }
            i += 1;
        }
        pairs
    }
}

/// Function information.
#[derive(Clone, Debug)]
pub struct FunctionInfo {
    /// The arcs of the function that have a counter in the data file, in order.
    pub arcs: Vec<usize>,
    /// The blocks of the function, in order.
    pub nodes: Vec<usize>,
    /// Where the function is defined.
    pub source: Option<Source>,
}

impl View for FunctionInfo {
    type V = FunctionModel;

    open spec fn view(&self) -> FunctionModel {
        FunctionModel { arcs: self.arcs@, nodes: self.nodes@, source: self.source }
    }
}

impl FunctionInfo {
    /// Converts the number of a block of the function into its number in the graph.
    pub fn node(&self, block_index: BlockIndex) -> (node: usize)
        requires
            block_index.0 < self.nodes@.len(),
        ensures
            node == self.nodes@[block_index.0 as int],
    {
        self.nodes[block_index.0 as usize]
    }

    /// The entry block of the function.
    pub fn entry_block(&self) -> (node: usize)
        requires
            self.nodes@.len() >= 1,
        ensures
            node == self.nodes@[0],
    {
        self.nodes[0]
    }

    /// The exit block of the function: block 1 from version 4.7 on, before that the last.
    pub fn exit_block(&self, version: Version) -> (node: usize)
        requires
            self.nodes@.len() >= 1,
            version.spec_is_4_7() ==> self.nodes@.len() >= 2,
        ensures
            node == self.nodes@[if version.spec_is_4_7() {
                1
            } else {
                self.nodes@.len() - 1
            }],
    {
        let index = if version.is_4_7() {
            1
        } else {
            self.nodes.len() - 1
        };
        self.nodes[index]
    }
}

/// The identity of a function, looked up when merging a data file.
#[derive(Copy, Clone, PartialEq, Eq, Hash, Debug)]
pub struct GcdaFunctionIdentity {
    pub file_checksum: u32,
    pub ident: Ident,
    pub lineno_checksum: u32,
    pub cfg_checksum: u32,
}

impl GcdaFunctionIdentity {
    /// The identity of `function` in a file with the stamp `file_checksum`.
    pub fn new(file_checksum: u32, ident: Ident, function: &Function) -> (id: GcdaFunctionIdentity)
        ensures
            id.file_checksum == file_checksum,
            id.ident == ident,
            id.lineno_checksum == function.lineno_checksum,
            id.cfg_checksum == function.cfg_checksum,
    {
        GcdaFunctionIdentity {
            file_checksum,
            ident,
            lineno_checksum: function.lineno_checksum,
            cfg_checksum: function.cfg_checksum,
        }
    }

    /// The key of the identity in the data index.
    pub open spec fn spec_key(self) -> u128 {
        data_key(
            self.file_checksum,
            self.ident,
            Function {
                lineno_checksum: self.lineno_checksum,
                cfg_checksum: self.cfg_checksum,
                source: None,
            },
        )
    }

    /// The key of the identity in the data index.
    pub fn key(self) -> (k: u128)
        ensures
            k == self.spec_key(),
    {
        let a: u128 = self.file_checksum as u128 * 0x1_0000_0000 + self.ident.0 as u128;
        let b: u128 = a * 0x1_0000_0000 + self.lineno_checksum as u128;
        b * 0x1_0000_0000 + self.cfg_checksum as u128
    }
}

/// The identity of a function, looked up when merging a note file.
#[derive(Clone, PartialEq, Eq, Hash, Debug)]
pub struct GcnoFunctionIdentity {
    pub function: Function,
    pub blocks: Blocks,
    pub arcs: Vec<Arcs>,
    pub lines: Vec<Lines>,
}

impl View for GcnoFunctionIdentity {
    type V = IdentityModel;

    open spec fn view(&self) -> IdentityModel {
        IdentityModel {
            function: self.function,
            blocks: self.blocks@,
            arcs: views(self.arcs@),
            lines: views(self.lines@),
        }
    }
}

/// A copy of a vector of plain values.
pub(crate) fn copy_items<T: Copy>(items: &Vec<T>) -> (copy: Vec<T>)
    ensures
        copy@ == items@,
{
    let mut copy: Vec<T> = Vec::new();
    let mut i: usize = 0;
    while i < items.len()
        invariant
            i <= items.len(),
            copy@ == items@.subrange(0, i as int),
        decreases items.len() - i,
    {
        copy.push(items[i]);
        proof {
            assert(copy@ =~= items@.subrange(0, i + 1));
        }
        i += 1;
    }
    proof {
        assert(copy@ =~= items@);
    }
    copy
}

fn same_symbol(a: Symbol, b: Symbol) -> (r: bool)
    ensures
        r == (a == b),
{
    a.0 == b.0
}

fn same_source(a: &Option<Source>, b: &Option<Source>) -> (r: bool)
    ensures
        r == (*a == *b),
{
    match (a, b) {
        (None, None) => true,
        (Some(x), Some(y)) => same_symbol(x.name, y.name) && same_symbol(x.filename, y.filename)
            && x.line == y.line,
        _ => false,
    }
}

fn same_function(a: &Function, b: &Function) -> (r: bool)
    ensures
        r == (*a == *b),
{
    a.lineno_checksum == b.lineno_checksum && a.cfg_checksum == b.cfg_checksum && same_source(
        &a.source,
        &b.source,
    )
}

fn same_line(a: &Line, b: &Line) -> (r: bool)
    ensures
        r == (*a == *b),
{
    match (a, b) {
        (Line::LineNumber(x), Line::LineNumber(y)) => *x == *y,
        (Line::FileName(x), Line::FileName(y)) => same_symbol(*x, *y),
        _ => false,
    }
}

fn same_attr_list(a: &Vec<BlockAttr>, b: &Vec<BlockAttr>) -> (r: bool)
    ensures
        r == (a@ == b@),
{
    if a.len() != b.len() {
        return false;
    }
    let mut i: usize = 0;
    while i < a.len()
        invariant
            i <= a.len(),
            a.len() == b.len(),
            forall|j: int| 0 <= j < i ==> a@[j] == b@[j],
        decreases a.len() - i,
    {
        if a[i].bits != b[i].bits {
            return false;
        }
        i += 1;
    }
    proof {
        assert(a@ =~= b@);
    }
    true
}

fn same_arc_list(a: &Vec<Arc>, b: &Vec<Arc>) -> (r: bool)
    ensures
        r == (a@ == b@),
{
    if a.len() != b.len() {
        return false;
    }
    let mut i: usize = 0;
    while i < a.len()
        invariant
            i <= a.len(),
            a.len() == b.len(),
            forall|j: int| 0 <= j < i ==> a@[j] == b@[j],
        decreases a.len() - i,
    {
        if a[i].dest_block.0 != b[i].dest_block.0 || a[i].flags.bits != b[i].flags.bits {
            return false;
        }
        i += 1;
    }
    proof {
        assert(a@ =~= b@);
    }
    true
}

fn same_line_list(a: &Vec<Line>, b: &Vec<Line>) -> (r: bool)
    ensures
        r == (a@ == b@),
{
    if a.len() != b.len() {
        return false;
    }
    let mut i: usize = 0;
    while i < a.len()
        invariant
            i <= a.len(),
            a.len() == b.len(),
            forall|j: int| 0 <= j < i ==> a@[j] == b@[j],
        decreases a.len() - i,
    {
        if !same_line(&a[i], &b[i]) {
            return false;
        }
        i += 1;
    }
    proof {
        assert(a@ =~= b@);
    }
    true
}

fn same_arcs(a: &Vec<Arcs>, b: &Vec<Arcs>) -> (r: bool)
    ensures
        r == (views(a@) == views(b@)),
{
    if a.len() != b.len() {
        proof {
            assert(views(a@).len() != views(b@).len());
        }
        return false;
    }
    let mut i: usize = 0;
    while i < a.len()
        invariant
            i <= a.len(),
            a.len() == b.len(),
            forall|j: int| 0 <= j < i ==> a@[j]@ == b@[j]@,
        decreases a.len() - i,
    {
        if a[i].src_block.0 != b[i].src_block.0 || !same_arc_list(&a[i].arcs, &b[i].arcs) {
            proof {
                assert(views(a@)[i as int] == a@[i as int]@);
                assert(views(b@)[i as int] == b@[i as int]@);
            }
            return false;
        }
        i += 1;
    }
    proof {
        assert(views(a@) =~= views(b@));
    }
    true
}

fn same_lines(a: &Vec<Lines>, b: &Vec<Lines>) -> (r: bool)
    ensures
        r == (views(a@) == views(b@)),
{
    if a.len() != b.len() {
        proof {
            assert(views(a@).len() != views(b@).len());
        }
        return false;
    }
    let mut i: usize = 0;
    while i < a.len()
        invariant
            i <= a.len(),
            a.len() == b.len(),
            forall|j: int| 0 <= j < i ==> a@[j]@ == b@[j]@,
        decreases a.len() - i,
    {
        if a[i].block_number.0 != b[i].block_number.0 || !same_line_list(&a[i].lines, &b[i].lines) {
            proof {
                assert(views(a@)[i as int] == a@[i as int]@);
                assert(views(b@)[i as int] == b@[i as int]@);
            }
            return false;
        }
        i += 1;
    }
    proof {
        assert(views(a@) =~= views(b@));
    }
    true
}

impl GcnoFunctionIdentity {
    /// The identity of a function of which only the function record was read.
    pub fn new(function: Function) -> (id: GcnoFunctionIdentity)
        ensures
            id@ == (IdentityModel {
                function,
                blocks: Seq::empty(),
                arcs: Seq::empty(),
                lines: Seq::empty(),
            }),
    {
        let id = GcnoFunctionIdentity {
            function,
            blocks: Blocks { flags: Vec::new() },
            arcs: Vec::new(),
            lines: Vec::new(),
        };
        proof {
            assert(id@.arcs =~= Seq::empty());
            assert(id@.lines =~= Seq::empty());
        }
        id
    }

    /// Whether two note files say the same of the function.
    pub fn same(&self, other: &GcnoFunctionIdentity) -> (r: bool)
        ensures
            r == (self@ == other@),
    {
        same_function(&self.function, &other.function) && same_attr_list(
            &self.blocks.flags,
            &other.blocks.flags,
        ) && same_arcs(&self.arcs, &other.arcs) && same_lines(&self.lines, &other.lines)
    }
}

/// The combined control-flow graph.
pub struct Graph {
    version: Version,
    functions: Vec<FunctionInfo>,
    gcno_index: Vec<GcnoFunctionIdentity>,
    gcda_index: HashMap<u128, usize>,
    blocks: Vec<BlockInfo>,
    arcs: Vec<ArcInfo>,
    graph: Topology,
}

impl View for Graph {
    type V = GraphModel;

    closed spec fn view(&self) -> GraphModel {
        GraphModel {
            version: self.version,
            functions: views(self.functions@),
            identities: views(self.gcno_index@),
            data_index: self.gcda_index@,
            blocks: views(self.blocks@),
            arcs: self.arcs@,
            edges: topology_edges(self.graph),
        }
    }
}

/// The last file name and the last line number of `lines`.
fn inherited(lines: &Vec<Line>) -> (r: Vec<Line>)
    ensures
        r@ == inherited_lines(lines@),
{
    let mut name = Symbol::unknown();
    let mut number: u32 = 0;
    let mut has_name = false;
    let mut has_number = false;
    let mut i: usize = lines.len();
    while i > 0 && !(has_name && has_number)
        invariant
            i <= lines.len(),
            last_file_name(lines@, lines@.len()) == (if has_name {
                name
            } else {
                last_file_name(lines@, i as nat)
            }),
            last_line_number(lines@, lines@.len()) == (if has_number {
                number
            } else {
                last_line_number(lines@, i as nat)
            }),
            !has_name ==> name == Symbol::spec_unknown(),
            !has_number ==> number == 0,
        decreases i,
    {
        i -= 1;
        match lines[i] {
            Line::FileName(n) => {
                if !has_name {
                    has_name = true;
                    name = n;
                }
            },
            Line::LineNumber(n) => {
                if !has_number {
                    has_number = true;
                    number = n;
                }
            },
        }
    }
    proof {
        if !has_name {
            lemma_no_file_name(lines@, i as nat);
        }
        if !has_number {
            lemma_no_line_number(lines@, i as nat);
        }
    }
    let mut r: Vec<Line> = Vec::new();
    r.push(Line::FileName(name));
    r.push(Line::LineNumber(number));
    proof {
        assert(r@ =~= inherited_lines(lines@));
    }
    r
}

proof fn lemma_no_file_name(lines: Seq<Line>, n: nat)
    requires
        n == 0 || last_file_name(lines, lines.len()) == last_file_name(lines, n),
    ensures
        n == 0 ==> last_file_name(lines, n) == Symbol::spec_unknown(),
{
}

proof fn lemma_no_line_number(lines: Seq<Line>, n: nat)
    requires
        n == 0 || last_line_number(lines, lines.len()) == last_line_number(lines, n),
    ensures
        n == 0 ==> last_line_number(lines, n) == 0,
{
}

/// The lines of the block with the given number, as the line lists of its function give
/// them.
fn lines_for_block(lines: &Vec<Lines>, block: usize) -> (r: Vec<Line>)
    ensures
        r@ == block_lines(views(lines@), block as nat),
{
    let mut best: Option<usize> = None;
    let mut j: usize = 0;
    while j < lines.len()
        invariant
            j <= lines.len(),
            match nearest_lines(views(lines@), block as nat, j as nat) {
                None => best is None,
                Some(k) => best == Some(k as usize) && 0 <= k < j,
            },
        decreases lines.len() - j,
    {
        let k = lines[j].block_number.0 as usize;
        let better = match best {
            None => true,
            Some(b) => lines[b].block_number.0 as usize <= k,
        };
        if k <= block && better {
            best = Some(j);
        }
        j += 1;
    }
    match best {
        None => Vec::new(),
        Some(b) => {
            if lines[b].block_number.0 as usize == block {
                copy_items(&lines[b].lines)
            } else {
                inherited(&lines[b].lines)
            }
        },
    }
}

impl Graph {
    /// Whether the parts of the graph fit together.
    pub closed spec fn wf(&self) -> bool {
        &&& topology_nodes(self.graph) == self.blocks@.len()
        &&& model_wf(self@)
    }

    /// The model of a graph whose parts fit together is well formed: what is proved of well
    /// formed models holds of the graph.
    pub proof fn lemma_wf_model(&self)
        requires
            self.wf(),
        ensures
            model_wf(self@),
    {
    }

    /// Whether the parts fit together while one more function is under construction.
    spec fn building_wf(&self) -> bool {
        &&& topology_nodes(self.graph) == self.blocks@.len()
        &&& model_shape(self@, self.functions@.len() + 1)
    }

    /// Creates a graph that nothing was merged into.
    pub fn new() -> (g: Graph)
        ensures
            g.wf(),
            g@ == empty_graph(),
    {
        let g = Graph {
            version: Version::invalid(),
            functions: Vec::new(),
            gcno_index: Vec::new(),
            gcda_index: HashMap::new(),
            blocks: Vec::new(),
            arcs: Vec::new(),
            graph: topology_new(),
        };
        proof {
            assert(g@.functions =~= Seq::empty());
            assert(g@.identities =~= Seq::empty());
            assert(g@.blocks =~= Seq::empty());
            assert(g@.arcs =~= Seq::empty());
        }
        g
    }

    /// Adds the blocks of a new function to the graph.
    fn add_blocks(&mut self, function: &mut FunctionInfo, blocks: &Blocks)
        requires
            old(self).wf(),
            old(function).nodes@.len() == 0,
            old(function).arcs@.len() == 0,
            old(self)@.blocks.len() + blocks@.len() <= GRAPH_LIMIT,
        ensures
            final(self).building_wf(),
            (Building { graph: final(self)@, function: final(function)@ }) == add_blocks_model(
                old(self)@,
                old(function).source,
                blocks@,
            ),
            final(self).gcda_index == old(self).gcda_index,
            final(self).version == old(self).version,
            final(self).gcno_index == old(self).gcno_index,
            final(self).functions == old(self).functions,
    {
        let position = self.functions.len();
        let ghost base = self.blocks@.len();
        let ghost flags = blocks@;
        let mut i: usize = 0;
        while i < blocks.flags.len()
            invariant
                i <= blocks.flags.len(),
                flags == blocks.flags@,
                base == old(self).blocks@.len(),
                base + flags.len() <= GRAPH_LIMIT,
                position == old(self).functions@.len(),
                self.version == old(self).version,
                self.functions == old(self).functions,
                self.gcno_index == old(self).gcno_index,
                self.gcda_index == old(self).gcda_index,
                self.arcs == old(self).arcs,
                topology_edges(self.graph) == topology_edges(old(self).graph),
                topology_nodes(self.graph) == base + i,
                self.blocks@.len() == base + i,
                views(self.blocks@) == views(old(self).blocks@).add(
                    Seq::new(
                        i as nat,
                        |k: int|
                            BlockModel {
                                index: position,
                                block: k as usize,
                                count: None,
                                attr: flags[k],
                                lines: Seq::empty(),
                            },
                    ),
                ),
                function.nodes@ == Seq::new(i as nat, |k: int| (base + k) as usize),
                function.arcs@.len() == 0,
                function.source == old(function).source,
            decreases blocks.flags.len() - i,
        {
            let node = topology_add_node(&mut self.graph);
            let block = BlockInfo {
                index: position,
                block: i,
                count: None,
                attr: blocks.flags[i],
                lines: Vec::new(),
            };
            proof {
                lemma_views_push(self.blocks@, block);
                assert(views(self.blocks@.push(block)) =~= views(old(self).blocks@).add(
                    Seq::new(
                        (i + 1) as nat,
                        |k: int|
                            BlockModel {
                                index: position,
                                block: k as usize,
                                count: None,
                                attr: flags[k],
                                lines: Seq::empty(),
                            },
                    ),
                ));
                assert(function.nodes@.push(node) =~= Seq::new(
                    (i + 1) as nat,
                    |k: int| (base + k) as usize,
                ));
            }
            self.blocks.push(block);
            function.nodes.push(node);
            i += 1;
        }
        proof {
            let target = add_blocks_model(old(self)@, old(function).source, blocks@);
            assert(function.arcs@ =~= Seq::empty());
            assert(function@ == target.function);
            assert(self@ == target.graph);
            assert(old(self).wf());
            let m = self@;
            let o = old(self)@;
            assert forall|b: int| 0 <= b < m.blocks.len() implies (#[trigger] m.blocks[b]).index
                < self.functions@.len() + 1 by {
                if b < base {
                    assert(m.blocks[b] == o.blocks[b]);
                }
            }
            assert forall|f: int, k: int|
                0 <= f < m.functions.len() && 0 <= k < m.functions[f].nodes.len() implies (
            #[trigger] m.functions[f].nodes[k]) < m.blocks.len() by {
                assert(o.functions[f].nodes[k] < o.blocks.len());
            }
        }
    }

    /// Adds the arcs that leave one block of a new function to the graph.
    fn add_arcs(&mut self, function: &mut FunctionInfo, arcs: &Arcs)
        requires
            old(self).building_wf(),
            arcs.src_block.0 < old(function).nodes@.len(),
            forall|k: int|
                0 <= k < arcs.arcs@.len() ==> (#[trigger] arcs.arcs@[k]).dest_block.0 < old(
                    function,
                ).nodes@.len(),
            forall|i: int|
                0 <= i < old(function).nodes@.len() ==> (#[trigger] old(function).nodes@[i]) < old(
                    self,
                ).blocks@.len(),
            forall|k: int|
                0 <= k < old(function).arcs@.len() ==> (#[trigger] old(function).arcs@[k]) < old(
                    self,
                ).arcs@.len(),
            forall|i: int|
                0 <= i < old(function).nodes@.len() ==> old(self).blocks@[(#[trigger] old(
                    function,
                ).nodes@[i]) as int].index == old(self).functions@.len(),
            old(function).arcs@.no_duplicates(),
            old(self).arcs@.len() + arcs.arcs@.len() <= GRAPH_LIMIT,
        ensures
            final(function).arcs@.no_duplicates(),
            final(self).building_wf(),
            (Building { graph: final(self)@, function: final(function)@ }) == add_arcs_model(
                Building { graph: old(self)@, function: old(function)@ },
                arcs@,
                arcs.arcs@.len(),
            ),
            final(function).nodes@ == old(function).nodes@,
            final(self).blocks == old(self).blocks,
            final(self).functions == old(self).functions,
            final(self).gcda_index == old(self).gcda_index,
            final(self).version == old(self).version,
            final(self).gcno_index == old(self).gcno_index,
            final(self).arcs@.len() == old(self).arcs@.len() + arcs.arcs@.len(),
            forall|k: int|
                0 <= k < final(function).arcs@.len() ==> (#[trigger] final(function).arcs@[k])
                    < final(self).arcs@.len(),
    {
        let position = self.functions.len();
        let source = function.nodes[arcs.src_block.0 as usize];
        let ghost start = Building { graph: old(self)@, function: old(function)@ };
        let mut k: usize = 0;
        while k < arcs.arcs.len()
            invariant
                k <= arcs.arcs.len(),
                self.building_wf(),
                position == self.functions@.len(),
                arcs.src_block.0 < function.nodes@.len(),
                source == function.nodes@[arcs.src_block.0 as int],
                forall|j: int|
                    0 <= j < arcs.arcs@.len() ==> (#[trigger] arcs.arcs@[j]).dest_block.0
                        < function.nodes@.len(),
                forall|i: int|
                    0 <= i < function.nodes@.len() ==> (#[trigger] function.nodes@[i])
                        < self.blocks@.len(),
                forall|j: int|
                    0 <= j < function.arcs@.len() ==> (#[trigger] function.arcs@[j])
                        < self.arcs@.len(),
                forall|i: int|
                    0 <= i < function.nodes@.len() ==> self.blocks@[(
                    #[trigger] function.nodes@[i]) as int].index == position,
                function.arcs@.no_duplicates(),
                self.arcs@.len() == old(self).arcs@.len() + k,
                old(self).arcs@.len() + arcs.arcs@.len() <= GRAPH_LIMIT,
                function.nodes@ == old(function).nodes@,
                self.blocks == old(self).blocks,
                self.functions == old(self).functions,
                self.gcda_index == old(self).gcda_index,
                self.version == old(self).version,
                self.gcno_index == old(self).gcno_index,
                (Building { graph: self@, function: function@ }) == add_arcs_model(
                    start,
                    arcs@,
                    k as nat,
                ),
            decreases arcs.arcs.len() - k,
        {
            let arc = arcs.arcs[k];
            let target = function.nodes[arc.dest_block.0 as usize];
            let counted = !arc.flags.contains(ARC_ATTR_ON_TREE);
            let info = ArcInfo {
                index: position,
                arc: k,
                count: if counted {
                    Some(0)
                } else {
                    None
                },
                attr: arc.flags,
            };
            let ghost before = self@;
            let ghost listed_arcs = function.arcs@;
            let edge = topology_add_edge(&mut self.graph, source, target);
            self.arcs.push(info);
            if counted {
                function.arcs.push(edge);
                proof {
                    assert forall|a: int, b: int|
                        0 <= a < function.arcs@.len() && 0 <= b < function.arcs@.len() && a
                            != b implies function.arcs@[a] != function.arcs@[b] by {
                        if a < listed_arcs.len() {
                            assert(listed_arcs[a] < before.arcs.len());
                        }
                        if b < listed_arcs.len() {
                            assert(listed_arcs[b] < before.arcs.len());
                        }
                    }
                }
            }
            k += 1;
            proof {
                assert(info == new_arc_info(position, (k - 1) as usize, arc));
                let m = self@;
                assert(m.edges == before.edges.push((source as nat, target as nat)));
                assert(m.arcs == before.arcs.push(info));
                assert(m.blocks == before.blocks);
                assert(m.blocks[source as int] == self.blocks@[source as int]@);
                assert(m.blocks[target as int] == self.blocks@[target as int]@);
                assert forall|e: int| 0 <= e < m.edges.len() implies (#[trigger] m.edges[e]).0
                    < m.blocks.len() && m.edges[e].1 < m.blocks.len() by {
                    if e < before.edges.len() {
                        assert(m.edges[e] == before.edges[e]);
                    }
                }
                assert forall|e: int| 0 <= e < m.edges.len() implies m.blocks[(
                #[trigger] m.edges[e]).0 as int].index == m.blocks[m.edges[e].1 as int].index by {
                    if e < before.edges.len() {
                        assert(m.edges[e] == before.edges[e]);
                    }
                }
                assert forall|f: int, j: int|
                    0 <= f < m.functions.len() && 0 <= j < m.functions[f].arcs.len() implies (
                #[trigger] m.functions[f].arcs[j]) < m.arcs.len() by {
                    assert(before.functions[f].arcs[j] < before.arcs.len());
                }
            }
        }
    }

    /// Gives each block of a new function its source lines.
    fn add_lines(&mut self, function: &FunctionInfo, lines: &Vec<Lines>)
        requires
            old(self).building_wf(),
            forall|i: int|
                0 <= i < function.nodes@.len() ==> (#[trigger] function.nodes@[i]) < old(
                    self,
                ).blocks@.len(),
        ensures
            final(self).building_wf(),
            final(self)@ == (GraphModel {
                blocks: add_lines_model(
                    old(self)@.blocks,
                    function.nodes@,
                    views(lines@),
                    function.nodes@.len(),
                ),
                ..old(self)@
            }),
            final(self).functions == old(self).functions,
            final(self).arcs == old(self).arcs,
            forall|b: int|
                0 <= b < final(self).blocks@.len() ==> (#[trigger] final(self).blocks@[b]).index
                    == old(self).blocks@[b].index && final(self).blocks@[b].block == old(
                    self,
                ).blocks@[b].block,
            final(self).gcda_index == old(self).gcda_index,
            final(self).version == old(self).version,
            final(self).gcno_index == old(self).gcno_index,
            final(self).blocks@.len() == old(self).blocks@.len(),
    {
        let mut i: usize = 0;
        while i < function.nodes.len()
            invariant
                i <= function.nodes.len(),
                self.building_wf(),
                self.gcda_index == old(self).gcda_index,
                self.version == old(self).version,
                self.gcno_index == old(self).gcno_index,
                forall|j: int|
                    0 <= j < function.nodes@.len() ==> (#[trigger] function.nodes@[j])
                        < self.blocks@.len(),
                self.blocks@.len() == old(self).blocks@.len(),
                self.functions == old(self).functions,
                self.arcs == old(self).arcs,
                forall|b: int|
                    0 <= b < self.blocks@.len() ==> (#[trigger] self.blocks@[b]).index == old(
                        self,
                    ).blocks@[b].index && self.blocks@[b].block == old(self).blocks@[b].block,
                self@ == (GraphModel {
                    blocks: add_lines_model(
                        old(self)@.blocks,
                        function.nodes@,
                        views(lines@),
                        i as nat,
                    ),
                    ..old(self)@
                }),
            decreases function.nodes.len() - i,
        {
            let node = function.nodes[i];
            let number = self.blocks[node].block;
            let ghost before = self@;
            let ghost old_block = self.blocks@[node as int];
            let new_lines = lines_for_block(lines, number);
            self.blocks[node].lines = new_lines;
            i += 1;
            proof {
                let m = self@;
                let new_block = self.blocks@[node as int];
                assert(new_block@ == BlockModel {
                    lines: block_lines(views(lines@), number as nat),
                    ..old_block@
                });
                assert(m.blocks =~= before.blocks.update(node as int, new_block@));
                assert(m.functions == before.functions);
                assert(m.identities == before.identities);
                assert(m.arcs == before.arcs);
                assert(m.edges == before.edges);
                assert(m.data_index == before.data_index);
                assert forall|b: int| 0 <= b < m.blocks.len() implies (#[trigger] m.blocks[b]).index
                    < self.functions@.len() + 1 by {
                    assert(before.blocks[b].index < self.functions@.len() + 1);
                }
                assert forall|e: int| 0 <= e < m.edges.len() implies (#[trigger] m.edges[e]).0
                    < m.blocks.len() && m.edges[e].1 < m.blocks.len() by {
                    assert(before.edges[e].0 < before.blocks.len());
                }
                assert forall|f: int, j: int|
                    0 <= f < m.functions.len() && 0 <= j < m.functions[f].nodes.len() implies (
                #[trigger] m.functions[f].nodes[j]) < m.blocks.len() by {
                    assert(before.functions[f].nodes[j] < before.blocks.len());
                }
                assert forall|f: int, j: int|
                    0 <= f < m.functions.len() && 0 <= j < m.functions[f].arcs.len() implies (
                #[trigger] m.functions[f].arcs[j]) < m.arcs.len() by {
                    assert(before.functions[f].arcs[j] < before.arcs.len());
                }
            }
        }
    }

    /// Adds a function that the graph does not know yet, and returns its position.
    pub(super) fn add_function(&mut self, id: GcnoFunctionIdentity) -> (position: usize)
        requires
            old(self).wf(),
            valid_identity(id@),
            !old(self)@.identities.contains(id@),
            old(self)@.blocks.len() + id@.blocks.len() <= GRAPH_LIMIT,
            old(self)@.arcs.len() + total_arcs(id@.arcs, id@.arcs.len()) <= GRAPH_LIMIT,
        ensures
            final(self).wf(),
            final(self)@ == add_function_model(old(self)@, id@),
            position == old(self)@.functions.len(),
            final(self)@.blocks.len() == old(self)@.blocks.len() + id@.blocks.len(),
            final(self)@.arcs.len() == old(self)@.arcs.len() + total_arcs(
                id@.arcs,
                id@.arcs.len(),
            ),
            final(self)@.functions.len() == old(self)@.functions.len() + 1,
            final(self)@.version == old(self)@.version,
            final(self)@.data_index == old(self)@.data_index,
    {
        let position = self.functions.len();
        let mut function = FunctionInfo {
            arcs: Vec::new(),
            nodes: Vec::new(),
            source: id.function.source,
        };
        self.add_blocks(&mut function, &id.blocks);
        let ghost with_blocks = Building { graph: self@, function: function@ };
        let ghost blocks_built = self.blocks;
        let ghost base = old(self)@.blocks.len();
        proof {
            assert forall|i: int| 0 <= i < function.nodes@.len() implies self.blocks@[(
            #[trigger] function.nodes@[i]) as int].index == position by {
                assert(self@.blocks[base + i] == self.blocks@[base + i]@);
            }
            assert forall|b: int| 0 <= b < base implies (#[trigger] self.blocks@[b]).index
                < position by {
                assert(self@.blocks[b] == self.blocks@[b]@);
                assert(old(self)@.blocks[b].index < position);
            }
            assert forall|i: int| 0 <= i < function.nodes@.len() implies (
            #[trigger] self.blocks@[base + i]).block == i by {
                assert(self@.blocks[base + i] == self.blocks@[base + i]@);
            }
        }
        let mut j: usize = 0;
        while j < id.arcs.len()
            invariant
                j <= id.arcs.len(),
                self.building_wf(),
                valid_identity(id@),
                function.nodes@.len() == id@.blocks.len(),
                function.nodes@ == with_blocks.function.nodes,
                self.blocks == blocks_built,
                base == old(self)@.blocks.len(),
                forall|i: int|
                    0 <= i < function.nodes@.len() ==> blocks_built@[(
                    #[trigger] function.nodes@[i]) as int].index == position,
                forall|i: int|
                    0 <= i < function.nodes@.len() ==> (#[trigger] blocks_built@[base + i]).block
                        == i,
                forall|b: int| 0 <= b < base ==> (#[trigger] blocks_built@[b]).index < position,
                self.blocks@.len() == old(self).blocks@.len() + id@.blocks.len(),
                position == self.functions@.len(),
                self.gcda_index == old(self).gcda_index,
                self.version == old(self).version,
                self.gcno_index == old(self).gcno_index,
                forall|i: int|
                    0 <= i < function.nodes@.len() ==> (#[trigger] function.nodes@[i])
                        < self.blocks@.len(),
                forall|k: int|
                    0 <= k < function.arcs@.len() ==> (#[trigger] function.arcs@[k])
                        < self.arcs@.len(),
                function.arcs@.no_duplicates(),
                self.arcs@.len() == with_blocks.graph.arcs.len() + total_arcs(id@.arcs, j as nat),
                with_blocks.graph.arcs.len() + total_arcs(id@.arcs, id@.arcs.len())
                    <= GRAPH_LIMIT,
                (Building { graph: self@, function: function@ }) == add_all_arcs_model(
                    with_blocks,
                    id@.arcs,
                    j as nat,
                ),
            decreases id.arcs.len() - j,
        {
            proof {
                assert(id@.arcs[j as int] == id.arcs@[j as int]@);
                lemma_total_arcs_monotone(id@.arcs, (j + 1) as nat, id@.arcs.len());
            }
            self.add_arcs(&mut function, &id.arcs[j]);
            j += 1;
        }
        self.add_lines(&function, &id.lines);
        proof {
            lemma_views_push(self.gcno_index@, id);
            lemma_views_push(self.functions@, function);
        }
        let ghost before = self@;
        self.functions.push(function);
        self.gcno_index.push(id);
        proof {
            let m = self@;
            assert(m.functions == before.functions.push(function@));
            assert(m.identities == before.identities.push(id@));
            assert(m == add_function_model(old(self)@, id@));
            assert forall|f: int, i: int|
                0 <= f < m.functions.len() && 0 <= i < m.functions[f].nodes.len() implies (
            #[trigger] m.functions[f].nodes[i]) < m.blocks.len() by {
                if f < before.functions.len() {
                    assert(m.functions[f] == before.functions[f]);
                    assert(before.functions[f].nodes[i] < before.blocks.len());
                }
            }
            assert forall|f: int, k: int|
                0 <= f < m.functions.len() && 0 <= k < m.functions[f].arcs.len() implies (
            #[trigger] m.functions[f].arcs[k]) < m.arcs.len() by {
                if f < before.functions.len() {
                    assert(m.functions[f] == before.functions[f]);
                    assert(before.functions[f].arcs[k] < before.arcs.len());
                }
            }
            assert forall|key: u128| #[trigger] m.data_index.contains_key(key) implies m.data_index[key]
                < m.functions.len() by {
                assert(old(self)@.data_index.contains_key(key));
            }
            assert forall|f: int| 0 <= f < m.functions.len() implies (
            #[trigger] m.functions[f]).nodes.no_duplicates() by {
                if f < before.functions.len() {
                    assert(m.functions[f] == before.functions[f]);
                } else {
                    assert(m.functions[f].nodes == with_blocks.function.nodes);
                    assert(with_blocks.function.nodes == Seq::new(
                        id@.blocks.len(),
                        |i: int| (base + i) as usize,
                    ));
                }
            }
            assert(with_blocks.function.nodes == Seq::new(
                id@.blocks.len(),
                |i: int| (base + i) as usize,
            ));
            assert forall|f: int| 0 <= f < m.functions.len() implies (
            #[trigger] m.functions[f]).arcs.no_duplicates() by {
                if f < before.functions.len() {
                    assert(m.functions[f] == before.functions[f]);
                } else {
                    assert(m.functions[f].arcs == function@.arcs);
                }
            }
            assert forall|b: int| 0 <= b < m.blocks.len() implies (#[trigger] m.blocks[b]).index
                == blocks_built@[b].index && m.blocks[b].block == blocks_built@[b].block by {
                assert(m.blocks[b] == self.blocks@[b]@);
            }
            assert forall|f: int, i: int|
                0 <= f < m.functions.len() && 0 <= i < m.functions[f].nodes.len() implies m.blocks[(
            #[trigger] m.functions[f].nodes[i]) as int].index == f && m.blocks[m.functions[f].nodes[i] as int].block
                == i by {
                if f < before.functions.len() {
                    assert(m.functions[f] == before.functions[f]);
                    assert(before.blocks[before.functions[f].nodes[i] as int].index == f);
                } else {
                    assert(m.functions[f].nodes == function@.nodes);
                    assert(function@.nodes[i] == base + i);
                    assert(m.blocks[base + i].block == blocks_built@[base + i].block);
                }
            }
            assert forall|b: int|
                0 <= b < m.blocks.len() && (#[trigger] m.blocks[b]).index
                    < m.functions.len() implies m.functions[m.blocks[b].index as int].nodes.contains(
                b as usize,
            ) by {
                if b < base {
                    let f = m.blocks[b].index as int;
                    assert(before.blocks[b].index == f);
                    assert(m.functions[f] == before.functions[f]);
                    assert(before.functions[f].nodes.contains(b as usize));
                } else {
                    assert(function@.nodes[b - base] == b);
                    assert(m.blocks[b].index == position);
                    assert(m.functions[position as int] == function@);
                }
            }
            assert(m.identities.no_duplicates()) by {
                assert forall|a: int, b: int|
                    0 <= a < m.identities.len() && 0 <= b < m.identities.len() && a != b implies m.identities[a]
                    != m.identities[b] by {
                    if a < before.identities.len() {
                        assert(before.identities.contains(before.identities[a]));
                    }
                    if b < before.identities.len() {
                        assert(before.identities.contains(before.identities[b]));
                    }
                }
            }
        }
        position
    }
}

/// The number of arcs grows with the number of lists counted.
pub(super) proof fn lemma_total_arcs_monotone(arcs: Seq<ArcsModel>, a: nat, b: nat)
    requires
        a <= b,
    ensures
        total_arcs(arcs, a) <= total_arcs(arcs, b),
    decreases b,
{
    if a < b {
        lemma_total_arcs_monotone(arcs, a, (b - 1) as nat);
    }
}

impl Graph {
    /// The version of the files merged so far, or the invalid version if there are none.
    pub fn version(&self) -> (v: Version)
        ensures
            v == self@.version,
    {
        self.version
    }

    /// The number of functions.
    pub fn function_count(&self) -> (n: usize)
        ensures
            n == self@.functions.len(),
    {
        self.functions.len()
    }

    /// The number of blocks.
    pub fn block_count(&self) -> (n: usize)
        ensures
            n == self@.blocks.len(),
    {
        self.blocks.len()
    }

    /// The number of arcs.
    pub fn arc_count(&self) -> (n: usize)
        ensures
            n == self@.arcs.len(),
    {
        self.arcs.len()
    }

    /// The function at the given position.
    pub fn function(&self, position: usize) -> (f: &FunctionInfo)
        requires
            position < self@.functions.len(),
        ensures
            f@ == self@.functions[position as int],
    {
        &self.functions[position]
    }

    /// The block with the given number.
    pub fn block(&self, b: usize) -> (block: &BlockInfo)
        requires
            b < self@.blocks.len(),
        ensures
            block@ == self@.blocks[b as int],
    {
        &self.blocks[b]
    }

    /// The arc with the given number.
    pub fn arc(&self, e: usize) -> (arc: ArcInfo)
        requires
            e < self@.arcs.len(),
        ensures
            arc == self@.arcs[e as int],
    {
        self.arcs[e]
    }

    /// The block that the arc with the given number leaves, and the one it enters.
    pub fn arc_ends(&self, e: usize) -> (ends: (usize, usize))
        requires
            self.wf(),
            e < self@.arcs.len(),
        ensures
            ends.0 == self@.edges[e as int].0,
            ends.1 == self@.edges[e as int].1,
    {
        topology_endpoints(&self.graph, e)
    }
}

impl Default for Graph {
    fn default() -> (g: Graph)
        ensures
            g.wf(),
            g@ == empty_graph(),
    {
        Graph::new()
    }
}

} // verus!
