//! How the coverage report follows from the graph.

use crate::counts::exit_position;
use crate::intern::Symbol;
use crate::model::{ArcInfo, GraphModel};
use crate::raw::{
    has_all, has_any, BlockAttr, Line, ARC_ATTR_CALL_NON_RETURN, ARC_ATTR_FAKE,
    ARC_ATTR_UNCONDITIONAL,
};
use crate::report::{empty_file, Branch, FileModel, Function, FunctionSummary, LineModel};
use crate::topology::incident;
use vstd::prelude::*;

verus! {

/// The file names and line numbers that the first `n` line entries of a block give: each
/// line number with the file name that stands last before it, or with the unknown one.
pub open spec fn line_pairs(lines: Seq<Line>, n: nat) -> Seq<(Symbol, u32)>
    decreases n,
{
    if n == 0 {
        Seq::empty()
    } else {
        let rest = line_pairs(lines, (n - 1) as nat);
        match lines[n - 1] {
            Line::LineNumber(number) => rest.push(
                (crate::model::last_file_name(lines, (n - 1) as nat), number),
            ),
            Line::FileName(_) => rest,
        }
    }
}

/// Whether the count says that the thing was run.
pub open spec fn is_executed(count: Option<u64>) -> bool {
    count is Some && count->0 > 0
}

/// The count, or zero where there is none.
pub open spec fn count_or_zero(count: Option<u64>) -> u64 {
    match count {
        Some(c) => c,
        None => 0,
    }
}

/// The number of blocks that were run among the first `n` of `nodes`.
pub open spec fn executed_blocks(m: GraphModel, nodes: Seq<usize>, n: nat) -> nat
    decreases n,
{
    if n == 0 {
        0
    } else {
        executed_blocks(m, nodes, (n - 1) as nat) + (if is_executed(
            m.blocks[nodes[n - 1] as int].count,
        ) {
            1nat
        } else {
            0nat
        })
    }
}

/// Whether the arc counts as a branch: it is neither unconditional nor fake.
pub open spec fn is_branch(arc: ArcInfo) -> bool {
    !has_any(arc.attr.bits, 0x82)
}

/// The arcs that leave the block, the latest first.
pub open spec fn arcs_from(m: GraphModel, b: int) -> Seq<nat> {
    incident(m.edges, b as nat, true, m.edges.len())
}

/// The arcs that enter the block, the latest first.
pub open spec fn arcs_into(m: GraphModel, b: int) -> Seq<nat> {
    incident(m.edges, b as nat, false, m.edges.len())
}

/// Among the first `k` arcs of `list`, which leave the block `src`: the number of
/// branches, of branches whose block was run, and of branches that were taken.
pub open spec fn arcs_tally(m: GraphModel, src: int, list: Seq<nat>, k: nat) -> (nat, nat, nat)
    decreases k,
{
    if k == 0 {
        (0, 0, 0)
    } else {
        let rest = arcs_tally(m, src, list, (k - 1) as nat);
        let arc = m.arcs[list[k - 1] as int];
        if is_branch(arc) {
            (
                rest.0 + 1,
                rest.1 + (if is_executed(m.blocks[src].count) {
                    1nat
                } else {
                    0nat
                }),
                rest.2 + (if is_executed(arc.count) {
                    1nat
                } else {
                    0nat
                }),
            )
        } else {
            rest
        }
    }
}

/// The tally of the arcs that leave the first `n` blocks of `nodes`.
pub open spec fn nodes_tally(m: GraphModel, nodes: Seq<usize>, n: nat) -> (nat, nat, nat)
    decreases n,
{
    if n == 0 {
        (0, 0, 0)
    } else {
        let rest = nodes_tally(m, nodes, (n - 1) as nat);
        let b = nodes[n - 1] as int;
        let here = arcs_tally(m, b, arcs_from(m, b), arcs_from(m, b).len());
        (rest.0 + here.0, rest.1 + here.1, rest.2 + here.2)
    }
}

/// The sum, cut to 64 bits, of the counts of the fake arcs among the first `k` of `list`.
pub open spec fn fake_total(m: GraphModel, list: Seq<nat>, k: nat) -> u64
    decreases k,
{
    if k == 0 {
        0
    } else {
        let rest = fake_total(m, list, (k - 1) as nat);
        let arc = m.arcs[list[k - 1] as int];
        if has_any(arc.attr.bits, ARC_ATTR_FAKE) && arc.count is Some {
            rest.wrapping_add(arc.count->0)
        } else {
            rest
        }
    }
}

/// The summary of the function at position `f`. The count of its exit is the count of its
/// exit block less the counts of the fake arcs that enter it.
pub open spec fn function_summary(m: GraphModel, f: int) -> FunctionSummary {
    let function = m.functions[f];
    let entry = function.nodes[0] as int;
    let exit = function.nodes[exit_position(m, f)] as int;
    let tally = nodes_tally(m, function.nodes, function.nodes.len());
    FunctionSummary {
        blocks_count: function.nodes.len() as usize,
        blocks_executed: executed_blocks(m, function.nodes, function.nodes.len()) as usize,
        entry_count: count_or_zero(m.blocks[entry].count),
        exit_count: count_or_zero(m.blocks[exit].count).wrapping_sub(
            fake_total(m, arcs_into(m, exit), arcs_into(m, exit).len()),
        ),
        branches_count: tally.0 as usize,
        branches_executed: tally.1 as usize,
        branches_taken: tally.2 as usize,
    }
}

/// What the report says of the function at position `f`.
pub open spec fn function_record(m: GraphModel, f: int) -> Function {
    let summary = function_summary(m, f);
    match m.functions[f].source {
        Some(source) => Function { name: source.name, line: source.line, column: 0, summary },
        None => Function { name: Symbol::spec_unknown(), line: 0, column: 0, summary },
    }
}

/// The file that the function at position `f` is reported in.
pub open spec fn function_file(m: GraphModel, f: int) -> usize {
    match m.functions[f].source {
        Some(source) => source.filename.0,
        None => 0,
    }
}

/// What the report says of a file, which may be nothing yet.
pub open spec fn file_of(report: Map<usize, FileModel>, file: usize) -> FileModel {
    if report.contains_key(file) {
        report[file]
    } else {
        empty_file()
    }
}

/// The report of the first `n` functions.
pub open spec fn report_functions(m: GraphModel, n: nat) -> Map<usize, FileModel>
    decreases n,
{
    if n == 0 {
        Map::empty()
    } else {
        let rest = report_functions(m, (n - 1) as nat);
        let file = function_file(m, n - 1);
        let old = file_of(rest, file);
        rest.insert(
            file,
            FileModel { functions: old.functions.push(function_record(m, n - 1)), ..old },
        )
    }
}

/// The number of lines with a number below `number` among the first `n`.
pub open spec fn lower_bound(lines: Seq<(u32, LineModel)>, number: u32, n: nat) -> nat
    decreases n,
{
    if n == 0 {
        0
    } else {
        lower_bound(lines, number, (n - 1) as nat) + (if lines[n - 1].0 < number {
            1nat
        } else {
            0nat
        })
    }
}

/// The place of the line with the given number among lines in rising order, or the place
/// where it would go.
pub open spec fn place(lines: Seq<(u32, LineModel)>, number: u32) -> int {
    lower_bound(lines, number, lines.len()) as int
}

/// Whether the line with the given number is among the lines.
pub open spec fn has_line(lines: Seq<(u32, LineModel)>, number: u32) -> bool {
    place(lines, number) < lines.len() && lines[place(lines, number)].0 == number
}

/// The greater of two counts.
pub open spec fn max_count(a: u64, b: u64) -> u64 {
    if a >= b {
        a
    } else {
        b
    }
}

/// The lines after a block with the given count and attributes was found to hold the line
/// `number`: the line has the greatest count of its blocks, and the attributes of all.
pub open spec fn touch_line(
    lines: Seq<(u32, LineModel)>,
    number: u32,
    count: u64,
    attr: BlockAttr,
) -> Seq<(u32, LineModel)> {
    let i = place(lines, number);
    if has_line(lines, number) {
        lines.update(
            i,
            (
                number,
                LineModel {
                    count: max_count(lines[i].1.count, count),
                    attr: BlockAttr { bits: lines[i].1.attr.bits | attr.bits },
                    ..lines[i].1
                },
            ),
        )
    } else {
        lines.insert(i, (number, LineModel { count, attr, branches: Seq::empty() }))
    }
}

/// The report after a block was found to hold a line of a file.
pub open spec fn touch(
    report: Map<usize, FileModel>,
    file: usize,
    number: u32,
    count: u64,
    attr: BlockAttr,
) -> Map<usize, FileModel> {
    let old = file_of(report, file);
    report.insert(file, FileModel { lines: touch_line(old.lines, number, count, attr), ..old })
}

/// The report after a block was found to hold the first `n` of `pairs`.
pub open spec fn touch_pairs(
    report: Map<usize, FileModel>,
    pairs: Seq<(Symbol, u32)>,
    count: u64,
    attr: BlockAttr,
    n: nat,
) -> Map<usize, FileModel>
    decreases n,
{
    if n == 0 {
        report
    } else {
        touch(
            touch_pairs(report, pairs, count, attr, (n - 1) as nat),
            pairs[n - 1].0.0,
            pairs[n - 1].1,
            count,
            attr,
        )
    }
}

/// The exit block of the function that the block belongs to.
pub open spec fn exit_of(m: GraphModel, b: int) -> int {
    let f = m.blocks[b].index as int;
    m.functions[f].nodes[exit_position(m, f)] as int
}

/// The branch that the arc is reported as: none for an unconditional arc, unless it is for
/// a call that does not return. The branch leads to the first line of the block that the
/// arc enters.
pub open spec fn branch_of(m: GraphModel, e: int) -> Option<Branch> {
    let arc = m.arcs[e];
    if has_all(arc.attr.bits, ARC_ATTR_UNCONDITIONAL) && !has_all(
        arc.attr.bits,
        ARC_ATTR_CALL_NON_RETURN,
    ) {
        None
    } else {
        let lines = m.blocks[m.edges[e].1 as int].lines;
        let pairs = line_pairs(lines, lines.len());
        Some(
            Branch {
                count: count_or_zero(arc.count),
                attr: arc.attr,
                filename: if pairs.len() > 0 {
                    pairs[0].0
                } else {
                    Symbol::spec_unknown()
                },
                line: if pairs.len() > 0 {
                    pairs[0].1
                } else {
                    0
                },
                column: 0,
            },
        )
    }
}

/// The branches of the first `k` arcs of `list`, which leave the block `b`. An arc that was
/// never taken and leads to the exit block of the function is left out.
pub open spec fn block_branches(m: GraphModel, b: int, list: Seq<nat>, k: nat) -> Seq<Branch>
    decreases k,
{
    if k == 0 {
        Seq::empty()
    } else {
        let rest = block_branches(m, b, list, (k - 1) as nat);
        let e = list[k - 1] as int;
        if m.edges[e].1 == exit_of(m, b) && m.arcs[e].count == Some(0u64) {
            rest
        } else {
            match branch_of(m, e) {
                Some(branch) => rest.push(branch),
                None => rest,
            }
        }
    }
}

/// The lines with more branches at the line `number`, which is entered if it is missing.
pub open spec fn extend_line(lines: Seq<(u32, LineModel)>, number: u32, branches: Seq<Branch>)
    -> Seq<(u32, LineModel)> {
    let i = place(lines, number);
    if has_line(lines, number) {
        lines.update(
            i,
            (number, LineModel { branches: lines[i].1.branches.add(branches), ..lines[i].1 }),
        )
    } else {
        lines.insert(i, (number, LineModel { count: 0, attr: BlockAttr { bits: 0 }, branches }))
    }
}

/// The report after the block `b` was reported: each of its lines is touched, and the last
/// of them gets the branches of the block.
pub open spec fn report_block(report: Map<usize, FileModel>, m: GraphModel, b: int) -> Map<
    usize,
    FileModel,
> {
    let block = m.blocks[b];
    let pairs = line_pairs(block.lines, block.lines.len());
    let touched = touch_pairs(report, pairs, count_or_zero(block.count), block.attr, pairs.len());
    if pairs.len() == 0 {
        touched
    } else {
        let origin = pairs.last();
        let old = file_of(touched, origin.0.0);
        let branches = block_branches(m, b, arcs_from(m, b), arcs_from(m, b).len());
        touched.insert(
            origin.0.0,
            FileModel { lines: extend_line(old.lines, origin.1, branches), ..old },
        )
    }
}

/// The report after the first `n` blocks were reported.
pub open spec fn report_blocks(report: Map<usize, FileModel>, m: GraphModel, n: nat) -> Map<
    usize,
    FileModel,
>
    decreases n,
{
    if n == 0 {
        report
    } else {
        report_block(report_blocks(report, m, (n - 1) as nat), m, n - 1)
    }
}

/// The report of the graph: the functions in the order of their positions, each in the
/// file it is defined in, and the lines of the blocks.
pub open spec fn report_model(m: GraphModel) -> Map<usize, FileModel> {
    report_blocks(report_functions(m, m.functions.len()), m, m.blocks.len())
}

/// Where the numbers of the lines rise, the lines before the place of a number have
/// smaller numbers, and the lines from there on have others.
pub proof fn lemma_place(lines: Seq<(u32, LineModel)>, number: u32, i: int)
    requires
        crate::report::lines_sorted(lines),
        0 <= i <= lines.len(),
        forall|j: int| 0 <= j < i ==> (#[trigger] lines[j]).0 < number,
        forall|j: int| i <= j < lines.len() ==> (#[trigger] lines[j]).0 >= number,
    ensures
        place(lines, number) == i,
{
    lemma_lower_bound(lines, number, i, lines.len());
}

proof fn lemma_lower_bound(lines: Seq<(u32, LineModel)>, number: u32, i: int, n: nat)
    requires
        0 <= i <= lines.len(),
        n <= lines.len(),
        forall|j: int| 0 <= j < i ==> (#[trigger] lines[j]).0 < number,
        forall|j: int| i <= j < lines.len() ==> (#[trigger] lines[j]).0 >= number,
    ensures
        lower_bound(lines, number, n) == (if n <= i {
            n as int
        } else {
            i
        }),
    decreases n,
{
    if n > 0 {
        lemma_lower_bound(lines, number, i, (n - 1) as nat);
    }
}

/// The number of arcs below `limit` that leave one of the first `n` blocks of `nodes`.
pub open spec fn degree_sum(edges: Seq<(nat, nat)>, nodes: Seq<usize>, n: nat, limit: nat) -> nat
    decreases n,
{
    if n == 0 {
        0
    } else {
        degree_sum(edges, nodes, (n - 1) as nat, limit) + incident(
            edges,
            nodes[n - 1] as nat,
            true,
            limit,
        ).len()
    }
}

/// How many of the first `n` blocks of `nodes` are the block `b`.
spec fn hits(nodes: Seq<usize>, b: nat, n: nat) -> nat
    decreases n,
{
    if n == 0 {
        0
    } else {
        hits(nodes, b, (n - 1) as nat) + (if nodes[n - 1] == b {
            1nat
        } else {
            0nat
        })
    }
}

proof fn lemma_hits(nodes: Seq<usize>, b: nat, n: nat)
    requires
        nodes.no_duplicates(),
        n <= nodes.len(),
    ensures
        hits(nodes, b, n) <= 1,
        hits(nodes, b, n) == 1 ==> exists|i: int| 0 <= i < n && nodes[i] == b,
    decreases n,
{
    if n > 0 {
        lemma_hits(nodes, b, (n - 1) as nat);
        if nodes[n - 1] == b && hits(nodes, b, (n - 1) as nat) == 1 {
            let i = choose|i: int| 0 <= i < n - 1 && nodes[i] == b;
            assert(nodes[i] == nodes[n - 1]);
        }
    }
}

proof fn lemma_degree_step(edges: Seq<(nat, nat)>, nodes: Seq<usize>, n: nat, limit: nat)
    requires
        limit < edges.len(),
        n <= nodes.len(),
    ensures
        degree_sum(edges, nodes, n, limit + 1) == degree_sum(edges, nodes, n, limit) + hits(
            nodes,
            edges[limit as int].0,
            n,
        ),
    decreases n,
{
    if n > 0 {
        lemma_degree_step(edges, nodes, (n - 1) as nat, limit);
    }
}

/// Blocks that differ have no arc in common that leaves them: together they have no more
/// arcs than there are.
pub proof fn lemma_degree_sum(edges: Seq<(nat, nat)>, nodes: Seq<usize>, n: nat, limit: nat)
    requires
        nodes.no_duplicates(),
        n <= nodes.len(),
        limit <= edges.len(),
    ensures
        degree_sum(edges, nodes, n, limit) <= limit,
    decreases limit,
{
    if limit == 0 {
        lemma_degree_zero(edges, nodes, n);
    } else {
        lemma_degree_sum(edges, nodes, n, (limit - 1) as nat);
        lemma_degree_step(edges, nodes, n, (limit - 1) as nat);
        lemma_hits(nodes, edges[limit - 1].0, n);
    }
}

proof fn lemma_degree_zero(edges: Seq<(nat, nat)>, nodes: Seq<usize>, n: nat)
    ensures
        degree_sum(edges, nodes, n, 0) == 0,
    decreases n,
{
    if n > 0 {
        lemma_degree_zero(edges, nodes, (n - 1) as nat);
    }
}

/// The number of blocks that were run is no greater than the number of blocks, and the
/// tally of arcs no greater than the number of arcs.
pub proof fn lemma_tally_bounds(m: GraphModel, nodes: Seq<usize>, n: nat)
    ensures
        executed_blocks(m, nodes, n) <= n,
        nodes_tally(m, nodes, n).0 <= degree_sum(m.edges, nodes, n, m.edges.len()),
        nodes_tally(m, nodes, n).1 <= nodes_tally(m, nodes, n).0,
        nodes_tally(m, nodes, n).2 <= nodes_tally(m, nodes, n).0,
    decreases n,
{
    if n > 0 {
        lemma_tally_bounds(m, nodes, (n - 1) as nat);
        let b = nodes[n - 1] as int;
        lemma_arcs_tally_bounds(m, b, arcs_from(m, b), arcs_from(m, b).len());
    }
}

/// The tally of arcs is no greater than the number of arcs.
pub proof fn lemma_arcs_tally_bounds(m: GraphModel, src: int, list: Seq<nat>, k: nat)
    ensures
        arcs_tally(m, src, list, k).0 <= k,
        arcs_tally(m, src, list, k).1 <= arcs_tally(m, src, list, k).0,
        arcs_tally(m, src, list, k).2 <= arcs_tally(m, src, list, k).0,
    decreases k,
{
    if k > 0 {
        lemma_arcs_tally_bounds(m, src, list, (k - 1) as nat);
    }
}

/// The degree sum grows with the number of blocks.
pub proof fn lemma_degree_monotone(
    edges: Seq<(nat, nat)>,
    nodes: Seq<usize>,
    a: nat,
    b: nat,
    limit: nat,
)
    requires
        a <= b,
    ensures
        degree_sum(edges, nodes, a, limit) <= degree_sum(edges, nodes, b, limit),
    decreases b,
{
    if a < b {
        lemma_degree_monotone(edges, nodes, a, (b - 1) as nat, limit);
    }
}

/// Touching a line keeps the numbers of the lines rising, and the line is there afterwards.
pub proof fn lemma_touch_line(
    lines: Seq<(u32, LineModel)>,
    number: u32,
    count: u64,
    attr: BlockAttr,
)
    requires
        crate::report::lines_sorted(lines),
    ensures
        crate::report::lines_sorted(touch_line(lines, number, count, attr)),
        has_line(touch_line(lines, number, count, attr), number),
{
    let i = place(lines, number);
    lemma_place_splits(lines, number, lines.len());
    let after = touch_line(lines, number, count, attr);
    if has_line(lines, number) {
        assert forall|a: int, b: int| 0 <= a < b < after.len() implies after[a].0 < after[b].0 by {
            assert(lines[a].0 < lines[b].0);
        }
        lemma_place(after, number, i);
    } else {
        assert forall|a: int, b: int| 0 <= a < b < after.len() implies after[a].0 < after[b].0 by {
            if a < i && b > i {
                assert(after[a] == lines[a] && after[b] == lines[b - 1]);
            } else if a < i && b < i {
                assert(lines[a].0 < lines[b].0);
            } else if a > i {
                assert(lines[a - 1].0 < lines[b - 1].0);
            } else if a == i {
                assert(after[b] == lines[b - 1]);
            } else {
                assert(after[a] == lines[a]);
            }
        }
        lemma_place(after, number, i);
    }
}

/// Where the numbers of the lines rise, the lines before the place of a number have
/// smaller numbers, and the lines from there on have others.
pub proof fn lemma_place_splits(lines: Seq<(u32, LineModel)>, number: u32, n: nat)
    requires
        crate::report::lines_sorted(lines),
        n <= lines.len(),
    ensures
        lower_bound(lines, number, n) <= n,
        forall|j: int| 0 <= j < lower_bound(lines, number, n) ==> (#[trigger] lines[j]).0 < number,
        forall|j: int| lower_bound(lines, number, n) <= j < n ==> (#[trigger] lines[j]).0 >= number,
    decreases n,
{
    if n > 0 {
        lemma_place_splits(lines, number, (n - 1) as nat);
        let before = lower_bound(lines, number, (n - 1) as nat);
        if lines[n - 1].0 < number && before < n - 1 {
            assert(lines[before as int].0 < lines[n - 1].0);
        }
    }
}

/// Giving a line more branches keeps the numbers of the lines rising.
pub proof fn lemma_extend_line(lines: Seq<(u32, LineModel)>, number: u32, branches: Seq<Branch>)
    requires
        crate::report::lines_sorted(lines),
    ensures
        crate::report::lines_sorted(extend_line(lines, number, branches)),
{
    let i = place(lines, number);
    lemma_place_splits(lines, number, lines.len());
    let after = extend_line(lines, number, branches);
    if has_line(lines, number) {
        assert forall|a: int, b: int| 0 <= a < b < after.len() implies after[a].0 < after[b].0 by {
            assert(lines[a].0 < lines[b].0);
        }
    } else {
        assert forall|a: int, b: int| 0 <= a < b < after.len() implies after[a].0 < after[b].0 by {
            if a < i && b > i {
                assert(after[a] == lines[a] && after[b] == lines[b - 1]);
            } else if a < i && b < i {
                assert(lines[a].0 < lines[b].0);
            } else if a > i {
                assert(lines[a - 1].0 < lines[b - 1].0);
            } else if a == i {
                assert(after[b] == lines[b - 1]);
            } else {
                assert(after[a] == lines[a]);
            }
        }
    }
}

/// The count of the exit of a function and the counts of the fake arcs that enter its exit
/// block add up to the count of the exit block, where the fake arcs do not count more than
/// the block.
pub proof fn lemma_exit_count(m: GraphModel, f: int)
    requires
        fake_total(
            m,
            arcs_into(m, m.functions[f].nodes[exit_position(m, f)] as int),
            arcs_into(m, m.functions[f].nodes[exit_position(m, f)] as int).len(),
        ) <= count_or_zero(m.blocks[m.functions[f].nodes[exit_position(m, f)] as int].count),
    ensures
        function_summary(m, f).exit_count + fake_total(
            m,
            arcs_into(m, m.functions[f].nodes[exit_position(m, f)] as int),
            arcs_into(m, m.functions[f].nodes[exit_position(m, f)] as int).len(),
        ) == count_or_zero(m.blocks[m.functions[f].nodes[exit_position(m, f)] as int].count),
{
}

} // verus!
