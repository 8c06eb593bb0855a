//! The counts that the analysis finds are those of every solution: where some way of
//! giving every block and arc a count balances the graph and keeps the counts that are there,
//! each count that the analysis deduces is the one this way gives. The analysis then has one
//! outcome, and so has the report.

use crate::counts::{
    analysis_steps, analyzed, arc_deduced, balanced, block_deduced, counts_complete, deduced,
    derivation, derived, green_free, known_total, lemma_analysis_completes, lemma_pinned_frame,
    lemma_resolve, lemma_totals_of_counts, pinned, settled, side_total, tree_like, unknown_arcs,
    with_count,
};
use crate::flow::{
    catch_marked, exceptional_marked, same_counts, same_frame, unconditional_marked,
};
use crate::merging::lemma_data_merges_commute;
use crate::model::{counts_follow_function, merge_data_model, model_wf, ArcInfo, GraphModel};
use crate::projection::report_model;
use crate::raw::{Record, ARC_ATTR_UNCONDITIONAL, BLOCK_ATTR_CALL_RETURN, BLOCK_ATTR_EXCEPTIONAL};
use crate::topology::end_of;
use vstd::prelude::*;

verus! {

/// Whether each count that `m` has is the one that `full` has.
pub open spec fn agrees(m: GraphModel, full: GraphModel) -> bool {
    &&& forall|e: int|
        0 <= e < m.arcs.len() && (#[trigger] m.arcs[e]).count is Some ==> full.arcs[e].count
            == m.arcs[e].count
    &&& forall|b: int|
        0 <= b < m.blocks.len() && (#[trigger] m.blocks[b]).count is Some ==> full.blocks[b].count
            == m.blocks[b].count
}

/// Whether `full` has the blocks and arcs of `m`, gives each of them a count, and balances
/// every block on each side that is not pinned: there the count of the block is the sum,
/// cut to 64 bits, of the counts of the arcs.
pub open spec fn balances(m: GraphModel, full: GraphModel) -> bool {
    &&& full.version == m.version
    &&& full.functions == m.functions
    &&& full.edges == m.edges
    &&& full.arcs.len() == m.arcs.len()
    &&& full.blocks.len() == m.blocks.len()
    &&& m.arcs.len() == m.edges.len()
    &&& counts_complete(full)
    &&& forall|v: int, outgoing: bool|
        0 <= v < full.blocks.len() && !pinned(full, v, outgoing) ==> #[trigger] side_total(
            full,
            v,
            outgoing,
        ) == full.blocks[v].count->0
}

/// Whether `full` is a solution of `m`: it balances the graph and keeps the counts of `m`.
pub open spec fn solves(m: GraphModel, full: GraphModel) -> bool {
    balances(m, full) && agrees(m, full)
}

/// Where the arcs on one side of a block all have a count, the sum of these counts is the
/// same in every list of arcs that keeps them.
proof fn lemma_known_agrees(
    arcs: Seq<ArcInfo>,
    full: Seq<ArcInfo>,
    edges: Seq<(nat, nat)>,
    v: int,
    outgoing: bool,
    n: nat,
)
    requires
        n <= arcs.len(),
        arcs.len() == full.len(),
        forall|e: int|
            0 <= e < arcs.len() && (#[trigger] arcs[e]).count is Some ==> full[e].count
                == arcs[e].count,
        unknown_arcs(arcs, edges, v, outgoing, n) == 0,
    ensures
        known_total(arcs, edges, v, outgoing, n) == known_total(full, edges, v, outgoing, n),
    decreases n,
{
    if n > 0 {
        lemma_known_agrees(arcs, full, edges, v, outgoing, (n - 1) as nat);
        if end_of(edges[n - 1], outgoing) == v {
            assert(arcs[n - 1].count is Some);
        }
    }
}

/// Adding a number to a sum cut to 64 bits and taking the sum away leaves the number.
proof fn lemma_wrapping_sub_add(k: u64, x: u64)
    ensures
        k.wrapping_add(x).wrapping_sub(k) == x,
{
}

/// One deduction from a graph that a solution agrees with gives a graph that it agrees
/// with.
proof fn lemma_deduced_agrees(a: GraphModel, b: GraphModel, full: GraphModel)
    requires
        deduced(a, b),
        solves(a, full),
    ensures
        solves(b, full),
{
    let (i, outgoing) = choose|i: int, outgoing: bool|
        #![trigger block_deduced(a, b, i, outgoing)]
        #![trigger arc_deduced(a, b, i, outgoing)]
        block_deduced(a, b, i, outgoing) || arc_deduced(a, b, i, outgoing);
    lemma_pinned_frame(a, full);
    if block_deduced(a, b, i, outgoing) {
        lemma_known_agrees(a.arcs, full.arcs, a.edges, i, outgoing, a.arcs.len());
        assert(side_total(full, i, outgoing) == full.blocks[i].count->0);
        assert(full.blocks[i].count is Some);
        assert forall|v: int| 0 <= v < b.blocks.len() && (#[trigger] b.blocks[v]).count is Some
            implies full.blocks[v].count == b.blocks[v].count by {
            if v != i {
                assert(b.blocks[v] == a.blocks[v]);
            }
        }
    } else {
        let e = i;
        let v = end_of(a.edges[e], outgoing) as int;
        let x = full.arcs[e].count->0;
        assert(full.arcs[e].count is Some);
        let more = with_count(a.arcs, e, x);
        lemma_resolve(a.arcs, a.edges, e, x, v, outgoing, a.arcs.len());
        assert forall|y: int| 0 <= y < more.len() && (#[trigger] more[y]).count is Some implies full.arcs[y].count
            == more[y].count by {
            if y != e {
                assert(more[y] == a.arcs[y]);
            }
        }
        lemma_known_agrees(more, full.arcs, a.edges, v, outgoing, a.arcs.len());
        assert(side_total(full, v, outgoing) == full.blocks[v].count->0);
        assert(a.blocks[v].count is Some);
        assert(full.blocks[v].count == a.blocks[v].count);
        lemma_wrapping_sub_add(side_total(a, v, outgoing), x);
        assert forall|y: int| 0 <= y < b.arcs.len() && (#[trigger] b.arcs[y]).count is Some implies full.arcs[y].count
            == b.arcs[y].count by {
            if y != e {
                assert(b.arcs[y] == a.arcs[y]);
            }
        }
    }
}

/// Each graph of a chain of deductions agrees with a solution of the first.
proof fn lemma_chain_agrees(chain: Seq<GraphModel>, full: GraphModel, i: int)
    requires
        derivation(chain),
        solves(chain[0], full),
        0 <= i < chain.len(),
    ensures
        solves(chain[i], full),
    decreases i,
{
    if i > 0 {
        lemma_chain_agrees(chain, full, i - 1);
        assert(deduced(chain[i - 1], chain[i - 1 + 1]));
        lemma_deduced_agrees(chain[i - 1], chain[i], full);
    }
}

/// What is reached by deductions from a graph agrees with every solution of that graph.
pub proof fn lemma_derived_agrees(old: GraphModel, new: GraphModel, full: GraphModel)
    requires
        derived(old, new),
        solves(old, full),
    ensures
        solves(new, full),
{
    let chain = choose|chain: Seq<GraphModel>| #[trigger]
        derivation(chain) && chain[0] == old && chain.last() == new;
    lemma_chain_agrees(chain, full, chain.len() - 1);
}

/// The counts after the analysis are those of every solution of the graph before it: each
/// count that a block or an arc has afterwards is the one that the solution gives it. Where
/// every block and arc has a count afterwards, the graph is therefore balanced as the
/// solution is, and holds the only solution there is.
pub proof fn lemma_analysis_agrees(old: GraphModel, new: GraphModel, full: GraphModel)
    requires
        analyzed(old, new),
        solves(old, full),
    ensures
        solves(new, full),
{
    let (m1, m2, m3, m4) = choose|m1: GraphModel, m2: GraphModel, m3: GraphModel, m4: GraphModel|
     #[trigger]
        analysis_steps(old, m1, m2, m3, m4, new);
    lemma_same_counts_agrees(old, m1, full);
    lemma_same_counts_agrees(m1, m2, full);
    lemma_same_counts_agrees(m2, m3, full);
    lemma_derived_agrees(m3, m4, full);
    lemma_same_counts_agrees(m4, new, full);
}

/// A solution of a graph is one of every graph with the same shape and counts.
proof fn lemma_same_counts_agrees(a: GraphModel, b: GraphModel, full: GraphModel)
    requires
        solves(a, full),
        same_frame(a, b),
        same_counts(a, b),
    ensures
        solves(b, full),
{
    assert forall|e: int| 0 <= e < b.arcs.len() && (#[trigger] b.arcs[e]).count is Some implies full.arcs[e].count
        == b.arcs[e].count by {
        assert(a.arcs[e].count == b.arcs[e].count);
    }
    assert forall|v: int| 0 <= v < b.blocks.len() && (#[trigger] b.blocks[v]).count is Some implies full.blocks[v].count
        == b.blocks[v].count by {
        assert(a.blocks[v].count == b.blocks[v].count);
    }
}

/// Two attributes that agree with a third outside one flag, and with each other on that
/// flag, are the same.
proof fn lemma_one_flag(a: u16, b: u16, x: u16, f: u16)
    by (bit_vector)
    requires
        f == 0x80 || f == 0x2000 || f == 0x8000,
        a & !f == x & !f,
        b & !f == x & !f,
        (a & f != 0) == (b & f != 0),
    ensures
        a == b,
{
}

/// Two attributes of an arc that agree with a third outside the three flags that the
/// marking of catch blocks sets, and with each other on these, are the same.
proof fn lemma_three_flags(a: u16, b: u16, x: u16)
    by (bit_vector)
    requires
        a & !0x70u16 == x & !0x70u16,
        b & !0x70u16 == x & !0x70u16,
        (a & 0x10 != 0) == (b & 0x10 != 0),
        (a & 0x20 != 0) == (b & 0x20 != 0),
        (a & 0x40 != 0) == (b & 0x40 != 0),
    ensures
        a == b,
{
}

/// Two attributes of a block that agree with a third outside the two flags that the
/// marking of catch blocks sets, and with each other on these, are the same.
proof fn lemma_two_flags(a: u16, b: u16, x: u16)
    by (bit_vector)
    requires
        a & !0x5000u16 == x & !0x5000u16,
        b & !0x5000u16 == x & !0x5000u16,
        (a & 0x1000 != 0) == (b & 0x1000 != 0),
        (a & 0x4000 != 0) == (b & 0x4000 != 0),
    ensures
        a == b,
{
}

/// Two graphs that differ from a third at most in attributes and counts, and have the same
/// attributes and counts, are the same.
proof fn lemma_same_graph(old: GraphModel, a: GraphModel, b: GraphModel)
    requires
        same_frame(old, a),
        same_frame(old, b),
        forall|e: int|
            0 <= e < a.arcs.len() ==> (#[trigger] a.arcs[e]).attr.bits == b.arcs[e].attr.bits
                && a.arcs[e].count == b.arcs[e].count,
        forall|v: int|
            0 <= v < a.blocks.len() ==> (#[trigger] a.blocks[v]).attr.bits == b.blocks[v].attr.bits
                && a.blocks[v].count == b.blocks[v].count,
    ensures
        a == b,
{
    assert forall|e: int| 0 <= e < a.arcs.len() implies a.arcs[e] == b.arcs[e] by {
        assert(a.arcs[e].attr.bits == b.arcs[e].attr.bits);
        assert(a.arcs[e].index == old.arcs[e].index);
        assert(b.arcs[e].index == old.arcs[e].index);
    }
    assert forall|v: int| 0 <= v < a.blocks.len() implies a.blocks[v] == b.blocks[v] by {
        assert(a.blocks[v].attr.bits == b.blocks[v].attr.bits);
        assert(a.blocks[v].index == old.blocks[v].index);
        assert(b.blocks[v].index == old.blocks[v].index);
    }
    assert(a.arcs =~= b.arcs);
    assert(a.blocks =~= b.blocks);
}

/// Marking the catch blocks has one outcome.
pub proof fn lemma_catch_marking_is_determined(old: GraphModel, a: GraphModel, b: GraphModel)
    requires
        catch_marked(old, a),
        catch_marked(old, b),
    ensures
        a == b,
{
    assert forall|e: int| 0 <= e < a.arcs.len() implies (#[trigger] a.arcs[e]).attr.bits
        == b.arcs[e].attr.bits && a.arcs[e].count == b.arcs[e].count by {
        assert(b.arcs[e].count == old.arcs[e].count);
        lemma_three_flags(a.arcs[e].attr.bits, b.arcs[e].attr.bits, old.arcs[e].attr.bits);
    }
    assert forall|v: int| 0 <= v < a.blocks.len() implies (#[trigger] a.blocks[v]).attr.bits
        == b.blocks[v].attr.bits && a.blocks[v].count == b.blocks[v].count by {
        assert(b.blocks[v].count == old.blocks[v].count);
        lemma_two_flags(a.blocks[v].attr.bits, b.blocks[v].attr.bits, old.blocks[v].attr.bits);
    }
    lemma_same_graph(old, a, b);
}

/// Marking the unconditional arcs has one outcome.
pub proof fn lemma_unconditional_marking_is_determined(old: GraphModel, a: GraphModel, b: GraphModel)
    requires
        unconditional_marked(old, a),
        unconditional_marked(old, b),
    ensures
        a == b,
{
    assert forall|e: int| 0 <= e < a.arcs.len() implies (#[trigger] a.arcs[e]).attr.bits
        == b.arcs[e].attr.bits && a.arcs[e].count == b.arcs[e].count by {
        assert(b.arcs[e].count == old.arcs[e].count);
        lemma_one_flag(
            a.arcs[e].attr.bits,
            b.arcs[e].attr.bits,
            old.arcs[e].attr.bits,
            ARC_ATTR_UNCONDITIONAL,
        );
    }
    assert forall|v: int| 0 <= v < a.blocks.len() implies (#[trigger] a.blocks[v]).attr.bits
        == b.blocks[v].attr.bits && a.blocks[v].count == b.blocks[v].count by {
        assert(b.blocks[v].count == old.blocks[v].count);
        lemma_one_flag(
            a.blocks[v].attr.bits,
            b.blocks[v].attr.bits,
            old.blocks[v].attr.bits,
            BLOCK_ATTR_CALL_RETURN,
        );
    }
    lemma_same_graph(old, a, b);
}

/// Marking the exceptional blocks has one outcome.
pub proof fn lemma_exceptional_marking_is_determined(old: GraphModel, a: GraphModel, b: GraphModel)
    requires
        exceptional_marked(old, a),
        exceptional_marked(old, b),
    ensures
        a == b,
{
    assert forall|e: int| 0 <= e < a.arcs.len() implies (#[trigger] a.arcs[e]).attr.bits
        == b.arcs[e].attr.bits && a.arcs[e].count == b.arcs[e].count by {
        assert(b.arcs[e].count == old.arcs[e].count);
        assert(b.arcs[e].attr == old.arcs[e].attr);
    }
    assert forall|v: int| 0 <= v < a.blocks.len() implies (#[trigger] a.blocks[v]).attr.bits
        == b.blocks[v].attr.bits && a.blocks[v].count == b.blocks[v].count by {
        assert(b.blocks[v].count == old.blocks[v].count);
        lemma_one_flag(
            a.blocks[v].attr.bits,
            b.blocks[v].attr.bits,
            old.blocks[v].attr.bits,
            BLOCK_ATTR_EXCEPTIONAL,
        );
    }
    lemma_same_graph(old, a, b);
}

/// Where a graph has a solution, the propagation of counts has one outcome among those
/// that give every block and arc a count: the solution.
pub proof fn lemma_propagation_is_determined(
    old: GraphModel,
    a: GraphModel,
    b: GraphModel,
    full: GraphModel,
)
    requires
        settled(old, a),
        settled(old, b),
        solves(old, full),
        counts_complete(a),
        counts_complete(b),
    ensures
        a == b,
{
    lemma_derived_agrees(old, a, full);
    lemma_derived_agrees(old, b, full);
    assert forall|e: int| 0 <= e < a.arcs.len() implies (#[trigger] a.arcs[e]).attr.bits
        == b.arcs[e].attr.bits && a.arcs[e].count == b.arcs[e].count by {
        assert(b.arcs[e].attr == old.arcs[e].attr);
        assert(b.arcs[e].count is Some);
        assert(full.arcs[e].count == b.arcs[e].count);
    }
    assert forall|v: int| 0 <= v < a.blocks.len() implies (#[trigger] a.blocks[v]).attr.bits
        == b.blocks[v].attr.bits && a.blocks[v].count == b.blocks[v].count by {
        assert(b.blocks[v].attr == old.blocks[v].attr);
        assert(b.blocks[v].count is Some);
        assert(full.blocks[v].count == b.blocks[v].count);
    }
    lemma_same_graph(old, a, b);
}

/// Where a graph has a solution, the analysis has one outcome among those that give every
/// block and arc a count. Graphs that are equal before the analysis, as those are into
/// which the same data files were merged in another order, are then equal after it, and so
/// are their reports.
pub proof fn lemma_analysis_is_determined(
    old: GraphModel,
    a: GraphModel,
    b: GraphModel,
    full: GraphModel,
)
    requires
        analyzed(old, a),
        analyzed(old, b),
        solves(old, full),
        counts_complete(a),
        counts_complete(b),
    ensures
        a == b,
{
    let (m1, m2, m3, m4) = choose|m1: GraphModel, m2: GraphModel, m3: GraphModel, m4: GraphModel|
     #[trigger]
        analysis_steps(old, m1, m2, m3, m4, a);
    let (n1, n2, n3, n4) = choose|n1: GraphModel, n2: GraphModel, n3: GraphModel, n4: GraphModel|
     #[trigger]
        analysis_steps(old, n1, n2, n3, n4, b);
    lemma_catch_marking_is_determined(old, m1, n1);
    lemma_unconditional_marking_is_determined(m1, m2, n2);
    lemma_exceptional_marking_is_determined(m2, m3, n3);
    lemma_same_counts_agrees(old, m1, full);
    lemma_same_counts_agrees(m1, m2, full);
    lemma_same_counts_agrees(m2, m3, full);
    assert(counts_complete(m4)) by {
        assert forall|v: int| 0 <= v < m4.blocks.len() implies (#[trigger] m4.blocks[v]).count is Some by {
            assert(a.blocks[v].count == m4.blocks[v].count);
        }
        assert forall|e: int| 0 <= e < m4.arcs.len() implies (#[trigger] m4.arcs[e]).count is Some by {
            assert(a.arcs[e].count == m4.arcs[e].count);
        }
    }
    assert(counts_complete(n4)) by {
        assert forall|v: int| 0 <= v < n4.blocks.len() implies (#[trigger] n4.blocks[v]).count is Some by {
            assert(b.blocks[v].count == n4.blocks[v].count);
        }
        assert forall|e: int| 0 <= e < n4.arcs.len() implies (#[trigger] n4.arcs[e]).count is Some by {
            assert(b.arcs[e].count == n4.arcs[e].count);
        }
    }
    lemma_propagation_is_determined(m3, m4, n4, full);
    lemma_exceptional_marking_is_determined(m4, a, b);
}

/// Where every arc has a count, no side of a block has an arc without one.
proof fn lemma_complete_is_known(
    arcs: Seq<ArcInfo>,
    edges: Seq<(nat, nat)>,
    v: int,
    outgoing: bool,
    n: nat,
)
    requires
        n <= arcs.len(),
        forall|e: int| 0 <= e < arcs.len() ==> (#[trigger] arcs[e]).count is Some,
    ensures
        unknown_arcs(arcs, edges, v, outgoing, n) == 0,
    decreases n,
{
    if n > 0 {
        lemma_complete_is_known(arcs, edges, v, outgoing, (n - 1) as nat);
    }
}

/// Where the analysis has given every block and arc a count and the graph had a solution
/// before it, the counts are those of the solution, and every block is balanced on each
/// side that is not pinned: its count is the sum, cut to 64 bits, of the counts of the arcs
/// there.
pub proof fn lemma_analysis_balances(old: GraphModel, new: GraphModel, full: GraphModel)
    requires
        analyzed(old, new),
        solves(old, full),
        counts_complete(new),
    ensures
        forall|e: int| 0 <= e < new.arcs.len() ==> (#[trigger] new.arcs[e]).count == full.arcs[e].count,
        forall|v: int|
            0 <= v < new.blocks.len() ==> (#[trigger] new.blocks[v]).count == full.blocks[v].count,
        forall|v: int, outgoing: bool|
            0 <= v < new.blocks.len() && !pinned(new, v, outgoing) ==> #[trigger] balanced(
                new,
                v,
                outgoing,
            ),
{
    lemma_analysis_agrees(old, new, full);
    lemma_pinned_frame(new, full);
    assert forall|v: int, outgoing: bool|
        0 <= v < new.blocks.len() && !pinned(new, v, outgoing) implies #[trigger] balanced(
        new,
        v,
        outgoing,
    ) by {
        lemma_totals_of_counts(new.arcs, full.arcs, new.edges, v, outgoing, new.arcs.len());
        lemma_complete_is_known(new.arcs, new.edges, v, outgoing, new.arcs.len());
        assert(side_total(full, v, outgoing) == full.blocks[v].count->0);
        assert(new.blocks[v].count is Some);
    }
}

/// The analysis finds the solution: where the graph has one, no block had a count that an
/// arc could have got its count from, the arcs without a count hang together like trees and
/// each block has a side that is not pinned, every block and every arc has afterwards the
/// count that the solution gives it.
pub proof fn lemma_analysis_finds_the_solution(old: GraphModel, new: GraphModel, full: GraphModel)
    requires
        model_wf(old),
        analyzed(old, new),
        solves(old, full),
        green_free(old),
        tree_like(old),
        forall|v: int|
            0 <= v < old.blocks.len() ==> !#[trigger] pinned(old, v, true) || !pinned(
                old,
                v,
                false,
            ),
    ensures
        counts_complete(new),
        forall|e: int| 0 <= e < new.arcs.len() ==> (#[trigger] new.arcs[e]).count == full.arcs[e].count,
        forall|v: int|
            0 <= v < new.blocks.len() ==> (#[trigger] new.blocks[v]).count == full.blocks[v].count,
{
    lemma_analysis_completes(old, new);
    lemma_analysis_balances(old, new, full);
}

/// Two data files that can be merged into a graph give the same report in either order,
/// where the graph with both has a solution and the analysis gives every block and every
/// arc a count.
pub proof fn lemma_data_order_keeps_report(
    m: GraphModel,
    first_stamp: u32,
    first: Seq<Record>,
    second_stamp: u32,
    second: Seq<Record>,
    a: GraphModel,
    b: GraphModel,
    full: GraphModel,
)
    requires
        model_wf(m),
        counts_follow_function(first),
        counts_follow_function(second),
        merge_data_model(m, first_stamp, first, first.len()).failure is None,
        merge_data_model(m, second_stamp, second, second.len()).failure is None,
        analyzed(
            merge_data_model(
                merge_data_model(m, first_stamp, first, first.len()).graph,
                second_stamp,
                second,
                second.len(),
            ).graph,
            a,
        ),
        analyzed(
            merge_data_model(
                merge_data_model(m, second_stamp, second, second.len()).graph,
                first_stamp,
                first,
                first.len(),
            ).graph,
            b,
        ),
        solves(
            merge_data_model(
                merge_data_model(m, first_stamp, first, first.len()).graph,
                second_stamp,
                second,
                second.len(),
            ).graph,
            full,
        ),
        counts_complete(a),
        counts_complete(b),
    ensures
        a == b,
        report_model(a) == report_model(b),
{
    lemma_data_merges_commute(m, first_stamp, first, second_stamp, second);
    let both = merge_data_model(
        merge_data_model(m, first_stamp, first, first.len()).graph,
        second_stamp,
        second,
        second.len(),
    ).graph;
    lemma_analysis_is_determined(both, a, b, full);
}

} // verus!
