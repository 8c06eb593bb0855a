//! Conservation of counts: what enters a function leaves it.

use crate::counts::{analyzable, exit_position};
use crate::model::{model_wf, GraphModel};
use crate::projection::{arcs_into, count_or_zero, fake_total, function_summary};
use crate::raw::{has_any, ARC_ATTR_FAKE};
use crate::topology::{end_of, incident};
use vstd::prelude::*;

verus! {

/// The sum of the counts of the arcs below `n` that leave the block `v` (or enter it, if
/// `outgoing` is false), where an arc without a count stands for zero.
pub open spec fn side_sum(m: GraphModel, v: int, outgoing: bool, n: nat) -> nat
    decreases n,
{
    if n == 0 {
        0
    } else {
        side_sum(m, v, outgoing, (n - 1) as nat) + (if end_of(m.edges[n - 1], outgoing) == v {
            count_or_zero(m.arcs[n - 1].count) as nat
        } else {
            0nat
        })
    }
}

/// The sum of the counts of the arcs that leave the block (or enter it).
pub open spec fn flow(m: GraphModel, v: int, outgoing: bool) -> nat {
    side_sum(m, v, outgoing, m.edges.len())
}

/// The sum of [`side_sum`] over the first `k` blocks of `nodes`.
spec fn nodes_sum(m: GraphModel, nodes: Seq<usize>, k: nat, outgoing: bool, n: nat) -> nat
    decreases k,
{
    if k == 0 {
        0
    } else {
        nodes_sum(m, nodes, (k - 1) as nat, outgoing, n) + side_sum(
            m,
            nodes[k - 1] as int,
            outgoing,
            n,
        )
    }
}

/// The sum of the counts of the arcs below `n` that leave a block of the function at
/// position `f` (or enter one).
spec fn function_sum(m: GraphModel, f: int, outgoing: bool, n: nat) -> nat
    decreases n,
{
    if n == 0 {
        0
    } else {
        function_sum(m, f, outgoing, (n - 1) as nat) + (if m.blocks[end_of(
            m.edges[n - 1],
            outgoing,
        ) as int].index == f {
            count_or_zero(m.arcs[n - 1].count) as nat
        } else {
            0nat
        })
    }
}

/// How many of the first `k` blocks of `nodes` are the block `v`.
spec fn times(nodes: Seq<usize>, v: int, k: nat) -> nat
    decreases k,
{
    if k == 0 {
        0
    } else {
        times(nodes, v, (k - 1) as nat) + (if nodes[k - 1] == v {
            1nat
        } else {
            0nat
        })
    }
}

proof fn lemma_times(nodes: Seq<usize>, v: int, k: nat)
    requires
        nodes.no_duplicates(),
        k <= nodes.len(),
    ensures
        times(nodes, v, k) <= 1,
        times(nodes, v, k) == 1 <==> exists|i: int| 0 <= i < k && nodes[i] == v,
    decreases k,
{
    if k > 0 {
        lemma_times(nodes, v, (k - 1) as nat);
        if nodes[k - 1] == v {
            if times(nodes, v, (k - 1) as nat) == 1 {
                let i = choose|i: int| 0 <= i < k - 1 && nodes[i] == v;
                assert(nodes[i] == nodes[k - 1]);
            }
            assert(0 <= k - 1 < k && nodes[k - 1] == v);
        } else {
            if exists|i: int| 0 <= i < k && nodes[i] == v {
                let i = choose|i: int| 0 <= i < k && nodes[i] == v;
                assert(0 <= i < k - 1 && nodes[i] == v);
            }
        }
    }
}

proof fn lemma_nodes_sum_step(m: GraphModel, nodes: Seq<usize>, k: nat, outgoing: bool, n: nat)
    requires
        n < m.edges.len(),
        k <= nodes.len(),
    ensures
        nodes_sum(m, nodes, k, outgoing, n + 1) == nodes_sum(m, nodes, k, outgoing, n) + times(
            nodes,
            end_of(m.edges[n as int], outgoing) as int,
            k,
        ) * count_or_zero(m.arcs[n as int].count),
    decreases k,
{
    let v = end_of(m.edges[n as int], outgoing) as int;
    let c = count_or_zero(m.arcs[n as int].count) as int;
    if k > 0 {
        lemma_nodes_sum_step(m, nodes, (k - 1) as nat, outgoing, n);
        let before = times(nodes, v, (k - 1) as nat) as int;
        assert((before + 1) * c == before * c + c) by (nonlinear_arith);
        assert((before + 0) * c == before * c) by (nonlinear_arith);
        let here = nodes[k - 1] as int;
        assert(side_sum(m, here, outgoing, n + 1) == side_sum(m, here, outgoing, n) + (if v
            == here {
            c
        } else {
            0
        }));
    } else {
        assert(0 * c == 0) by (nonlinear_arith);
    }
}

/// The counts of the arcs at the blocks of a function add up to the counts of the arcs
/// that have a block of the function at that end.
proof fn lemma_nodes_sum(m: GraphModel, f: int, outgoing: bool, n: nat)
    requires
        model_wf(m),
        0 <= f < m.functions.len(),
        n <= m.edges.len(),
    ensures
        nodes_sum(m, m.functions[f].nodes, m.functions[f].nodes.len(), outgoing, n)
            == function_sum(m, f, outgoing, n),
    decreases n,
{
    let nodes = m.functions[f].nodes;
    if n == 0 {
        lemma_nodes_sum_zero(m, nodes, nodes.len(), outgoing);
    } else {
        let e = (n - 1) as nat;
        lemma_nodes_sum(m, f, outgoing, e);
        lemma_nodes_sum_step(m, nodes, nodes.len(), outgoing, e);
        let v = end_of(m.edges[e as int], outgoing) as int;
        let c = count_or_zero(m.arcs[e as int].count) as int;
        lemma_times(nodes, v, nodes.len());
        assert(0 <= v < m.blocks.len());
        if m.blocks[v].index == f {
            assert(nodes.contains(v as usize));
            let i = nodes.index_of(v as usize);
            assert(nodes[i] == v);
            assert(times(nodes, v, nodes.len()) == 1);
            assert(1 * c == c) by (nonlinear_arith);
        } else {
            if times(nodes, v, nodes.len()) == 1 {
                let i = choose|i: int| 0 <= i < nodes.len() && nodes[i] == v;
                assert(m.blocks[nodes[i] as int].index == f);
            }
            assert(times(nodes, v, nodes.len()) == 0);
            assert(0 * c == 0) by (nonlinear_arith);
        }
    }
}

proof fn lemma_nodes_sum_zero(m: GraphModel, nodes: Seq<usize>, k: nat, outgoing: bool)
    ensures
        nodes_sum(m, nodes, k, outgoing, 0) == 0,
    decreases k,
{
    if k > 0 {
        lemma_nodes_sum_zero(m, nodes, (k - 1) as nat, outgoing);
    }
}

/// An arc leaves a block of a function exactly if it enters one.
proof fn lemma_function_sum_sides(m: GraphModel, f: int, n: nat)
    requires
        model_wf(m),
        n <= m.edges.len(),
    ensures
        function_sum(m, f, true, n) == function_sum(m, f, false, n),
    decreases n,
{
    if n > 0 {
        lemma_function_sum_sides(m, f, (n - 1) as nat);
        let e = m.edges[n - 1];
        assert(m.blocks[e.0 as int].index == m.blocks[e.1 as int].index);
    }
}

/// Whether the counts of the arcs that leave the block make as much as the counts of the
/// arcs that enter it.
pub open spec fn conserves(m: GraphModel, v: int) -> bool {
    flow(m, v, true) == flow(m, v, false)
}

/// What the first `k` blocks of the function give out more than they take in, if the
/// blocks between entry and exit give out what they take in.
proof fn lemma_difference(m: GraphModel, f: int, k: nat)
    requires
        0 <= f < m.functions.len(),
        k <= m.functions[f].nodes.len(),
        0 <= exit_position(m, f) < m.functions[f].nodes.len(),
        forall|i: int|
            0 < i < m.functions[f].nodes.len() && i != exit_position(m, f) ==> conserves(
                m,
                (#[trigger] m.functions[f].nodes[i]) as int,
            ),
    ensures
        nodes_sum(m, m.functions[f].nodes, k, true, m.edges.len()) - nodes_sum(
            m,
            m.functions[f].nodes,
            k,
            false,
            m.edges.len(),
        ) == (if k > 0 {
            flow(m, m.functions[f].nodes[0] as int, true) - flow(
                m,
                m.functions[f].nodes[0] as int,
                false,
            )
        } else {
            0
        }) + (if k > exit_position(m, f) && exit_position(m, f) != 0 {
            flow(m, m.functions[f].nodes[exit_position(m, f)] as int, true) - flow(
                m,
                m.functions[f].nodes[exit_position(m, f)] as int,
                false,
            )
        } else {
            0
        }),
    decreases k,
{
    if k > 0 {
        lemma_difference(m, f, (k - 1) as nat);
        let i = k - 1;
        if i != 0 && i != exit_position(m, f) {
            assert(conserves(m, m.functions[f].nodes[i] as int));
        }
    }
}

/// In a function whose blocks between entry and exit give out what they take in, the entry
/// block gives out more than it takes in by what the exit block takes in more than it
/// gives out.
pub proof fn lemma_flow_is_conserved(m: GraphModel, f: int)
    requires
        model_wf(m),
        0 <= f < m.functions.len(),
        0 < exit_position(m, f) < m.functions[f].nodes.len(),
        forall|i: int|
            0 < i < m.functions[f].nodes.len() && i != exit_position(m, f) ==> conserves(
                m,
                (#[trigger] m.functions[f].nodes[i]) as int,
            ),
    ensures
        flow(m, m.functions[f].nodes[0] as int, true) - flow(
            m,
            m.functions[f].nodes[0] as int,
            false,
        ) == flow(m, m.functions[f].nodes[exit_position(m, f)] as int, false) - flow(
            m,
            m.functions[f].nodes[exit_position(m, f)] as int,
            true,
        ),
{
    let nodes = m.functions[f].nodes;
    lemma_difference(m, f, nodes.len());
    lemma_nodes_sum(m, f, true, m.edges.len());
    lemma_nodes_sum(m, f, false, m.edges.len());
    lemma_function_sum_sides(m, f, m.edges.len());
}

/// The sum of the counts of the fake arcs below `n` that enter the block `v`.
spec fn fake_sum(m: GraphModel, v: int, n: nat) -> nat
    decreases n,
{
    if n == 0 {
        0
    } else {
        fake_sum(m, v, (n - 1) as nat) + (if m.edges[n - 1].1 == v && has_any(
            m.arcs[n - 1].attr.bits,
            ARC_ATTR_FAKE,
        ) && m.arcs[n - 1].count is Some {
            m.arcs[n - 1].count->0 as nat
        } else {
            0nat
        })
    }
}

proof fn lemma_fake_sum_bound(m: GraphModel, v: int, n: nat)
    ensures
        fake_sum(m, v, n) <= side_sum(m, v, false, n),
    decreases n,
{
    if n > 0 {
        lemma_fake_sum_bound(m, v, (n - 1) as nat);
    }
}

/// The fake counts of a list of arcs with one more arc at its head.
proof fn lemma_fake_total_head(m: GraphModel, e: nat, rest: Seq<nat>, k: nat)
    requires
        k <= rest.len(),
    ensures
        fake_total(m, seq![e].add(rest), k + 1) == fake_total(m, rest, k).wrapping_add(
            if has_any(m.arcs[e as int].attr.bits, ARC_ATTR_FAKE) && m.arcs[e as int].count is Some {
                m.arcs[e as int].count->0
            } else {
                0u64
            },
        ),
    decreases k,
{
    let list = seq![e].add(rest);
    let head = if has_any(m.arcs[e as int].attr.bits, ARC_ATTR_FAKE) && m.arcs[e as int].count is Some {
        m.arcs[e as int].count->0
    } else {
        0u64
    };
    if k > 0 {
        lemma_fake_total_head(m, e, rest, (k - 1) as nat);
        assert(list[k as int] == rest[k - 1]);
        let last = m.arcs[rest[k - 1] as int];
        if has_any(last.attr.bits, ARC_ATTR_FAKE) && last.count is Some {
            crate::counts::lemma_wrapping_add_swap(
                fake_total(m, rest, (k - 1) as nat),
                head,
                last.count->0,
            );
        }
    } else {
        assert(list[0] == e);
        assert(fake_total(m, list, 0) == 0);
        assert(fake_total(m, rest, 0) == 0);
    }
}

/// The fake counts of the arcs that enter a block, as they are added up for the report,
/// are their sum, if the sum fits 64 bits.
proof fn lemma_fake_total(m: GraphModel, v: int, n: nat)
    requires
        0 <= v,
        n <= m.edges.len(),
        m.arcs.len() == m.edges.len(),
        fake_sum(m, v, n) <= u64::MAX,
    ensures
        fake_total(
            m,
            incident(m.edges, v as nat, false, n),
            incident(m.edges, v as nat, false, n).len(),
        ) == fake_sum(m, v, n),
    decreases n,
{
    if n > 0 {
        let e = (n - 1) as nat;
        lemma_fake_total(m, v, e);
        let rest = incident(m.edges, v as nat, false, e);
        if end_of(m.edges[e as int], false) == v {
            lemma_fake_total_head(m, e, rest, rest.len());
        }
    }
}

/// Conservation: a function is entered at least as often as it is left and its exit block
/// is entered by fake arcs, provided that the counts add up at each of its blocks: the
/// entry block has the count of the arcs that leave it, the exit block that of the arcs
/// that enter it, each block between them is left as often as it is entered, and the exit
/// block is left no more often than the entry block is entered.
pub proof fn lemma_entry_covers_exit(m: GraphModel, f: int)
    requires
        model_wf(m),
        analyzable(m),
        0 <= f < m.functions.len(),
        exit_position(m, f) != 0,
        forall|i: int|
            0 < i < m.functions[f].nodes.len() && i != exit_position(m, f) ==> conserves(
                m,
                (#[trigger] m.functions[f].nodes[i]) as int,
            ),
        m.blocks[m.functions[f].nodes[0] as int].count is Some,
        m.blocks[m.functions[f].nodes[0] as int].count->0 == flow(
            m,
            m.functions[f].nodes[0] as int,
            true,
        ),
        m.blocks[m.functions[f].nodes[exit_position(m, f)] as int].count is Some,
        m.blocks[m.functions[f].nodes[exit_position(m, f)] as int].count->0 == flow(
            m,
            m.functions[f].nodes[exit_position(m, f)] as int,
            false,
        ),
        flow(m, m.functions[f].nodes[exit_position(m, f)] as int, true) <= flow(
            m,
            m.functions[f].nodes[0] as int,
            false,
        ),
    ensures
        function_summary(m, f).entry_count >= function_summary(m, f).exit_count + fake_total(
            m,
            arcs_into(m, m.functions[f].nodes[exit_position(m, f)] as int),
            arcs_into(m, m.functions[f].nodes[exit_position(m, f)] as int).len(),
        ),
{
    let exit = m.functions[f].nodes[exit_position(m, f)] as int;
    lemma_flow_is_conserved(m, f);
    lemma_fake_sum_bound(m, exit, m.edges.len());
    lemma_fake_total(m, exit, m.edges.len());
}

} // verus!
