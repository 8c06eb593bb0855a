//! What the propagation of counts establishes.

use crate::flow::{
    catch_marked, exceptional_marked, is_fake, is_walk, lemma_masks, lemma_same_except_flag,
    ordinary_arcs, reachable, same_arc_attrs, same_block_attrs, same_counts, same_frame, sole_exit,
    unconditional_marked,
};
use crate::model::{model_wf, ArcInfo, BlockModel, GraphModel};
use crate::raw::{has_any, ARC_ATTR_FAKE, ARC_ATTR_UNCONDITIONAL, BLOCK_ATTR_EXCEPTIONAL};
use crate::topology::end_of;
use vstd::prelude::*;

verus! {

/// The sum, cut to 64 bits, of the counts that are known among the arcs below `n` that leave
/// the block `v` (or enter it, if `outgoing` is false).
pub open spec fn known_total(
    arcs: Seq<ArcInfo>,
    edges: Seq<(nat, nat)>,
    v: int,
    outgoing: bool,
    n: nat,
) -> u64
    decreases n,
{
    if n == 0 {
        0
    } else {
        let rest = known_total(arcs, edges, v, outgoing, (n - 1) as nat);
        if end_of(edges[n - 1], outgoing) == v && arcs[n - 1].count is Some {
            rest.wrapping_add(arcs[n - 1].count->0)
        } else {
            rest
        }
    }
}

/// The number of arcs without a count among the arcs below `n` that leave the block `v` (or
/// enter it).
pub open spec fn unknown_arcs(
    arcs: Seq<ArcInfo>,
    edges: Seq<(nat, nat)>,
    v: int,
    outgoing: bool,
    n: nat,
) -> nat
    decreases n,
{
    if n == 0 {
        0
    } else {
        let rest = unknown_arcs(arcs, edges, v, outgoing, (n - 1) as nat);
        if end_of(edges[n - 1], outgoing) == v && arcs[n - 1].count is None {
            rest + 1
        } else {
            rest
        }
    }
}

/// The number of arcs without a count among the arcs below `n`.
pub open spec fn unknown_count(arcs: Seq<ArcInfo>, n: nat) -> nat
    decreases n,
{
    if n == 0 {
        0
    } else {
        unknown_count(arcs, (n - 1) as nat) + (if arcs[n - 1].count is None {
            1nat
        } else {
            0nat
        })
    }
}

/// Whether every arc that leaves the block (or enters it) has a count.
pub open spec fn side_known(m: GraphModel, v: int, outgoing: bool) -> bool {
    unknown_arcs(m.arcs, m.edges, v, outgoing, m.arcs.len()) == 0
}

/// The sum, cut to 64 bits, of the known counts of the arcs that leave the block (or enter
/// it).
pub open spec fn side_total(m: GraphModel, v: int, outgoing: bool) -> u64 {
    known_total(m.arcs, m.edges, v, outgoing, m.arcs.len())
}

/// Whether the count of the block is the sum of the counts of the arcs that leave it (or
/// enter it), all of them known.
pub open spec fn balanced(m: GraphModel, v: int, outgoing: bool) -> bool {
    &&& m.blocks[v].count is Some
    &&& side_known(m, v, outgoing)
    &&& side_total(m, v, outgoing) == m.blocks[v].count->0
}

/// Whether `new` is `old` with the block `b` given the sum of the counts of the arcs on one
/// of its sides, which is not pinned and whose arcs all have a count.
pub open spec fn block_deduced(old: GraphModel, new: GraphModel, b: int, outgoing: bool) -> bool {
    &&& 0 <= b < old.blocks.len()
    &&& !pinned(old, b, outgoing)
    &&& side_known(old, b, outgoing)
    &&& new == (GraphModel {
        blocks: old.blocks.update(
            b,
            BlockModel { count: Some(side_total(old, b, outgoing)), ..old.blocks[b] },
        ),
        ..old
    })
}

/// Whether `new` is `old` with the arc `e` given its count from the block at one of its
/// ends: that block has a count, the side is not pinned, `e` is the only arc there without
/// a count, and it gets the count of the block less the counts of the other arcs, cut to
/// 64 bits.
pub open spec fn arc_deduced(old: GraphModel, new: GraphModel, e: int, outgoing: bool) -> bool {
    let v = end_of(old.edges[e], outgoing) as int;
    &&& 0 <= e < old.arcs.len()
    &&& old.arcs[e].count is None
    &&& v < old.blocks.len()
    &&& old.blocks[v].count is Some
    &&& !pinned(old, v, outgoing)
    &&& unknown_arcs(old.arcs, old.edges, v, outgoing, old.arcs.len()) == 1
    &&& new == (GraphModel {
        arcs: with_count(
            old.arcs,
            e,
            old.blocks[v].count->0.wrapping_sub(side_total(old, v, outgoing)),
        ),
        ..old
    })
}

/// Whether `new` is `old` with one count more, that of a block or that of an arc, deduced
/// from the counts that `old` has.
pub open spec fn deduced(old: GraphModel, new: GraphModel) -> bool {
    exists|i: int, outgoing: bool|
        #![trigger block_deduced(old, new, i, outgoing)]
        #![trigger arc_deduced(old, new, i, outgoing)]
        block_deduced(old, new, i, outgoing) || arc_deduced(old, new, i, outgoing)
}

/// Whether each graph of the chain but the first is deduced from the one before it.
pub open spec fn derivation(chain: Seq<GraphModel>) -> bool {
    &&& chain.len() > 0
    &&& forall|i: int| 0 <= i < chain.len() - 1 ==> deduced(#[trigger] chain[i], chain[i + 1])
}

/// Whether `new` is reached from `old` by deductions, one count at a time, each from the
/// counts that are there before it.
pub open spec fn derived(old: GraphModel, new: GraphModel) -> bool {
    exists|chain: Seq<GraphModel>| #[trigger]
        derivation(chain) && chain[0] == old && chain.last() == new
}

/// A graph is reached from itself, by no deduction.
pub proof fn lemma_derived_itself(m: GraphModel)
    ensures
        derived(m, m),
{
    let chain = seq![m];
    assert(derivation(chain) && chain[0] == m && chain.last() == m);
}

/// One deduction more leads on from what was reached.
pub proof fn lemma_derived_step(a: GraphModel, b: GraphModel, c: GraphModel)
    requires
        derived(a, b),
        deduced(b, c),
    ensures
        derived(a, c),
{
    let chain = choose|chain: Seq<GraphModel>| #[trigger]
        derivation(chain) && chain[0] == a && chain.last() == b;
    let longer = chain.push(c);
    assert forall|i: int| 0 <= i < longer.len() - 1 implies deduced(
        #[trigger] longer[i],
        longer[i + 1],
    ) by {
        if i < chain.len() - 1 {
            assert(deduced(chain[i], chain[i + 1]));
        }
    }
    assert(derivation(longer) && longer[0] == a && longer.last() == c);
}

/// What holds of the counts while they are propagated. The graph is reached by deductions,
/// one count at a time. A count of an arc that was known stays. A count that an arc has
/// got balances the block at one of its ends. The count of a block is the one it had, or
/// balances the block on one side.
pub open spec fn settled(old: GraphModel, new: GraphModel) -> bool {
    &&& derived(old, new)
    &&& same_frame(old, new)
    &&& same_arc_attrs(old, new)
    &&& same_block_attrs(old, new)
    &&& forall|e: int|
        0 <= e < new.arcs.len() ==> match old.arcs[e].count {
            Some(c) => (#[trigger] new.arcs[e]).count == Some(c),
            None => new.arcs[e].count is Some ==> balanced(new, new.edges[e].0 as int, true)
                || balanced(new, new.edges[e].1 as int, false),
        }
    &&& forall|b: int|
        0 <= b < new.blocks.len() ==> (#[trigger] new.blocks[b]).count == old.blocks[b].count
            || balanced(new, b, true) || balanced(new, b, false)
}

/// The arcs with a count given to the arc `e`.
pub open spec fn with_count(arcs: Seq<ArcInfo>, e: int, x: u64) -> Seq<ArcInfo> {
    arcs.update(e, ArcInfo { count: Some(x), ..arcs[e] })
}

/// Adding to a sum cut to 64 bits can be done in either order.
pub proof fn lemma_wrapping_add_swap(a: u64, x: u64, c: u64)
    ensures
        a.wrapping_add(x).wrapping_add(c) == a.wrapping_add(c).wrapping_add(x),
{
}

/// What a new count of the arc `e` does to the totals at a block.
pub proof fn lemma_resolve(
    arcs: Seq<ArcInfo>,
    edges: Seq<(nat, nat)>,
    e: int,
    x: u64,
    v: int,
    outgoing: bool,
    n: nat,
)
    requires
        0 <= e < arcs.len(),
        arcs.len() == edges.len(),
        arcs[e].count is None,
        n <= arcs.len(),
    ensures
        known_total(with_count(arcs, e, x), edges, v, outgoing, n) == (if e < n && end_of(
            edges[e],
            outgoing,
        ) == v {
            known_total(arcs, edges, v, outgoing, n).wrapping_add(x)
        } else {
            known_total(arcs, edges, v, outgoing, n)
        }),
        unknown_arcs(with_count(arcs, e, x), edges, v, outgoing, n) + (if e < n && end_of(
            edges[e],
            outgoing,
        ) == v {
            1nat
        } else {
            0nat
        }) == unknown_arcs(arcs, edges, v, outgoing, n),
        unknown_count(with_count(arcs, e, x), n) + (if e < n {
            1nat
        } else {
            0nat
        }) == unknown_count(arcs, n),
    decreases n,
{
    if n > 0 {
        lemma_resolve(arcs, edges, e, x, v, outgoing, (n - 1) as nat);
        let rest = known_total(arcs, edges, v, outgoing, (n - 1) as nat);
        if n - 1 != e && arcs[n - 1].count is Some {
            lemma_wrapping_add_swap(rest, x, arcs[n - 1].count->0);
        }
    }
}

/// There are no more arcs without a count at a block than arcs.
pub proof fn lemma_unknown_bound(
    arcs: Seq<ArcInfo>,
    edges: Seq<(nat, nat)>,
    v: int,
    outgoing: bool,
    n: nat,
)
    ensures
        unknown_arcs(arcs, edges, v, outgoing, n) <= n,
        unknown_arcs(arcs, edges, v, outgoing, n) <= unknown_count(arcs, n),
        unknown_count(arcs, n) <= n,
    decreases n,
{
    if n > 0 {
        lemma_unknown_bound(arcs, edges, v, outgoing, (n - 1) as nat);
    }
}

/// The totals at a block depend on counts alone.
pub proof fn lemma_totals_of_counts(
    a: Seq<ArcInfo>,
    b: Seq<ArcInfo>,
    edges: Seq<(nat, nat)>,
    v: int,
    outgoing: bool,
    n: nat,
)
    requires
        n <= a.len(),
        a.len() == b.len(),
        forall|e: int| 0 <= e < a.len() ==> (#[trigger] a[e]).count == b[e].count,
    ensures
        known_total(a, edges, v, outgoing, n) == known_total(b, edges, v, outgoing, n),
        unknown_arcs(a, edges, v, outgoing, n) == unknown_arcs(b, edges, v, outgoing, n),
        unknown_count(a, n) == unknown_count(b, n),
    decreases n,
{
    if n > 0 {
        lemma_totals_of_counts(a, b, edges, v, outgoing, (n - 1) as nat);
    }
}

/// What is known of the arcs at one block while counts are propagated.
#[derive(Copy, Clone, Debug)]
pub struct BlockStatus {
    /// The sum of the known counts of the arcs that leave the block.
    pub outgoing_total_count: u64,
    /// The number of arcs that leave the block and have no count.
    pub outgoing_invalid_arcs: u64,
    /// The sum of the known counts of the arcs that enter the block.
    pub incoming_total_count: u64,
    /// The number of arcs that enter the block and have no count.
    pub incoming_invalid_arcs: u64,
}

impl BlockStatus {
    /// The sum of known counts on one side.
    pub open spec fn total(self, outgoing: bool) -> u64 {
        if outgoing {
            self.outgoing_total_count
        } else {
            self.incoming_total_count
        }
    }

    /// The number of arcs without a count on one side.
    pub open spec fn invalid(self, outgoing: bool) -> u64 {
        if outgoing {
            self.outgoing_invalid_arcs
        } else {
            self.incoming_invalid_arcs
        }
    }

    /// The number of arcs without a count and the sum of known counts on one side, to be
    /// changed.
    pub fn totals_mut(&mut self, outgoing: bool) -> (r: (&mut u64, &mut u64))
        ensures
            *r.0 == old(self).invalid(outgoing),
            *r.1 == old(self).total(outgoing),
            final(self).invalid(outgoing) == *final(r.0),
            final(self).total(outgoing) == *final(r.1),
            final(self).invalid(!outgoing) == old(self).invalid(!outgoing),
            final(self).total(!outgoing) == old(self).total(!outgoing),
    {
        if outgoing {
            (&mut self.outgoing_invalid_arcs, &mut self.outgoing_total_count)
        } else {
            (&mut self.incoming_invalid_arcs, &mut self.incoming_total_count)
        }
    }
}

/// Whether the status of the side of the block gives the sum of the known counts there,
/// and the number of arcs without a count; on a pinned side that number is kept so far
/// above the true one that it never comes down to it.
pub open spec fn side_ok(m: GraphModel, status: BlockStatus, v: int, outgoing: bool) -> bool {
    &&& status.total(outgoing) == side_total(m, v, outgoing)
    &&& status.invalid(outgoing) >= unknown_arcs(m.arcs, m.edges, v, outgoing, m.arcs.len())
    &&& !pinned(m, v, outgoing) ==> status.invalid(outgoing) == unknown_arcs(
        m.arcs,
        m.edges,
        v,
        outgoing,
        m.arcs.len(),
    )
    &&& pinned(m, v, outgoing) ==> status.invalid(outgoing) - unknown_arcs(
        m.arcs,
        m.edges,
        v,
        outgoing,
        m.arcs.len(),
    ) >= u64::MAX - m.arcs.len()
}

/// Whether the side of the block is one that nothing is derived from: the side of an entry
/// block that arcs enter, and the side of an exit block that arcs leave.
pub open spec fn pinned(m: GraphModel, v: int, outgoing: bool) -> bool {
    exists|f: int| #[trigger] pins(m, f, v, outgoing)
}

/// Whether the block is the exit block of the function at position `f` (or its entry
/// block, if `outgoing` is false).
pub open spec fn pins(m: GraphModel, f: int, v: int, outgoing: bool) -> bool {
    &&& 0 <= f < m.functions.len()
    &&& m.functions[f].nodes[if outgoing {
        exit_position(m, f)
    } else {
        0
    }] == v
}

/// Whether the block has no count, though the arcs on the given side, which is not
/// pinned, all have one.
pub open spec fn red_at(m: GraphModel, v: int, outgoing: bool) -> bool {
    &&& m.blocks[v].count is None
    &&& !pinned(m, v, outgoing)
    &&& unknown_arcs(m.arcs, m.edges, v, outgoing, m.arcs.len()) == 0
}

/// Whether the block has a count, and one arc on the given side, which is not pinned, has
/// none.
pub open spec fn green_at(m: GraphModel, v: int, outgoing: bool) -> bool {
    &&& m.blocks[v].count is Some
    &&& !pinned(m, v, outgoing)
    &&& unknown_arcs(m.arcs, m.edges, v, outgoing, m.arcs.len()) == 1
}

/// Whether the set holds every block that has no count though it could get one.
pub open spec fn red_ok(m: GraphModel, set: Set<int>) -> bool {
    forall|v: int, outgoing: bool|
        0 <= v < m.blocks.len() && #[trigger] red_at(m, v, outgoing) ==> set.contains(v)
}

/// Whether the set holds every block whose count gives an arc its count.
pub open spec fn green_ok(m: GraphModel, set: Set<int>) -> bool {
    forall|v: int, outgoing: bool|
        0 <= v < m.blocks.len() && #[trigger] green_at(m, v, outgoing) ==> set.contains(v)
}

/// Whether no block has a count that would give an arc its count: no block with a count
/// has, on a side that is not pinned, just one arc without a count.
pub open spec fn green_free(m: GraphModel) -> bool {
    green_ok(m, Set::empty())
}

/// Whether nothing more can be derived: no block is without a count though all arcs on
/// one side have one, and no block with a count has just one arc without a count on one
/// side. The pinned sides do not count.
pub open spec fn saturated(m: GraphModel) -> bool {
    red_ok(m, Set::empty()) && green_ok(m, Set::empty())
}

/// Whether the status of every block fits the graph.
pub open spec fn status_ok(m: GraphModel, status: Seq<BlockStatus>) -> bool {
    &&& status.len() == m.blocks.len()
    &&& forall|v: int|
        0 <= v < status.len() ==> side_ok(m, #[trigger] status[v], v, true) && side_ok(
            m,
            status[v],
            v,
            false,
        )
}

/// Whether the status of every block fits the graph, but that the count `x` that an arc at
/// the given side of the block `dest` has just got is not in the status of that block yet.
pub open spec fn status_ok_but(
    m: GraphModel,
    status: Seq<BlockStatus>,
    dest: int,
    outgoing: bool,
    x: u64,
) -> bool {
    &&& status.len() == m.blocks.len()
    &&& 0 <= dest < status.len()
    &&& forall|v: int|
        0 <= v < status.len() ==> (v == dest && outgoing || side_ok(
            m,
            #[trigger] status[v],
            v,
            true,
        )) && (v == dest && !outgoing || side_ok(m, status[v], v, false))
    &&& status[dest].total(outgoing).wrapping_add(x) == side_total(m, dest, outgoing)
    &&& status[dest].invalid(outgoing) >= unknown_arcs(
        m.arcs,
        m.edges,
        dest,
        outgoing,
        m.arcs.len(),
    ) + 1
    &&& !pinned(m, dest, outgoing) ==> status[dest].invalid(outgoing) == unknown_arcs(
        m.arcs,
        m.edges,
        dest,
        outgoing,
        m.arcs.len(),
    ) + 1
    &&& pinned(m, dest, outgoing) ==> status[dest].invalid(outgoing) - unknown_arcs(
        m.arcs,
        m.edges,
        dest,
        outgoing,
        m.arcs.len(),
    ) - 1 >= u64::MAX - m.arcs.len()
}

/// What a block is to the propagation.
#[derive(Copy, Clone, PartialEq, Eq, Debug)]
pub enum BlockColor {
    /// Nothing can be done at the block.
    White,
    /// The block has no count, and the arcs on one side all have one.
    Red,
    /// The block has a count, and one arc on one side has none.
    Green,
}

/// Whether every function has an entry block and an exit block: a block 0, and a block 1
/// from version 4.7 on.
pub open spec fn analyzable(m: GraphModel) -> bool {
    forall|f: int|
        0 <= f < m.functions.len() ==> (#[trigger] m.functions[f]).nodes.len() >= 1 && (
        m.version.spec_is_4_7() ==> m.functions[f].nodes.len() >= 2)
}

/// The position of the exit block among the blocks of a function: 1 from version 4.7 on,
/// before that the last.
pub open spec fn exit_position(m: GraphModel, f: int) -> int {
    if m.version.spec_is_4_7() {
        1
    } else {
        m.functions[f].nodes.len() - 1
    }
}

/// Whether the status of the block fits the arcs below `n`.
pub open spec fn prefix_ok(m: GraphModel, status: BlockStatus, v: int, n: nat) -> bool {
    &&& status.outgoing_total_count == known_total(m.arcs, m.edges, v, true, n)
    &&& status.incoming_total_count == known_total(m.arcs, m.edges, v, false, n)
    &&& status.outgoing_invalid_arcs == unknown_arcs(m.arcs, m.edges, v, true, n)
    &&& status.incoming_invalid_arcs == unknown_arcs(m.arcs, m.edges, v, false, n)
}

/// Whether every block and every arc has a count.
pub open spec fn counts_complete(m: GraphModel) -> bool {
    &&& forall|b: int| 0 <= b < m.blocks.len() ==> (#[trigger] m.blocks[b]).count is Some
    &&& forall|e: int| 0 <= e < m.arcs.len() ==> (#[trigger] m.arcs[e]).count is Some
}

/// What the analysis does, pass by pass: the catch blocks are marked, then the
/// unconditional arcs, then the exceptional blocks; the counts are propagated by
/// deductions, one count at a time and each from the counts that are there before it, as
/// far as they can be unless a block had a count that an arc could have got its count
/// from; and the exceptional blocks are marked once more.
pub open spec fn analyzed(old: GraphModel, new: GraphModel) -> bool {
    exists|m1: GraphModel, m2: GraphModel, m3: GraphModel, m4: GraphModel| #[trigger]
        analysis_steps(old, m1, m2, m3, m4, new)
}

/// The graphs between the passes of the analysis.
pub open spec fn analysis_steps(
    old: GraphModel,
    m1: GraphModel,
    m2: GraphModel,
    m3: GraphModel,
    m4: GraphModel,
    new: GraphModel,
) -> bool {
    &&& catch_marked(old, m1)
    &&& unconditional_marked(m1, m2)
    &&& exceptional_marked(m2, m3)
    &&& settled(m3, m4)
    &&& green_free(m3) ==> saturated(m4)
    &&& exceptional_marked(m4, new)
}

/// After the analysis an arc that is not fake is unconditional exactly if it is the only
/// arc of its block that is not fake, provided that no other arc was marked unconditional
/// before.
pub proof fn lemma_unconditional_iff_sole_exit(old: GraphModel, new: GraphModel, e: int)
    requires
        model_wf(old),
        analyzed(old, new),
        0 <= e < new.arcs.len(),
        !is_fake(new, e),
        forall|x: int|
            0 <= x < old.arcs.len() && has_any(
                (#[trigger] old.arcs[x]).attr.bits,
                ARC_ATTR_UNCONDITIONAL,
            ) ==> sole_exit(old, x),
    ensures
        has_any(new.arcs[e].attr.bits, ARC_ATTR_UNCONDITIONAL) <==> sole_exit(new, e),
{
    let (m1, m2, m3, m4) = choose|m1: GraphModel, m2: GraphModel, m3: GraphModel, m4: GraphModel|
     #[trigger]
        analysis_steps(old, m1, m2, m3, m4, new);
    lemma_masks();
    assert forall|x: int| 0 <= x < old.arcs.len() implies (is_fake(new, x) <==> is_fake(old, x))
        && (is_fake(m1, x) <==> is_fake(old, x)) && (has_any(
        new.arcs[x].attr.bits,
        ARC_ATTR_UNCONDITIONAL,
    ) <==> has_any(m2.arcs[x].attr.bits, ARC_ATTR_UNCONDITIONAL)) && (has_any(
        m1.arcs[x].attr.bits,
        ARC_ATTR_UNCONDITIONAL,
    ) <==> has_any(old.arcs[x].attr.bits, ARC_ATTR_UNCONDITIONAL)) by {
        assert(new.arcs[x].attr == m4.arcs[x].attr);
        assert(m4.arcs[x].attr == m3.arcs[x].attr);
        assert(m3.arcs[x].attr == m2.arcs[x].attr);
        lemma_same_except_flag(
            m2.arcs[x].attr.bits,
            m1.arcs[x].attr.bits,
            ARC_ATTR_UNCONDITIONAL,
            ARC_ATTR_FAKE,
        );
        lemma_same_except_flag(m1.arcs[x].attr.bits, old.arcs[x].attr.bits, 0x70, ARC_ATTR_FAKE);
        assert(ARC_ATTR_UNCONDITIONAL & 0x70u16 == 0) by (bit_vector);
        lemma_same_except_flag(
            m1.arcs[x].attr.bits,
            old.arcs[x].attr.bits,
            0x70,
            ARC_ATTR_UNCONDITIONAL,
        );
    }
    assert forall|x: int| 0 <= x < old.arcs.len() implies (sole_exit(new, x) <==> sole_exit(old, x))
        && (sole_exit(m1, x) <==> sole_exit(old, x)) by {
        lemma_sole_exit_of_fakes(old, new, x);
        lemma_sole_exit_of_fakes(new, old, x);
        lemma_sole_exit_of_fakes(old, m1, x);
        lemma_sole_exit_of_fakes(m1, old, x);
    }
}

/// Which arcs are the only arc of their block that is not fake depends on the shape of the
/// graph and on which arcs are fake.
pub proof fn lemma_sole_exit_of_fakes(a: GraphModel, b: GraphModel, e: int)
    requires
        a.edges == b.edges,
        a.arcs.len() == b.arcs.len(),
        a.arcs.len() == a.edges.len(),
        0 <= e < a.arcs.len(),
        forall|x: int| 0 <= x < a.arcs.len() ==> (is_fake(a, x) <==> is_fake(b, x)),
    ensures
        sole_exit(a, e) ==> sole_exit(b, e),
{
    if sole_exit(a, e) {
        assert forall|other: int|
            0 <= other < b.edges.len() && (#[trigger] b.edges[other]).0 == b.edges[e].0
                && !is_fake(b, other) implies other == e by {
            assert(a.edges[other].0 == a.edges[e].0);
            assert(!is_fake(a, other));
        }
    }
}

/// After the analysis a block is exceptional exactly if no walk from the entry block of a
/// function reaches it along arcs that are neither fake nor taken by an exception.
pub proof fn lemma_exceptional_iff_unreachable(old: GraphModel, new: GraphModel, b: int)
    requires
        analyzed(old, new),
        0 <= b < new.blocks.len(),
    ensures
        has_any(new.blocks[b].attr.bits, BLOCK_ATTR_EXCEPTIONAL) <==> !reachable(new, b),
{
    let (m1, m2, m3, m4) = choose|m1: GraphModel, m2: GraphModel, m3: GraphModel, m4: GraphModel|
     #[trigger]
        analysis_steps(old, m1, m2, m3, m4, new);
    assert(ordinary_arcs(m4) =~= ordinary_arcs(new)) by {
        assert forall|e: int| 0 <= e < new.arcs.len() implies ordinary_arcs(m4)[e]
            == ordinary_arcs(new)[e] by {
            assert(new.arcs[e].attr == m4.arcs[e].attr);
        }
    }
    if reachable(m4, b) {
        let walk = choose|walk: Seq<int>| #[trigger] is_walk(m4, walk) && walk.last() == b;
        assert(new.blocks[walk[0]].block == m4.blocks[walk[0]].block);
        assert(is_walk(new, walk));
    }
    if reachable(new, b) {
        let walk = choose|walk: Seq<int>| #[trigger] is_walk(new, walk) && walk.last() == b;
        assert(new.blocks[walk[0]].block == m4.blocks[walk[0]].block);
        assert(is_walk(m4, walk));
    }
}

/// The analysis takes no count away: a block or an arc that had a count has one afterwards,
/// and an arc that had a count has the same.
pub proof fn lemma_analysis_keeps_counts(old: GraphModel, new: GraphModel)
    requires
        analyzed(old, new),
    ensures
        forall|e: int|
            0 <= e < new.arcs.len() && old.arcs[e].count is Some ==> (#[trigger] new.arcs[e]).count
                == old.arcs[e].count,
        forall|b: int|
            0 <= b < new.blocks.len() && old.blocks[b].count is Some ==> (
            #[trigger] new.blocks[b]).count is Some,
{
    let (m1, m2, m3, m4) = choose|m1: GraphModel, m2: GraphModel, m3: GraphModel, m4: GraphModel|
     #[trigger]
        analysis_steps(old, m1, m2, m3, m4, new);
    assert forall|e: int|
        0 <= e < new.arcs.len() && old.arcs[e].count is Some implies (#[trigger] new.arcs[e]).count
        == old.arcs[e].count by {
        assert(m1.arcs[e].count == old.arcs[e].count);
        assert(m2.arcs[e].count == m1.arcs[e].count);
        assert(m3.arcs[e].count == m2.arcs[e].count);
        assert(m4.arcs[e].count == m3.arcs[e].count);
        assert(new.arcs[e].count == m4.arcs[e].count);
    }
    assert forall|b: int|
        0 <= b < new.blocks.len() && old.blocks[b].count is Some implies (
    #[trigger] new.blocks[b]).count is Some by {
        assert(m1.blocks[b].count == old.blocks[b].count);
        assert(m2.blocks[b].count == m1.blocks[b].count);
        assert(m3.blocks[b].count == m2.blocks[b].count);
        assert(m4.blocks[b].count == m3.blocks[b].count || balanced(m4, b, true) || balanced(
            m4,
            b,
            false,
        ));
        assert(new.blocks[b].count == m4.blocks[b].count);
    }
}

/// Whether the status of the side of the block fits the graph once the functions below
/// `f` have pinned their entry and exit blocks.
pub open spec fn side_upto(m: GraphModel, status: BlockStatus, v: int, outgoing: bool, f: int)
    -> bool {
    &&& status.total(outgoing) == side_total(m, v, outgoing)
    &&& status.invalid(outgoing) >= unknown_arcs(m.arcs, m.edges, v, outgoing, m.arcs.len())
    &&& if exists|g: int| 0 <= g < f && #[trigger] pins(m, g, v, outgoing) {
        status.invalid(outgoing) == u64::MAX
    } else {
        status.invalid(outgoing) == unknown_arcs(m.arcs, m.edges, v, outgoing, m.arcs.len())
    }
}

/// Which sides are pinned depends on the functions and the version alone.
pub proof fn lemma_pinned_frame(a: GraphModel, b: GraphModel)
    requires
        a.functions == b.functions,
        a.version == b.version,
    ensures
        forall|v: int, outgoing: bool| #[trigger] pinned(a, v, outgoing) == pinned(b, v, outgoing),
{
    assert forall|v: int, outgoing: bool| #[trigger] pinned(a, v, outgoing) == pinned(
        b,
        v,
        outgoing,
    ) by {
        if pinned(a, v, outgoing) {
            let f = choose|f: int| #[trigger] pins(a, f, v, outgoing);
            assert(pins(b, f, v, outgoing));
        }
        if pinned(b, v, outgoing) {
            let f = choose|f: int| #[trigger] pins(b, f, v, outgoing);
            assert(pins(a, f, v, outgoing));
        }
    }
}

/// Which blocks could get a count, and which could give one, depends on the shape of the
/// graph and on the counts alone.
pub proof fn lemma_colors_of_counts(a: GraphModel, b: GraphModel)
    requires
        same_frame(a, b),
        same_counts(a, b),
        a.arcs.len() == a.edges.len(),
    ensures
        forall|v: int, outgoing: bool|
            #![trigger red_at(a, v, outgoing)]
            #![trigger red_at(b, v, outgoing)]
            0 <= v < a.blocks.len() ==> red_at(a, v, outgoing) == red_at(b, v, outgoing),
        forall|v: int, outgoing: bool|
            #![trigger green_at(a, v, outgoing)]
            #![trigger green_at(b, v, outgoing)]
            0 <= v < a.blocks.len() ==> green_at(a, v, outgoing) == green_at(b, v, outgoing),
        green_free(a) == green_free(b),
        saturated(a) == saturated(b),
{
    lemma_pinned_frame(a, b);
    assert forall|v: int, outgoing: bool|
        #![trigger red_at(a, v, outgoing)]
        #![trigger red_at(b, v, outgoing)]
        #![trigger green_at(a, v, outgoing)]
        #![trigger green_at(b, v, outgoing)]
        0 <= v < a.blocks.len() implies red_at(a, v, outgoing) == red_at(b, v, outgoing)
        && green_at(a, v, outgoing) == green_at(b, v, outgoing) by {
        lemma_totals_of_counts(b.arcs, a.arcs, a.edges, v, outgoing, a.arcs.len());
        assert(b.blocks[v].count == a.blocks[v].count);
    }
}

/// A graph whose blocks have no count has no block that could give an arc its count.
pub proof fn lemma_fresh_is_green_free(m: GraphModel)
    requires
        forall|b: int| 0 <= b < m.blocks.len() ==> (#[trigger] m.blocks[b]).count is None,
    ensures
        green_free(m),
{
}

/// The analysis leaves nothing that could be derived, provided that before it no block
/// had a count that an arc could have got its count from, as is the case where no block
/// had a count, and after an analysis.
pub proof fn lemma_analysis_saturates(old: GraphModel, new: GraphModel)
    requires
        model_wf(old),
        analyzed(old, new),
        green_free(old),
    ensures
        saturated(new),
        green_free(new),
{
    let (m1, m2, m3, m4) = choose|m1: GraphModel, m2: GraphModel, m3: GraphModel, m4: GraphModel|
     #[trigger]
        analysis_steps(old, m1, m2, m3, m4, new);
    lemma_colors_of_counts(old, m1);
    lemma_colors_of_counts(m1, m2);
    lemma_colors_of_counts(m2, m3);
    lemma_colors_of_counts(m4, new);
}

/// Whether the arc leaves or enters the block, and does not do both.
pub open spec fn touches_once(m: GraphModel, e: int, v: int) -> bool {
    (m.edges[e].0 == v) != (m.edges[e].1 == v)
}

/// Whether the arc leaves or enters the block.
pub open spec fn touches(m: GraphModel, e: int, v: int) -> bool {
    m.edges[e].0 == v || m.edges[e].1 == v
}

/// Whether the block is the only block of the arcs of `set` that the arc `e` shares with
/// no other arc of the set, and is neither an entry block nor an exit block.
pub open spec fn leaf_of(m: GraphModel, set: Set<int>, v: int, e: int) -> bool {
    &&& 0 <= v < m.blocks.len()
    &&& set.contains(e)
    &&& !pinned(m, v, true)
    &&& !pinned(m, v, false)
    &&& touches_once(m, e, v)
    &&& forall|other: int| set.contains(other) && other != e ==> !#[trigger] touches(m, other, v)
}

/// Whether `set` holds arcs without a count only, and at least one.
pub open spec fn uncounted(m: GraphModel, set: Set<int>) -> bool {
    &&& exists|e: int| set.contains(e)
    &&& forall|e: int| #[trigger] set.contains(e) ==> 0 <= e < m.arcs.len() && m.arcs[e].count is None
}

/// Whether the arcs without a count hang together like trees that the entry and exit
/// blocks are no leaves of: each set of such arcs has an arc that ends, alone of the set,
/// at a block that is neither an entry block nor an exit block.
pub open spec fn tree_like(m: GraphModel) -> bool {
    forall|set: Set<int>| #[trigger]
        uncounted(m, set) ==> exists|v: int, e: int| #[trigger] leaf_of(m, set, v, e)
}

/// Whether the arc at place `i` of `order` ends, at one end only, at the block `v`, which
/// is neither an entry block nor an exit block and at which no later arc of `order` ends.
pub open spec fn peels(m: GraphModel, order: Seq<int>, i: int, v: int) -> bool {
    &&& 0 <= v < m.blocks.len()
    &&& !pinned(m, v, true)
    &&& !pinned(m, v, false)
    &&& touches_once(m, order[i], v)
    &&& forall|j: int| i < j < order.len() ==> !touches(m, #[trigger] order[j], v)
}

/// Whether `order` lists the arcs without a count such that they can be taken away one by
/// one, each at a block at which no arc that is still there ends.
pub open spec fn peelable(m: GraphModel, order: Seq<int>) -> bool {
    &&& forall|e: int|
        0 <= e < m.arcs.len() && (#[trigger] m.arcs[e]).count is None ==> order.contains(e)
    &&& forall|i: int| 0 <= i < order.len() ==> #[trigger] peeled_at(m, order, i)
}

/// Whether the arc at place `i` of `order` can be taken away before the later ones.
pub open spec fn peeled_at(m: GraphModel, order: Seq<int>, i: int) -> bool {
    exists|v: int| #[trigger] peels(m, order, i, v)
}

/// The first place of `order`, up to `k`, that holds an arc of `set`.
proof fn lemma_first_of(order: Seq<int>, set: Set<int>, k: int) -> (i: int)
    requires
        0 <= k < order.len(),
        set.contains(order[k]),
    ensures
        0 <= i <= k,
        set.contains(order[i]),
        forall|j: int| 0 <= j < i ==> !set.contains(#[trigger] order[j]),
    decreases k,
{
    if exists|j: int| 0 <= j < k && set.contains(#[trigger] order[j]) {
        let j = choose|j: int| 0 <= j < k && set.contains(#[trigger] order[j]);
        lemma_first_of(order, set, j)
    } else {
        k
    }
}

/// Arcs without a count that can be taken away one by one hang together like trees.
pub proof fn lemma_peelable_is_tree_like(m: GraphModel, order: Seq<int>)
    requires
        peelable(m, order),
    ensures
        tree_like(m),
{
    assert forall|set: Set<int>| #[trigger] uncounted(m, set) implies exists|v: int, e: int| #[trigger]
        leaf_of(m, set, v, e) by {
        let some = choose|e: int| set.contains(e);
        assert(m.arcs[some].count is None);
        assert(order.contains(some));
        let k = order.index_of(some);
        let i = lemma_first_of(order, set, k);
        assert(peeled_at(m, order, i));
        let v = choose|v: int| #[trigger] peels(m, order, i, v);
        assert forall|other: int| set.contains(other) && other != order[i] implies !#[trigger] touches(
            m,
            other,
            v,
        ) by {
            assert(m.arcs[other].count is None);
            assert(order.contains(other));
            let j = order.index_of(other);
            assert(order[j] == other);
            if j < i {
                assert(!set.contains(order[j]));
            }
        }
        assert(leaf_of(m, set, v, order[i]));
    }
}

proof fn lemma_unknown_none(
    arcs: Seq<ArcInfo>,
    edges: Seq<(nat, nat)>,
    v: int,
    outgoing: bool,
    n: nat,
)
    requires
        n <= arcs.len(),
        forall|e: int|
            0 <= e < n && end_of(#[trigger] edges[e], outgoing) == v ==> arcs[e].count is Some,
    ensures
        unknown_arcs(arcs, edges, v, outgoing, n) == 0,
    decreases n,
{
    if n > 0 {
        lemma_unknown_none(arcs, edges, v, outgoing, (n - 1) as nat);
    }
}

proof fn lemma_unknown_single(
    arcs: Seq<ArcInfo>,
    edges: Seq<(nat, nat)>,
    v: int,
    outgoing: bool,
    n: nat,
    only: int,
)
    requires
        n <= arcs.len(),
        0 <= only < arcs.len(),
        end_of(edges[only], outgoing) == v,
        arcs[only].count is None,
        forall|e: int|
            0 <= e < n && e != only && end_of(#[trigger] edges[e], outgoing) == v
                ==> arcs[e].count is Some,
    ensures
        unknown_arcs(arcs, edges, v, outgoing, n) == (if only < n {
            1nat
        } else {
            0nat
        }),
    decreases n,
{
    if n > 0 {
        lemma_unknown_single(arcs, edges, v, outgoing, (n - 1) as nat, only);
    }
}

/// A graph in which nothing more can be derived, and in which the arcs without a count
/// hang together like trees, has no arc without a count; and if each block has a side
/// that is not pinned, it has no block without a count either.
pub proof fn lemma_saturated_tree_is_complete(m: GraphModel)
    requires
        m.arcs.len() == m.edges.len(),
        saturated(m),
        tree_like(m),
        forall|v: int|
            0 <= v < m.blocks.len() ==> !#[trigger] pinned(m, v, true) || !pinned(m, v, false),
    ensures
        counts_complete(m),
{
    let set = Set::new(|e: int| 0 <= e < m.arcs.len() && m.arcs[e].count is None);
    if exists|e: int| set.contains(e) {
        assert(uncounted(m, set));
        let (v, e) = choose|v: int, e: int| #[trigger] leaf_of(m, set, v, e);
        let outgoing = m.edges[e].0 == v;
        assert forall|x: int|
            0 <= x < m.arcs.len() && x != e && end_of(#[trigger] m.edges[x], outgoing)
                == v implies m.arcs[x].count is Some by {
            if m.arcs[x].count is None {
                assert(set.contains(x));
                assert(touches(m, x, v));
            }
        }
        lemma_unknown_single(m.arcs, m.edges, v, outgoing, m.arcs.len(), e);
        assert forall|x: int|
            0 <= x < m.arcs.len() && end_of(#[trigger] m.edges[x], !outgoing)
                == v implies m.arcs[x].count is Some by {
            if m.arcs[x].count is None {
                assert(set.contains(x));
                assert(touches(m, x, v));
            }
        }
        lemma_unknown_none(m.arcs, m.edges, v, !outgoing, m.arcs.len());
        if m.blocks[v].count is Some {
            assert(green_at(m, v, outgoing));
        } else {
            assert(red_at(m, v, !outgoing));
        }
        assert(false);
    }
    assert forall|e: int| 0 <= e < m.arcs.len() implies (#[trigger] m.arcs[e]).count is Some by {
        if m.arcs[e].count is None {
            assert(set.contains(e));
        }
    }
    assert forall|b: int| 0 <= b < m.blocks.len() implies (#[trigger] m.blocks[b]).count is Some by {
        let outgoing = !pinned(m, b, true);
        lemma_unknown_none(m.arcs, m.edges, b, outgoing, m.arcs.len());
        if m.blocks[b].count is None {
            assert(red_at(m, b, outgoing));
        }
    }
}

/// After the analysis every block and every arc has a count, provided that before it the
/// arcs without a count hung together like trees, that each block had a side that is not
/// pinned, and that no block had a count that an arc could have got its count from.
pub proof fn lemma_analysis_completes(old: GraphModel, new: GraphModel)
    requires
        model_wf(old),
        analyzed(old, new),
        green_free(old),
        tree_like(old),
        forall|v: int|
            0 <= v < old.blocks.len() ==> !#[trigger] pinned(old, v, true) || !pinned(
                old,
                v,
                false,
            ),
    ensures
        counts_complete(new),
{
    let (m1, m2, m3, m4) = choose|m1: GraphModel, m2: GraphModel, m3: GraphModel, m4: GraphModel|
     #[trigger]
        analysis_steps(old, m1, m2, m3, m4, new);
    lemma_colors_of_counts(old, m1);
    lemma_colors_of_counts(m1, m2);
    lemma_colors_of_counts(m2, m3);
    lemma_pinned_frame(old, m1);
    lemma_pinned_frame(m1, m2);
    lemma_pinned_frame(m2, m3);
    lemma_pinned_frame(m3, m4);
    lemma_pinned_frame(m4, old);
    assert(saturated(m4));
    assert(tree_like(m4)) by {
        assert forall|set: Set<int>| #[trigger] uncounted(m4, set) implies exists|v: int, e: int| #[trigger]
            leaf_of(m4, set, v, e) by {
            assert forall|e: int| #[trigger] set.contains(e) implies 0 <= e < old.arcs.len()
                && old.arcs[e].count is None by {
                assert(m1.arcs[e].count == old.arcs[e].count);
                assert(m2.arcs[e].count == m1.arcs[e].count);
                assert(m3.arcs[e].count == m2.arcs[e].count);
                if m3.arcs[e].count is Some {
                    assert(m4.arcs[e].count == m3.arcs[e].count);
                }
            }
            assert(uncounted(old, set));
            let (v, e) = choose|v: int, e: int| #[trigger] leaf_of(old, set, v, e);
            assert(leaf_of(m4, set, v, e)) by {
                assert forall|other: int| set.contains(other) && other != e implies !#[trigger] touches(
                    m4,
                    other,
                    v,
                ) by {
                    assert(!touches(old, other, v));
                }
            }
        }
    }
    lemma_saturated_tree_is_complete(m4);
    assert forall|e: int| 0 <= e < new.arcs.len() implies (#[trigger] new.arcs[e]).count is Some by {
        assert(new.arcs[e].count == m4.arcs[e].count);
    }
    assert forall|b: int| 0 <= b < new.blocks.len() implies (#[trigger] new.blocks[b]).count is Some by {
        assert(new.blocks[b].count == m4.blocks[b].count);
    }
}

} // verus!
