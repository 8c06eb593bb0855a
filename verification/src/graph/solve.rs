//! Propagating counts from the arcs that have a counter to the other arcs and to the blocks.

use crate::bitset::{
    bitset_clear, bitset_insert, bitset_len, bitset_list, bitset_ones, bitset_with_capacity, rising,
};
use crate::counts::{
    analysis_steps, analyzable, analyzed, arc_deduced, balanced, block_deduced, counts_complete,
    exit_position, green_at, green_free, green_ok, lemma_derived_itself, lemma_derived_step,
    lemma_pinned_frame, lemma_resolve, lemma_unknown_bound, pinned, pins,
    prefix_ok, red_at, red_ok, saturated, settled, side_ok, side_upto, status_ok, status_ok_but,
    unknown_arcs, unknown_count, with_count, BlockColor, BlockStatus,
};
use crate::flow::{
    lemma_frame_keeps_shape, listed, listed_at, same_arc_attrs, same_block_attrs, same_frame,
};
use crate::model::{BlockModel, GraphModel, GRAPH_LIMIT};
use crate::topology::{end_of, topology_endpoints};
use crate::utils::fill_fixedbitset_with_ones;
use super::Graph;
use fixedbitset::FixedBitSet;
use vstd::prelude::*;

verus! {

impl Graph {
    /// Whether every function has an entry block and an exit block.
    pub open spec fn analyzable(&self) -> bool {
        analyzable(self@)
    }

    /// Tells whether every function has an entry block and an exit block, as
    /// [`Graph::analyze`] and [`Graph::report`] ask.
    pub fn is_analyzable(&self) -> (r: bool)
        ensures
            r == self.analyzable(),
    {
        let late = self.version.is_4_7();
        let mut f: usize = 0;
        while f < self.functions.len()
            invariant
                f <= self.functions.len(),
                late == self@.version.spec_is_4_7(),
                forall|g: int|
                    0 <= g < f ==> (#[trigger] self@.functions[g]).nodes.len() >= 1 && (late
                        ==> self@.functions[g].nodes.len() >= 2),
            decreases self.functions.len() - f,
        {
            proof {
                assert(self@.functions[f as int] == self.functions@[f as int]@);
            }
            let n = self.functions[f].nodes.len();
            if n < 1 || (late && n < 2) {
                return false;
            }
            f += 1;
        }
        true
    }

    /// Counts, for each block, the arcs without a count and the sum of the known counts on
    /// either side. The side of an entry block that arcs enter, and the side of an exit
    /// block that arcs leave, are taken to have arcs without a count that no one knows of.
    fn create_block_status(&self) -> (status: Vec<BlockStatus>)
        requires
            self.wf(),
            self.analyzable(),
        ensures
            status_ok(self@, status@),
    {
        let n = self.blocks.len();
        let mut status: Vec<BlockStatus> = Vec::new();
        let mut i: usize = 0;
        while i < n
            invariant
                i <= n,
                status@.len() == i,
                forall|v: int| 0 <= v < i ==> prefix_ok(self@, #[trigger] status@[v], v, 0),
            decreases n - i,
        {
            status.push(
                BlockStatus {
                    outgoing_total_count: 0,
                    outgoing_invalid_arcs: 0,
                    incoming_total_count: 0,
                    incoming_invalid_arcs: 0,
                },
            );
            i += 1;
        }
        let mut e: usize = 0;
        while e < self.arcs.len()
            invariant
                e <= self.arcs.len(),
                self.wf(),
                n == self@.blocks.len(),
                status@.len() == n,
                forall|v: int| 0 <= v < n ==> prefix_ok(self@, #[trigger] status@[v], v, e as nat),
            decreases self.arcs.len() - e,
        {
            let (a, b) = topology_endpoints(&self.graph, e);
            let ghost before = status@;
            proof {
                lemma_unknown_bound(self@.arcs, self@.edges, a as int, true, e as nat);
                lemma_unknown_bound(self@.arcs, self@.edges, b as int, false, e as nat);
                assert(self@.edges[e as int].0 < n);
            }
            match self.arcs[e].count {
                Some(count) => {
                    status[a].outgoing_total_count = status[a].outgoing_total_count.wrapping_add(
                        count,
                    );
                    status[b].incoming_total_count = status[b].incoming_total_count.wrapping_add(
                        count,
                    );
                },
                None => {
                    status[a].outgoing_invalid_arcs = status[a].outgoing_invalid_arcs + 1;
                    status[b].incoming_invalid_arcs = status[b].incoming_invalid_arcs + 1;
                },
            }
            e += 1;
            proof {
                assert forall|v: int| 0 <= v < n implies prefix_ok(
                    self@,
                    #[trigger] status@[v],
                    v,
                    e as nat,
                ) by {
                    assert(prefix_ok(self@, before[v], v, (e - 1) as nat));
                }
            }
        }
        let mut f: usize = 0;
        proof {
            assert forall|v: int| 0 <= v < n implies side_upto(
                self@,
                #[trigger] status@[v],
                v,
                true,
                0,
            ) && side_upto(self@, status@[v], v, false, 0) by {
                assert(prefix_ok(self@, status@[v], v, self@.arcs.len()));
            }
        }
        while f < self.functions.len()
            invariant
                f <= self.functions.len(),
                self.wf(),
                self.analyzable(),
                n == self@.blocks.len(),
                status@.len() == n,
                forall|v: int|
                    0 <= v < n ==> side_upto(self@, #[trigger] status@[v], v, true, f as int)
                        && side_upto(self@, status@[v], v, false, f as int),
            decreases self.functions.len() - f,
        {
            proof {
                assert(self@.functions[f as int] == self.functions@[f as int]@);
                assert(self@.functions[f as int].nodes[0] < n);
                assert(self@.functions[f as int].nodes[exit_position(self@, f as int)] < n);
            }
            let entry = self.functions[f].entry_block();
            let exit = self.functions[f].exit_block(self.version);
            let ghost before = status@;
            status[entry].incoming_invalid_arcs = u64::MAX;
            status[exit].outgoing_invalid_arcs = u64::MAX;
            proof {
                assert(pins(self@, f as int, entry as int, false));
                assert(pins(self@, f as int, exit as int, true));
                assert forall|v: int| 0 <= v < n implies side_upto(
                    self@,
                    #[trigger] status@[v],
                    v,
                    true,
                    f + 1,
                ) && side_upto(self@, status@[v], v, false, f + 1) by {
                    assert(side_upto(self@, before[v], v, true, f as int));
                    assert(side_upto(self@, before[v], v, false, f as int));
                    if exists|g: int| 0 <= g < f && #[trigger] pins(self@, g, v, true) {
                        let g = choose|g: int| 0 <= g < f && #[trigger] pins(self@, g, v, true);
                        assert(0 <= g < f + 1 && pins(self@, g, v, true));
                    }
                    if exists|g: int| 0 <= g < f && #[trigger] pins(self@, g, v, false) {
                        let g = choose|g: int| 0 <= g < f && #[trigger] pins(self@, g, v, false);
                        assert(0 <= g < f + 1 && pins(self@, g, v, false));
                    }
                }
            }
            f += 1;
        }
        proof {
            assert forall|v: int| 0 <= v < n implies side_ok(self@, #[trigger] status@[v], v, true)
                && side_ok(self@, status@[v], v, false) by {
                assert(side_upto(self@, status@[v], v, true, f as int));
                assert(side_upto(self@, status@[v], v, false, f as int));
                lemma_unknown_bound(self@.arcs, self@.edges, v, true, self@.arcs.len());
                lemma_unknown_bound(self@.arcs, self@.edges, v, false, self@.arcs.len());
                if pinned(self@, v, true) {
                    let g = choose|g: int| #[trigger] pins(self@, g, v, true);
                    assert(0 <= g < f && pins(self@, g, v, true));
                }
                if pinned(self@, v, false) {
                    let g = choose|g: int| #[trigger] pins(self@, g, v, false);
                    assert(0 <= g < f && pins(self@, g, v, false));
                }
                if exists|g: int| 0 <= g < f && #[trigger] pins(self@, g, v, true) {
                    let g = choose|g: int| 0 <= g < f && #[trigger] pins(self@, g, v, true);
                    assert(pinned(self@, v, true));
                }
                if exists|g: int| 0 <= g < f && #[trigger] pins(self@, g, v, false) {
                    let g = choose|g: int| 0 <= g < f && #[trigger] pins(self@, g, v, false);
                    assert(pinned(self@, v, false));
                }
            }
        }
        status
    }
}

/// Whether the set holds block numbers below `n` only.
spec fn blocks_only(set: FixedBitSet, n: nat) -> bool {
    &&& bitset_len(set) == n
    &&& forall|b: int| #[trigger] bitset_ones(set).contains(b) ==> 0 <= b < n
}

/// A set of block numbers below `n` is finite, and has as many members as its list.
proof fn lemma_list_len(set: FixedBitSet, list: Seq<usize>, n: nat)
    requires
        blocks_only(set, n),
        n <= usize::MAX,
        rising(list),
        forall|i: int| 0 <= i < list.len() ==> bitset_ones(set).contains(#[trigger] list[i] as int),
        forall|bit: int|
            (#[trigger] list.contains(bit as usize)) || !(0 <= bit <= usize::MAX && bitset_ones(
                set,
            ).contains(bit)),
    ensures
        bitset_ones(set).finite(),
        bitset_ones(set).len() == list.len(),
{
    let ints = list.map_values(|b: usize| b as int);
    assert(ints.no_duplicates());
    assert(ints.to_set() =~= bitset_ones(set)) by {
        assert forall|b: int| bitset_ones(set).contains(b) implies ints.to_set().contains(b) by {
            assert(list.contains(b as usize));
            let k = list.index_of(b as usize);
            assert(ints[k] == b);
        }
        assert forall|b: int| ints.to_set().contains(b) implies bitset_ones(set).contains(b) by {
            let k = choose|k: int| 0 <= k < ints.len() && ints[k] == b;
            assert(bitset_ones(set).contains(list[k] as int));
        }
    }
    ints.unique_seq_to_set();
    vstd::seq_lib::seq_to_set_is_finite(ints);
}

/// A set of block numbers below `n` is finite.
proof fn lemma_blocks_only_finite(set: FixedBitSet, n: nat)
    requires
        blocks_only(set, n),
    ensures
        bitset_ones(set).finite(),
        bitset_ones(set).len() <= n,
{
    vstd::set_lib::lemma_int_range(0, n as int);
    assert(bitset_ones(set).subset_of(vstd::set_lib::set_int_range(0, n as int)));
    vstd::set_lib::lemma_len_subset(bitset_ones(set), vstd::set_lib::set_int_range(0, n as int));
}

impl Graph {
    /// Gives a block its count.
    fn set_block_count(&mut self, b: usize, count: u64)
        requires
            old(self).wf(),
            b < old(self)@.blocks.len(),
        ensures
            final(self).wf(),
            final(self)@ == (GraphModel {
                blocks: old(self)@.blocks.update(
                    b as int,
                    BlockModel { count: Some(count), ..old(self)@.blocks[b as int] },
                ),
                ..old(self)@
            }),
    {
        self.blocks[b].count = Some(count);
        proof {
            let o = old(self)@;
            let m = self@;
            assert(m.blocks =~= o.blocks.update(
                b as int,
                BlockModel { count: Some(count), ..o.blocks[b as int] },
            ));
            assert(same_frame(o, m));
            lemma_frame_keeps_shape(o, m, o.functions.len());
        }
    }

    /// Gives an arc its count.
    fn set_arc_count(&mut self, e: usize, count: u64)
        requires
            old(self).wf(),
            e < old(self)@.arcs.len(),
        ensures
            final(self).wf(),
            final(self)@ == (GraphModel {
                arcs: with_count(old(self)@.arcs, e as int, count),
                ..old(self)@
            }),
    {
        self.arcs[e].count = Some(count);
        proof {
            let o = old(self)@;
            let m = self@;
            assert(m.arcs =~= with_count(o.arcs, e as int, count));
            assert(same_frame(o, m));
            lemma_frame_keeps_shape(o, m, o.functions.len());
        }
    }

    /// Handles a block that may have all counts on one side. If the arcs that leave it
    /// all have a count, the block gets their sum; else, if the arcs that enter it all have
    /// one, it gets theirs.
    fn process_red_block(
        &mut self,
        ni: usize,
        bs: &Vec<BlockStatus>,
        Ghost(origin): Ghost<GraphModel>,
        Ghost(greens): Ghost<Set<int>>,
    ) -> (color: BlockColor)
        requires
            old(self).wf(),
            ni < old(self)@.blocks.len(),
            status_ok(old(self)@, bs@),
            settled(origin, old(self)@),
            green_ok(old(self)@, greens),
            old(self)@.blocks[ni as int].count is None || forall|e: int|
                0 <= e < origin.arcs.len() ==> (#[trigger] old(self)@.arcs[e]).count
                    == origin.arcs[e].count,
        ensures
            final(self).wf(),
            status_ok(final(self)@, bs@),
            settled(origin, final(self)@),
            final(self)@.arcs == old(self)@.arcs,
            final(self)@.blocks.len() == old(self)@.blocks.len(),
            forall|b: int|
                0 <= b < final(self)@.blocks.len() && b != ni ==> #[trigger] final(self)@.blocks[b]
                    == old(self)@.blocks[b],
            color is White ==> final(self)@ == old(self)@,
            color is Green ==> final(self)@.blocks[ni as int].count is Some,
            !(color is Red),
            green_ok(
                final(self)@,
                if color is Green {
                    greens.insert(ni as int)
                } else {
                    greens
                },
            ),
            forall|v: int, outgoing: bool|
                0 <= v < final(self)@.blocks.len() && #[trigger] red_at(final(self)@, v, outgoing)
                    ==> red_at(old(self)@, v, outgoing) && v != ni,
    {
        proof {
            assert(side_ok(old(self)@, bs@[ni as int], ni as int, true));
            assert(side_ok(old(self)@, bs@[ni as int], ni as int, false));
        }
        let total = if bs[ni].outgoing_invalid_arcs == 0 {
            bs[ni].outgoing_total_count
        } else if bs[ni].incoming_invalid_arcs == 0 {
            bs[ni].incoming_total_count
        } else {
            return BlockColor::White;
        };
        let ghost prev = self@;
        let ghost outgoing = bs@[ni as int].outgoing_invalid_arcs == 0;
        self.set_block_count(ni, total);
        proof {
            let m = self@;
            assert(side_ok(prev, bs@[ni as int], ni as int, true));
            assert(side_ok(prev, bs@[ni as int], ni as int, false));
            assert(balanced(m, ni as int, outgoing));
            lemma_pinned_frame(m, prev);
            assert(prev.arcs.len() <= GRAPH_LIMIT);
            assert(block_deduced(prev, m, ni as int, outgoing));
            lemma_derived_step(origin, prev, m);
            assert forall|v: int, side: bool|
                0 <= v < m.blocks.len() && #[trigger] green_at(m, v, side) implies greens.insert(
                ni as int,
            ).contains(v) by {
                if v != ni {
                    assert(m.blocks[v] == prev.blocks[v]);
                    assert(green_at(prev, v, side));
                }
            }
            assert forall|v: int, side: bool|
                0 <= v < m.blocks.len() && #[trigger] red_at(m, v, side) implies red_at(
                prev,
                v,
                side,
            ) && v != ni by {
                if v != ni {
                    assert(m.blocks[v] == prev.blocks[v]);
                }
            }
            assert forall|v: int| 0 <= v < bs@.len() implies side_ok(m, #[trigger] bs@[v], v, true)
                && side_ok(m, bs@[v], v, false) by {
                assert(side_ok(prev, bs@[v], v, true));
                assert(side_ok(prev, bs@[v], v, false));
            }
            assert forall|b: int| 0 <= b < m.blocks.len() implies (#[trigger] m.blocks[b]).count
                == origin.blocks[b].count || balanced(m, b, true) || balanced(m, b, false) by {
                if b != ni {
                    assert(m.blocks[b] == prev.blocks[b]);
                    assert(prev.blocks[b].count == origin.blocks[b].count || balanced(prev, b, true)
                        || balanced(prev, b, false));
                }
            }
            assert forall|e: int| 0 <= e < m.arcs.len() implies match origin.arcs[e].count {
                Some(c) => (#[trigger] m.arcs[e]).count == Some(c),
                None => m.arcs[e].count is Some ==> balanced(m, m.edges[e].0 as int, true)
                    || balanced(m, m.edges[e].1 as int, false),
            } by {
                assert(m.arcs[e] == prev.arcs[e]);
                if origin.arcs[e].count is None && m.arcs[e].count is Some {
                    assert(prev.blocks[ni as int].count is None);
                    let a = m.edges[e].0 as int;
                    let b = m.edges[e].1 as int;
                    assert(balanced(prev, a, true) || balanced(prev, b, false));
                    if balanced(prev, a, true) {
                        assert(a != ni);
                        assert(m.blocks[a] == prev.blocks[a]);
                    } else {
                        assert(b != ni);
                        assert(m.blocks[b] == prev.blocks[b]);
                    }
                }
            }
            assert(same_frame(origin, m)) by {
                assert forall|b: int| 0 <= b < m.blocks.len() implies (#[trigger] m.blocks[b]).index
                    == origin.blocks[b].index && m.blocks[b].block == origin.blocks[b].block
                    && m.blocks[b].lines == origin.blocks[b].lines by {
                    assert(prev.blocks[b].index == origin.blocks[b].index);
                }
            }
            assert(same_block_attrs(origin, m)) by {
                assert forall|b: int| 0 <= b < m.blocks.len() implies (#[trigger] m.blocks[b]).attr
                    == origin.blocks[b].attr by {
                    assert(prev.blocks[b].attr == origin.blocks[b].attr);
                }
            }
        }
        BlockColor::Green
    }

    /// Handles the other end of an arc that has just got its count: the count enters the
    /// status of the block there, which may make the block red or green.
    fn process_green_block_dest(
        &self,
        dest: usize,
        arc_count: u64,
        outgoing: bool,
        bs: &mut Vec<BlockStatus>,
    ) -> (color: BlockColor)
        requires
            self.wf(),
            status_ok_but(self@, old(bs)@, dest as int, !outgoing, arc_count),
        ensures
            status_ok(self@, final(bs)@),
            color is Red ==> self@.blocks[dest as int].count is None,
            color is Green ==> self@.blocks[dest as int].count is Some,
            green_at(self@, dest as int, !outgoing) ==> color is Green,
            red_at(self@, dest as int, !outgoing) ==> color is Red,
    {
        let ghost before = bs@;
        let left = if outgoing {
            bs[dest].incoming_total_count = bs[dest].incoming_total_count.wrapping_add(arc_count);
            bs[dest].incoming_invalid_arcs = bs[dest].incoming_invalid_arcs - 1;
            bs[dest].incoming_invalid_arcs
        } else {
            bs[dest].outgoing_total_count = bs[dest].outgoing_total_count.wrapping_add(arc_count);
            bs[dest].outgoing_invalid_arcs = bs[dest].outgoing_invalid_arcs - 1;
            bs[dest].outgoing_invalid_arcs
        };
        proof {
            assert forall|v: int| 0 <= v < bs@.len() implies side_ok(
                self@,
                #[trigger] bs@[v],
                v,
                true,
            ) && side_ok(self@, bs@[v], v, false) by {
                if v != dest {
                    assert(bs@[v] == before[v]);
                }
            }
            assert(self@.blocks[dest as int] == self.blocks@[dest as int]@);
        }
        match self.blocks[dest].count {
            Some(_) => if left == 1 {
                BlockColor::Green
            } else {
                BlockColor::White
            },
            None => if left == 0 {
                BlockColor::Red
            } else {
                BlockColor::White
            },
        }
    }
}

impl Graph {
    /// Handles a block that has a count. If one arc on the given side has no count, it
    /// gets what is missing to the count of the block. Returns the block at the other end of
    /// that arc, and the count.
    fn process_green_block(
        &mut self,
        src: usize,
        outgoing: bool,
        bs: &mut Vec<BlockStatus>,
        Ghost(origin): Ghost<GraphModel>,
    ) -> (r: Option<(usize, u64)>)
        requires
            old(self).wf(),
            src < old(self)@.blocks.len(),
            status_ok(old(self)@, old(bs)@),
            settled(origin, old(self)@),
        ensures
            final(self).wf(),
            settled(origin, final(self)@),
            final(self)@.blocks == old(self)@.blocks,
            match r {
                None => final(self)@ == old(self)@ && final(bs)@ == old(bs)@ && !green_at(
                    old(self)@,
                    src as int,
                    outgoing,
                ),
                Some((dest, count)) => {
                    &&& dest < final(self)@.blocks.len()
                    &&& final(self)@.blocks[src as int].count is Some
                    &&& status_ok_but(final(self)@, final(bs)@, dest as int, !outgoing, count)
                    &&& unknown_count(final(self)@.arcs, final(self)@.arcs.len()) + 1
                        == unknown_count(old(self)@.arcs, old(self)@.arcs.len())
                    &&& forall|v: int, side: bool|
                        #![trigger unknown_arcs(final(self)@.arcs, final(self)@.edges, v, side, final(self)@.arcs.len())]
                        unknown_arcs(
                            final(self)@.arcs,
                            final(self)@.edges,
                            v,
                            side,
                            final(self)@.arcs.len(),
                        ) + (if (v == src && side == outgoing) || (v == dest && side
                            != outgoing) {
                            1nat
                        } else {
                            0nat
                        }) == unknown_arcs(
                            old(self)@.arcs,
                            old(self)@.edges,
                            v,
                            side,
                            old(self)@.arcs.len(),
                        )
                    &&& !pinned(old(self)@, src as int, outgoing) ==> unknown_arcs(
                        final(self)@.arcs,
                        final(self)@.edges,
                        src as int,
                        outgoing,
                        final(self)@.arcs.len(),
                    ) == 0
                },
            },
    {
        proof {
            assert(side_ok(old(self)@, old(bs)@[src as int], src as int, outgoing));
        }
        let invalid = if outgoing {
            bs[src].outgoing_invalid_arcs
        } else {
            bs[src].incoming_invalid_arcs
        };
        if invalid != 1 {
            return None;
        }
        let list = self.arcs_of(src, outgoing);
        let mut k: usize = 0;
        while k < list.len() && self.arcs[list[k].0].count.is_some()
            invariant
                k <= list.len(),
                forall|j: int|
                    0 <= j < list@.len() ==> (#[trigger] list@[j]).0 < self.arcs@.len(),
                forall|j: int| 0 <= j < k ==> self.arcs@[(#[trigger] list@[j]).0 as int].count is Some,
            decreases list.len() - k,
        {
            k += 1;
        }
        if k >= list.len() {
            proof {
                let m = self@;
                if unknown_arcs(m.arcs, m.edges, src as int, outgoing, m.arcs.len()) >= 1 {
                    let e = lemma_unknown_witness(m, src as int, outgoing, m.arcs.len());
                    assert(listed(list@, list@.len() as int, e));
                    let j = choose|j: int| #[trigger] listed_at(list@, list@.len() as int, e, j);
                    assert(self.arcs@[list@[j].0 as int].count is Some);
                }
            }
            return None;
        }
        let e = list[k].0;
        let dest = if outgoing {
            list[k].2
        } else {
            list[k].1
        };
        let block_count = match self.blocks[src].count {
            Some(count) => count,
            None => {
                return None;
            },
        };
        let known = if outgoing {
            bs[src].outgoing_total_count
        } else {
            bs[src].incoming_total_count
        };
        let arc_count = block_count.wrapping_sub(known);
        let ghost prev = self@;
        let ghost before = bs@;
        proof {
            assert(prev.blocks[src as int] == self.blocks@[src as int]@);
            assert(side_ok(prev, before[src as int], src as int, outgoing));
            lemma_one_unknown(prev, src as int, outgoing, e as int);
        }
        self.set_arc_count(e, arc_count);
        {
            let (src_ia, src_tc) = bs[src].totals_mut(outgoing);
            *src_tc = block_count;
            *src_ia = *src_ia - 1;
        }
        proof {
            let m = self@;
            assert(m.arcs == with_count(prev.arcs, e as int, arc_count));
            lemma_resolve(
                prev.arcs,
                prev.edges,
                e as int,
                arc_count,
                src as int,
                outgoing,
                prev.arcs.len(),
            );
            lemma_resolve(
                prev.arcs,
                prev.edges,
                e as int,
                arc_count,
                dest as int,
                !outgoing,
                prev.arcs.len(),
            );
            assert(end_of(prev.edges[e as int], outgoing) == src);
            assert(end_of(prev.edges[e as int], !outgoing) == dest);
            lemma_pinned_frame(m, prev);
            assert(balanced(m, src as int, outgoing));
            assert(prev.arcs.len() <= GRAPH_LIMIT);
            assert(arc_deduced(prev, m, e as int, outgoing));
            lemma_derived_step(origin, prev, m);
            assert forall|v: int, side: bool|
                #![trigger unknown_arcs(m.arcs, m.edges, v, side, m.arcs.len())]
                unknown_arcs(m.arcs, m.edges, v, side, m.arcs.len()) + (if (v == src && side
                    == outgoing) || (v == dest && side != outgoing) {
                    1nat
                } else {
                    0nat
                }) == unknown_arcs(prev.arcs, prev.edges, v, side, prev.arcs.len()) by {
                lemma_resolve(prev.arcs, prev.edges, e as int, arc_count, v, side, prev.arcs.len());
            }
            assert forall|v: int| 0 <= v < bs@.len() implies (v == dest && !outgoing || side_ok(
                m,
                #[trigger] bs@[v],
                v,
                true,
            )) && (v == dest && outgoing || side_ok(m, bs@[v], v, false)) by {
                assert(side_ok(prev, before[v], v, true));
                assert(side_ok(prev, before[v], v, false));
                lemma_resolve(prev.arcs, prev.edges, e as int, arc_count, v, true, prev.arcs.len());
                lemma_resolve(
                    prev.arcs,
                    prev.edges,
                    e as int,
                    arc_count,
                    v,
                    false,
                    prev.arcs.len(),
                );
                if v != src {
                    assert(bs@[v] == before[v]);
                }
            }
            assert(side_ok(prev, before[dest as int], dest as int, !outgoing));
            assert forall|b: int, side: bool|
                0 <= b < m.blocks.len() && balanced(prev, b, side) implies #[trigger] balanced(
                m,
                b,
                side,
            ) by {
                lemma_resolve(prev.arcs, prev.edges, e as int, arc_count, b, side, prev.arcs.len());
                if end_of(prev.edges[e as int], side) == b {
                    lemma_one_unknown(prev, b, side, e as int);
                }
            }
            assert forall|b: int| 0 <= b < m.blocks.len() implies (#[trigger] m.blocks[b]).count
                == origin.blocks[b].count || balanced(m, b, true) || balanced(m, b, false) by {
                assert(prev.blocks[b].count == origin.blocks[b].count || balanced(prev, b, true)
                    || balanced(prev, b, false));
            }
            assert forall|x: int| 0 <= x < m.arcs.len() implies match origin.arcs[x].count {
                Some(c) => (#[trigger] m.arcs[x]).count == Some(c),
                None => m.arcs[x].count is Some ==> balanced(m, m.edges[x].0 as int, true)
                    || balanced(m, m.edges[x].1 as int, false),
            } by {
                if x != e {
                    assert(m.arcs[x] == prev.arcs[x]);
                    if origin.arcs[x].count is None && m.arcs[x].count is Some {
                        assert(balanced(prev, m.edges[x].0 as int, true) || balanced(
                            prev,
                            m.edges[x].1 as int,
                            false,
                        ));
                    }
                } else {
                    assert(prev.arcs[e as int].count is None);
                }
            }
            assert(same_frame(origin, m)) by {
                assert forall|x: int| 0 <= x < m.arcs.len() implies (#[trigger] m.arcs[x]).index
                    == origin.arcs[x].index && m.arcs[x].arc == origin.arcs[x].arc by {
                    assert(prev.arcs[x].index == origin.arcs[x].index);
                }
            }
            assert(same_arc_attrs(origin, m)) by {
                assert forall|x: int| 0 <= x < m.arcs.len() implies (#[trigger] m.arcs[x]).attr
                    == origin.arcs[x].attr by {
                    assert(prev.arcs[x].attr == origin.arcs[x].attr);
                }
            }
        }
        Some((dest, arc_count))
    }
}

/// A block with an arc without a count on one side has at least one such arc there.
proof fn lemma_one_unknown(m: GraphModel, v: int, outgoing: bool, e: int)
    requires
        0 <= e < m.arcs.len(),
        m.arcs.len() == m.edges.len(),
        m.arcs[e].count is None,
        end_of(m.edges[e], outgoing) == v,
    ensures
        unknown_arcs(m.arcs, m.edges, v, outgoing, m.arcs.len()) >= 1,
{
    lemma_unknown_from(m, v, outgoing, e, m.arcs.len());
}

/// A block with arcs without a count on one side has such an arc there.
proof fn lemma_unknown_witness(m: GraphModel, v: int, outgoing: bool, n: nat) -> (e: int)
    requires
        n <= m.arcs.len(),
        m.arcs.len() == m.edges.len(),
        unknown_arcs(m.arcs, m.edges, v, outgoing, n) >= 1,
    ensures
        0 <= e < n,
        end_of(m.edges[e], outgoing) == v,
        m.arcs[e].count is None,
    decreases n,
{
    if end_of(m.edges[n - 1], outgoing) == v && m.arcs[n - 1].count is None {
        n - 1
    } else {
        lemma_unknown_witness(m, v, outgoing, (n - 1) as nat)
    }
}

proof fn lemma_unknown_from(m: GraphModel, v: int, outgoing: bool, e: int, n: nat)
    requires
        0 <= e < n <= m.arcs.len(),
        m.arcs.len() == m.edges.len(),
        m.arcs[e].count is None,
        end_of(m.edges[e], outgoing) == v,
    ensures
        unknown_arcs(m.arcs, m.edges, v, outgoing, n) >= 1,
    decreases n,
{
    if n - 1 > e {
        lemma_unknown_from(m, v, outgoing, e, (n - 1) as nat);
    }
}

/// Whether the block stands in the list at the place `k` or later.
spec fn later(list: Seq<usize>, k: int, v: int) -> bool {
    exists|j: int| k <= j < list.len() && list[j] == v
}

/// Whether the blocks of the set have no count.
spec fn all_without_count(m: GraphModel, set: Set<int>) -> bool {
    forall|b: int| #[trigger] set.contains(b) ==> 0 <= b < m.blocks.len() && m.blocks[b].count is None
}

/// Whether no arc has got a count since `origin`.
spec fn no_arc_resolved(origin: GraphModel, m: GraphModel) -> bool {
    forall|e: int| 0 <= e < origin.arcs.len() ==> (#[trigger] m.arcs[e]).count == origin.arcs[e].count
}

/// What is left to do, at most: three steps for each arc without a count, two for each red
/// block and one for each green block.
spec fn work_left(m: GraphModel, red: FixedBitSet, green: FixedBitSet) -> nat {
    3 * unknown_count(m.arcs, m.arcs.len()) + 2 * bitset_ones(red).len() + bitset_ones(green).len()
}

/// Puts a block into a set.
fn put(set: &mut FixedBitSet, b: usize, Ghost(n): Ghost<nat>)
    requires
        blocks_only(*old(set), n),
        b < n,
    ensures
        blocks_only(*final(set), n),
        bitset_ones(*final(set)) == bitset_ones(*old(set)).insert(b as int),
        bitset_ones(*final(set)).finite(),
        bitset_ones(*final(set)).len() <= bitset_ones(*old(set)).len() + 1,
{
    proof {
        lemma_blocks_only_finite(*set, n);
        vstd::set::axiom_set_insert_len(bitset_ones(*set), b as int);
        vstd::set::axiom_set_insert_finite(bitset_ones(*set), b as int);
    }
    bitset_insert(set, b);
}

impl Graph {
    /// Handles the red blocks: those of them that get a count become green.
    fn process_red_blocks(
        &mut self,
        red: &Vec<usize>,
        bs: &Vec<BlockStatus>,
        green: &mut FixedBitSet,
        Ghost(origin): Ghost<GraphModel>,
    )
        requires
            old(self).wf(),
            status_ok(old(self)@, bs@),
            settled(origin, old(self)@),
            rising(red@),
            forall|k: int| 0 <= k < red@.len() ==> (#[trigger] red@[k]) < old(self)@.blocks.len(),
            blocks_only(*old(green), old(self)@.blocks.len()),
            no_arc_resolved(origin, old(self)@) || forall|k: int|
                0 <= k < red@.len() ==> old(self)@.blocks[(#[trigger] red@[k]) as int].count is None,
        ensures
            final(self).wf(),
            status_ok(final(self)@, bs@),
            settled(origin, final(self)@),
            final(self)@.arcs == old(self)@.arcs,
            final(self)@.blocks.len() == old(self)@.blocks.len(),
            blocks_only(*final(green), final(self)@.blocks.len()),
            bitset_ones(*final(green)).finite(),
            bitset_ones(*final(green)).len() <= bitset_ones(*old(green)).len() + red@.len(),
            red@.len() == 0 ==> bitset_ones(*final(green)) == bitset_ones(*old(green)),
            no_arc_resolved(origin, old(self)@) ==> no_arc_resolved(origin, final(self)@),
            forall|v: int|
                0 <= v < final(self)@.blocks.len() && old(self)@.blocks[v].count is Some ==> (
                #[trigger] final(self)@.blocks[v]).count is Some,
            green_ok(old(self)@, bitset_ones(*old(green))) && (forall|v: int, outgoing: bool|
                0 <= v < old(self)@.blocks.len() && #[trigger] red_at(old(self)@, v, outgoing)
                    ==> red@.contains(v as usize)) ==> green_ok(
                final(self)@,
                bitset_ones(*final(green)),
            ) && red_ok(final(self)@, Set::empty()),
    {
        let ghost n = self@.blocks.len();
        proof {
            lemma_blocks_only_finite(*green, n);
        }
        let mut k: usize = 0;
        while k < red.len()
            invariant
                k <= red.len(),
                n == self@.blocks.len(),
                n == old(self)@.blocks.len(),
                self.wf(),
                status_ok(self@, bs@),
                settled(origin, self@),
                self@.arcs == old(self)@.arcs,
                rising(red@),
                forall|j: int| 0 <= j < red@.len() ==> (#[trigger] red@[j]) < n,
                blocks_only(*green, n),
                bitset_ones(*green).finite(),
                bitset_ones(*green).len() <= bitset_ones(*old(green)).len() + k,
                k == 0 ==> bitset_ones(*green) == bitset_ones(*old(green)),
                no_arc_resolved(origin, old(self)@) || forall|j: int|
                    k <= j < red@.len() ==> self@.blocks[(#[trigger] red@[j]) as int].count is None,
                forall|v: int|
                    0 <= v < n && old(self)@.blocks[v].count is Some ==> (
                    #[trigger] self@.blocks[v]).count is Some,
                green_ok(old(self)@, bitset_ones(*old(green))) && (forall|
                    v: int,
                    outgoing: bool,
                |
                    0 <= v < old(self)@.blocks.len() && #[trigger] red_at(old(self)@, v, outgoing)
                        ==> red@.contains(v as usize)) ==> green_ok(self@, bitset_ones(*green))
                    && forall|v: int, outgoing: bool|
                    0 <= v < n && #[trigger] red_at(self@, v, outgoing) ==> exists|j: int|
                        k <= j < red@.len() && red@[j] == v,
            decreases red.len() - k,
        {
            let ni = red[k];
            let ghost prev = self@;
            let ghost greens = if green_ok(prev, bitset_ones(*green)) {
                bitset_ones(*green)
            } else {
                Set::new(|v: int| true)
            };
            proof {
                if k == 0 && green_ok(old(self)@, bitset_ones(*old(green))) && (forall|
                    v: int,
                    outgoing: bool,
                |
                    0 <= v < old(self)@.blocks.len() && #[trigger] red_at(old(self)@, v, outgoing)
                        ==> red@.contains(v as usize)) {
                    assert forall|v: int, outgoing: bool|
                        0 <= v < n && #[trigger] red_at(self@, v, outgoing) implies exists|j: int|
                        0 <= j < red@.len() && red@[j] == v by {
                        assert(red@.contains(v as usize));
                        let j = red@.index_of(v as usize);
                        assert(red@[j] == v);
                    }
                }
            }
            let color = self.process_red_block(ni, bs, Ghost(origin), Ghost(greens));
            match color {
                BlockColor::Green => {
                    put(green, ni, Ghost(n));
                },
                _ => {},
            }
            proof {
                if green_ok(old(self)@, bitset_ones(*old(green))) && (forall|
                    v: int,
                    outgoing: bool,
                |
                    0 <= v < old(self)@.blocks.len() && #[trigger] red_at(old(self)@, v, outgoing)
                        ==> red@.contains(v as usize)) {
                    assert forall|v: int, outgoing: bool|
                        0 <= v < n && #[trigger] red_at(self@, v, outgoing) implies exists|j: int|
                        k + 1 <= j < red@.len() && red@[j] == v by {
                        assert(red_at(prev, v, outgoing) && v != ni);
                        let j = choose|j: int| k <= j < red@.len() && red@[j] == v;
                        assert(j != k);
                    }
                }
                assert forall|v: int|
                    0 <= v < n && old(self)@.blocks[v].count is Some implies (
                #[trigger] self@.blocks[v]).count is Some by {
                    if v != ni {
                        assert(self@.blocks[v] == prev.blocks[v]);
                    }
                }
            }
            proof {
                assert forall|j: int| k + 1 <= j < red@.len() && !no_arc_resolved(
                    origin,
                    old(self)@,
                ) implies self@.blocks[(#[trigger] red@[j]) as int].count is None by {
                    assert(red@[k as int] < red@[j]);
                    assert(self@.blocks[red@[j] as int] == prev.blocks[red@[j] as int]);
                }
            }
            k += 1;
        }
        proof {
            if green_ok(old(self)@, bitset_ones(*old(green))) && (forall|v: int, outgoing: bool|
                0 <= v < old(self)@.blocks.len() && #[trigger] red_at(old(self)@, v, outgoing)
                    ==> red@.contains(v as usize)) {
                assert forall|v: int, outgoing: bool|
                    0 <= v < n && #[trigger] red_at(self@, v, outgoing) implies false by {
                    let j = choose|j: int| k <= j < red@.len() && red@[j] == v;
                }
            }
        }
    }

    /// Handles the green blocks: a block at the other end of an arc that gets its count may
    /// become red or green.
    fn process_green_blocks(
        &mut self,
        list: &Vec<usize>,
        bs: &mut Vec<BlockStatus>,
        red: &mut FixedBitSet,
        green: &mut FixedBitSet,
        Ghost(origin): Ghost<GraphModel>,
    )
        requires
            old(self).wf(),
            status_ok(old(self)@, old(bs)@),
            settled(origin, old(self)@),
            forall|k: int| 0 <= k < list@.len() ==> (#[trigger] list@[k]) < old(self)@.blocks.len(),
            blocks_only(*old(red), old(self)@.blocks.len()),
            blocks_only(*old(green), old(self)@.blocks.len()),
            all_without_count(old(self)@, bitset_ones(*old(red))),
        ensures
            final(self).wf(),
            status_ok(final(self)@, final(bs)@),
            settled(origin, final(self)@),
            final(self)@.blocks == old(self)@.blocks,
            blocks_only(*final(red), final(self)@.blocks.len()),
            blocks_only(*final(green), final(self)@.blocks.len()),
            all_without_count(final(self)@, bitset_ones(*final(red))),
            work_left(final(self)@, *final(red), *final(green)) <= work_left(
                old(self)@,
                *old(red),
                *old(green),
            ),
            list@.len() == 0 ==> bitset_ones(*final(red)) == bitset_ones(*old(red))
                && bitset_ones(*final(green)) == bitset_ones(*old(green)),
            red_ok(old(self)@, bitset_ones(*old(red))) && (forall|v: int, outgoing: bool|
                0 <= v < old(self)@.blocks.len() && #[trigger] green_at(old(self)@, v, outgoing)
                    ==> bitset_ones(*old(green)).contains(v) || list@.contains(v as usize))
                ==> red_ok(final(self)@, bitset_ones(*final(red))) && green_ok(
                final(self)@,
                bitset_ones(*final(green)),
            ),
    {
        let ghost n = self@.blocks.len();
        let ghost tracked_sets = red_ok(old(self)@, bitset_ones(*old(red))) && (forall|
            v: int,
            outgoing: bool,
        |
            0 <= v < old(self)@.blocks.len() && #[trigger] green_at(old(self)@, v, outgoing)
                ==> bitset_ones(*old(green)).contains(v) || list@.contains(v as usize));
        proof {
            if tracked_sets {
                assert forall|v: int, outgoing: bool|
                    0 <= v < n && #[trigger] green_at(self@, v, outgoing) implies bitset_ones(
                    *green,
                ).contains(v) || later(list@, 0, v) by {
                    if !bitset_ones(*green).contains(v) {
                        assert(list@.contains(v as usize));
                        let j = list@.index_of(v as usize);
                        assert(list@[j] == v);
                    }
                }
            }
        }
        let mut k: usize = 0;
        while k < list.len()
            invariant
                k <= list.len(),
                n == self@.blocks.len(),
                self.wf(),
                status_ok(self@, bs@),
                settled(origin, self@),
                self@.blocks == old(self)@.blocks,
                forall|j: int| 0 <= j < list@.len() ==> (#[trigger] list@[j]) < n,
                blocks_only(*red, n),
                blocks_only(*green, n),
                all_without_count(self@, bitset_ones(*red)),
                work_left(self@, *red, *green) <= work_left(old(self)@, *old(red), *old(green)),
                k == 0 ==> bitset_ones(*red) == bitset_ones(*old(red)) && bitset_ones(*green)
                    == bitset_ones(*old(green)),
                tracked_sets ==> red_ok(self@, bitset_ones(*red)) && forall|
                    v: int,
                    outgoing: bool,
                |
                    0 <= v < n && #[trigger] green_at(self@, v, outgoing) ==> bitset_ones(
                        *green,
                    ).contains(v) || later(list@, k as int, v),
            decreases list.len() - k,
        {
            let src = list[k];
            let ghost cover = Set::new(|v: int| later(list@, k + 1, v));
            proof {
                if tracked_sets {
                    assert forall|v: int, outgoing: bool|
                        0 <= v < n && #[trigger] green_at(self@, v, outgoing) implies cover.contains(
                        v,
                    ) || bitset_ones(*green).contains(v) || v == src by {
                        if later(list@, k as int, v) {
                            let j = choose|j: int| k <= j < list@.len() && list@[j] == v;
                            if j > k {
                                assert(later(list@, k + 1, v));
                            }
                        }
                    }
                }
            }
            self.process_green_side(
                src,
                true,
                bs,
                red,
                green,
                Ghost(origin),
                Ghost(cover),
                Ghost(true),
                Ghost(tracked_sets),
            );
            self.process_green_side(
                src,
                false,
                bs,
                red,
                green,
                Ghost(origin),
                Ghost(cover),
                Ghost(false),
                Ghost(tracked_sets),
            );
            k += 1;
        }
        proof {
            if tracked_sets {
                assert forall|v: int, outgoing: bool|
                    0 <= v < n && #[trigger] green_at(self@, v, outgoing) implies bitset_ones(
                    *green,
                ).contains(v) by {
                    if later(list@, k as int, v) {
                        let j = choose|j: int| k <= j < list@.len() && list@[j] == v;
                    }
                }
            }
        }
    }

    /// Handles one side of a green block.
    fn process_green_side(
        &mut self,
        src: usize,
        outgoing: bool,
        bs: &mut Vec<BlockStatus>,
        red: &mut FixedBitSet,
        green: &mut FixedBitSet,
        Ghost(origin): Ghost<GraphModel>,
        Ghost(cover): Ghost<Set<int>>,
        Ghost(other_side): Ghost<bool>,
        Ghost(tracked_sets): Ghost<bool>,
    )
        requires
            old(self).wf(),
            src < old(self)@.blocks.len(),
            status_ok(old(self)@, old(bs)@),
            settled(origin, old(self)@),
            blocks_only(*old(red), old(self)@.blocks.len()),
            blocks_only(*old(green), old(self)@.blocks.len()),
            all_without_count(old(self)@, bitset_ones(*old(red))),
            tracked_sets ==> red_ok(old(self)@, bitset_ones(*old(red))) && forall|
                v: int,
                side: bool,
            |
                0 <= v < old(self)@.blocks.len() && #[trigger] green_at(old(self)@, v, side)
                    ==> cover.contains(v) || bitset_ones(*old(green)).contains(v) || (v == src && (
                side == outgoing || other_side)),
        ensures
            tracked_sets ==> red_ok(final(self)@, bitset_ones(*final(red))) && forall|
                v: int,
                side: bool,
            |
                0 <= v < final(self)@.blocks.len() && #[trigger] green_at(final(self)@, v, side)
                    ==> cover.contains(v) || bitset_ones(*final(green)).contains(v) || (v == src
                    && side != outgoing && other_side),
            final(self).wf(),
            status_ok(final(self)@, final(bs)@),
            settled(origin, final(self)@),
            final(self)@.blocks == old(self)@.blocks,
            blocks_only(*final(red), final(self)@.blocks.len()),
            blocks_only(*final(green), final(self)@.blocks.len()),
            all_without_count(final(self)@, bitset_ones(*final(red))),
            work_left(final(self)@, *final(red), *final(green)) <= work_left(
                old(self)@,
                *old(red),
                *old(green),
            ),
    {
        let ghost n = self@.blocks.len();
        proof {
            lemma_blocks_only_finite(*red, n);
            lemma_blocks_only_finite(*green, n);
        }
        let ghost prev = self@;
        match self.process_green_block(src, outgoing, bs, Ghost(origin)) {
            None => {},
            Some((dest, count)) => {
                let color = self.process_green_block_dest(dest, count, outgoing, bs);
                match color {
                    BlockColor::White => {},
                    BlockColor::Red => {
                        put(red, dest, Ghost(n));
                    },
                    BlockColor::Green => {
                        put(green, dest, Ghost(n));
                    },
                }
                proof {
                    let m = self@;
                    lemma_pinned_frame(m, prev);
                    if tracked_sets {
                        assert forall|v: int, side: bool|
                            0 <= v < n && #[trigger] green_at(m, v, side) implies cover.contains(v)
                            || bitset_ones(*green).contains(v) || (v == src && side != outgoing
                            && other_side) by {
                            assert(m.blocks[v] == prev.blocks[v]);
                            let now = unknown_arcs(m.arcs, m.edges, v, side, m.arcs.len());
                            if v == dest && side != outgoing {
                                assert(color is Green);
                            } else if v == src && side == outgoing {
                                assert(now == 0);
                            } else {
                                assert(green_at(prev, v, side));
                            }
                        }
                        assert forall|v: int, side: bool|
                            0 <= v < n && #[trigger] red_at(m, v, side) implies bitset_ones(
                            *red,
                        ).contains(v) by {
                            assert(m.blocks[v] == prev.blocks[v]);
                            let now = unknown_arcs(m.arcs, m.edges, v, side, m.arcs.len());
                            if v == dest && side != outgoing {
                                assert(color is Red);
                            } else if v == src && side == outgoing {
                                assert(m.blocks[src as int].count is Some);
                            } else {
                                assert(red_at(prev, v, side));
                            }
                        }
                    }
                }
            },
        }
    }

    /// Propagates the counts of the arcs that have one to the other arcs and to the blocks,
    /// as far as the counts of the arcs at a block must add up to the count of the block.
    fn propagate_counts(&mut self)
        requires
            old(self).wf(),
            old(self).analyzable(),
        ensures
            final(self).wf(),
            settled(old(self)@, final(self)@),
            green_free(old(self)@) ==> saturated(final(self)@),
    {
        let ghost origin = self@;
        let n = self.blocks.len();
        let mut status = self.create_block_status();
        let mut old_green = bitset_with_capacity(n);
        let mut green = bitset_with_capacity(n);
        let mut red = bitset_with_capacity(n);
        fill_fixedbitset_with_ones(&mut red);
        let mut should_process = true;
        proof {
            lemma_blocks_only_finite(red, n as nat);
            lemma_blocks_only_finite(green, n as nat);
            lemma_derived_itself(origin);
        }
        while should_process
            invariant
                n == self@.blocks.len(),
                origin == old(self)@,
                self.wf(),
                status_ok(self@, status@),
                settled(origin, self@),
                blocks_only(red, n as nat),
                blocks_only(green, n as nat),
                blocks_only(old_green, n as nat),
                bitset_ones(old_green) == Set::<int>::empty(),
                no_arc_resolved(origin, self@) && bitset_ones(green) == Set::<int>::empty()
                    || all_without_count(self@, bitset_ones(red)),
                green_free(origin) ==> red_ok(self@, bitset_ones(red)) && green_ok(
                    self@,
                    bitset_ones(green),
                ),
                !should_process ==> bitset_ones(red) == Set::<int>::empty() && bitset_ones(green)
                    == Set::<int>::empty(),
            decreases
                    work_left(self@, red, green) + (if should_process {
                        1nat
                    } else {
                        0nat
                    }),
        {
            let ghost start = work_left(self@, red, green);
            let ghost unknown = unknown_count(self@.arcs, self@.arcs.len());
            should_process = false;
            let red_list = bitset_list(&red);
            proof {
                lemma_list_len(red, red_list@, n as nat);
                lemma_blocks_only_finite(green, n as nat);
                assert forall|k: int| 0 <= k < red_list@.len() implies (#[trigger] red_list@[k])
                    < n by {
                    assert(bitset_ones(red).contains(red_list@[k] as int));
                }
                if !no_arc_resolved(origin, self@) {
                    assert forall|k: int| 0 <= k < red_list@.len() implies self@.blocks[(
                    #[trigger] red_list@[k]) as int].count is None by {
                        assert(bitset_ones(red).contains(red_list@[k] as int));
                    }
                }
            }
            if red_list.len() > 0 {
                should_process = true;
            }
            proof {
                if green_free(origin) {
                    assert forall|v: int, outgoing: bool|
                        0 <= v < n && #[trigger] red_at(self@, v, outgoing) implies red_list@.contains(
                        v as usize,
                    ) by {
                        assert(bitset_ones(red).contains(v));
                    }
                }
                if red_list@.len() == 0 {
                    assert forall|v: int| !bitset_ones(red).contains(v) by {
                        if bitset_ones(red).contains(v) {
                            assert(red_list@.contains(v as usize));
                        }
                    }
                    assert(bitset_ones(red) =~= Set::<int>::empty());
                }
            }
            let ghost before_red = self@;
            self.process_red_blocks(&red_list, &status, &mut green, Ghost(origin));
            bitset_clear(&mut red);
            core::mem::swap(&mut green, &mut old_green);
            let green_list = bitset_list(&old_green);
            proof {
                lemma_list_len(old_green, green_list@, n as nat);
                assert forall|k: int| 0 <= k < green_list@.len() implies (
                #[trigger] green_list@[k]) < n by {
                    assert(bitset_ones(old_green).contains(green_list@[k] as int));
                }
                assert(bitset_ones(red).len() == 0);
                assert(bitset_ones(green).len() == 0);
                assert(work_left(self@, red, green) == 3 * unknown);
            }
            if green_list.len() > 0 {
                should_process = true;
            }
            proof {
                if green_free(origin) {
                    assert forall|v: int, outgoing: bool|
                        0 <= v < n && #[trigger] green_at(self@, v, outgoing) implies bitset_ones(
                        green,
                    ).contains(v) || green_list@.contains(v as usize) by {
                        assert(bitset_ones(old_green).contains(v));
                    }
                }
                if green_list@.len() == 0 {
                    assert forall|v: int| !bitset_ones(old_green).contains(v) by {
                        if bitset_ones(old_green).contains(v) {
                            assert(green_list@.contains(v as usize));
                        }
                    }
                    assert(bitset_ones(old_green) =~= Set::<int>::empty());
                }
            }
            self.process_green_blocks(&green_list, &mut status, &mut red, &mut green, Ghost(origin));
            bitset_clear(&mut old_green);
        }
    }
}

impl Graph {
    /// Analyzes the graph: marks blocks and arcs with what their place in the graph says of
    /// them, and derives counts of blocks and of arcs on the spanning tree from the counts
    /// that the data files gave.
    ///
    /// Call this after all files are merged and before a report is made.
    pub fn analyze(&mut self)
        requires
            old(self).wf(),
            old(self).analyzable(),
        ensures
            final(self).wf(),
            final(self).analyzable(),
            analyzed(old(self)@, final(self)@),
    {
        let ghost m0 = self@;
        self.mark_catch_blocks();
        let ghost m1 = self@;
        self.mark_unconditional_arcs();
        let ghost m2 = self@;
        self.mark_exceptional_blocks();
        let ghost m3 = self@;
        self.propagate_counts();
        let ghost m4 = self@;
        self.mark_exceptional_blocks();
        proof {
            assert(analysis_steps(m0, m1, m2, m3, m4, self@));
        }
    }

    /// Tells whether every block and every arc has a count, as is the case after
    /// [`Graph::analyze`] where the arcs without a counter form a spanning tree.
    pub fn verify_counts(&self) -> (r: bool)
        ensures
            r == counts_complete(self@),
    {
        let mut b: usize = 0;
        while b < self.blocks.len()
            invariant
                b <= self.blocks.len(),
                forall|j: int| 0 <= j < b ==> (#[trigger] self@.blocks[j]).count is Some,
            decreases self.blocks.len() - b,
        {
            proof {
                assert(self@.blocks[b as int] == self.blocks@[b as int]@);
            }
            if self.blocks[b].count.is_none() {
                return false;
            }
            b += 1;
        }
        let mut e: usize = 0;
        while e < self.arcs.len()
            invariant
                e <= self.arcs.len(),
                forall|j: int| 0 <= j < self@.blocks.len() ==> (#[trigger] self@.blocks[j]).count is Some,
                forall|j: int| 0 <= j < e ==> (#[trigger] self@.arcs[j]).count is Some,
            decreases self.arcs.len() - e,
        {
            if self.arcs[e].count.is_none() {
                return false;
            }
            e += 1;
        }
        true
    }
}

} // verus!
