//! Marking blocks and arcs with what their place in the graph says of them.

use crate::flow::{
    arc_flagged, arcs_at, block_flagged, catch_marked, catch_progress, exceptional_marked, is_entry,
    is_fake, is_thrower, is_walk, lemma_catch_call_step, lemma_catch_entry_step,
    lemma_catch_next_block, lemma_catch_skip_step, lemma_catch_throw_step,
    lemma_closed_set_holds_walk, lemma_entry_reachable, lemma_frame_keeps_shape, lemma_insert_flag,
    lemma_insert_same_except, lemma_masks, lemma_remove_flag, lemma_same_except_flag, lemma_thrower,
    lemma_unconditional_mark_step, lemma_unconditional_skip_step, lemma_unconditional_start,
    lemma_walk_extends, listed, listed_at, ordinary_arcs, reachable, same_except, same_frame,
    unconditional_marked, unconditional_progress,
};
use crate::model::{model_wf, ArcInfo, BlockModel, GraphModel};
use crate::raw::{
    has_any, ArcAttr, BlockAttr, ARC_ATTR_CALL_NON_RETURN, ARC_ATTR_FAKE, ARC_ATTR_FALLTHROUGH,
    ARC_ATTR_NONLOCAL_RETURN, ARC_ATTR_THROW, ARC_ATTR_UNCONDITIONAL, BLOCK_ATTR_CALL_RETURN,
    BLOCK_ATTR_CALL_SITE, BLOCK_ATTR_EXCEPTIONAL, BLOCK_ATTR_NONLOCAL_RETURN,
};
use crate::topology::{
    end_of, has_step, incident, lemma_incident, search_discovered, search_next, search_size, search_stack,
    search_start, topology_edges, topology_edges_directed, topology_nodes,
};
use super::Graph;
use petgraph::Direction;
use vstd::prelude::*;

verus! {

impl Graph {
    /// Whether the two graphs differ at most in the attribute of the block `b`.
    spec fn differs_in_block_attr(&self, other: &Graph, b: int) -> bool {
        &&& self.version == other.version
        &&& self.functions == other.functions
        &&& self.gcno_index == other.gcno_index
        &&& self.gcda_index == other.gcda_index
        &&& self.arcs == other.arcs
        &&& self.graph == other.graph
        &&& self.blocks@.len() == other.blocks@.len()
        &&& forall|j: int|
            0 <= j < self.blocks@.len() && j != b ==> #[trigger] self.blocks@[j] == other.blocks@[j]
        &&& self.blocks@[b].index == other.blocks@[b].index
        &&& self.blocks@[b].block == other.blocks@[b].block
        &&& self.blocks@[b].count == other.blocks@[b].count
        &&& self.blocks@[b].lines == other.blocks@[b].lines
    }

    /// Sets flags of a block.
    fn set_block_flags(&mut self, b: usize, mask: u16)
        requires
            b < old(self).blocks@.len(),
        ensures
            final(self).differs_in_block_attr(old(self), b as int),
            final(self).blocks@[b as int].attr.bits == old(self).blocks@[b as int].attr.bits | mask,
            block_flagged(old(self)@, final(self)@, b as int, mask),
            old(self).wf() ==> final(self).wf(),
    {
        self.blocks[b].attr.insert(mask);
        proof {
            let o = old(self)@;
            let m = self@;
            assert(m.blocks =~= o.blocks.update(
                b as int,
                BlockModel {
                    attr: BlockAttr { bits: o.blocks[b as int].attr.bits | mask },
                    ..o.blocks[b as int]
                },
            ));
            if old(self).wf() {
                assert(same_frame(o, m));
                lemma_frame_keeps_shape(o, m, o.functions.len());
            }
        }
    }

    /// Sets flags of an arc.
    fn set_arc_flags(&mut self, e: usize, mask: u16)
        requires
            e < old(self).arcs@.len(),
        ensures
            arc_flagged(old(self)@, final(self)@, e as int, mask),
            old(self).wf() ==> final(self).wf(),
            final(self).graph == old(self).graph,
            final(self).blocks == old(self).blocks,
            final(self).arcs@.len() == old(self).arcs@.len(),
    {
        self.arcs[e].attr.insert(mask);
        proof {
            let o = old(self)@;
            let m = self@;
            assert(m.arcs =~= o.arcs.update(
                e as int,
                ArcInfo {
                    attr: ArcAttr { bits: o.arcs[e as int].attr.bits | mask },
                    ..o.arcs[e as int]
                },
            ));
            if old(self).wf() {
                assert(same_frame(o, m));
                lemma_frame_keeps_shape(o, m, o.functions.len());
            }
        }
    }

    /// The arcs that leave the block `s` (or enter it, if `outgoing` is false), the latest
    /// first: for each its number, and the blocks it leaves and enters.
    pub(super) fn arcs_of(&self, s: usize, outgoing: bool) -> (list: Vec<(usize, usize, usize)>)
        requires
            self.wf(),
            s < self@.blocks.len(),
        ensures
            arcs_at(self@.edges, s as int, outgoing, list@),
            forall|k: int|
                0 <= k < list@.len() ==> (#[trigger] list@[k]).0 < self@.arcs.len() && list@[k].1
                    < self@.blocks.len() && list@[k].2 < self@.blocks.len(),
            list@.len() == incident(self@.edges, s as nat, outgoing, self@.edges.len()).len(),
            forall|k: int|
                0 <= k < list@.len() ==> (#[trigger] list@[k]).0 == incident(
                    self@.edges,
                    s as nat,
                    outgoing,
                    self@.edges.len(),
                )[k],
    {
        let direction = if outgoing {
            Direction::Outgoing
        } else {
            Direction::Incoming
        };
        let list = topology_edges_directed(&self.graph, s, direction);
        proof {
            let edges = self@.edges;
            let all = incident(edges, s as nat, outgoing, edges.len());
            lemma_incident(edges, s as nat, outgoing, edges.len());
            assert forall|e: int|
                0 <= e < edges.len() && end_of(#[trigger] edges[e], outgoing) == s implies listed(
                list@,
                list@.len() as int,
                e,
            ) by {
                let k = all.index_of(e as nat);
                assert(all.contains(e as nat));
                assert(list@[k].0 == all[k]);
                assert(listed_at(list@, list@.len() as int, e, k));
            }
            assert forall|i: int, j: int| 0 <= i < j < list@.len() implies (#[trigger] list@[i]).0 > (
            #[trigger] list@[j]).0 by {
                assert(list@[i].0 == all[i]);
                assert(list@[j].0 == all[j]);
            }
            assert forall|k: int| 0 <= k < list@.len() implies (#[trigger] list@[k]).0
                < edges.len() && edges[list@[k].0 as int] == (list@[k].1 as nat, list@[k].2 as nat)
                && end_of(edges[list@[k].0 as int], outgoing) == s by {
                assert(list@[k].0 == all[k]);
            }
        }
        list
    }

    /// Clears flags of a block.
    fn clear_block_flags(&mut self, b: usize, mask: u16)
        requires
            b < old(self).blocks@.len(),
        ensures
            final(self).differs_in_block_attr(old(self), b as int),
            final(self).blocks@[b as int].attr.bits == old(self).blocks@[b as int].attr.bits
                & !mask,
    {
        self.blocks[b].attr.remove(mask);
    }

    /// For each arc, whether it is neither fake nor taken by an exception.
    fn ordinary(&self) -> (r: Vec<bool>)
        ensures
            r@ == ordinary_arcs(self@),
    {
        let mut r: Vec<bool> = Vec::new();
        let mut e: usize = 0;
        while e < self.arcs.len()
            invariant
                e <= self.arcs.len(),
                r@.len() == e,
                forall|j: int| 0 <= j < e ==> r@[j] == ordinary_arcs(self@)[j],
            decreases self.arcs.len() - e,
        {
            r.push(!self.arcs[e].attr.intersects(ARC_ATTR_FAKE | ARC_ATTR_THROW));
            e += 1;
        }
        proof {
            assert(r@ =~= ordinary_arcs(self@));
        }
        r
    }

    /// Marks the blocks that only exceptions reach: those that no walk from the entry block
    /// of a function reaches along arcs that are neither fake nor taken by an exception.
    pub(super) fn mark_exceptional_blocks(&mut self)
        requires
            old(self).wf(),
        ensures
            final(self).wf(),
            exceptional_marked(old(self)@, final(self)@),
    {
        let n = self.blocks.len();
        let ghost before = old(self)@;
        let passable = self.ordinary();
        let mut stack: Vec<usize> = Vec::new();
        let mut i: usize = 0;
        while i < n
            invariant
                i <= n,
                n == self.blocks@.len(),
                n == old(self).blocks@.len(),
                self.version == old(self).version,
                self.functions == old(self).functions,
                self.gcno_index == old(self).gcno_index,
                self.gcda_index == old(self).gcda_index,
                self.arcs == old(self).arcs,
                self.graph == old(self).graph,
                forall|b: int|
                    0 <= b < n ==> {
                        &&& (#[trigger] self.blocks@[b]).index == old(self).blocks@[b].index
                        &&& self.blocks@[b].block == old(self).blocks@[b].block
                        &&& self.blocks@[b].count == old(self).blocks@[b].count
                        &&& self.blocks@[b].lines == old(self).blocks@[b].lines
                        &&& self.blocks@[b].attr.bits == (if b < i && self.blocks@[b].block != 0 {
                            old(self).blocks@[b].attr.bits | BLOCK_ATTR_EXCEPTIONAL
                        } else {
                            old(self).blocks@[b].attr.bits
                        })
                    },
                forall|k: int|
                    0 <= k < stack@.len() ==> (#[trigger] stack@[k]) < i && self.blocks@[stack@[k] as int].block
                        == 0,
                forall|b: int|
                    0 <= b < i && (#[trigger] self.blocks@[b]).block == 0 ==> stack@.contains(
                        b as usize,
                    ),
            decreases n - i,
        {
            if self.blocks[i].block == 0 {
                let ghost earlier = stack@;
                stack.push(i);
                proof {
                    assert(stack@[earlier.len() as int] == i);
                    assert forall|b: int|
                        0 <= b < i + 1 && (#[trigger] self.blocks@[b]).block
                            == 0 implies stack@.contains(b as usize) by {
                        if b < i {
                            let k = earlier.index_of(b as usize);
                            assert(earlier.contains(b as usize));
                            assert(stack@[k] == b as usize);
                        }
                    }
                }
            } else {
                self.set_block_flags(i, BLOCK_ATTR_EXCEPTIONAL);
            }
            i += 1;
        }
        let ghost starts = stack@.map_values(|b: usize| b as int);
        let mut search = search_start(&self.graph, stack);
        let mut found: usize = 0;
        proof {
            vstd::set_lib::lemma_int_range(0, n as int);
            assert(before.edges == topology_edges(self.graph));
            assert(before.arcs.len() == before.edges.len());
            assert forall|k: int| 0 <= k < starts.len() implies reachable(
                before,
                #[trigger] starts[k],
            ) by {
                assert(before.blocks[starts[k]] == old(self).blocks@[starts[k]]@);
                lemma_entry_reachable(before, starts[k]);
            }
            assert forall|b: int| 0 <= b < n && before.blocks[b].block == 0 implies starts.contains(
                b,
            ) by {
                assert(before.blocks[b] == old(self).blocks@[b]@);
                assert(self.blocks@[b].block == 0);
                let k = stack@.index_of(b as usize);
                assert(stack@.contains(b as usize));
                assert(starts[k] == b);
            }
        }
        loop
            invariant
                n == self.blocks@.len(),
                n == old(self).blocks@.len(),
                before == old(self)@,
                old(self).wf(),
                self.version == old(self).version,
                self.functions == old(self).functions,
                self.gcno_index == old(self).gcno_index,
                self.gcda_index == old(self).gcda_index,
                self.arcs == old(self).arcs,
                self.graph == old(self).graph,
                passable@ == ordinary_arcs(before),
                passable@.len() == topology_edges(self.graph).len(),
                before.edges == topology_edges(self.graph),
                before.blocks.len() == n,
                topology_nodes(self.graph) == n,
                search_size(search) == n,
                forall|k: int|
                    0 <= k < search_stack(search).len() ==> 0 <= (#[trigger] search_stack(
                        search,
                    )[k]) < n && reachable(before, search_stack(search)[k]),
                forall|b: int| #[trigger]
                    search_discovered(search).contains(b) ==> 0 <= b < n && reachable(before, b),
                search_discovered(search).finite(),
                found == search_discovered(search).len(),
                found <= n,
                forall|b: int|
                    0 <= b < n && before.blocks[b].block == 0 ==> search_discovered(
                        search,
                    ).contains(b) || search_stack(search).contains(b),
                forall|a: int, b: int|
                    search_discovered(search).contains(a) && #[trigger] has_step(
                        before.edges,
                        ordinary_arcs(before),
                        a,
                        b,
                    ) ==> search_discovered(search).contains(b) || search_stack(search).contains(
                        b,
                    ),
                forall|b: int|
                    0 <= b < n ==> {
                        &&& (#[trigger] self.blocks@[b]).index == old(self).blocks@[b].index
                        &&& self.blocks@[b].block == old(self).blocks@[b].block
                        &&& self.blocks@[b].count == old(self).blocks@[b].count
                        &&& self.blocks@[b].lines == old(self).blocks@[b].lines
                        &&& self.blocks@[b].attr.bits == (if search_discovered(search).contains(
                            b,
                        ) {
                            (if self.blocks@[b].block != 0 {
                                old(self).blocks@[b].attr.bits | BLOCK_ATTR_EXCEPTIONAL
                            } else {
                                old(self).blocks@[b].attr.bits
                            }) & !BLOCK_ATTR_EXCEPTIONAL
                        } else if self.blocks@[b].block != 0 {
                            old(self).blocks@[b].attr.bits | BLOCK_ATTR_EXCEPTIONAL
                        } else {
                            old(self).blocks@[b].attr.bits
                        })
                    },
            ensures
                search_stack(search).len() == 0,
            decreases n - found,
        {
            let ghost earlier = search;
            match search_next(&mut search, &self.graph, &passable) {
                None => {
                    proof {
                        let done = search_discovered(search);
                        assert forall|a: int, c: int|
                            done.contains(a) && #[trigger] has_step(
                                before.edges,
                                ordinary_arcs(before),
                                a,
                                c,
                            ) implies done.contains(c) || search_stack(search).contains(c) by {
                            if !done.contains(c) {
                                assert(search_stack(earlier).contains(c));
                                let j = search_stack(earlier).index_of(c);
                                assert(search_stack(earlier)[j] == c);
                            }
                        }
                        assert forall|c: int|
                            0 <= c < n && before.blocks[c].block == 0 implies done.contains(c)
                            || search_stack(search).contains(c) by {
                            if !done.contains(c) {
                                assert(search_stack(earlier).contains(c));
                                let j = search_stack(earlier).index_of(c);
                                assert(search_stack(earlier)[j] == c);
                            }
                        }
                    }
                    break ;
                },
                Some(b) => {
                    proof {
                        let was = search_discovered(earlier);
                        let now = search_discovered(search);
                        assert(now == was.insert(b as int));
                        let k = search_stack(earlier).index_of(b as int);
                        assert(search_stack(earlier)[k] == b as int);
                        assert(now.subset_of(vstd::set_lib::set_int_range(0, n as int)));
                        vstd::set_lib::lemma_int_range(0, n as int);
                        vstd::set_lib::lemma_len_subset(
                            now,
                            vstd::set_lib::set_int_range(0, n as int),
                        );
                        assert forall|k: int| 0 <= k < search_stack(search).len() implies 0 <= (
                        #[trigger] search_stack(search)[k]) < n && reachable(
                            before,
                            search_stack(search)[k],
                        ) by {
                            let x = search_stack(search)[k];
                            if search_stack(earlier).contains(x) {
                                let j = search_stack(earlier).index_of(x);
                                assert(search_stack(earlier)[j] == x);
                            } else {
                                assert(has_step(before.edges, passable@, b as int, x));
                                lemma_walk_extends(before, b as int, x);
                                let e = choose|e: int|
                                    0 <= e < before.edges.len() && e < passable@.len()
                                        && passable@[e] && #[trigger] before.edges[e] == (
                                        b as nat,
                                        x as nat,
                                    );
                                assert(before.edges[e].1 < before.blocks.len());
                            }
                        }
                        assert forall|a: int, c: int|
                            now.contains(a) && #[trigger] has_step(
                                before.edges,
                                ordinary_arcs(before),
                                a,
                                c,
                            ) implies now.contains(c) || search_stack(search).contains(c) by {
                            if a != b as int {
                                assert(was.contains(a));
                                if !was.contains(c) {
                                    assert(search_stack(earlier).contains(c));
                                    let j = search_stack(earlier).index_of(c);
                                    assert(search_stack(earlier)[j] == c);
                                }
                            }
                        }
                        assert forall|c: int|
                            0 <= c < n && before.blocks[c].block == 0 implies now.contains(c)
                            || search_stack(search).contains(c) by {
                            if !was.contains(c) {
                                assert(search_stack(earlier).contains(c));
                                let j = search_stack(earlier).index_of(c);
                                assert(search_stack(earlier)[j] == c);
                            }
                        }
                    }
                    self.clear_block_flags(b, BLOCK_ATTR_EXCEPTIONAL);
                    found += 1;
                },
            }
        }
        proof {
            let m = self@;
            let done = search_discovered(search);
            assert(same_frame(before, m)) by {
                assert forall|b: int| 0 <= b < m.blocks.len() implies (#[trigger] m.blocks[b]).index
                    == before.blocks[b].index && m.blocks[b].block == before.blocks[b].block
                    && m.blocks[b].lines == before.blocks[b].lines by {
                    assert(m.blocks[b] == self.blocks@[b]@);
                    assert(before.blocks[b] == old(self).blocks@[b]@);
                }
            }
            lemma_frame_keeps_shape(before, m, before.functions.len());
            assert forall|b: int| 0 <= b < m.blocks.len() implies (#[trigger] m.blocks[b]).count
                == before.blocks[b].count by {
                assert(m.blocks[b] == self.blocks@[b]@);
                assert(before.blocks[b] == old(self).blocks@[b]@);
            }
            assert forall|b: int| 0 <= b < m.blocks.len() implies same_except(
                (#[trigger] m.blocks[b]).attr.bits,
                before.blocks[b].attr.bits,
                BLOCK_ATTR_EXCEPTIONAL,
            ) && (has_any(m.blocks[b].attr.bits, BLOCK_ATTR_EXCEPTIONAL) <==> !reachable(
                before,
                b,
            )) by {
                assert(m.blocks[b] == self.blocks@[b]@);
                assert(before.blocks[b] == old(self).blocks@[b]@);
                let x = before.blocks[b].attr.bits;
                lemma_exceptional_mask();
                lemma_insert_same_except(x, BLOCK_ATTR_EXCEPTIONAL, BLOCK_ATTR_EXCEPTIONAL);
                lemma_insert_flag(x, BLOCK_ATTR_EXCEPTIONAL, BLOCK_ATTR_EXCEPTIONAL);
                lemma_remove_flag(x, BLOCK_ATTR_EXCEPTIONAL);
                lemma_remove_flag(x | BLOCK_ATTR_EXCEPTIONAL, BLOCK_ATTR_EXCEPTIONAL);
                if reachable(before, b) {
                    let walk = choose|walk: Seq<int>| #[trigger]
                        is_walk(before, walk) && walk.last() == b;
                    assert forall|a: int, c: int|
                        done.contains(a) && #[trigger] has_step(
                            before.edges,
                            ordinary_arcs(before),
                            a,
                            c,
                        ) implies done.contains(c) by {
                        if !done.contains(c) {
                            assert(search_stack(search).contains(c));
                        }
                    }
                    assert forall|c: int|
                        0 <= c < before.blocks.len() && before.blocks[c].block
                            == 0 implies done.contains(c) by {
                        if !done.contains(c) {
                            assert(search_stack(search).contains(c));
                        }
                    }
                    lemma_closed_set_holds_walk(before, done, walk);
                } else {
                    if before.blocks[b].block == 0 {
                        lemma_entry_reachable(before, b);
                    }
                }
            }
        }
    }
}

/// The flag of exceptional blocks is one bit.
proof fn lemma_exceptional_mask()
    ensures
        BLOCK_ATTR_EXCEPTIONAL & !BLOCK_ATTR_EXCEPTIONAL == 0,
        BLOCK_ATTR_EXCEPTIONAL & BLOCK_ATTR_EXCEPTIONAL != 0,
{
    assert(0x8000u16 & !0x8000u16 == 0 && 0x8000u16 & 0x8000u16 != 0) by (bit_vector);
}

impl Graph {
    /// Marks blocks and arcs that have to do with calls that may not return.
    pub(super) fn mark_catch_blocks(&mut self)
        requires
            old(self).wf(),
        ensures
            final(self).wf(),
            catch_marked(old(self)@, final(self)@),
    {
        let n = self.blocks.len();
        let ghost before = old(self)@;
        let ghost mut shown: Seq<(usize, usize, usize)> = Seq::empty();
        proof {
            assert(catch_progress(before, self@, 0, shown, 0, 0)) by {
                lemma_catch_start(before, shown);
            }
        }
        let mut s: usize = 0;
        while s < n
            invariant
                s <= n,
                n == before.blocks.len(),
                before == old(self)@,
                old(self).wf(),
                self.wf(),
                catch_progress(before, self@, s as int, shown, 0, 0),
            decreases n - s,
        {
            let list = self.arcs_of(s, true);
            let entry = self.blocks[s].block == 0;
            proof {
                lemma_catch_restart(before, self@, s as int, shown, list@);
                assert(self@.blocks[s as int] == self.blocks@[s as int]@);
                assert(entry == is_entry(before, s as int));
            }
            let mut mark_throw = false;
            let mut i: usize = 0;
            while i < list.len()
                invariant
                    i <= list.len(),
                    s < n,
                    n == before.blocks.len(),
                    before == old(self)@,
                    old(self).wf(),
                    self.wf(),
                    entry == is_entry(before, s as int),
                    arcs_at(before.edges, s as int, true, list@),
                    forall|k: int|
                        0 <= k < list@.len() ==> (#[trigger] list@[k]).0 < before.arcs.len()
                            && list@[k].1 < before.blocks.len() && list@[k].2
                            < before.blocks.len(),
                    catch_progress(before, self@, s as int, list@, i as int, 0),
                    mark_throw <==> !entry && exists|k: int|
                        0 <= k < i && is_fake(before, (#[trigger] list@[k]).0 as int),
                decreases list.len() - i,
            {
                let e = list[i].0;
                let dest = list[i].2;
                let ghost prev = self@;
                proof {
                    lemma_masks();
                    lemma_same_except_flag(
                        prev.arcs[e as int].attr.bits,
                        before.arcs[e as int].attr.bits,
                        0x70,
                        ARC_ATTR_FAKE,
                    );
                }
                if self.arcs[e].attr.intersects(ARC_ATTR_FAKE) {
                    if entry {
                        self.set_block_flags(dest, BLOCK_ATTR_NONLOCAL_RETURN);
                        let ghost mid = self@;
                        self.set_arc_flags(e, ARC_ATTR_NONLOCAL_RETURN);
                        proof {
                            lemma_catch_entry_step(
                                before,
                                prev,
                                mid,
                                self@,
                                s as int,
                                list@,
                                i as int,
                            );
                        }
                    } else {
                        mark_throw = true;
                        self.set_block_flags(s, BLOCK_ATTR_CALL_SITE);
                        let ghost mid = self@;
                        self.set_arc_flags(e, ARC_ATTR_CALL_NON_RETURN);
                        proof {
                            lemma_catch_call_step(
                                before,
                                prev,
                                mid,
                                self@,
                                s as int,
                                list@,
                                i as int,
                            );
                        }
                    }
                } else {
                    proof {
                        lemma_catch_skip_step(before, self@, s as int, list@, i as int);
                    }
                }
                i += 1;
            }
            proof {
                lemma_thrower(before, s as int, list@);
            }
            let mut j: usize = 0;
            if mark_throw {
                while j < list.len()
                    invariant
                        j <= list.len(),
                        s < n,
                        n == before.blocks.len(),
                        before == old(self)@,
                        old(self).wf(),
                        self.wf(),
                        is_thrower(before, s as int),
                        arcs_at(before.edges, s as int, true, list@),
                        forall|k: int|
                            0 <= k < list@.len() ==> (#[trigger] list@[k]).0 < before.arcs.len(),
                        catch_progress(before, self@, s as int, list@, list@.len() as int, j as int),
                    decreases list.len() - j,
                {
                    let e = list[j].0;
                    let ghost prev = self@;
                    proof {
                        lemma_masks();
                        lemma_same_except_flag(
                            prev.arcs[e as int].attr.bits,
                            before.arcs[e as int].attr.bits,
                            0x70,
                            6,
                        );
                        assert(ARC_ATTR_FAKE | ARC_ATTR_FALLTHROUGH == 6) by (bit_vector);
                    }
                    if !self.arcs[e].attr.intersects(ARC_ATTR_FAKE | ARC_ATTR_FALLTHROUGH) {
                        self.set_arc_flags(e, ARC_ATTR_THROW);
                    }
                    proof {
                        lemma_catch_throw_step(before, prev, self@, s as int, list@, j as int);
                    }
                    j += 1;
                }
            }
            proof {
                lemma_catch_next_block(before, self@, s as int, list@, j as int, list@);
                shown = list@;
            }
            s += 1;
        }
        proof {
            lemma_catch_restart(before, self@, n as int, shown, Seq::empty());
        }
    }
}

/// Before any block was handled nothing is marked.
proof fn lemma_catch_start(old: GraphModel, list: Seq<(usize, usize, usize)>)
    requires
        model_wf(old),
    ensures
        catch_progress(old, old, 0, list, 0, 0),
{
    assert forall|e: int| 0 <= e < old.arcs.len() implies !crate::flow::fake_handled(
        old,
        e,
        0,
        list,
        0,
    ) && !listed(list, 0, e) by {
        crate::flow::lemma_listed_step_zero(list, e);
    }
    assert forall|b: int| 0 <= b < old.blocks.len() implies !crate::flow::thrower_seen(
        old,
        b,
        0,
        list,
        0,
    ) && !crate::flow::landing_seen(old, b, 0, list, 0) by {
        if crate::flow::thrower_seen(old, b, 0, list, 0) {
            let e = choose|e: int|
                0 <= e < old.edges.len() && (#[trigger] old.edges[e]).0 == b
                    && crate::flow::fake_handled(old, e, 0, list, 0);
            crate::flow::lemma_listed_step_zero(list, e);
        }
        if crate::flow::landing_seen(old, b, 0, list, 0) {
            let e = choose|e: int|
                0 <= e < old.edges.len() && (#[trigger] old.edges[e]).1 == b
                    && crate::flow::fake_handled(old, e, 0, list, 0) && is_entry(
                    old,
                    old.edges[e].0 as int,
                );
            crate::flow::lemma_listed_step_zero(list, e);
        }
    }
}

/// With none of its arcs handled, the list of arcs does not matter.
proof fn lemma_catch_restart(
    old: GraphModel,
    new: GraphModel,
    s: int,
    list: Seq<(usize, usize, usize)>,
    next: Seq<(usize, usize, usize)>,
)
    requires
        catch_progress(old, new, s, list, 0, 0),
    ensures
        catch_progress(old, new, s, next, 0, 0),
{
    assert forall|e: int|
        (crate::flow::fake_handled(old, e, s, list, 0) <==> crate::flow::fake_handled(
            old,
            e,
            s,
            next,
            0,
        )) && !listed(list, 0, e) && !listed(next, 0, e) by {
        crate::flow::lemma_listed_step_zero(list, e);
        crate::flow::lemma_listed_step_zero(next, e);
    }
    assert forall|b: int|
        (crate::flow::thrower_seen(old, b, s, list, 0) <==> crate::flow::thrower_seen(
            old,
            b,
            s,
            next,
            0,
        )) && (crate::flow::landing_seen(old, b, s, list, 0) <==> crate::flow::landing_seen(
            old,
            b,
            s,
            next,
            0,
        )) by {
        if crate::flow::thrower_seen(old, b, s, list, 0) {
            let e = choose|e: int|
                0 <= e < old.edges.len() && (#[trigger] old.edges[e]).0 == b
                    && crate::flow::fake_handled(old, e, s, list, 0);
            assert(crate::flow::fake_handled(old, e, s, next, 0));
        }
        if crate::flow::thrower_seen(old, b, s, next, 0) {
            let e = choose|e: int|
                0 <= e < old.edges.len() && (#[trigger] old.edges[e]).0 == b
                    && crate::flow::fake_handled(old, e, s, next, 0);
            assert(crate::flow::fake_handled(old, e, s, list, 0));
        }
        if crate::flow::landing_seen(old, b, s, list, 0) {
            let e = choose|e: int|
                0 <= e < old.edges.len() && (#[trigger] old.edges[e]).1 == b
                    && crate::flow::fake_handled(old, e, s, list, 0) && is_entry(
                    old,
                    old.edges[e].0 as int,
                );
            assert(crate::flow::fake_handled(old, e, s, next, 0));
        }
        if crate::flow::landing_seen(old, b, s, next, 0) {
            let e = choose|e: int|
                0 <= e < old.edges.len() && (#[trigger] old.edges[e]).1 == b
                    && crate::flow::fake_handled(old, e, s, next, 0) && is_entry(
                    old,
                    old.edges[e].0 as int,
                );
            assert(crate::flow::fake_handled(old, e, s, list, 0));
        }
    }
}

impl Graph {
    /// Marks the arcs that are the only way on from their block as unconditional.
    pub(super) fn mark_unconditional_arcs(&mut self)
        requires
            old(self).wf(),
        ensures
            final(self).wf(),
            unconditional_marked(old(self)@, final(self)@),
    {
        let n = self.blocks.len();
        let ghost before = old(self)@;
        proof {
            lemma_unconditional_start(before);
        }
        let mut s: usize = 0;
        while s < n
            invariant
                s <= n,
                n == before.blocks.len(),
                before == old(self)@,
                old(self).wf(),
                self.wf(),
                unconditional_progress(before, self@, s as int),
            decreases n - s,
        {
            let list = self.arcs_of(s, true);
            let mut first: usize = 0;
            let mut count: usize = 0;
            let mut i: usize = 0;
            while i < list.len()
                invariant
                    i <= list.len(),
                    s < n,
                    n == before.blocks.len(),
                    before == old(self)@,
                    self.wf(),
                    forall|k: int|
                        0 <= k < list@.len() ==> (#[trigger] list@[k]).0 < before.arcs.len(),
                    unconditional_progress(before, self@, s as int),
                    count <= 2,
                    count == 0 ==> forall|k: int|
                        0 <= k < i ==> is_fake(before, (#[trigger] list@[k]).0 as int),
                    count >= 1 ==> first < i && !is_fake(before, list@[first as int].0 as int),
                    count == 1 ==> forall|k: int|
                        0 <= k < i && !is_fake(before, (#[trigger] list@[k]).0 as int) ==> k
                            == first,
                    count == 2 ==> exists|a: int, b: int|
                        0 <= a < b < i && !is_fake(before, (#[trigger] list@[a]).0 as int)
                            && !is_fake(before, (#[trigger] list@[b]).0 as int),
                decreases list.len() - i,
            {
                let e = list[i].0;
                proof {
                    lemma_masks();
                    lemma_same_except_flag(
                        self@.arcs[e as int].attr.bits,
                        before.arcs[e as int].attr.bits,
                        ARC_ATTR_UNCONDITIONAL,
                        ARC_ATTR_FAKE,
                    );
                }
                if !self.arcs[e].attr.intersects(ARC_ATTR_FAKE) {
                    if count == 0 {
                        first = i;
                        count = 1;
                    } else if count == 1 {
                        count = 2;
                        proof {
                            assert(!is_fake(before, list@[first as int].0 as int) && !is_fake(
                                before,
                                list@[i as int].0 as int,
                            ));
                        }
                    }
                }
                i += 1;
            }
            if count == 1 {
                let e = list[first].0;
                let dest = list[first].2;
                let ghost prev = self@;
                proof {
                    lemma_masks();
                    lemma_same_except_flag(
                        prev.arcs[e as int].attr.bits,
                        before.arcs[e as int].attr.bits,
                        ARC_ATTR_UNCONDITIONAL,
                        ARC_ATTR_FALLTHROUGH,
                    );
                    lemma_same_except_flag(
                        prev.blocks[s as int].attr.bits,
                        before.blocks[s as int].attr.bits,
                        BLOCK_ATTR_CALL_RETURN,
                        BLOCK_ATTR_CALL_SITE,
                    );
                    assert(prev.blocks[s as int] == self.blocks@[s as int]@);
                }
                let fallthrough = self.arcs[e].attr.intersects(ARC_ATTR_FALLTHROUGH);
                let call_site = self.blocks[s].attr.bits & BLOCK_ATTR_CALL_SITE != 0;
                self.set_arc_flags(e, ARC_ATTR_UNCONDITIONAL);
                let ghost mid = self@;
                if fallthrough && call_site {
                    self.set_block_flags(dest, BLOCK_ATTR_CALL_RETURN);
                }
                proof {
                    lemma_unconditional_mark_step(
                        before,
                        prev,
                        mid,
                        self@,
                        s as int,
                        list@,
                        first as int,
                    );
                }
            } else {
                proof {
                    lemma_unconditional_skip_step(before, self@, s as int, list@);
                }
            }
            s += 1;
        }
    }
}

} // verus!
