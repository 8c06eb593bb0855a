//! What the analysis of the graph establishes.

use crate::model::{model_shape, model_wf, ArcInfo, BlockModel, GraphModel};
use crate::raw::{
    has_any, ArcAttr, BlockAttr, ARC_ATTR_CALL_NON_RETURN, ARC_ATTR_FAKE, ARC_ATTR_FALLTHROUGH,
    ARC_ATTR_NONLOCAL_RETURN, ARC_ATTR_THROW, ARC_ATTR_UNCONDITIONAL, BLOCK_ATTR_CALL_RETURN,
    BLOCK_ATTR_CALL_SITE, BLOCK_ATTR_EXCEPTIONAL, BLOCK_ATTR_NONLOCAL_RETURN,
};
use crate::topology::{end_of, has_step};
use vstd::prelude::*;

verus! {

/// Whether the two attributes agree on every flag outside `mask`.
pub open spec fn same_except(a: u16, b: u16, mask: u16) -> bool {
    a & !mask == b & !mask
}

/// Setting flags changes no flag outside a mask that holds them.
pub proof fn lemma_insert_same_except(x: u16, m: u16, mask: u16)
    by (bit_vector)
    requires
        m & !mask == 0,
    ensures
        (x | m) & !mask == x & !mask,
{
}

/// After setting flags, a flag is set if it was set before or is among those set.
pub proof fn lemma_insert_flag(x: u16, m: u16, f: u16)
    by (bit_vector)
    ensures
        ((x | m) & f != 0) == (x & f != 0 || m & f != 0),
{
}

/// Clearing flags changes no flag outside a mask that holds them, and leaves none of them.
pub proof fn lemma_remove_flag(x: u16, m: u16)
    by (bit_vector)
    ensures
        (x & !m) & !m == x & !m,
        (x & !m) & m == 0,
{
}

/// Whether the two graphs differ at most in the attributes and counts of blocks and arcs.
pub open spec fn same_frame(old: GraphModel, new: GraphModel) -> bool {
    &&& new.version == old.version
    &&& new.functions == old.functions
    &&& new.identities == old.identities
    &&& new.data_index == old.data_index
    &&& new.edges == old.edges
    &&& new.blocks.len() == old.blocks.len()
    &&& new.arcs.len() == old.arcs.len()
    &&& forall|b: int|
        0 <= b < new.blocks.len() ==> (#[trigger] new.blocks[b]).index == old.blocks[b].index
            && new.blocks[b].block == old.blocks[b].block && new.blocks[b].lines
            == old.blocks[b].lines
    &&& forall|e: int|
        0 <= e < new.arcs.len() ==> (#[trigger] new.arcs[e]).index == old.arcs[e].index
            && new.arcs[e].arc == old.arcs[e].arc
}

/// Whether blocks and arcs have the counts they had.
pub open spec fn same_counts(old: GraphModel, new: GraphModel) -> bool {
    &&& forall|b: int|
        0 <= b < new.blocks.len() ==> (#[trigger] new.blocks[b]).count == old.blocks[b].count
    &&& forall|e: int| 0 <= e < new.arcs.len() ==> (#[trigger] new.arcs[e]).count == old.arcs[e].count
}

/// Whether the arcs have the attributes they had.
pub open spec fn same_arc_attrs(old: GraphModel, new: GraphModel) -> bool {
    forall|e: int| 0 <= e < new.arcs.len() ==> (#[trigger] new.arcs[e]).attr == old.arcs[e].attr
}

/// Whether the blocks have the attributes they had.
pub open spec fn same_block_attrs(old: GraphModel, new: GraphModel) -> bool {
    forall|b: int| 0 <= b < new.blocks.len() ==> (#[trigger] new.blocks[b]).attr == old.blocks[b].attr
}

/// For each arc, whether it is neither fake nor taken by an exception.
pub open spec fn ordinary_arcs(m: GraphModel) -> Seq<bool> {
    Seq::new(
        m.arcs.len(),
        |e: int| !has_any(m.arcs[e].attr.bits, (ARC_ATTR_FAKE | ARC_ATTR_THROW) as u16),
    )
}

/// Whether `walk` leads from the entry block of a function along ordinary arcs.
pub open spec fn is_walk(m: GraphModel, walk: Seq<int>) -> bool {
    &&& walk.len() >= 1
    &&& 0 <= walk[0] < m.blocks.len()
    &&& m.blocks[walk[0]].block == 0
    &&& forall|i: int|
        0 <= i < walk.len() - 1 ==> has_step(
            m.edges,
            ordinary_arcs(m),
            #[trigger] walk[i],
            walk[i + 1],
        )
}

/// Whether the block can be reached from the entry block of a function along arcs that are
/// neither fake nor taken by an exception.
pub open spec fn reachable(m: GraphModel, b: int) -> bool {
    exists|walk: Seq<int>| #[trigger] is_walk(m, walk) && walk.last() == b
}

/// What marking the exceptional blocks does: a block is exceptional afterwards exactly if
/// it cannot be reached, and nothing else changes.
pub open spec fn exceptional_marked(old: GraphModel, new: GraphModel) -> bool {
    &&& same_frame(old, new)
    &&& same_counts(old, new)
    &&& same_arc_attrs(old, new)
    &&& forall|b: int|
        0 <= b < new.blocks.len() ==> same_except(
            (#[trigger] new.blocks[b]).attr.bits,
            old.blocks[b].attr.bits,
            BLOCK_ATTR_EXCEPTIONAL,
        ) && (has_any(new.blocks[b].attr.bits, BLOCK_ATTR_EXCEPTIONAL) <==> !reachable(old, b))
}

/// A walk goes on along an ordinary arc.
pub proof fn lemma_walk_extends(m: GraphModel, a: int, b: int)
    requires
        reachable(m, a),
        has_step(m.edges, ordinary_arcs(m), a, b),
    ensures
        reachable(m, b),
{
    let walk = choose|walk: Seq<int>| #[trigger] is_walk(m, walk) && walk.last() == a;
    let longer = walk.push(b);
    assert forall|i: int| 0 <= i < longer.len() - 1 implies has_step(
        m.edges,
        ordinary_arcs(m),
        #[trigger] longer[i],
        longer[i + 1],
    ) by {
        if i < walk.len() - 1 {
            assert(longer[i] == walk[i] && longer[i + 1] == walk[i + 1]);
        }
    }
    assert(is_walk(m, longer) && longer.last() == b);
}

/// An entry block is reachable.
pub proof fn lemma_entry_reachable(m: GraphModel, b: int)
    requires
        0 <= b < m.blocks.len(),
        m.blocks[b].block == 0,
    ensures
        reachable(m, b),
{
    let walk = seq![b];
    assert(is_walk(m, walk) && walk.last() == b);
}

/// A set that holds the entry blocks and, with a block, the blocks that its ordinary arcs
/// lead to, holds every block that a walk ends at.
pub proof fn lemma_closed_set_holds_walk(m: GraphModel, set: Set<int>, walk: Seq<int>)
    requires
        is_walk(m, walk),
        forall|b: int| 0 <= b < m.blocks.len() && m.blocks[b].block == 0 ==> set.contains(b),
        forall|a: int, b: int|
            set.contains(a) && #[trigger] has_step(m.edges, ordinary_arcs(m), a, b)
                ==> set.contains(b),
    ensures
        set.contains(walk.last()),
    decreases walk.len(),
{
    if walk.len() > 1 {
        let shorter = walk.drop_last();
        assert forall|i: int| 0 <= i < shorter.len() - 1 implies has_step(
            m.edges,
            ordinary_arcs(m),
            #[trigger] shorter[i],
            shorter[i + 1],
        ) by {
            assert(shorter[i] == walk[i] && shorter[i + 1] == walk[i + 1]);
        }
        lemma_closed_set_holds_walk(m, set, shorter);
        let i = walk.len() - 2;
        assert(has_step(m.edges, ordinary_arcs(m), walk[i], walk[i + 1]));
        assert(shorter.last() == walk[i]);
    }
}

/// A graph that differs from a well-formed one in attributes and counts only is well-formed.
pub proof fn lemma_frame_keeps_shape(old: GraphModel, new: GraphModel, owners: nat)
    requires
        model_shape(old, owners),
        same_frame(old, new),
    ensures
        model_shape(new, owners),
{
    assert forall|b: int| 0 <= b < new.blocks.len() implies (#[trigger] new.blocks[b]).index
        < owners by {
        assert(old.blocks[b].index < owners);
    }
    assert forall|f: int, i: int|
        0 <= f < new.functions.len() && 0 <= i < new.functions[f].nodes.len() implies new.blocks[(
    #[trigger] new.functions[f].nodes[i]) as int].index == f && new.blocks[new.functions[f].nodes[i] as int].block
        == i by {
        let b = old.functions[f].nodes[i] as int;
        assert(old.blocks[b].index == f && old.blocks[b].block == i);
        assert(new.blocks[b].index == old.blocks[b].index);
    }
    assert forall|b: int|
        0 <= b < new.blocks.len() && (#[trigger] new.blocks[b]).index
            < new.functions.len() implies new.functions[new.blocks[b].index as int].nodes.contains(
        b as usize,
    ) by {
        assert(old.blocks[b].index == new.blocks[b].index);
    }
    assert forall|e: int| 0 <= e < new.edges.len() implies new.blocks[(
    #[trigger] new.edges[e]).0 as int].index == new.blocks[new.edges[e].1 as int].index by {
        let a = old.edges[e].0 as int;
        let b = old.edges[e].1 as int;
        assert(old.blocks[a].index == old.blocks[b].index);
        assert(new.blocks[a].index == old.blocks[a].index);
        assert(new.blocks[b].index == old.blocks[b].index);
    }
}

/// Flags that two attributes agree on outside a mask are set in both or in neither.
pub proof fn lemma_same_except_flag(a: u16, b: u16, mask: u16, f: u16)
    by (bit_vector)
    requires
        a & !mask == b & !mask,
        f & mask == 0,
    ensures
        a & f == b & f,
{
}

/// How the flags that the analysis sets lie to each other.
pub proof fn lemma_masks()
    ensures
        ARC_ATTR_NONLOCAL_RETURN & !0x70u16 == 0,
        ARC_ATTR_CALL_NON_RETURN & !0x70u16 == 0,
        ARC_ATTR_THROW & !0x70u16 == 0,
        ARC_ATTR_FAKE & 0x70u16 == 0,
        ARC_ATTR_FALLTHROUGH & 0x70u16 == 0,
        6u16 & 0x70u16 == 0,
        ARC_ATTR_NONLOCAL_RETURN & ARC_ATTR_NONLOCAL_RETURN != 0,
        ARC_ATTR_NONLOCAL_RETURN & ARC_ATTR_CALL_NON_RETURN == 0,
        ARC_ATTR_NONLOCAL_RETURN & ARC_ATTR_THROW == 0,
        ARC_ATTR_CALL_NON_RETURN & ARC_ATTR_NONLOCAL_RETURN == 0,
        ARC_ATTR_CALL_NON_RETURN & ARC_ATTR_CALL_NON_RETURN != 0,
        ARC_ATTR_CALL_NON_RETURN & ARC_ATTR_THROW == 0,
        ARC_ATTR_THROW & ARC_ATTR_NONLOCAL_RETURN == 0,
        ARC_ATTR_THROW & ARC_ATTR_CALL_NON_RETURN == 0,
        ARC_ATTR_THROW & ARC_ATTR_THROW != 0,
        ARC_ATTR_UNCONDITIONAL & !ARC_ATTR_UNCONDITIONAL == 0,
        ARC_ATTR_UNCONDITIONAL & ARC_ATTR_UNCONDITIONAL != 0,
        ARC_ATTR_FAKE & ARC_ATTR_UNCONDITIONAL == 0,
        ARC_ATTR_FALLTHROUGH & ARC_ATTR_UNCONDITIONAL == 0,
        BLOCK_ATTR_CALL_SITE & !0x5000u16 == 0,
        BLOCK_ATTR_NONLOCAL_RETURN & !0x5000u16 == 0,
        BLOCK_ATTR_CALL_SITE & BLOCK_ATTR_CALL_SITE != 0,
        BLOCK_ATTR_CALL_SITE & BLOCK_ATTR_NONLOCAL_RETURN == 0,
        BLOCK_ATTR_NONLOCAL_RETURN & BLOCK_ATTR_CALL_SITE == 0,
        BLOCK_ATTR_NONLOCAL_RETURN & BLOCK_ATTR_NONLOCAL_RETURN != 0,
        BLOCK_ATTR_CALL_RETURN & !BLOCK_ATTR_CALL_RETURN == 0,
        BLOCK_ATTR_CALL_RETURN & BLOCK_ATTR_CALL_RETURN != 0,
        BLOCK_ATTR_CALL_SITE & BLOCK_ATTR_CALL_RETURN == 0,
{
    assert(0x40u16 & !0x70u16 == 0 && 0x20u16 & !0x70u16 == 0 && 0x10u16 & !0x70u16 == 0 && 2u16
        & 0x70u16 == 0 && 4u16 & 0x70u16 == 0 && 6u16 & 0x70u16 == 0 && 0x40u16 & 0x40u16 != 0
        && 0x40u16 & 0x20u16 == 0 && 0x40u16 & 0x10u16 == 0 && 0x20u16 & 0x40u16 == 0 && 0x20u16
        & 0x20u16 != 0 && 0x20u16 & 0x10u16 == 0 && 0x10u16 & 0x40u16 == 0 && 0x10u16 & 0x20u16
        == 0 && 0x10u16 & 0x10u16 != 0 && 0x80u16 & !0x80u16 == 0 && 0x80u16 & 0x80u16 != 0
        && 2u16 & 0x80u16 == 0 && 4u16 & 0x80u16 == 0 && 0x1000u16 & !0x5000u16 == 0 && 0x4000u16
        & !0x5000u16 == 0 && 0x1000u16 & 0x1000u16 != 0 && 0x1000u16 & 0x4000u16 == 0 && 0x4000u16
        & 0x1000u16 == 0 && 0x4000u16 & 0x4000u16 != 0 && 0x2000u16 & !0x2000u16 == 0 && 0x2000u16
        & 0x2000u16 != 0 && 0x1000u16 & 0x2000u16 == 0) by (bit_vector);
}

/// Whether the arc is fake.
pub open spec fn is_fake(m: GraphModel, e: int) -> bool {
    has_any(m.arcs[e].attr.bits, ARC_ATTR_FAKE)
}

/// Whether the block is the entry block of its function.
pub open spec fn is_entry(m: GraphModel, b: int) -> bool {
    m.blocks[b].block == 0
}

/// Whether position `k` of the list of arcs is before `i` and holds the arc `e`.
pub open spec fn listed_at(list: Seq<(usize, usize, usize)>, i: int, e: int, k: int) -> bool {
    0 <= k < i && k < list.len() && list[k].0 == e
}

/// Whether the arc `e` is among the first `i` of a list of arcs.
pub open spec fn listed(list: Seq<(usize, usize, usize)>, i: int, e: int) -> bool {
    exists|k: int| #[trigger] listed_at(list, i, e, k)
}

/// Whether the fake arc `e` was handled once the blocks below `s` and the first `i` arcs of
/// `list` were.
pub open spec fn fake_handled(
    m: GraphModel,
    e: int,
    s: int,
    list: Seq<(usize, usize, usize)>,
    i: int,
) -> bool {
    is_fake(m, e) && (m.edges[e].0 < s || listed(list, i, e))
}

/// Whether a fake arc that leaves the block, which is no entry block, was handled.
pub open spec fn thrower_seen(
    m: GraphModel,
    b: int,
    s: int,
    list: Seq<(usize, usize, usize)>,
    i: int,
) -> bool {
    !is_entry(m, b) && exists|e: int|
        0 <= e < m.edges.len() && (#[trigger] m.edges[e]).0 == b && fake_handled(m, e, s, list, i)
}

/// Whether a fake arc that leads from an entry block to the block was handled.
pub open spec fn landing_seen(
    m: GraphModel,
    b: int,
    s: int,
    list: Seq<(usize, usize, usize)>,
    i: int,
) -> bool {
    exists|e: int|
        0 <= e < m.edges.len() && (#[trigger] m.edges[e]).1 == b && fake_handled(m, e, s, list, i)
            && is_entry(m, m.edges[e].0 as int)
}

/// Whether a fake arc leaves the block, which is no entry block: the block ends with a call
/// that may not return.
pub open spec fn is_thrower(m: GraphModel, b: int) -> bool {
    thrower_seen(m, b, m.blocks.len() as int, Seq::empty(), 0)
}

/// How far the marking of catch blocks has come once the blocks below `s` were handled,
/// the first `i` arcs of `list` for their fake arcs and the first `j` for their throws.
pub open spec fn catch_progress(
    old: GraphModel,
    new: GraphModel,
    s: int,
    list: Seq<(usize, usize, usize)>,
    i: int,
    j: int,
) -> bool {
    &&& same_frame(old, new)
    &&& same_counts(old, new)
    &&& forall|e: int|
        0 <= e < new.arcs.len() ==> {
            let src = old.edges[e].0 as int;
            let x = old.arcs[e].attr.bits;
            let y = (#[trigger] new.arcs[e]).attr.bits;
            &&& same_except(y, x, 0x70)
            &&& has_any(y, ARC_ATTR_NONLOCAL_RETURN) <==> has_any(x, ARC_ATTR_NONLOCAL_RETURN) || (
            fake_handled(old, e, s, list, i) && is_entry(old, src))
            &&& has_any(y, ARC_ATTR_CALL_NON_RETURN) <==> has_any(x, ARC_ATTR_CALL_NON_RETURN) || (
            fake_handled(old, e, s, list, i) && !is_entry(old, src))
            &&& has_any(y, ARC_ATTR_THROW) <==> has_any(x, ARC_ATTR_THROW) || ((src < s || listed(
                list,
                j,
                e,
            )) && is_thrower(old, src) && !has_any(x, 6))
        }
    &&& forall|b: int|
        0 <= b < new.blocks.len() ==> {
            let x = old.blocks[b].attr.bits;
            let y = (#[trigger] new.blocks[b]).attr.bits;
            &&& same_except(y, x, 0x5000)
            &&& has_any(y, BLOCK_ATTR_CALL_SITE) <==> has_any(x, BLOCK_ATTR_CALL_SITE)
                || thrower_seen(old, b, s, list, i)
            &&& has_any(y, BLOCK_ATTR_NONLOCAL_RETURN) <==> has_any(x, BLOCK_ATTR_NONLOCAL_RETURN)
                || landing_seen(old, b, s, list, i)
        }
}

/// What marking the catch blocks does. A fake arc that leaves an entry block marks itself
/// and the block it leads to as a non-local return. Another fake arc marks itself as a call
/// that does not return and its block as a call site, and the arcs of that block that are
/// neither fake nor fall-through as throws.
pub open spec fn catch_marked(old: GraphModel, new: GraphModel) -> bool {
    catch_progress(old, new, old.blocks.len() as int, Seq::empty(), 0, 0)
}

/// Whether the arc is not fake, and the only such arc that leaves its block.
pub open spec fn sole_exit(m: GraphModel, e: int) -> bool {
    &&& !is_fake(m, e)
    &&& forall|other: int|
        0 <= other < m.edges.len() && (#[trigger] m.edges[other]).0 == m.edges[e].0 && !is_fake(
            m,
            other,
        ) ==> other == e
}

/// Whether an unconditional fall-through arc leads from a call site to the block, once the
/// blocks below `s` were handled.
pub open spec fn return_seen(m: GraphModel, b: int, s: int) -> bool {
    exists|e: int|
        0 <= e < m.edges.len() && (#[trigger] m.edges[e]).1 == b && m.edges[e].0 < s && sole_exit(
            m,
            e,
        ) && has_any(m.arcs[e].attr.bits, ARC_ATTR_FALLTHROUGH) && has_any(
            m.blocks[m.edges[e].0 as int].attr.bits,
            BLOCK_ATTR_CALL_SITE,
        )
}

/// How far the marking of unconditional arcs has come once the blocks below `s` were
/// handled.
pub open spec fn unconditional_progress(old: GraphModel, new: GraphModel, s: int) -> bool {
    &&& same_frame(old, new)
    &&& same_counts(old, new)
    &&& forall|e: int|
        0 <= e < new.arcs.len() ==> {
            let x = old.arcs[e].attr.bits;
            let y = (#[trigger] new.arcs[e]).attr.bits;
            &&& same_except(y, x, ARC_ATTR_UNCONDITIONAL)
            &&& has_any(y, ARC_ATTR_UNCONDITIONAL) <==> has_any(x, ARC_ATTR_UNCONDITIONAL) || (
            old.edges[e].0 < s && sole_exit(old, e))
        }
    &&& forall|b: int|
        0 <= b < new.blocks.len() ==> {
            let x = old.blocks[b].attr.bits;
            let y = (#[trigger] new.blocks[b]).attr.bits;
            &&& same_except(y, x, BLOCK_ATTR_CALL_RETURN)
            &&& has_any(y, BLOCK_ATTR_CALL_RETURN) <==> has_any(x, BLOCK_ATTR_CALL_RETURN)
                || return_seen(old, b, s)
        }
}

/// What marking the unconditional arcs does. An arc that is not fake, and the only such
/// arc that leaves its block, is marked unconditional. If it is a fall-through that leaves
/// a call site, the block it leads to is marked as the return of a call.
pub open spec fn unconditional_marked(old: GraphModel, new: GraphModel) -> bool {
    unconditional_progress(old, new, old.blocks.len() as int)
}

/// Whether `new` is `prev` with the flags of `mask` set on the arc `e`.
pub open spec fn arc_flagged(prev: GraphModel, new: GraphModel, e: int, mask: u16) -> bool {
    &&& 0 <= e < prev.arcs.len()
    &&& new == (GraphModel {
        arcs: prev.arcs.update(
            e,
            ArcInfo { attr: ArcAttr { bits: prev.arcs[e].attr.bits | mask }, ..prev.arcs[e] },
        ),
        ..prev
    })
}

/// Whether `new` is `prev` with the flags of `mask` set on the block `b`.
pub open spec fn block_flagged(prev: GraphModel, new: GraphModel, b: int, mask: u16) -> bool {
    &&& 0 <= b < prev.blocks.len()
    &&& new == (GraphModel {
        blocks: prev.blocks.update(
            b,
            BlockModel { attr: BlockAttr { bits: prev.blocks[b].attr.bits | mask }, ..prev.blocks[b] },
        ),
        ..prev
    })
}

/// One more arc of the list is listed.
pub proof fn lemma_listed_step(list: Seq<(usize, usize, usize)>, i: int, e: int)
    requires
        0 <= i < list.len(),
    ensures
        listed(list, i + 1, e) <==> listed(list, i, e) || list[i].0 == e,
        !listed(list, 0, e),
{
    if listed(list, i + 1, e) {
        let k = choose|k: int| #[trigger] listed_at(list, i + 1, e, k);
        if k < i {
            assert(listed_at(list, i, e, k));
        }
    }
    if listed(list, i, e) {
        let k = choose|k: int| #[trigger] listed_at(list, i, e, k);
        assert(listed_at(list, i + 1, e, k));
    }
    if list[i].0 == e {
        assert(listed_at(list, i + 1, e, i));
    }
    if listed(list, 0, e) {
        let k = choose|k: int| #[trigger] listed_at(list, 0, e, k);
    }
}

/// A fake arc from an entry block was handled: it and the block it leads to are marked.
pub proof fn lemma_catch_entry_step(
    old: GraphModel,
    prev: GraphModel,
    mid: GraphModel,
    new: GraphModel,
    s: int,
    list: Seq<(usize, usize, usize)>,
    i: int,
)
    requires
        catch_progress(old, prev, s, list, i, 0),
        0 <= i < list.len(),
        0 <= list[i].0 < old.edges.len(),
        old.arcs.len() == old.edges.len(),
        old.edges[list[i].0 as int] == (s as nat, list[i].2 as nat),
        list[i].2 < old.blocks.len(),
        0 <= s < old.blocks.len(),
        is_entry(old, s),
        is_fake(old, list[i].0 as int),
        block_flagged(prev, mid, list[i].2 as int, BLOCK_ATTR_NONLOCAL_RETURN),
        arc_flagged(mid, new, list[i].0 as int, ARC_ATTR_NONLOCAL_RETURN),
    ensures
        catch_progress(old, new, s, list, i + 1, 0),
{
    lemma_masks();
    let e0 = list[i].0 as int;
    let t = list[i].2 as int;
    assert forall|e: int| 0 <= e < new.arcs.len() implies {
        let src = old.edges[e].0 as int;
        let x = old.arcs[e].attr.bits;
        let y = (#[trigger] new.arcs[e]).attr.bits;
        &&& same_except(y, x, 0x70)
        &&& has_any(y, ARC_ATTR_NONLOCAL_RETURN) <==> has_any(x, ARC_ATTR_NONLOCAL_RETURN) || (
        fake_handled(old, e, s, list, i + 1) && is_entry(old, src))
        &&& has_any(y, ARC_ATTR_CALL_NON_RETURN) <==> has_any(x, ARC_ATTR_CALL_NON_RETURN) || (
        fake_handled(old, e, s, list, i + 1) && !is_entry(old, src))
        &&& has_any(y, ARC_ATTR_THROW) <==> has_any(x, ARC_ATTR_THROW) || ((src < s || listed(
            list,
            0,
            e,
        )) && is_thrower(old, src) && !has_any(x, 6))
    } by {
        lemma_listed_step(list, i, e);
        let p = prev.arcs[e].attr.bits;
        assert(mid.arcs[e] == prev.arcs[e]);
        if e == e0 {
            lemma_insert_flag(p, ARC_ATTR_NONLOCAL_RETURN, ARC_ATTR_NONLOCAL_RETURN);
            lemma_insert_flag(p, ARC_ATTR_NONLOCAL_RETURN, ARC_ATTR_CALL_NON_RETURN);
            lemma_insert_flag(p, ARC_ATTR_NONLOCAL_RETURN, ARC_ATTR_THROW);
            lemma_insert_same_except(p, ARC_ATTR_NONLOCAL_RETURN, 0x70);
        } else {
            assert(new.arcs[e] == prev.arcs[e]);
        }
    }
    assert forall|b: int| 0 <= b < new.blocks.len() implies {
        let x = old.blocks[b].attr.bits;
        let y = (#[trigger] new.blocks[b]).attr.bits;
        &&& same_except(y, x, 0x5000)
        &&& has_any(y, BLOCK_ATTR_CALL_SITE) <==> has_any(x, BLOCK_ATTR_CALL_SITE) || thrower_seen(
            old,
            b,
            s,
            list,
            i + 1,
        )
        &&& has_any(y, BLOCK_ATTR_NONLOCAL_RETURN) <==> has_any(x, BLOCK_ATTR_NONLOCAL_RETURN)
            || landing_seen(old, b, s, list, i + 1)
    } by {
        let p = prev.blocks[b].attr.bits;
        assert(new.blocks[b] == mid.blocks[b]);
        lemma_seen_step(old, b, s, list, i);
        if b == t {
            lemma_insert_flag(p, BLOCK_ATTR_NONLOCAL_RETURN, BLOCK_ATTR_NONLOCAL_RETURN);
            lemma_insert_flag(p, BLOCK_ATTR_NONLOCAL_RETURN, BLOCK_ATTR_CALL_SITE);
            lemma_insert_same_except(p, BLOCK_ATTR_NONLOCAL_RETURN, 0x5000);
        } else {
            assert(mid.blocks[b] == prev.blocks[b]);
        }
    }
    assert(same_frame(old, new)) by {
        assert forall|b: int| 0 <= b < new.blocks.len() implies (#[trigger] new.blocks[b]).index
            == old.blocks[b].index && new.blocks[b].block == old.blocks[b].block
            && new.blocks[b].lines == old.blocks[b].lines by {
            assert(prev.blocks[b].index == old.blocks[b].index);
        }
        assert forall|e: int| 0 <= e < new.arcs.len() implies (#[trigger] new.arcs[e]).index
            == old.arcs[e].index && new.arcs[e].arc == old.arcs[e].arc by {
            assert(prev.arcs[e].index == old.arcs[e].index);
        }
    }
    assert(same_counts(old, new)) by {
        assert forall|b: int| 0 <= b < new.blocks.len() implies (#[trigger] new.blocks[b]).count
            == old.blocks[b].count by {
            assert(prev.blocks[b].count == old.blocks[b].count);
        }
        assert forall|e: int| 0 <= e < new.arcs.len() implies (#[trigger] new.arcs[e]).count
            == old.arcs[e].count by {
            assert(prev.arcs[e].count == old.arcs[e].count);
        }
    }
}

/// What one more listed arc adds to the fake arcs seen at a block.
pub proof fn lemma_seen_step(
    old: GraphModel,
    b: int,
    s: int,
    list: Seq<(usize, usize, usize)>,
    i: int,
)
    requires
        0 <= i < list.len(),
        0 <= list[i].0 < old.edges.len(),
    ensures
        thrower_seen(old, b, s, list, i + 1) <==> thrower_seen(old, b, s, list, i) || (!is_entry(
            old,
            b,
        ) && old.edges[list[i].0 as int].0 == b && is_fake(old, list[i].0 as int)),
        landing_seen(old, b, s, list, i + 1) <==> landing_seen(old, b, s, list, i) || (
        old.edges[list[i].0 as int].1 == b && is_fake(old, list[i].0 as int) && is_entry(
            old,
            old.edges[list[i].0 as int].0 as int,
        )),
{
    let e0 = list[i].0 as int;
    assert forall|e: int| #[trigger]
        fake_handled(old, e, s, list, i + 1) <==> fake_handled(old, e, s, list, i) || (e == e0
            && is_fake(old, e0)) by {
        lemma_listed_step(list, i, e);
    }
    lemma_listed_step(list, i, e0);
    if thrower_seen(old, b, s, list, i + 1) {
        let e = choose|e: int|
            0 <= e < old.edges.len() && (#[trigger] old.edges[e]).0 == b && fake_handled(
                old,
                e,
                s,
                list,
                i + 1,
            );
        if e != e0 {
            assert(fake_handled(old, e, s, list, i));
        }
    }
    if thrower_seen(old, b, s, list, i) {
        let e = choose|e: int|
            0 <= e < old.edges.len() && (#[trigger] old.edges[e]).0 == b && fake_handled(
                old,
                e,
                s,
                list,
                i,
            );
        assert(fake_handled(old, e, s, list, i + 1));
    }
    if !is_entry(old, b) && old.edges[e0].0 == b && is_fake(old, e0) {
        assert(fake_handled(old, e0, s, list, i + 1));
    }
    if landing_seen(old, b, s, list, i + 1) {
        let e = choose|e: int|
            0 <= e < old.edges.len() && (#[trigger] old.edges[e]).1 == b && fake_handled(
                old,
                e,
                s,
                list,
                i + 1,
            ) && is_entry(old, old.edges[e].0 as int);
        if e != e0 {
            assert(fake_handled(old, e, s, list, i));
        }
    }
    if landing_seen(old, b, s, list, i) {
        let e = choose|e: int|
            0 <= e < old.edges.len() && (#[trigger] old.edges[e]).1 == b && fake_handled(
                old,
                e,
                s,
                list,
                i,
            ) && is_entry(old, old.edges[e].0 as int);
        assert(fake_handled(old, e, s, list, i + 1));
    }
    if old.edges[e0].1 == b && is_fake(old, e0) && is_entry(old, old.edges[e0].0 as int) {
        assert(fake_handled(old, e0, s, list, i + 1));
    }
}

/// Whether `list` holds the arcs that leave the block `s` (or enter it, if `outgoing` is
/// false), each once, with the blocks they join.
pub open spec fn arcs_at(
    edges: Seq<(nat, nat)>,
    s: int,
    outgoing: bool,
    list: Seq<(usize, usize, usize)>,
) -> bool {
    &&& forall|k: int|
        0 <= k < list.len() ==> (#[trigger] list[k]).0 < edges.len() && edges[list[k].0 as int] == (
            list[k].1 as nat,
            list[k].2 as nat,
        ) && end_of(edges[list[k].0 as int], outgoing) == s
    &&& forall|e: int|
        0 <= e < edges.len() && end_of(#[trigger] edges[e], outgoing) == s ==> listed(
            list,
            list.len() as int,
            e,
        )
    &&& forall|i: int, j: int| 0 <= i < j < list.len() ==> (#[trigger] list[i]).0 > (#[trigger] list[j]).0
}

/// A fake arc from a block that is no entry block was handled: it and its block are marked.
pub proof fn lemma_catch_call_step(
    old: GraphModel,
    prev: GraphModel,
    mid: GraphModel,
    new: GraphModel,
    s: int,
    list: Seq<(usize, usize, usize)>,
    i: int,
)
    requires
        catch_progress(old, prev, s, list, i, 0),
        0 <= i < list.len(),
        0 <= list[i].0 < old.edges.len(),
        old.arcs.len() == old.edges.len(),
        old.edges[list[i].0 as int].0 == s,
        0 <= s < old.blocks.len(),
        !is_entry(old, s),
        is_fake(old, list[i].0 as int),
        block_flagged(prev, mid, s, BLOCK_ATTR_CALL_SITE),
        arc_flagged(mid, new, list[i].0 as int, ARC_ATTR_CALL_NON_RETURN),
    ensures
        catch_progress(old, new, s, list, i + 1, 0),
{
    lemma_masks();
    let e0 = list[i].0 as int;
    assert forall|e: int| 0 <= e < new.arcs.len() implies {
        let src = old.edges[e].0 as int;
        let x = old.arcs[e].attr.bits;
        let y = (#[trigger] new.arcs[e]).attr.bits;
        &&& same_except(y, x, 0x70)
        &&& has_any(y, ARC_ATTR_NONLOCAL_RETURN) <==> has_any(x, ARC_ATTR_NONLOCAL_RETURN) || (
        fake_handled(old, e, s, list, i + 1) && is_entry(old, src))
        &&& has_any(y, ARC_ATTR_CALL_NON_RETURN) <==> has_any(x, ARC_ATTR_CALL_NON_RETURN) || (
        fake_handled(old, e, s, list, i + 1) && !is_entry(old, src))
        &&& has_any(y, ARC_ATTR_THROW) <==> has_any(x, ARC_ATTR_THROW) || ((src < s || listed(
            list,
            0,
            e,
        )) && is_thrower(old, src) && !has_any(x, 6))
    } by {
        lemma_listed_step(list, i, e);
        let p = prev.arcs[e].attr.bits;
        assert(mid.arcs[e] == prev.arcs[e]);
        if e == e0 {
            lemma_insert_flag(p, ARC_ATTR_CALL_NON_RETURN, ARC_ATTR_NONLOCAL_RETURN);
            lemma_insert_flag(p, ARC_ATTR_CALL_NON_RETURN, ARC_ATTR_CALL_NON_RETURN);
            lemma_insert_flag(p, ARC_ATTR_CALL_NON_RETURN, ARC_ATTR_THROW);
            lemma_insert_same_except(p, ARC_ATTR_CALL_NON_RETURN, 0x70);
        } else {
            assert(new.arcs[e] == prev.arcs[e]);
        }
    }
    assert forall|b: int| 0 <= b < new.blocks.len() implies {
        let x = old.blocks[b].attr.bits;
        let y = (#[trigger] new.blocks[b]).attr.bits;
        &&& same_except(y, x, 0x5000)
        &&& has_any(y, BLOCK_ATTR_CALL_SITE) <==> has_any(x, BLOCK_ATTR_CALL_SITE) || thrower_seen(
            old,
            b,
            s,
            list,
            i + 1,
        )
        &&& has_any(y, BLOCK_ATTR_NONLOCAL_RETURN) <==> has_any(x, BLOCK_ATTR_NONLOCAL_RETURN)
            || landing_seen(old, b, s, list, i + 1)
    } by {
        let p = prev.blocks[b].attr.bits;
        assert(new.blocks[b] == mid.blocks[b]);
        lemma_seen_step(old, b, s, list, i);
        if b == s {
            lemma_insert_flag(p, BLOCK_ATTR_CALL_SITE, BLOCK_ATTR_NONLOCAL_RETURN);
            lemma_insert_flag(p, BLOCK_ATTR_CALL_SITE, BLOCK_ATTR_CALL_SITE);
            lemma_insert_same_except(p, BLOCK_ATTR_CALL_SITE, 0x5000);
        } else {
            assert(mid.blocks[b] == prev.blocks[b]);
        }
    }
    assert(same_frame(old, new)) by {
        assert forall|b: int| 0 <= b < new.blocks.len() implies (#[trigger] new.blocks[b]).index
            == old.blocks[b].index && new.blocks[b].block == old.blocks[b].block
            && new.blocks[b].lines == old.blocks[b].lines by {
            assert(prev.blocks[b].index == old.blocks[b].index);
        }
        assert forall|e: int| 0 <= e < new.arcs.len() implies (#[trigger] new.arcs[e]).index
            == old.arcs[e].index && new.arcs[e].arc == old.arcs[e].arc by {
            assert(prev.arcs[e].index == old.arcs[e].index);
        }
    }
    assert(same_counts(old, new)) by {
        assert forall|b: int| 0 <= b < new.blocks.len() implies (#[trigger] new.blocks[b]).count
            == old.blocks[b].count by {
            assert(prev.blocks[b].count == old.blocks[b].count);
        }
        assert forall|e: int| 0 <= e < new.arcs.len() implies (#[trigger] new.arcs[e]).count
            == old.arcs[e].count by {
            assert(prev.arcs[e].count == old.arcs[e].count);
        }
    }
}

/// An arc that is not fake was passed over.
pub proof fn lemma_catch_skip_step(
    old: GraphModel,
    new: GraphModel,
    s: int,
    list: Seq<(usize, usize, usize)>,
    i: int,
)
    requires
        catch_progress(old, new, s, list, i, 0),
        0 <= i < list.len(),
        0 <= list[i].0 < old.edges.len(),
        !is_fake(old, list[i].0 as int),
    ensures
        catch_progress(old, new, s, list, i + 1, 0),
{
    assert forall|e: int| 0 <= e < new.arcs.len() implies {
        let src = old.edges[e].0 as int;
        let x = old.arcs[e].attr.bits;
        let y = (#[trigger] new.arcs[e]).attr.bits;
        &&& same_except(y, x, 0x70)
        &&& has_any(y, ARC_ATTR_NONLOCAL_RETURN) <==> has_any(x, ARC_ATTR_NONLOCAL_RETURN) || (
        fake_handled(old, e, s, list, i + 1) && is_entry(old, src))
        &&& has_any(y, ARC_ATTR_CALL_NON_RETURN) <==> has_any(x, ARC_ATTR_CALL_NON_RETURN) || (
        fake_handled(old, e, s, list, i + 1) && !is_entry(old, src))
        &&& has_any(y, ARC_ATTR_THROW) <==> has_any(x, ARC_ATTR_THROW) || ((src < s || listed(
            list,
            0,
            e,
        )) && is_thrower(old, src) && !has_any(x, 6))
    } by {
        lemma_listed_step(list, i, e);
    }
    assert forall|b: int| 0 <= b < new.blocks.len() implies {
        let x = old.blocks[b].attr.bits;
        let y = (#[trigger] new.blocks[b]).attr.bits;
        &&& same_except(y, x, 0x5000)
        &&& has_any(y, BLOCK_ATTR_CALL_SITE) <==> has_any(x, BLOCK_ATTR_CALL_SITE) || thrower_seen(
            old,
            b,
            s,
            list,
            i + 1,
        )
        &&& has_any(y, BLOCK_ATTR_NONLOCAL_RETURN) <==> has_any(x, BLOCK_ATTR_NONLOCAL_RETURN)
            || landing_seen(old, b, s, list, i + 1)
    } by {
        lemma_seen_step(old, b, s, list, i);
    }
}

/// A block with fake arcs among the arcs listed for it, and no entry block, is a thrower.
pub proof fn lemma_thrower(old: GraphModel, s: int, list: Seq<(usize, usize, usize)>)
    requires
        arcs_at(old.edges, s, true, list),
        old.arcs.len() == old.edges.len(),
        0 <= s < old.blocks.len(),
        forall|e: int|
            0 <= e < old.edges.len() ==> (#[trigger] old.edges[e]).0 < old.blocks.len(),
    ensures
        is_thrower(old, s) <==> thrower_seen(old, s, s, list, list.len() as int),
        is_thrower(old, s) <==> !is_entry(old, s) && exists|k: int|
            0 <= k < list.len() && is_fake(old, (#[trigger] list[k]).0 as int),
{
    let n = old.blocks.len() as int;
    let len = list.len() as int;
    if is_thrower(old, s) {
        let e = choose|e: int|
            0 <= e < old.edges.len() && (#[trigger] old.edges[e]).0 == s && fake_handled(
                old,
                e,
                n,
                Seq::empty(),
                0,
            );
        assert(listed(list, len, e));
        assert(fake_handled(old, e, s, list, len));
        let k = choose|k: int| #[trigger] listed_at(list, len, e, k);
        assert(is_fake(old, list[k].0 as int));
    }
    if thrower_seen(old, s, s, list, len) {
        let e = choose|e: int|
            0 <= e < old.edges.len() && (#[trigger] old.edges[e]).0 == s && fake_handled(
                old,
                e,
                s,
                list,
                len,
            );
        assert(fake_handled(old, e, n, Seq::empty(), 0));
    }
    if !is_entry(old, s) && exists|k: int|
        0 <= k < list.len() && is_fake(old, (#[trigger] list[k]).0 as int) {
        let k = choose|k: int| 0 <= k < list.len() && is_fake(old, (#[trigger] list[k]).0 as int);
        let e = list[k].0 as int;
        assert(old.edges[e].0 == s);
        assert(fake_handled(old, e, n, Seq::empty(), 0));
    }
}

/// An arc of a thrower was handled for its throw: it is marked unless it is fake or a
/// fall-through.
pub proof fn lemma_catch_throw_step(
    old: GraphModel,
    prev: GraphModel,
    new: GraphModel,
    s: int,
    list: Seq<(usize, usize, usize)>,
    j: int,
)
    requires
        catch_progress(old, prev, s, list, list.len() as int, j),
        0 <= j < list.len(),
        0 <= list[j].0 < old.edges.len(),
        old.arcs.len() == old.edges.len(),
        old.edges[list[j].0 as int].0 == s,
        is_thrower(old, s),
        if has_any(old.arcs[list[j].0 as int].attr.bits, 6) {
            new == prev
        } else {
            arc_flagged(prev, new, list[j].0 as int, ARC_ATTR_THROW)
        },
    ensures
        catch_progress(old, new, s, list, list.len() as int, j + 1),
{
    lemma_masks();
    let e0 = list[j].0 as int;
    let len = list.len() as int;
    assert forall|e: int| 0 <= e < new.arcs.len() implies {
        let src = old.edges[e].0 as int;
        let x = old.arcs[e].attr.bits;
        let y = (#[trigger] new.arcs[e]).attr.bits;
        &&& same_except(y, x, 0x70)
        &&& has_any(y, ARC_ATTR_NONLOCAL_RETURN) <==> has_any(x, ARC_ATTR_NONLOCAL_RETURN) || (
        fake_handled(old, e, s, list, len) && is_entry(old, src))
        &&& has_any(y, ARC_ATTR_CALL_NON_RETURN) <==> has_any(x, ARC_ATTR_CALL_NON_RETURN) || (
        fake_handled(old, e, s, list, len) && !is_entry(old, src))
        &&& has_any(y, ARC_ATTR_THROW) <==> has_any(x, ARC_ATTR_THROW) || ((src < s || listed(
            list,
            j + 1,
            e,
        )) && is_thrower(old, src) && !has_any(x, 6))
    } by {
        lemma_listed_step(list, j, e);
        let p = prev.arcs[e].attr.bits;
        if e == e0 && !has_any(old.arcs[e0].attr.bits, 6) {
            lemma_insert_flag(p, ARC_ATTR_THROW, ARC_ATTR_NONLOCAL_RETURN);
            lemma_insert_flag(p, ARC_ATTR_THROW, ARC_ATTR_CALL_NON_RETURN);
            lemma_insert_flag(p, ARC_ATTR_THROW, ARC_ATTR_THROW);
            lemma_insert_same_except(p, ARC_ATTR_THROW, 0x70);
        } else {
            assert(new.arcs[e] == prev.arcs[e]);
        }
    }
    assert(same_frame(old, new)) by {
        assert forall|e: int| 0 <= e < new.arcs.len() implies (#[trigger] new.arcs[e]).index
            == old.arcs[e].index && new.arcs[e].arc == old.arcs[e].arc by {
            assert(prev.arcs[e].index == old.arcs[e].index);
        }
    }
    assert(same_counts(old, new)) by {
        assert forall|e: int| 0 <= e < new.arcs.len() implies (#[trigger] new.arcs[e]).count
            == old.arcs[e].count by {
            assert(prev.arcs[e].count == old.arcs[e].count);
        }
    }
}

/// The arcs of the block `s` were handled: on to the next block.
pub proof fn lemma_catch_next_block(
    old: GraphModel,
    new: GraphModel,
    s: int,
    list: Seq<(usize, usize, usize)>,
    j: int,
    next: Seq<(usize, usize, usize)>,
)
    requires
        catch_progress(old, new, s, list, list.len() as int, j),
        arcs_at(old.edges, s, true, list),
        old.arcs.len() == old.edges.len(),
        j == list.len() || (j == 0 && !is_thrower(old, s)),
    ensures
        catch_progress(old, new, s + 1, next, 0, 0),
{
    let len = list.len() as int;
    assert forall|e: int| 0 <= e < old.edges.len() implies (listed(list, len, e) <==> old.edges[e].0
        == s) && !listed(next, 0, e) && (fake_handled(old, e, s + 1, next, 0) <==> fake_handled(
        old,
        e,
        s,
        list,
        len,
    )) by {
        if listed(list, len, e) {
            let k = choose|k: int| #[trigger] listed_at(list, len, e, k);
            assert(list[k].0 == e);
        }
        if listed(next, 0, e) {
            let k = choose|k: int| #[trigger] listed_at(next, 0, e, k);
        }
    }
    assert forall|b: int| 0 <= b < new.blocks.len() implies (thrower_seen(old, b, s + 1, next, 0)
        <==> thrower_seen(old, b, s, list, len)) && (landing_seen(old, b, s + 1, next, 0)
        <==> landing_seen(old, b, s, list, len)) by {
        if thrower_seen(old, b, s + 1, next, 0) {
            let e = choose|e: int|
                0 <= e < old.edges.len() && (#[trigger] old.edges[e]).0 == b && fake_handled(
                    old,
                    e,
                    s + 1,
                    next,
                    0,
                );
            assert(fake_handled(old, e, s, list, len));
        }
        if thrower_seen(old, b, s, list, len) {
            let e = choose|e: int|
                0 <= e < old.edges.len() && (#[trigger] old.edges[e]).0 == b && fake_handled(
                    old,
                    e,
                    s,
                    list,
                    len,
                );
            assert(fake_handled(old, e, s + 1, next, 0));
        }
        if landing_seen(old, b, s + 1, next, 0) {
            let e = choose|e: int|
                0 <= e < old.edges.len() && (#[trigger] old.edges[e]).1 == b && fake_handled(
                    old,
                    e,
                    s + 1,
                    next,
                    0,
                ) && is_entry(old, old.edges[e].0 as int);
            assert(fake_handled(old, e, s, list, len));
        }
        if landing_seen(old, b, s, list, len) {
            let e = choose|e: int|
                0 <= e < old.edges.len() && (#[trigger] old.edges[e]).1 == b && fake_handled(
                    old,
                    e,
                    s,
                    list,
                    len,
                ) && is_entry(old, old.edges[e].0 as int);
            assert(fake_handled(old, e, s + 1, next, 0));
        }
    }
    assert forall|e: int| 0 <= e < new.arcs.len() implies {
        let src = old.edges[e].0 as int;
        let x = old.arcs[e].attr.bits;
        let y = (#[trigger] new.arcs[e]).attr.bits;
        &&& same_except(y, x, 0x70)
        &&& has_any(y, ARC_ATTR_NONLOCAL_RETURN) <==> has_any(x, ARC_ATTR_NONLOCAL_RETURN) || (
        fake_handled(old, e, s + 1, next, 0) && is_entry(old, src))
        &&& has_any(y, ARC_ATTR_CALL_NON_RETURN) <==> has_any(x, ARC_ATTR_CALL_NON_RETURN) || (
        fake_handled(old, e, s + 1, next, 0) && !is_entry(old, src))
        &&& has_any(y, ARC_ATTR_THROW) <==> has_any(x, ARC_ATTR_THROW) || ((src < s + 1 || listed(
            next,
            0,
            e,
        )) && is_thrower(old, src) && !has_any(x, 6))
    } by {
        lemma_listed_step_zero(list, e);
    }
}

/// Nothing is among the first no arcs of a list.
pub proof fn lemma_listed_step_zero(list: Seq<(usize, usize, usize)>, e: int)
    ensures
        !listed(list, 0, e),
{
    if listed(list, 0, e) {
        let k = choose|k: int| #[trigger] listed_at(list, 0, e, k);
    }
}

/// The block `s` has one arc that is not fake: it is marked, and so is the block it leads
/// to if the arc is a fall-through from a call site.
pub proof fn lemma_unconditional_mark_step(
    old: GraphModel,
    prev: GraphModel,
    mid: GraphModel,
    new: GraphModel,
    s: int,
    list: Seq<(usize, usize, usize)>,
    k: int,
)
    requires
        unconditional_progress(old, prev, s),
        arcs_at(old.edges, s, true, list),
        old.arcs.len() == old.edges.len(),
        0 <= s < old.blocks.len(),
        0 <= k < list.len(),
        list[k].2 < old.blocks.len(),
        forall|j: int| 0 <= j < list.len() && !is_fake(old, (#[trigger] list[j]).0 as int) ==> j == k,
        !is_fake(old, list[k].0 as int),
        arc_flagged(prev, mid, list[k].0 as int, ARC_ATTR_UNCONDITIONAL),
        if has_any(old.arcs[list[k].0 as int].attr.bits, ARC_ATTR_FALLTHROUGH) && has_any(
            old.blocks[s].attr.bits,
            BLOCK_ATTR_CALL_SITE,
        ) {
            block_flagged(mid, new, list[k].2 as int, BLOCK_ATTR_CALL_RETURN)
        } else {
            new == mid
        },
    ensures
        unconditional_progress(old, new, s + 1),
{
    lemma_masks();
    let e0 = list[k].0 as int;
    let t = list[k].2 as int;
    let len = list.len() as int;
    let marks = has_any(old.arcs[e0].attr.bits, ARC_ATTR_FALLTHROUGH) && has_any(
        old.blocks[s].attr.bits,
        BLOCK_ATTR_CALL_SITE,
    );
    assert(sole_exit(old, e0)) by {
        assert forall|other: int|
            0 <= other < old.edges.len() && (#[trigger] old.edges[other]).0 == old.edges[e0].0
                && !is_fake(old, other) implies other == e0 by {
            assert(listed(list, len, other));
            let j = choose|j: int| #[trigger] listed_at(list, len, other, j);
            assert(list[j].0 == other);
        }
    }
    assert forall|e: int| 0 <= e < old.edges.len() && old.edges[e].0 == s && e
        != e0 implies !sole_exit(old, e) by {
        if sole_exit(old, e) {
            assert(old.edges[e0].0 == old.edges[e].0);
        }
    }
    assert forall|e: int| 0 <= e < new.arcs.len() implies {
        let x = old.arcs[e].attr.bits;
        let y = (#[trigger] new.arcs[e]).attr.bits;
        &&& same_except(y, x, ARC_ATTR_UNCONDITIONAL)
        &&& has_any(y, ARC_ATTR_UNCONDITIONAL) <==> has_any(x, ARC_ATTR_UNCONDITIONAL) || (
        old.edges[e].0 < s + 1 && sole_exit(old, e))
    } by {
        let p = prev.arcs[e].attr.bits;
        assert(new.arcs[e] == mid.arcs[e]);
        if e == e0 {
            lemma_insert_flag(p, ARC_ATTR_UNCONDITIONAL, ARC_ATTR_UNCONDITIONAL);
            lemma_insert_same_except(p, ARC_ATTR_UNCONDITIONAL, ARC_ATTR_UNCONDITIONAL);
        } else {
            assert(mid.arcs[e] == prev.arcs[e]);
        }
    }
    assert forall|b: int| 0 <= b < new.blocks.len() implies {
        let x = old.blocks[b].attr.bits;
        let y = (#[trigger] new.blocks[b]).attr.bits;
        &&& same_except(y, x, BLOCK_ATTR_CALL_RETURN)
        &&& has_any(y, BLOCK_ATTR_CALL_RETURN) <==> has_any(x, BLOCK_ATTR_CALL_RETURN)
            || return_seen(old, b, s + 1)
    } by {
        let p = prev.blocks[b].attr.bits;
        assert(mid.blocks[b] == prev.blocks[b]);
        if return_seen(old, b, s + 1) {
            let e = choose|e: int|
                0 <= e < old.edges.len() && (#[trigger] old.edges[e]).1 == b && old.edges[e].0 < s
                    + 1 && sole_exit(old, e) && has_any(
                    old.arcs[e].attr.bits,
                    ARC_ATTR_FALLTHROUGH,
                ) && has_any(old.blocks[old.edges[e].0 as int].attr.bits, BLOCK_ATTR_CALL_SITE);
            if old.edges[e].0 < s {
                assert(return_seen(old, b, s));
            } else {
                assert(e == e0);
            }
        }
        if return_seen(old, b, s) {
            let e = choose|e: int|
                0 <= e < old.edges.len() && (#[trigger] old.edges[e]).1 == b && old.edges[e].0 < s
                    && sole_exit(old, e) && has_any(old.arcs[e].attr.bits, ARC_ATTR_FALLTHROUGH)
                    && has_any(old.blocks[old.edges[e].0 as int].attr.bits, BLOCK_ATTR_CALL_SITE);
            assert(return_seen(old, b, s + 1));
        }
        if marks && b == t {
            assert(old.edges[e0].1 == b);
            assert(return_seen(old, b, s + 1));
            lemma_insert_flag(p, BLOCK_ATTR_CALL_RETURN, BLOCK_ATTR_CALL_RETURN);
            lemma_insert_same_except(p, BLOCK_ATTR_CALL_RETURN, BLOCK_ATTR_CALL_RETURN);
        } else {
            assert(new.blocks[b] == prev.blocks[b]);
        }
    }
    assert(same_frame(old, new)) by {
        assert forall|b: int| 0 <= b < new.blocks.len() implies (#[trigger] new.blocks[b]).index
            == old.blocks[b].index && new.blocks[b].block == old.blocks[b].block
            && new.blocks[b].lines == old.blocks[b].lines by {
            assert(prev.blocks[b].index == old.blocks[b].index);
        }
        assert forall|e: int| 0 <= e < new.arcs.len() implies (#[trigger] new.arcs[e]).index
            == old.arcs[e].index && new.arcs[e].arc == old.arcs[e].arc by {
            assert(prev.arcs[e].index == old.arcs[e].index);
        }
    }
    assert(same_counts(old, new)) by {
        assert forall|b: int| 0 <= b < new.blocks.len() implies (#[trigger] new.blocks[b]).count
            == old.blocks[b].count by {
            assert(prev.blocks[b].count == old.blocks[b].count);
        }
        assert forall|e: int| 0 <= e < new.arcs.len() implies (#[trigger] new.arcs[e]).count
            == old.arcs[e].count by {
            assert(prev.arcs[e].count == old.arcs[e].count);
        }
    }
}

/// The block `s` has no arc that is not fake, or several: nothing is marked.
pub proof fn lemma_unconditional_skip_step(
    old: GraphModel,
    new: GraphModel,
    s: int,
    list: Seq<(usize, usize, usize)>,
)
    requires
        unconditional_progress(old, new, s),
        arcs_at(old.edges, s, true, list),
        old.arcs.len() == old.edges.len(),
        (forall|j: int| 0 <= j < list.len() ==> is_fake(old, (#[trigger] list[j]).0 as int)) || (
        exists|i: int, j: int|
            0 <= i < j < list.len() && !is_fake(old, (#[trigger] list[i]).0 as int) && !is_fake(
                old,
                (#[trigger] list[j]).0 as int,
            )),
    ensures
        unconditional_progress(old, new, s + 1),
{
    let len = list.len() as int;
    assert forall|e: int| 0 <= e < old.edges.len() && old.edges[e].0 == s implies !sole_exit(
        old,
        e,
    ) by {
        assert(listed(list, len, e));
        let k = choose|k: int| #[trigger] listed_at(list, len, e, k);
        if sole_exit(old, e) {
            assert(!is_fake(old, list[k].0 as int));
            let (i, j) = choose|i: int, j: int|
                0 <= i < j < list.len() && !is_fake(old, (#[trigger] list[i]).0 as int) && !is_fake(
                    old,
                    (#[trigger] list[j]).0 as int,
                );
            assert(old.edges[list[i].0 as int].0 == s);
            assert(old.edges[list[j].0 as int].0 == s);
            assert(list[i].0 > list[j].0);
        }
    }
    assert forall|b: int| 0 <= b < new.blocks.len() implies (return_seen(old, b, s + 1)
        <==> return_seen(old, b, s)) by {
        if return_seen(old, b, s + 1) {
            let e = choose|e: int|
                0 <= e < old.edges.len() && (#[trigger] old.edges[e]).1 == b && old.edges[e].0 < s
                    + 1 && sole_exit(old, e) && has_any(
                    old.arcs[e].attr.bits,
                    ARC_ATTR_FALLTHROUGH,
                ) && has_any(old.blocks[old.edges[e].0 as int].attr.bits, BLOCK_ATTR_CALL_SITE);
            assert(old.edges[e].0 < s);
        }
        if return_seen(old, b, s) {
            let e = choose|e: int|
                0 <= e < old.edges.len() && (#[trigger] old.edges[e]).1 == b && old.edges[e].0 < s
                    && sole_exit(old, e) && has_any(old.arcs[e].attr.bits, ARC_ATTR_FALLTHROUGH)
                    && has_any(old.blocks[old.edges[e].0 as int].attr.bits, BLOCK_ATTR_CALL_SITE);
            assert(return_seen(old, b, s + 1));
        }
    }
}

/// Before any block was handled nothing is marked.
pub proof fn lemma_unconditional_start(old: GraphModel)
    ensures
        unconditional_progress(old, old, 0),
{
    assert forall|b: int| 0 <= b < old.blocks.len() implies !return_seen(old, b, 0) by {
        if return_seen(old, b, 0) {
            let e = choose|e: int|
                0 <= e < old.edges.len() && (#[trigger] old.edges[e]).1 == b && old.edges[e].0 < 0
                    && sole_exit(old, e) && has_any(old.arcs[e].attr.bits, ARC_ATTR_FALLTHROUGH)
                    && has_any(old.blocks[old.edges[e].0 as int].attr.bits, BLOCK_ATTR_CALL_SITE);
        }
    }
}

/// The blocks of a walk belong to one function.
proof fn lemma_walk_stays(m: GraphModel, walk: Seq<int>, i: int)
    requires
        model_wf(m),
        is_walk(m, walk),
        0 <= i < walk.len(),
    ensures
        0 <= walk[i] < m.blocks.len(),
        m.blocks[walk[i]].index == m.blocks[walk[0]].index,
    decreases i,
{
    if i > 0 {
        lemma_walk_stays(m, walk, i - 1);
        assert(has_step(m.edges, ordinary_arcs(m), walk[i - 1], walk[i]));
        let e = choose|e: int|
            0 <= e < m.edges.len() && e < ordinary_arcs(m).len() && ordinary_arcs(m)[e]
                && #[trigger] m.edges[e] == (walk[i - 1] as nat, walk[i] as nat);
        assert(m.blocks[m.edges[e].0 as int].index == m.blocks[m.edges[e].1 as int].index);
        assert(m.edges[e].1 < m.blocks.len());
    }
}

/// A block that can be reached is reached from the entry block of its own function.
pub proof fn lemma_reached_from_own_entry(m: GraphModel, b: int)
    requires
        model_wf(m),
        reachable(m, b),
    ensures
        0 <= b < m.blocks.len(),
        m.functions[m.blocks[b].index as int].nodes.len() > 0,
        exists|walk: Seq<int>| #[trigger]
            is_walk(m, walk) && walk.last() == b && walk[0]
                == m.functions[m.blocks[b].index as int].nodes[0],
{
    let walk = choose|walk: Seq<int>| #[trigger] is_walk(m, walk) && walk.last() == b;
    lemma_walk_stays(m, walk, walk.len() - 1);
    let entry = walk[0];
    let f = m.blocks[entry].index as int;
    assert(m.functions[f].nodes.contains(entry as usize));
    let i = m.functions[f].nodes.index_of(entry as usize);
    assert(m.functions[f].nodes[i] == entry);
    assert(m.blocks[m.functions[f].nodes[i] as int].block == i);
    assert(i == 0);
    assert(is_walk(m, walk) && walk.last() == b && walk[0] == m.functions[m.blocks[b].index as int].nodes[0]);
}

} // verus!
