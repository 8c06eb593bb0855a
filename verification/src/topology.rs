//! The shape of the control-flow graph: which block each arc leaves and which it enters.
//!
//! The shape is kept by a `petgraph` graph without weights. Blocks and arcs are numbered in
//! the order they were added, and what is known of the graph is stated over those numbers.

use fixedbitset::FixedBitSet;
use petgraph::{Directed, Direction};
use petgraph::graph::{EdgeIndex, NodeIndex};
use petgraph::visit::{Dfs, EdgeFiltered, EdgeRef};
use vstd::prelude::*;

verus! {

/// `petgraph::graph::NodeIndex`, the number of a node.
#[verifier::external_type_specification]
#[verifier::external_body]
#[verifier::reject_recursive_types(Ix)]
pub struct ExNodeIndex<Ix>(NodeIndex<Ix>);

/// `petgraph::Direction`, the side of a node that edges leave or enter.
#[verifier::external_type_specification]
pub struct ExDirection(Direction);

/// `fixedbitset::FixedBitSet`, a set of small numbers.
#[verifier::external_type_specification]
#[verifier::external_body]
pub struct ExFixedBitSet(FixedBitSet);

/// `petgraph::visit::Dfs`, a depth-first search.
#[verifier::external_type_specification]
#[verifier::external_body]
#[verifier::reject_recursive_types(N)]
#[verifier::reject_recursive_types(VM)]
pub struct ExDfs<N, VM>(Dfs<N, VM>);

/// A directed graph without weights. Its contents are known only through
/// [`topology_nodes`] and [`topology_edges`].
#[verifier::external_body]
pub struct Topology {
    graph: petgraph::graph::Graph<(), (), Directed, u32>,
}

/// A depth-first search over a [`Topology`].
pub type Search = Dfs<NodeIndex<u32>, FixedBitSet>;

/// The number of nodes of the graph.
pub uninterp spec fn topology_nodes(g: Topology) -> nat;

/// Source and target of each edge of the graph, in the order the edges were added.
pub uninterp spec fn topology_edges(g: Topology) -> Seq<(nat, nat)>;

/// The most nodes, and the most edges, that a graph indexed by `u32` takes.
pub const TOPOLOGY_LIMIT: usize = 0xffff_ffff;

/// The node that an edge leaves (or enters, if `outgoing` is false).
pub open spec fn end_of(edge: (nat, nat), outgoing: bool) -> nat {
    if outgoing {
        edge.0
    } else {
        edge.1
    }
}

/// The edges numbered below `n` that leave `a` (or enter it, if `outgoing` is false), the
/// latest first.
pub open spec fn incident(edges: Seq<(nat, nat)>, a: nat, outgoing: bool, n: nat) -> Seq<nat>
    decreases n,
{
    if n == 0 {
        Seq::empty()
    } else {
        let e = (n - 1) as nat;
        let rest = incident(edges, a, outgoing, e);
        if end_of(edges[e as int], outgoing) == a {
            seq![e].add(rest)
        } else {
            rest
        }
    }
}

/// What `incident` lists: each edge below `n` at `a` once, and no other, in falling order.
pub proof fn lemma_incident(edges: Seq<(nat, nat)>, a: nat, outgoing: bool, n: nat)
    requires
        n <= edges.len(),
    ensures
        forall|k: int|
            0 <= k < incident(edges, a, outgoing, n).len() ==> (#[trigger] incident(
                edges,
                a,
                outgoing,
                n,
            )[k]) < n && end_of(edges[incident(edges, a, outgoing, n)[k] as int], outgoing) == a,
        forall|e: int|
            0 <= e < n && end_of(#[trigger] edges[e], outgoing) == a ==> incident(
                edges,
                a,
                outgoing,
                n,
            ).contains(e as nat),
        forall|i: int, j: int|
            0 <= i < j < incident(edges, a, outgoing, n).len() ==> incident(
                edges,
                a,
                outgoing,
                n,
            )[i] > incident(edges, a, outgoing, n)[j],
    decreases n,
{
    if n > 0 {
        let e = (n - 1) as nat;
        let rest = incident(edges, a, outgoing, e);
        let all = incident(edges, a, outgoing, n);
        lemma_incident(edges, a, outgoing, e);
        if end_of(edges[e as int], outgoing) == a {
            assert(all == seq![e].add(rest));
            assert forall|x: int| 0 <= x < n && end_of(#[trigger] edges[x], outgoing)
                == a implies all.contains(x as nat) by {
                if x == e {
                    assert(all[0] == e);
                } else {
                    let k = rest.index_of(x as nat);
                    assert(rest.contains(x as nat));
                    assert(all[k + 1] == rest[k]);
                }
            }
            assert forall|i: int, j: int| 0 <= i < j < all.len() implies all[i] > all[j] by {
                assert(all[j] == rest[j - 1]);
                if i > 0 {
                    assert(all[i] == rest[i - 1]);
                }
            }
            assert forall|k: int| 0 <= k < all.len() implies (#[trigger] all[k]) < n && end_of(
                edges[all[k] as int],
                outgoing,
            ) == a by {
                if k > 0 {
                    assert(all[k] == rest[k - 1]);
                }
            }
        } else {
            assert(all == rest);
        }
    }
}

/// `Graph::new`: a graph without nodes and edges.
#[verifier::external_body]
pub(crate) fn topology_new() -> (g: Topology)
    ensures
        topology_nodes(g) == 0,
        topology_edges(g) == Seq::<(nat, nat)>::empty(),
{
    Topology { graph: petgraph::graph::Graph::new() }
}

/// `Graph::add_node`: the new node gets the next number. The outside function panics once
/// the graph holds as many nodes as `u32` can number.
#[verifier::external_body]
pub(crate) fn topology_add_node(g: &mut Topology) -> (n: usize)
    requires
        topology_nodes(*old(g)) < TOPOLOGY_LIMIT,
    ensures
        n == topology_nodes(*old(g)),
        topology_nodes(*final(g)) == topology_nodes(*old(g)) + 1,
        topology_edges(*final(g)) == topology_edges(*old(g)),
{
    g.graph.add_node(()).index()
}

/// `Graph::add_edge`: the new edge gets the next number. The outside function panics if
/// one of the nodes does not exist, or once the graph holds as many edges as `u32` can
/// number.
#[verifier::external_body]
pub(crate) fn topology_add_edge(g: &mut Topology, a: usize, b: usize) -> (e: usize)
    requires
        a < topology_nodes(*old(g)),
        b < topology_nodes(*old(g)),
        topology_edges(*old(g)).len() < TOPOLOGY_LIMIT,
    ensures
        e == topology_edges(*old(g)).len(),
        topology_nodes(*final(g)) == topology_nodes(*old(g)),
        topology_edges(*final(g)) == topology_edges(*old(g)).push((a as nat, b as nat)),
{
    g.graph.add_edge(NodeIndex::new(a), NodeIndex::new(b), ()).index()
}

/// `Graph::edge_endpoints`: the node that the edge leaves, and the one it enters.
#[verifier::external_body]
pub(crate) fn topology_endpoints(g: &Topology, e: usize) -> (r: (usize, usize))
    requires
        e < topology_edges(*g).len(),
    ensures
        r.0 == topology_edges(*g)[e as int].0,
        r.1 == topology_edges(*g)[e as int].1,
{
    let (a, b) = g.graph.edge_endpoints(EdgeIndex::new(e)).unwrap();
    (a.index(), b.index())
}

/// `Graph::edges_directed`: number, source and target of the edges that leave `a` (or
/// enter it), the latest first.
#[verifier::external_body]
pub(crate) fn topology_edges_directed(g: &Topology, a: usize, dir: Direction) -> (r: Vec<
    (usize, usize, usize),
>)
    requires
        a < topology_nodes(*g),
    ensures
        r@.len() == incident(
            topology_edges(*g),
            a as nat,
            dir is Outgoing,
            topology_edges(*g).len(),
        ).len(),
        forall|i: int|
            0 <= i < r@.len() ==> {
                &&& (#[trigger] r@[i]).0 == incident(
                    topology_edges(*g),
                    a as nat,
                    dir is Outgoing,
                    topology_edges(*g).len(),
                )[i]
                &&& r@[i].0 < topology_edges(*g).len()
                &&& r@[i].1 == topology_edges(*g)[r@[i].0 as int].0
                &&& r@[i].2 == topology_edges(*g)[r@[i].0 as int].1
            },
{
    g.graph
        .edges_directed(NodeIndex::new(a), dir)
        .map(|er| (er.id().index(), er.source().index(), er.target().index()))
        .collect()
}

/// The nodes that wait on the stack of a search, the next one last.
pub uninterp spec fn search_stack(s: Search) -> Seq<int>;

/// The nodes that a search has handed out.
pub uninterp spec fn search_discovered(s: Search) -> Set<int>;

/// The number of nodes that a search has room to mark: that of the graph it was made for,
/// at the time it was made.
pub uninterp spec fn search_size(s: Search) -> nat;

/// Whether `passable` lets an edge from `a` to `b` through.
pub open spec fn has_step(edges: Seq<(nat, nat)>, passable: Seq<bool>, a: int, b: int) -> bool {
    a >= 0 && b >= 0 && exists|e: int|
        0 <= e < edges.len() && e < passable.len() && passable[e] && #[trigger] edges[e] == (
            a as nat,
            b as nat,
        )
}

/// Whether the edge with the given number is let through.
fn passes(passable: &Vec<bool>, e: usize) -> (r: bool)
    requires
        e < passable@.len(),
    ensures
        r == passable@[e as int],
{
    passable[e]
}

/// `Dfs::empty`: a search over the graph that has discovered nothing and has room for the
/// nodes that the graph has now, here with `starts` put on its stack. Each start must be a
/// node of the graph: a node index holds 32 bits, and a larger number would be cut to them.
#[verifier::external_body]
pub(crate) fn search_start(g: &Topology, starts: Vec<usize>) -> (s: Search)
    requires
        forall|i: int| 0 <= i < starts@.len() ==> (#[trigger] starts@[i]) < topology_nodes(*g),
    ensures
        search_stack(s) == starts@.map_values(|n: usize| n as int),
        search_discovered(s) == Set::<int>::empty(),
        search_size(s) == topology_nodes(*g),
{
    let mut search = Dfs::empty(&g.graph);
    search.stack = starts.into_iter().map(NodeIndex::new).collect();
    search
}

/// `Dfs::next` on the graph without the edges that `passable` rules out. Nodes are taken
/// from the stack until one comes that was not discovered before; it is marked discovered
/// and handed out, and those of its successors that are not discovered are put on the
/// stack. With nothing new on the stack the search ends. The outside function panics on a
/// stack entry that is no node of the graph, or that the search has no room to mark, so
/// the graph must have as many nodes as when the search was made.
#[verifier::external_body]
pub(crate) fn search_next(s: &mut Search, g: &Topology, passable: &Vec<bool>) -> (r: Option<usize>)
    requires
        passable@.len() == topology_edges(*g).len(),
        search_size(*old(s)) == topology_nodes(*g),
        forall|i: int|
            0 <= i < search_stack(*old(s)).len() ==> 0 <= (#[trigger] search_stack(*old(s))[i])
                < topology_nodes(*g),
    ensures
        search_size(*final(s)) == search_size(*old(s)),
        r is None ==> {
            &&& search_stack(*final(s)).len() == 0
            &&& search_discovered(*final(s)) == search_discovered(*old(s))
            &&& forall|i: int|
                0 <= i < search_stack(*old(s)).len() ==> search_discovered(*old(s)).contains(
                    #[trigger] search_stack(*old(s))[i],
                )
        },
        r is Some ==> {
            &&& search_stack(*old(s)).contains(r->0 as int)
            &&& !search_discovered(*old(s)).contains(r->0 as int)
            &&& search_discovered(*final(s)) == search_discovered(*old(s)).insert(r->0 as int)
            &&& forall|i: int|
                0 <= i < search_stack(*final(s)).len() ==> search_stack(*old(s)).contains(
                    #[trigger] search_stack(*final(s))[i],
                ) || has_step(
                    topology_edges(*g),
                    passable@,
                    r->0 as int,
                    search_stack(*final(s))[i],
                )
            &&& forall|b: int|
                has_step(topology_edges(*g), passable@, r->0 as int, b) ==> search_discovered(
                    *final(s),
                ).contains(b) || search_stack(*final(s)).contains(b)
            &&& forall|i: int|
                0 <= i < search_stack(*old(s)).len() ==> search_stack(*final(s)).contains(
                    #[trigger] search_stack(*old(s))[i],
                ) || search_discovered(*final(s)).contains(search_stack(*old(s))[i])
        },
{
    s.next(&EdgeFiltered::from_fn(&g.graph, |er| passes(passable, er.id().index()))).map(|n| n.index())
}

} // verus!
