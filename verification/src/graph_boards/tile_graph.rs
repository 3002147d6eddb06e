use vstd::prelude::*;
use petgraph::graph::{Graph, NodeIndex};
use petgraph::visit::EdgeRef;
use petgraph::{Directed, Outgoing};

use crate::piece_set::Color;

verus! {

#[verifier::external_type_specification]
#[verifier::external_body]
#[verifier::reject_recursive_types(N)]
#[verifier::reject_recursive_types(E)]
#[verifier::reject_recursive_types(Ty)]
#[verifier::reject_recursive_types(Ix)]
pub struct ExGraph<N, E, Ty, Ix>(Graph<N, E, Ty, Ix>);

#[verifier::external_type_specification]
#[verifier::external_body]
pub struct ExDirected(Directed);

/// The node weights of a board graph, by node index: each tile's
/// orientation and the color whose pawns start there.
pub uninterp spec fn graph_nodes(g: Graph<(u8, Option<Color>), u8>) -> Seq<(u8, Option<Color>)>;

/// The edges of a board graph in the order they were added, each as
/// source node, target node and direction.
pub uninterp spec fn graph_edges(g: Graph<(u8, Option<Color>), u8>) -> Seq<(usize, usize, u8)>;

/// The outgoing edges of node `a`, as target and direction: petgraph keeps
/// them in a list that each new edge is put in front of, so the most recently
/// added edge comes first.
pub open spec fn outgoing(edges: Seq<(usize, usize, u8)>, a: int) -> Seq<(usize, u8)>
    decreases edges.len(),
{
    if edges.len() == 0 {
        Seq::empty()
    } else {
        let e = edges.last();
        let rest = outgoing(edges.drop_last(), a);
        if e.0 == a {
            seq![(e.1, e.2)] + rest
        } else {
            rest
        }
    }
}

/// `Graph::new`: a directed graph with no nodes and no edges.
#[verifier::external_body]
pub(crate) fn graph_new() -> (g: Graph<(u8, Option<Color>), u8>)
    ensures
        graph_nodes(g) == Seq::<(u8, Option<Color>)>::empty(),
        graph_edges(g) == Seq::<(usize, usize, u8)>::empty(),
{
    Graph::new()
}

/// `Graph::add_node`: appends a node and returns its index, the former node
/// count. It panics when the count reaches the largest `u32`, which the
/// `requires` rules out.
#[verifier::external_body]
pub(crate) fn graph_add_node(g: &mut Graph<(u8, Option<Color>), u8>, weight: (u8, Option<Color>)) -> (r: usize)
    requires
        graph_nodes(*old(g)).len() < u32::MAX,
    ensures
        r == graph_nodes(*old(g)).len(),
        graph_nodes(*final(g)) == graph_nodes(*old(g)).push(weight),
        graph_edges(*final(g)) == graph_edges(*old(g)),
{
    g.add_node(weight).index()
}

/// `Graph::add_edge`: appends an edge from `a` to `b`. It panics when a node
/// does not exist or the edge count reaches the largest `u32`, which the
/// `requires` rules out.
#[verifier::external_body]
pub(crate) fn graph_add_edge(g: &mut Graph<(u8, Option<Color>), u8>, a: usize, b: usize, weight: u8)
    requires
        a < graph_nodes(*old(g)).len(),
        b < graph_nodes(*old(g)).len(),
        graph_edges(*old(g)).len() < u32::MAX,
    ensures
        graph_nodes(*final(g)) == graph_nodes(*old(g)),
        graph_edges(*final(g)) == graph_edges(*old(g)).push((a, b, weight)),
{
    g.add_edge(NodeIndex::new(a), NodeIndex::new(b), weight);
}

/// `Graph::node_count`.
#[verifier::external_body]
pub(crate) fn graph_node_count(g: &Graph<(u8, Option<Color>), u8>) -> (r: usize)
    ensures
        r == graph_nodes(*g).len(),
{
    g.node_count()
}

/// Indexing a graph by a node: the node's weight.
#[verifier::external_body]
pub(crate) fn graph_node_weight(g: &Graph<(u8, Option<Color>), u8>, a: usize) -> (r: (u8, Option<Color>))
    requires
        a < graph_nodes(*g).len(),
    ensures
        r == graph_nodes(*g)[a as int],
{
    g[NodeIndex::new(a)]
}

/// `Graph::edges_directed` with `Outgoing`: the edges leaving `a`, each as
/// target and direction, most recently added first.
#[verifier::external_body]
pub(crate) fn graph_outgoing(g: &Graph<(u8, Option<Color>), u8>, a: usize) -> (r: Vec<(usize, u8)>)
    requires
        a < graph_nodes(*g).len(),
    ensures
        r@ == outgoing(graph_edges(*g), a as int),
{
    g.edges_directed(NodeIndex::new(a), Outgoing).map(|e| (e.target().index(), *e.weight())).collect()
}

} // verus!
