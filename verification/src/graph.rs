use petgraph::graph::{EdgeIndex, Graph, NodeIndex};
use petgraph::Directed;
use vstd::prelude::*;

verus! {

#[verifier::external_type_specification]
#[verifier::external_body]
pub struct ExDirected(Directed);

#[verifier::external_type_specification]
#[verifier::external_body]
#[verifier::reject_recursive_types(N)]
#[verifier::reject_recursive_types(E)]
#[verifier::reject_recursive_types(Ty)]
#[verifier::reject_recursive_types(Ix)]
pub struct ExGraph<N, E, Ty, Ix>(Graph<N, E, Ty, Ix>);

/// The node weights of a graph, by node index.
pub uninterp spec fn graph_nodes(g: Graph<bool, char, Directed, usize>) -> Seq<bool>;

/// The edges of a graph, by edge index: source node, target node, weight.
pub uninterp spec fn graph_edges(g: Graph<bool, char, Directed, usize>) -> Seq<(usize, usize, char)>;

/// The outgoing edge list of each node, by node index: the indices of the
/// edges leaving the node, in the order in which the graph links them, from
/// the head of the list on.
pub uninterp spec fn graph_out_lists(g: Graph<bool, char, Directed, usize>) -> Seq<Seq<usize>>;

/// The first edge of `list` that goes to `b`, if any; the list ends early at
/// an index that is no edge.
pub open spec fn first_edge_to(edges: Seq<(usize, usize, char)>, list: Seq<usize>, b: usize) -> Option<usize>
    decreases list.len(),
{
    if list.len() == 0 || list[0] >= edges.len() {
        None
    } else if edges[list[0] as int].1 == b {
        Some(list[0])
    } else {
        first_edge_to(edges, list.drop_first(), b)
    }
}

/// What `Graph::find_edge` from `a` to `b` gives: the first edge to `b` in the
/// outgoing list of `a`, or `None` when `a` is no node.
pub open spec fn found_edge(g: Graph<bool, char, Directed, usize>, a: usize, b: usize) -> Option<usize> {
    if a < graph_nodes(g).len() {
        first_edge_to(graph_edges(g), graph_out_lists(g)[a as int], b)
    } else {
        None
    }
}

/// Calls `Graph::node_count`, which is the number of nodes.
#[verifier::external_body]
pub(crate) fn graph_node_count(g: &Graph<bool, char, Directed, usize>) -> (n: usize)
    ensures
        n == graph_nodes(*g).len(),
{
    g.node_count()
}

/// Calls `Graph::add_node`: the new node gets the next index, the given weight
/// and an empty outgoing list; edges are untouched. (With `usize` indices it
/// has no node limit.)
#[verifier::external_body]
pub(crate) fn graph_add_node(g: &mut Graph<bool, char, Directed, usize>, weight: bool) -> (idx: usize)
    ensures
        idx == graph_nodes(*old(g)).len(),
        graph_nodes(*final(g)) == graph_nodes(*old(g)).push(weight),
        graph_edges(*final(g)) == graph_edges(*old(g)),
        graph_out_lists(*final(g)) == graph_out_lists(*old(g)).push(seq![]),
{
    g.add_node(weight).index()
}

/// Calls `Graph::add_edge` from `a` to `b`: the edge is appended with the next
/// edge index and put at the head of the outgoing list of `a`; nodes are
/// untouched. It panics when a node does not exist, which `requires` rules out.
#[verifier::external_body]
pub(crate) fn graph_add_edge(g: &mut Graph<bool, char, Directed, usize>, a: usize, b: usize, weight: char) -> (idx: usize)
    requires
        a < graph_nodes(*old(g)).len(),
        b < graph_nodes(*old(g)).len(),
    ensures
        idx == graph_edges(*old(g)).len(),
        graph_edges(*final(g)) == graph_edges(*old(g)).push((a, b, weight)),
        graph_nodes(*final(g)) == graph_nodes(*old(g)),
        graph_out_lists(*final(g)) == graph_out_lists(*old(g)).update(
            a as int,
            seq![idx] + graph_out_lists(*old(g))[a as int],
        ),
{
    let e: EdgeIndex<usize> = g.add_edge(NodeIndex::new(a), NodeIndex::new(b), weight);
    e.index()
}

/// Calls `Graph::find_edge` from `a` to `b`, which walks the outgoing list of
/// `a` from its head and gives the first edge to `b` (see [`found_edge`]): an
/// edge from `a` to `b` when there is one, and `None` when there is none.
#[verifier::external_body]
pub(crate) fn graph_find_edge(g: &Graph<bool, char, Directed, usize>, a: usize, b: usize) -> (r: Option<usize>)
    ensures
        r == found_edge(*g, a, b),
        r matches Some(e) ==> e < graph_edges(*g).len() && graph_edges(*g)[e as int].0 == a && graph_edges(*g)[e as int].1
            == b,
        r is None ==> forall|e: int|
            0 <= e < graph_edges(*g).len() ==> !((#[trigger] graph_edges(*g)[e]).0 == a && graph_edges(*g)[e].1 == b),
{
    match g.find_edge(NodeIndex::new(a), NodeIndex::new(b)) {
        Some(e) => Some(e.index()),
        None => None,
    }
}

/// Calls `Graph::edge_weight`: the weight of edge `e`, or `None` when there is
/// no such edge.
#[verifier::external_body]
pub(crate) fn graph_edge_weight(g: &Graph<bool, char, Directed, usize>, e: usize) -> (r: Option<char>)
    ensures
        r == if e < graph_edges(*g).len() {
            Some(graph_edges(*g)[e as int].2)
        } else {
            None
        },
{
    g.edge_weight(EdgeIndex::new(e)).copied()
}

} // verus!
