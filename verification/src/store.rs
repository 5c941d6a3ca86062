//! The petgraph containers that hold the network, and the calls made on them.
//! Nothing in this module is proved: each contract states what the called
//! petgraph function does, over the contents of the container.

use vstd::prelude::*;
use petgraph::graph::Graph;
use petgraph::graph::NodeIndex;
use petgraph::stable_graph::StableGraph;
use petgraph::Undirected;
use crate::centrality::unit_cost;
use crate::model::{connected, degree, is_distance_table, without_node};

verus! {

/// `petgraph::graph::Graph`, carried as an opaque value.
#[verifier::external_type_specification]
#[verifier::external_body]
#[verifier::reject_recursive_types(N)]
#[verifier::reject_recursive_types(E)]
#[verifier::reject_recursive_types(Ty)]
#[verifier::reject_recursive_types(Ix)]
pub struct ExGraph<N, E, Ty, Ix>(Graph<N, E, Ty, Ix>);

/// `petgraph::stable_graph::StableGraph`, carried as an opaque value.
#[verifier::external_type_specification]
#[verifier::external_body]
#[verifier::reject_recursive_types(N)]
#[verifier::reject_recursive_types(E)]
#[verifier::reject_recursive_types(Ty)]
#[verifier::reject_recursive_types(Ix)]
pub struct ExStableGraph<N, E, Ty, Ix>(StableGraph<N, E, Ty, Ix>);

/// `petgraph::Undirected`, the marker of an undirected graph.
#[verifier::external_type_specification]
#[verifier::external_body]
pub struct ExUndirected(Undirected);

/// The node weights of a graph, in node index order.
pub uninterp spec fn graph_labels(g: Graph<String, (), Undirected>) -> Seq<Seq<char>>;

/// The end nodes of the edges of a graph, in edge index order.
pub uninterp spec fn graph_edges(g: Graph<String, (), Undirected>) -> Seq<(int, int)>;

/// The end nodes of the edges that a stable graph still holds, in edge index
/// order.
pub uninterp spec fn working_edges(g: StableGraph<String, (), Undirected>) -> Seq<(int, int)>;

/// `Graph::new_undirected`: a graph without nodes or edges.
#[verifier::external_body]
pub(crate) fn new_graph() -> (g: Graph<String, (), Undirected>)
    ensures
        graph_labels(g) == Seq::<Seq<char>>::empty(),
        graph_edges(g) == Seq::<(int, int)>::empty(),
{
    Graph::new_undirected()
}

/// `Graph::node_count`: the number of nodes. Node indices are 32 bits wide and
/// `add_node` refuses the index `u32::MAX`, so the count never exceeds it.
#[verifier::external_body]
pub(crate) fn count_nodes(g: &Graph<String, (), Undirected>) -> (n: usize)
    ensures
        n == graph_labels(*g).len(),
        n <= u32::MAX,
{
    g.node_count()
}

/// `Graph::edge_count`: the number of edges.
#[verifier::external_body]
pub(crate) fn count_edges(g: &Graph<String, (), Undirected>) -> (n: usize)
    ensures
        n == graph_edges(*g).len(),
{
    g.edge_count()
}

/// `Graph::add_node`: appends a node with the given weight and returns its
/// index, the former node count. It panics where that index would be
/// `u32::MAX`. The edges stay.
#[verifier::external_body]
pub(crate) fn push_node(g: &mut Graph<String, (), Undirected>, label: String) -> (i: usize)
    requires
        graph_labels(*old(g)).len() < u32::MAX,
    ensures
        i == graph_labels(*old(g)).len(),
        graph_labels(*final(g)) == graph_labels(*old(g)).push(label@),
        graph_edges(*final(g)) == graph_edges(*old(g)),
{
    g.add_node(label).index()
}

/// `Graph::add_edge`: appends an edge between two nodes. It panics where a node
/// does not exist or the new edge index would be `u32::MAX`. The nodes stay.
#[verifier::external_body]
pub(crate) fn push_edge(g: &mut Graph<String, (), Undirected>, a: usize, b: usize)
    requires
        a < graph_labels(*old(g)).len(),
        b < graph_labels(*old(g)).len(),
        graph_edges(*old(g)).len() < u32::MAX,
    ensures
        graph_labels(*final(g)) == graph_labels(*old(g)),
        graph_edges(*final(g)) == graph_edges(*old(g)).push((a as int, b as int)),
{
    g.add_edge(NodeIndex::new(a), NodeIndex::new(b), ());
}

/// Indexing a `Graph` by a node index: a copy of that node's weight. It panics
/// where the node does not exist.
#[verifier::external_body]
pub(crate) fn label_at(g: &Graph<String, (), Undirected>, i: usize) -> (label: String)
    requires
        i < graph_labels(*g).len(),
    ensures
        label@ == graph_labels(*g)[i as int],
{
    g[NodeIndex::new(i)].clone()
}

/// `Graph::neighbors`, counted: in an undirected graph it yields one item for
/// each edge from or to the node, a loop once.
#[verifier::external_body]
pub(crate) fn count_neighbors(g: &Graph<String, (), Undirected>, i: usize) -> (n: usize)
    requires
        i < graph_labels(*g).len(),
    ensures
        n == degree(graph_edges(*g), i as int),
{
    g.neighbors(NodeIndex::new(i)).count()
}

/// `petgraph::algo::has_path_connecting`: whether a path leads from one node to
/// the other; a node reaches itself.
#[verifier::external_body]
pub(crate) fn path_exists(g: &Graph<String, (), Undirected>, a: usize, b: usize) -> (r: bool)
    requires
        a < graph_labels(*g).len(),
        b < graph_labels(*g).len(),
    ensures
        r == connected(graph_edges(*g), a as int, b as int),
{
    petgraph::algo::has_path_connecting(g, NodeIndex::new(a), NodeIndex::new(b), None)
}

/// `petgraph::algo::dijkstra` without a goal and with every edge at cost one:
/// it returns, for each node that can be reached from the start and for no
/// other, the least number of edges on a path to it; the start itself at zero.
/// The entries of the returned hash map are handed out as pairs, in no
/// particular order.
#[verifier::external_body]
pub(crate) fn unit_distances(g: &Graph<String, (), Undirected>, src: usize) -> (t: Vec<(usize, u64)>)
    requires
        src < graph_labels(*g).len(),
    ensures
        is_distance_table(graph_edges(*g), graph_labels(*g).len(), src as int, t@),
{
    petgraph::algo::dijkstra(g, NodeIndex::new(src), None, |_| unit_cost())
        .into_iter()
        .map(|(k, v)| (k.index(), v))
        .collect()
}

/// `Graph::clone`: a graph of its own with the same nodes and edges.
#[verifier::external_body]
pub(crate) fn copy_graph(g: &Graph<String, (), Undirected>) -> (c: Graph<String, (), Undirected>)
    ensures
        graph_labels(c) == graph_labels(*g),
        graph_edges(c) == graph_edges(*g),
{
    g.clone()
}

/// `StableGraph::from` a `Graph`: a stable graph that holds the same edges
/// between the same node indices, in the same order.
#[verifier::external_body]
pub(crate) fn into_working(g: Graph<String, (), Undirected>) -> (w: StableGraph<String, (), Undirected>)
    ensures
        working_edges(w) == graph_edges(g),
{
    StableGraph::from(g)
}

/// `StableGraph::edges`, counted: in an undirected graph it yields each edge
/// that the graph still holds and that is connected to the node, a loop once.
/// A node that was removed has none. No edge count exceeds `u32::MAX`.
#[verifier::external_body]
pub(crate) fn working_degree(w: &StableGraph<String, (), Undirected>, i: usize) -> (n: usize)
    requires
        i <= u32::MAX,
    ensures
        n == degree(working_edges(*w), i as int),
        n <= u32::MAX,
{
    w.edges(NodeIndex::new(i)).count()
}

/// `StableGraph::remove_node`: removes the node and every edge with an end in
/// it. No other node or edge changes its index, so the edges that stay keep
/// their order.
#[verifier::external_body]
pub(crate) fn drop_node(w: &mut StableGraph<String, (), Undirected>, i: usize)
    requires
        i <= u32::MAX,
    ensures
        working_edges(*final(w)) == without_node(working_edges(*old(w)), i as int),
{
    w.remove_node(NodeIndex::new(i));
}

} // verus!
