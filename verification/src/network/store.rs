//! The graph container, and what is taken on trust about it.
//!
//! A genome lives in a `petgraph` graph. Verus cannot look inside one, so the
//! two sequences it holds are given names here, [`node_seq`] and
//! [`edge_seq`], and each container operation that the library calls is
//! wrapped in a function whose contract says what the operation does to those
//! sequences. The contracts are believed, not proved.
use vstd::prelude::*;
use petgraph::graph::{EdgeIndex, Graph, NodeIndex};
use petgraph::visit::EdgeRef;
use petgraph::Directed;
use crate::edge_data::EdgeData;
use crate::network::paths::{cyclic, linked, topological};
use crate::node_data::NodeData;

verus! {

/// `petgraph::graph::Graph`, taken as it is: nothing of its inside is known
/// but what the functions below say.
#[verifier::external_type_specification]
#[verifier::external_body]
#[verifier::reject_recursive_types(N)]
#[verifier::reject_recursive_types(E)]
#[verifier::reject_recursive_types(Ty)]
#[verifier::reject_recursive_types(Ix)]
pub struct ExGraph<N, E, Ty, Ix>(Graph<N, E, Ty, Ix>);

/// `petgraph::Directed`, the marker of graphs whose edges have a direction.
#[verifier::external_type_specification]
#[verifier::external_body]
pub struct ExDirected(Directed);

/// One connection as the container holds it: the indices of the two nodes it
/// joins, and the gene.
pub struct Link {
    pub source: int,
    pub target: int,
    pub data: EdgeData,
}

/// The node genes of a graph, by node index.
pub uninterp spec fn node_seq(g: Graph<NodeData, EdgeData, Directed, u32>) -> Seq<NodeData>;

/// The connections of a graph, by edge index.
pub uninterp spec fn edge_seq(g: Graph<NodeData, EdgeData, Directed, u32>) -> Seq<Link>;

/// `s` after its element at `i` was replaced by the last one and the last
/// place dropped.
pub open spec fn swap_removed<T>(s: Seq<T>, i: int) -> Seq<T> {
    s.update(i, s.last()).drop_last()
}

/// `link` with each endpoint `from` renamed to `to`.
pub open spec fn renamed(link: Link, from: int, to: int) -> Link {
    Link {
        source: if link.source == from { to } else { link.source },
        target: if link.target == from { to } else { link.target },
        data: link.data,
    }
}

/// Whether `link` starts or ends at `node`.
pub open spec fn touches(link: Link, node: int) -> bool {
    link.source == node || link.target == node
}

/// `Graph::new`: a graph without nodes or edges.
#[verifier::external_body]
pub(crate) fn empty_graph() -> (g: Graph<NodeData, EdgeData, Directed, u32>)
    ensures
        node_seq(g) == Seq::<NodeData>::empty(),
        edge_seq(g) == Seq::<Link>::empty(),
{
    Graph::new()
}

/// `Clone::clone` of a graph: the copy holds the same nodes and edges under
/// the same indices.
#[verifier::external_body]
pub(crate) fn clone_graph(g: &Graph<NodeData, EdgeData, Directed, u32>) -> (copy: Graph<
    NodeData,
    EdgeData,
    Directed,
    u32,
>)
    ensures
        node_seq(copy) == node_seq(*g),
        edge_seq(copy) == edge_seq(*g),
{
    g.clone()
}

/// `Graph::node_count`.
#[verifier::external_body]
pub(crate) fn node_count(g: &Graph<NodeData, EdgeData, Directed, u32>) -> (n: usize)
    ensures
        n == node_seq(*g).len(),
{
    g.node_count()
}

/// `Graph::edge_count`.
#[verifier::external_body]
pub(crate) fn edge_count(g: &Graph<NodeData, EdgeData, Directed, u32>) -> (n: usize)
    ensures
        n == edge_seq(*g).len(),
{
    g.edge_count()
}

/// `Graph::add_node`: the node is appended and its index returned. The
/// container panics once its 32-bit indices are used up, so the caller keeps
/// below that.
#[verifier::external_body]
pub(crate) fn add_node(g: &mut Graph<NodeData, EdgeData, Directed, u32>, data: NodeData) -> (index:
    usize)
    requires
        node_seq(*old(g)).len() < u32::MAX,
    ensures
        index == node_seq(*old(g)).len(),
        node_seq(*final(g)) == node_seq(*old(g)).push(data),
        edge_seq(*final(g)) == edge_seq(*old(g)),
{
    g.add_node(data).index()
}

/// `Graph::add_edge`: the edge is appended and its index returned; parallel
/// edges are allowed. The container panics on a node index out of bounds and
/// once its 32-bit indices are used up.
#[verifier::external_body]
pub(crate) fn add_edge(
    g: &mut Graph<NodeData, EdgeData, Directed, u32>,
    source: usize,
    target: usize,
    data: EdgeData,
) -> (index: usize)
    requires
        source < node_seq(*old(g)).len(),
        target < node_seq(*old(g)).len(),
        node_seq(*old(g)).len() <= u32::MAX,
        edge_seq(*old(g)).len() < u32::MAX,
    ensures
        index == edge_seq(*old(g)).len(),
        node_seq(*final(g)) == node_seq(*old(g)),
        edge_seq(*final(g)) == edge_seq(*old(g)).push(
            (Link { source: source as int, target: target as int, data }),
        ),
{
    g.add_edge(NodeIndex::new(source), NodeIndex::new(target), data).index()
}

/// Indexing a graph by a node index: the gene of that node.
#[verifier::external_body]
pub(crate) fn node_at(g: &Graph<NodeData, EdgeData, Directed, u32>, index: usize) -> (data:
    NodeData)
    requires
        index < node_seq(*g).len(),
        index <= u32::MAX,
    ensures
        data == node_seq(*g)[index as int],
{
    g[NodeIndex::new(index)]
}

/// `Graph::raw_edges` at one index: the two endpoints and the gene of that
/// edge.
#[verifier::external_body]
pub(crate) fn link_at(g: &Graph<NodeData, EdgeData, Directed, u32>, index: usize) -> (link: (
    usize,
    usize,
    EdgeData,
))
    requires
        index < edge_seq(*g).len(),
    ensures
        link.0 == edge_seq(*g)[index as int].source,
        link.1 == edge_seq(*g)[index as int].target,
        link.2 == edge_seq(*g)[index as int].data,
{
    let edge = &g.raw_edges()[index];
    (edge.source().index(), edge.target().index(), edge.weight)
}

/// Indexing a graph mutably by an edge index: the gene of that edge, to be
/// changed in place. Endpoints and everything else stay.
#[verifier::external_body]
pub(crate) fn edge_mut(g: &mut Graph<NodeData, EdgeData, Directed, u32>, index: usize) -> (data:
    &mut EdgeData)
    requires
        index < edge_seq(*old(g)).len(),
        index <= u32::MAX,
    ensures
        *data == edge_seq(*old(g))[index as int].data,
        node_seq(*final(g)) == node_seq(*old(g)),
        edge_seq(*final(g)) == edge_seq(*old(g)).update(
            index as int,
            (Link { data: *final(data), ..edge_seq(*old(g))[index as int] }),
        ),
{
    &mut g[EdgeIndex::new(index)]
}

/// Indexing a graph mutably by a node index: the gene of that node, to be
/// changed in place. Nothing else changes.
#[verifier::external_body]
pub(crate) fn node_mut(g: &mut Graph<NodeData, EdgeData, Directed, u32>, index: usize) -> (data:
    &mut NodeData)
    requires
        index < node_seq(*old(g)).len(),
        index <= u32::MAX,
    ensures
        *data == node_seq(*old(g))[index as int],
        node_seq(*final(g)) == node_seq(*old(g)).update(index as int, *final(data)),
        edge_seq(*final(g)) == edge_seq(*old(g)),
{
    &mut g[NodeIndex::new(index)]
}

/// `Graph::remove_edge`: the edge leaves, and the last edge takes over its
/// index.
#[verifier::external_body]
pub(crate) fn remove_edge(g: &mut Graph<NodeData, EdgeData, Directed, u32>, index: usize)
    requires
        index < edge_seq(*old(g)).len(),
        index <= u32::MAX,
    ensures
        node_seq(*final(g)) == node_seq(*old(g)),
        edge_seq(*final(g)) == swap_removed(edge_seq(*old(g)), index as int),
{
    g.remove_edge(EdgeIndex::new(index));
}

/// `Graph::remove_node`, called on a node that no edge touches: the node
/// leaves, the last node takes over its index, and the edges of that last
/// node follow it to the new index. No edge changes its own index.
#[verifier::external_body]
pub(crate) fn remove_node(g: &mut Graph<NodeData, EdgeData, Directed, u32>, index: usize)
    requires
        index < node_seq(*old(g)).len(),
        index <= u32::MAX,
        forall|e: int|
            0 <= e < edge_seq(*old(g)).len() ==> !touches(
                #[trigger] edge_seq(*old(g))[e],
                index as int,
            ),
    ensures
        node_seq(*final(g)) == swap_removed(node_seq(*old(g)), index as int),
        edge_seq(*final(g)) == edge_seq(*old(g)).map_values(
            |l: Link| renamed(l, node_seq(*old(g)).len() - 1, index as int),
        ),
{
    g.remove_node(NodeIndex::new(index));
}

/// `Graph::contains_edge`: whether some edge leads from `source` to `target`.
#[verifier::external_body]
pub(crate) fn contains_edge(
    g: &Graph<NodeData, EdgeData, Directed, u32>,
    source: usize,
    target: usize,
) -> (found: bool)
    requires
        source <= u32::MAX,
        target <= u32::MAX,
    ensures
        found == linked(edge_seq(*g), source as int, target as int),
{
    g.contains_edge(NodeIndex::new(source), NodeIndex::new(target))
}

/// `Graph::edges`: the indices of the edges that leave `node`, each once, in
/// the container's own order.
#[verifier::external_body]
pub(crate) fn outgoing(g: &Graph<NodeData, EdgeData, Directed, u32>, node: usize) -> (edges: Vec<
    usize,
>)
    requires
        node < node_seq(*g).len(),
        node <= u32::MAX,
    ensures
        forall|k: int|
            0 <= k < edges@.len() ==> (#[trigger] edges@[k]) < edge_seq(*g).len() && edge_seq(
                *g,
            )[edges@[k] as int].source == node,
        forall|j: int, k: int| 0 <= j < k < edges@.len() ==> edges@[j] != edges@[k],
        forall|e: int|
            0 <= e < edge_seq(*g).len() && (#[trigger] edge_seq(*g)[e]).source == node
                ==> edges@.contains(e as usize),
{
    g.edges(NodeIndex::new(node)).map(|edge| edge.id().index()).collect()
}

/// `petgraph::algo::is_cyclic_directed`: whether the graph contains a cycle.
/// A self-loop is a cycle; disabled connections count like any other.
#[verifier::external_body]
pub(crate) fn is_cyclic(g: &Graph<NodeData, EdgeData, Directed, u32>) -> (found: bool)
    ensures
        found == cyclic(edge_seq(*g)),
{
    petgraph::algo::is_cyclic_directed(g)
}

/// `petgraph::algo::toposort`: for a graph without a cycle, all its nodes in an
/// order in which every edge leads forward; for one with a cycle, nothing.
#[verifier::external_body]
pub(crate) fn toposort(g: &Graph<NodeData, EdgeData, Directed, u32>) -> (order: Option<Vec<usize>>)
    ensures
        order is None <==> cyclic(edge_seq(*g)),
        order matches Some(o) ==> topological(o@, node_seq(*g).len(), edge_seq(*g)),
{
    match petgraph::algo::toposort(g, None) {
        Ok(nodes) => Some(nodes.into_iter().map(|n| n.index()).collect()),
        Err(_) => None,
    }
}

} // verus!
