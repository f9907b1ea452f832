//! The compressed adjacency representation of graphix, as this library
//! sees it: for each vertex, the list of its half-edges.
use crate::text::{Weight, MAX_VERTEX};
use graphix::GraphRep;
use vstd::prelude::*;

verus! {

/// An edge as read: source vertex, target vertex, weight.
pub type Edge = (usize, usize, Weight);

/// A half-edge in a vertex's adjacency list: neighbour, weight, and the
/// position of the edge in the list the graph was built from.
pub type HalfEdge = (usize, Weight, usize);

#[verifier::external_type_specification]
#[verifier::external_body]
#[verifier::reject_recursive_types(K)]
pub struct ExGraphRep<K>(GraphRep<K>);

/// The adjacency lists of a graph, one per vertex `0 .. num_vertices()`.
pub uninterp spec fn adjacency_lists(g: GraphRep<Weight>) -> Seq<Seq<HalfEdge>>;

/// The largest endpoint among `edges` (0 when there is none).
pub open spec fn max_endpoint(edges: Seq<Edge>) -> nat
    decreases edges.len(),
{
    if edges.len() == 0 {
        0
    } else {
        let e = edges.last();
        let m = max_endpoint(edges.drop_last());
        let a = if e.0 >= e.1 { e.0 as nat } else { e.1 as nat };
        if a >= m { a } else { m }
    }
}

/// The number of vertices a list of edges spans: one more than its
/// largest endpoint, or 0 for no edges.
pub open spec fn vertex_count(edges: Seq<Edge>) -> nat {
    if edges.len() == 0 {
        0
    } else {
        max_endpoint(edges) + 1
    }
}

/// The half-edges that edge number `id` contributes to vertex `u`: the
/// one leaving its source, then the one leaving its target (both, for a
/// loop on `u`).
pub open spec fn half_edges(e: Edge, id: nat, u: usize) -> Seq<HalfEdge> {
    (if e.0 == u { seq![(e.1, e.2, id as usize)] } else { Seq::empty() })
        + (if e.1 == u { seq![(e.0, e.2, id as usize)] } else { Seq::empty() })
}

/// The adjacency list of vertex `u` in the graph built from `edges`:
/// the half-edges of every edge, in the order of the edges.
pub open spec fn adjacency(edges: Seq<Edge>, u: usize) -> Seq<HalfEdge>
    decreases edges.len(),
{
    if edges.len() == 0 {
        Seq::empty()
    } else {
        adjacency(edges.drop_last(), u) + half_edges(edges.last(), (edges.len() - 1) as nat, u)
    }
}

/// The adjacency lists of the graph built from `edges`.
pub open spec fn adjacency_of(edges: Seq<Edge>) -> Seq<Seq<HalfEdge>> {
    Seq::new(vertex_count(edges), |u: int| adjacency(edges, u as usize))
}

/// Edges that a graph can be built from: every endpoint is a valid vertex
/// index, and each edge's two half-edges can be counted.
pub open spec fn buildable(edges: Seq<Edge>) -> bool {
    &&& edges.len() <= usize::MAX / 2
    &&& forall|i: int| 0 <= i < edges.len() ==> (#[trigger] edges[i]).0 <= MAX_VERTEX
        && edges[i].1 <= MAX_VERTEX
}

/// Relies on graphix::GraphRep::from_list: it sizes the graph to one more
/// than the largest endpoint (no vertex for no edges) and scatters each
/// edge, in order, into the lists of its source and then its target.
#[verifier::external_body]
pub(crate) fn build_graph(edges: Vec<Edge>) -> (g: GraphRep<Weight>)
    requires
        buildable(edges@),
    ensures
        adjacency_lists(g) == adjacency_of(edges@),
{
    GraphRep::from_list(edges)
}

/// Relies on graphix::GraphRep::num_vertices: the number of adjacency lists.
#[verifier::external_body]
pub(crate) fn vertices(g: &GraphRep<Weight>) -> (n: usize)
    ensures
        n == adjacency_lists(*g).len(),
{
    g.num_vertices()
}

/// Relies on graphix::GraphRep::edges_from: the adjacency list of `u`,
/// which it panics on unless `u` is a vertex.
#[verifier::external_body]
pub(crate) fn neighbours(g: &GraphRep<Weight>, u: usize) -> (r: Vec<HalfEdge>)
    requires
        u < adjacency_lists(*g).len(),
    ensures
        r@ == adjacency_lists(*g)[u as int],
{
    g.edges_from(u).to_vec()
}

} // verus!
