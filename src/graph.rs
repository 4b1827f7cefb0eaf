//! The input graph, an `EditGraph` of graphbench, as the library sees it.
use graphbench::editgraph::EditGraph;
use graphbench::graph::{Graph, Vertex};
use vstd::prelude::*;

verus! {

#[verifier::external_type_specification]
#[verifier::external_body]
pub struct ExEditGraph(EditGraph);

/// What an `EditGraph` holds: each vertex with the set of its neighbours.
pub uninterp spec fn adjacency(g: EditGraph) -> Map<Vertex, Set<Vertex>>;

/// `w` is a vertex of `g` and has `u` among its neighbours.
pub open spec fn is_edge_to(g: EditGraph, w: Vertex, u: Vertex) -> bool {
    adjacency(g).dom().contains(w) && adjacency(g)[w].contains(u)
}

/// Relies on `Graph::vertices` of `EditGraph`, which walks the keys of its
/// adjacency map: every vertex, once.
#[verifier::external_body]
pub(crate) fn vertices_of(g: &EditGraph) -> (r: Vec<Vertex>)
    ensures
        r@.no_duplicates(),
        r@.to_set() == adjacency(*g).dom(),
{
    g.vertices().copied().collect()
}

/// Relies on `Graph::neighbours` of `EditGraph`, which walks the neighbour set
/// of `u` and panics when `u` is not a vertex. Every edit of an `EditGraph`
/// (`add_vertex`, `add_edge`, `remove_edge`, `remove_vertex`) keeps each
/// neighbour a vertex and stores each edge at both of its ends.
#[verifier::external_body]
pub(crate) fn neighbours_of(g: &EditGraph, u: Vertex) -> (r: Vec<Vertex>)
    requires
        adjacency(*g).dom().contains(u),
    ensures
        r@.no_duplicates(),
        r@.to_set() == adjacency(*g)[u],
        forall|w: Vertex| #[trigger] r@.contains(w) <==> is_edge_to(*g, w, u),
{
    g.neighbours(&u).copied().collect()
}

/// Relies on `Graph::adjacent` of `EditGraph`: `w` is in the neighbour set of
/// `u`, and `u` is a vertex.
#[verifier::external_body]
pub(crate) fn adjacent(g: &EditGraph, u: Vertex, w: Vertex) -> (r: bool)
    ensures
        r == (adjacency(*g).dom().contains(u) && adjacency(*g)[u].contains(w)),
{
    g.adjacent(&u, &w)
}

} // verus!
