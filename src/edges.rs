use vstd::prelude::*;

verus! {

/// A weighted edge from `source` to `destination`, as handed to
/// `Tree::from_edge_list`.
#[derive(Debug, Clone, Copy, PartialEq, Eq, Structural)]
pub struct Edge {
    pub source: u64,
    pub destination: u64,
    pub weight: u64,
}

/// `v` is the source or the destination of some edge.
pub open spec fn is_endpoint(edges: Seq<Edge>, v: u64) -> bool {
    exists|k: int| 0 <= k < edges.len() && (#[trigger] edges[k].source == v || edges[k].destination == v)
}

/// `v` is the destination of some edge.
pub open spec fn is_destination(edges: Seq<Edge>, v: u64) -> bool {
    exists|k: int| 0 <= k < edges.len() && #[trigger] edges[k].destination == v
}

/// An endpoint that no edge points to.
pub open spec fn is_edge_root(edges: Seq<Edge>, v: u64) -> bool {
    is_endpoint(edges, v) && !is_destination(edges, v)
}

/// Two distinct edges share a destination.
pub open spec fn shares_destination(edges: Seq<Edge>) -> bool {
    exists|k1: int, k2: int|
        0 <= k1 < k2 < edges.len() && #[trigger] edges[k1].destination == #[trigger] edges[k2].destination
}

/// Every endpoint has an incoming edge.
pub open spec fn has_no_root(edges: Seq<Edge>) -> bool {
    forall|v: u64| is_endpoint(edges, v) ==> is_destination(edges, v)
}

/// At least two distinct endpoints have no incoming edge.
pub open spec fn has_several_roots(edges: Seq<Edge>) -> bool {
    exists|a: u64, b: u64| #![trigger is_edge_root(edges, a), is_edge_root(edges, b)]
        a != b && is_edge_root(edges, a) && is_edge_root(edges, b)
}

/// The position of an edge whose destination is `v` (the only one when no
/// destination is shared).
pub open spec fn incoming(edges: Seq<Edge>, v: u64) -> int {
    choose|k: int| 0 <= k < edges.len() && #[trigger] edges[k].destination == v
}

/// Following incoming edges backwards from `v`, a node without an incoming
/// edge is met within `fuel` steps.
pub open spec fn edge_reaches_root(edges: Seq<Edge>, v: u64, fuel: nat) -> bool
    decreases fuel,
{
    if !is_destination(edges, v) {
        true
    } else if fuel == 0 {
        false
    } else {
        edge_reaches_root(edges, edges[incoming(edges, v)].source, (fuel - 1) as nat)
    }
}

/// Every endpoint leads back to a node without incoming edge within
/// `edges.len()` steps, that is, no cycle lies on any backward path.
pub open spec fn all_reach_root(edges: Seq<Edge>) -> bool {
    forall|v: u64| is_endpoint(edges, v) ==> #[trigger] edge_reaches_root(edges, v, edges.len())
}

/// The edge list describes a single rooted tree.
pub open spec fn forms_tree(edges: Seq<Edge>) -> bool {
    &&& !shares_destination(edges)
    &&& !has_no_root(edges)
    &&& !has_several_roots(edges)
    &&& all_reach_root(edges)
}

/// Whether an edge leaves `v`.
pub open spec fn leaves(v: u64) -> spec_fn(Edge) -> bool {
    |e: Edge| e.source == v
}

/// The (destination, weight) pairs of the edges leaving `v`, in list order.
pub open spec fn outgoing(edges: Seq<Edge>, v: u64) -> Seq<(u64, u64)> {
    edges.filter(leaves(v)).map_values(|e: Edge| (e.destination, e.weight))
}

} // verus!
