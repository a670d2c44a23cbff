//! The directed adjacency index of the graph store.
//!
//! The index itself is `petgraph`'s `DiGraphMap`, keyed by raw node ids and
//! carrying raw edge ids as weights; it associates at most one edge id with a
//! given ordered pair of endpoints. Its contents are named by the
//! uninterpreted map [`adj_map`], and every operation the store performs on it
//! goes through a trusted wrapper whose contract states, over that map, what
//! `petgraph`'s source shows.

use vstd::prelude::*;

verus! {

#[verifier::external_type_specification]
#[verifier::external_body]
#[verifier::reject_recursive_types(N)]
#[verifier::reject_recursive_types(E)]
#[verifier::reject_recursive_types(Ty)]
#[verifier::reject_recursive_types(S)]
pub struct ExGraphMap<N, E, Ty, S>(petgraph::graphmap::GraphMap<N, E, Ty, S>) where
    S: std::hash::BuildHasher;

#[verifier::external_type_specification]
#[verifier::external_body]
pub struct ExDirected(petgraph::Directed);

/// The adjacency index used by the graph store: raw node ids, directed edges,
/// raw edge ids as weights.
pub type AdjIndex = petgraph::graphmap::DiGraphMap<usize, usize>;

/// What the index holds: the map from an ordered pair of endpoint ids to the
/// id of the one edge registered between them in that order.
pub uninterp spec fn adj_map(g: AdjIndex) -> Map<(usize, usize), usize>;

/// An index with no registered edges.
pub open spec fn adj_is_empty(g: AdjIndex) -> bool {
    adj_map(g) == Map::<(usize, usize), usize>::empty()
}

/// Relies on `GraphMap::new`: a fresh index holds no edges.
#[verifier::external_body]
pub(crate) fn adj_new() -> (g: AdjIndex)
    ensures
        adj_is_empty(g),
{
    petgraph::graphmap::DiGraphMap::new()
}

/// Relies on `GraphMap::add_edge`: the weight stored for the ordered pair
/// `(a, b)` becomes `e`, nothing else changes, and the weight previously
/// stored for that pair (if any) is returned.
#[verifier::external_body]
pub(crate) fn adj_add_edge(g: &mut AdjIndex, a: usize, b: usize, e: usize) -> (prev: Option<usize>)
    ensures
        adj_map(*final (g)) == adj_map(*old(g)).insert((a, b), e),
        prev matches Some(p) ==> adj_map(*old(g)).contains_key((a, b)) && adj_map(
            *old(g),
        )[(a, b)] == p,
        prev is None ==> !adj_map(*old(g)).contains_key((a, b)),
{
    g.add_edge(a, b, e)
}

/// Relies on `GraphMap::edge_weight`: returns the weight stored for the
/// ordered pair `(a, b)`, or `None` if no edge connects `a` to `b` in that
/// order.
#[verifier::external_body]
pub(crate) fn adj_edge_weight(g: &AdjIndex, a: usize, b: usize) -> (w: Option<usize>)
    ensures
        w matches Some(e) ==> adj_map(*g).contains_key((a, b)) && adj_map(*g)[(a, b)] == e,
        w is None ==> !adj_map(*g).contains_key((a, b)),
{
    g.edge_weight(a, b).copied()
}

/// Relies on `GraphMap::neighbors_directed`: in a directed graph the incoming
/// (resp. outgoing) neighbors of `n` are exactly the nodes `m` with an edge
/// `m -> n` (resp. `n -> m`), each produced once, in an order the source
/// leaves open; a node with no such edges has none.
#[verifier::external_body]
pub(crate) fn adj_neighbors(g: &AdjIndex, n: usize, incoming: bool) -> (ns: Vec<usize>)
    ensures
        forall|i: int, j: int| 0 <= i < j < ns@.len() ==> ns@[i] != ns@[j],
        forall|m: usize|
            #[trigger] ns@.contains(m) <==> adj_map(*g).contains_key(
                if incoming {
                    (m, n)
                } else {
                    (n, m)
                },
            ),
{
    let dir = if incoming {
        petgraph::Direction::Incoming
    } else {
        petgraph::Direction::Outgoing
    };
    g.neighbors_directed(n, dir).collect()
}

} // verus!
