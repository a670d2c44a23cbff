//! The graph store: nodes and edges owned by id, plus the directed adjacency
//! index. The store is filled once (by ingestion, outside this crate) and
//! every other operation is a read-only lookup.

use vstd::prelude::*;

use crate::adjacency::{adj_add_edge, adj_edge_weight, adj_map, adj_neighbors, adj_new, AdjIndex};
use crate::types::{EdgeType, NodeType};

verus! {

/// An identifier used to reference a node.
#[derive(Debug, PartialEq, Eq, Structural, Hash, Clone, Copy, PartialOrd, Ord)]
pub struct NodeId(pub usize);

/// An identifier used to reference an edge.
#[derive(Debug, PartialEq, Eq, Structural, Hash, Clone, Copy, PartialOrd, Ord)]
pub struct EdgeId(pub usize);

impl From<usize> for NodeId {
    fn from(v: usize) -> (r: Self) {
        NodeId(v)
    }
}

impl vstd::std_specs::convert::FromSpecImpl<usize> for NodeId {
    open spec fn obeys_from_spec() -> bool {
        true
    }

    open spec fn from_spec(v: usize) -> Self {
        NodeId(v)
    }
}

impl From<usize> for EdgeId {
    fn from(v: usize) -> (r: Self) {
        EdgeId(v)
    }
}

impl vstd::std_specs::convert::FromSpecImpl<usize> for EdgeId {
    open spec fn obeys_from_spec() -> bool {
        true
    }

    open spec fn from_spec(v: usize) -> Self {
        EdgeId(v)
    }
}

/// A node, representing a side effect of a page load. Its timestamp may be a
/// sentinel (the root carries no meaningful time); nodes are immutable once
/// inserted.
#[derive(Debug, PartialEq, Eq, Clone)]
pub struct Node {
    pub node_timestamp: isize,
    pub node_type: NodeType,
}

/// An edge, representing an action taken during page load. Only synthetic
/// structural edges may lack a timestamp.
#[derive(Debug, PartialEq, Eq, Clone)]
pub struct Edge {
    pub edge_timestamp: Option<isize>,
    pub edge_type: EdgeType,
}

/// The direction of a one-hop traversal from a node.
#[derive(Debug, PartialEq, Eq, Structural, Clone, Copy)]
pub enum Direction {
    Incoming,
    Outgoing,
}

/// How a query fails. Every variant but `NotFound` signals that a
/// precondition the caller (ultimately, ingestion) was responsible for has
/// been violated; none of them is ever coerced into an empty result.
#[derive(Debug, PartialEq, Eq, Structural, Clone, Copy)]
pub enum GraphError {
    /// The given id names no node or edge of the store.
    NotFound,
    /// A kind-specific query was handed a node of the wrong kind.
    WrongNodeKind,
    /// A modification edge carries no timestamp.
    MissingTimestamp,
    /// The number of indegree-0 DOM roots differs from one.
    RootCountViolation,
    /// The unique DOM root has no URL.
    MissingRootUrl,
    /// The page's root URL cannot be parsed.
    UnparseableSourceUrl,
    /// The page's root URL has no host.
    SourceUrlNoHost,
    /// A resource URL parses but has no host.
    RequestUrlNoHost,
    /// A host cannot be parsed against the public-suffix domain grammar.
    UnparseableDomain,
    /// A resource node has no incoming request-start edge.
    NoRequestStart,
    /// A resource node was requested with more than one request type.
    InconsistentRequestTypes,
    /// Causal tracing is not modeled for the node's kind.
    UnsupportedNodeKind,
}

/// The main page-load graph data structure.
#[derive(Debug)]
pub struct PageGraph {
    pub nodes: Vec<(NodeId, Node)>,
    pub edges: Vec<(EdgeId, Edge)>,
    pub graph: AdjIndex,
}

/// Whether some pair in `s` carries `id` as its first component.
pub open spec fn contains_id<A, B>(s: Seq<(A, B)>, id: A) -> bool {
    exists|j: int| 0 <= j < s.len() && s[j].0 == id
}

/// The ordered endpoint pair an edge occupies in the adjacency index when
/// seen from node `n` in the given direction.
pub open spec fn dir_pair(incoming: bool, m: usize, n: usize) -> (usize, usize) {
    if incoming {
        (m, n)
    } else {
        (n, m)
    }
}

impl PageGraph {
    /// The adjacency index's contents: ordered endpoint pair to edge id.
    pub open spec fn adj(self) -> Map<(usize, usize), usize> {
        adj_map(self.graph)
    }

    pub open spec fn has_node(self, id: NodeId) -> bool {
        exists|i: int| 0 <= i < self.nodes@.len() && self.nodes@[i].0 == id
    }

    pub open spec fn node_index(self, id: NodeId) -> int {
        choose|i: int| 0 <= i < self.nodes@.len() && self.nodes@[i].0 == id
    }

    /// The node stored under `id` (meaningful only when `has_node(id)`).
    pub open spec fn node_at(self, id: NodeId) -> Node {
        self.nodes@[self.node_index(id)].1
    }

    pub open spec fn has_edge(self, id: EdgeId) -> bool {
        exists|i: int| 0 <= i < self.edges@.len() && self.edges@[i].0 == id
    }

    pub open spec fn edge_index(self, id: EdgeId) -> int {
        choose|i: int| 0 <= i < self.edges@.len() && self.edges@[i].0 == id
    }

    /// The edge stored under `id` (meaningful only when `has_edge(id)`).
    pub open spec fn edge_at(self, id: EdgeId) -> Edge {
        self.edges@[self.edge_index(id)].1
    }

    /// Well-formedness of a store as ingestion must deliver it: ids are
    /// unique, every adjacency entry connects existing nodes through an
    /// existing edge, and no edge id is registered for two ordered pairs.
    pub open spec fn wf(self) -> bool {
        &&& forall|i: int, j: int|
            0 <= i < j < self.nodes@.len() ==> self.nodes@[i].0 != self.nodes@[j].0
        &&& forall|i: int, j: int|
            0 <= i < j < self.edges@.len() ==> self.edges@[i].0 != self.edges@[j].0
        &&& forall|p: (usize, usize)|
            #[trigger] self.adj().contains_key(p) ==> self.has_node(NodeId(p.0)) && self.has_node(
                NodeId(p.1),
            ) && self.has_edge(EdgeId(self.adj()[p]))
        &&& forall|p: (usize, usize), q: (usize, usize)|
            #[trigger] self.adj().contains_key(p) && #[trigger] self.adj().contains_key(q)
                && self.adj()[p] == self.adj()[q] ==> p == q
    }

    /// Matching a stored entry back to the `node_at`/`node_index` view.
    pub proof fn lemma_node_entry(self, i: int)
        requires
            self.wf(),
            0 <= i < self.nodes@.len(),
        ensures
            self.has_node(self.nodes@[i].0),
            self.node_index(self.nodes@[i].0) == i,
            self.node_at(self.nodes@[i].0) == self.nodes@[i].1,
    {
        let id = self.nodes@[i].0;
        assert(self.has_node(id));
        let j = self.node_index(id);
        if i < j {
            assert(self.nodes@[i].0 != self.nodes@[j].0);
        } else if j < i {
            assert(self.nodes@[j].0 != self.nodes@[i].0);
        }
    }

    /// Matching a stored entry back to the `edge_at`/`edge_index` view.
    pub proof fn lemma_edge_entry(self, i: int)
        requires
            self.wf(),
            0 <= i < self.edges@.len(),
        ensures
            self.has_edge(self.edges@[i].0),
            self.edge_index(self.edges@[i].0) == i,
            self.edge_at(self.edges@[i].0) == self.edges@[i].1,
    {
        let id = self.edges@[i].0;
        assert(self.has_edge(id));
        let j = self.edge_index(id);
        if i < j {
            assert(self.edges@[i].0 != self.edges@[j].0);
        } else if j < i {
            assert(self.edges@[j].0 != self.edges@[i].0);
        }
    }

    /// An empty store.
    pub fn new() -> (g: Self)
        ensures
            g.wf(),
            g.nodes@.len() == 0,
            g.edges@.len() == 0,
            g.adj() == Map::<(usize, usize), usize>::empty(),
    {
        let g = PageGraph { nodes: Vec::new(), edges: Vec::new(), graph: adj_new() };
        g
    }

    /// Register a node under a fresh id. Ingestion's single construction pass
    /// is the only writer; the id allocator guarantees freshness.
    pub fn insert_node(&mut self, id: NodeId, node: Node)
        requires
            old(self).wf(),
            !old(self).has_node(id),
        ensures
            final (self).wf(),
            final (self).nodes@ == old(self).nodes@.push((id, node)),
            final (self).edges@ == old(self).edges@,
            final (self).adj() == old(self).adj(),
            final (self).has_node(id),
            final (self).node_at(id) == node,
            forall|m: NodeId| old(self).has_node(m) ==> final (self).has_node(m),
            forall|m: NodeId|
                #[trigger] final (self).has_node(m) ==> m == id || old(self).has_node(m),
            forall|m: NodeId|
                old(self).has_node(m) ==> final (self).node_at(m) == old(self).node_at(m),
    {
        let ghost pre = *self;
        self.nodes.push((id, node));
        proof {
            let n = pre.nodes@.len() as int;
            assert forall|m: NodeId| pre.has_node(m) implies self.has_node(m) by {
                let i = choose|i: int| 0 <= i < pre.nodes@.len() && pre.nodes@[i].0 == m;
                assert(self.nodes@[i].0 == m);
            }
            assert forall|i: int, j: int|
                0 <= i < j < self.nodes@.len() implies self.nodes@[i].0 != self.nodes@[j].0 by {
                if j == n {
                    if self.nodes@[i].0 == id {
                        assert(pre.nodes@[i].0 == id);
                        assert(pre.has_node(id));
                    }
                } else {
                    assert(pre.nodes@[i].0 != pre.nodes@[j].0);
                }
            }
            assert(self.edges@ == pre.edges@);
            assert(self.adj() == pre.adj());
            assert forall|p: (usize, usize)| #[trigger]
                self.adj().contains_key(p) implies self.has_node(NodeId(p.0)) && self.has_node(
                NodeId(p.1),
            ) && self.has_edge(EdgeId(self.adj()[p])) by {
                assert(pre.adj().contains_key(p));
                assert(pre.has_node(NodeId(p.0)) && pre.has_node(NodeId(p.1)));
                assert(pre.has_edge(EdgeId(pre.adj()[p])));
            }
            assert(self.wf());
            self.lemma_node_entry(n);
            assert forall|m: NodeId| pre.has_node(m) implies self.node_at(m) == pre.node_at(
                m,
            ) by {
                let i = pre.node_index(m);
                pre.lemma_node_entry(i);
                self.lemma_node_entry(i);
            }
            assert forall|m: NodeId| #[trigger]
                self.has_node(m) implies m == id || pre.has_node(m) by {
                let i = choose|i: int| 0 <= i < self.nodes@.len() && self.nodes@[i].0 == m;
                if i < n {
                    assert(pre.nodes@[i].0 == m);
                }
            }
        }
    }

    /// Register a directed edge under a fresh id between existing nodes. If
    /// an edge was already registered for the same ordered pair, the new one
    /// replaces it in the adjacency index while the old one stays in the edge
    /// mapping, unreachable by traversal — the store keeps at most one edge
    /// per ordered pair.
    pub fn insert_edge(&mut self, id: EdgeId, from: NodeId, to: NodeId, edge: Edge)
        requires
            old(self).wf(),
            old(self).has_node(from),
            old(self).has_node(to),
            !old(self).has_edge(id),
        ensures
            final (self).wf(),
            final (self).nodes@ == old(self).nodes@,
            final (self).edges@ == old(self).edges@.push((id, edge)),
            final (self).adj() == old(self).adj().insert((from.0, to.0), id.0),
            final (self).has_edge(id),
            final (self).edge_at(id) == edge,
            forall|e: EdgeId| old(self).has_edge(e) ==> final (self).has_edge(e),
            forall|e: EdgeId|
                old(self).has_edge(e) ==> final (self).edge_at(e) == old(self).edge_at(e),
            forall|m: NodeId| final (self).has_node(m) == old(self).has_node(m),
            forall|m: NodeId|
                old(self).has_node(m) ==> final (self).node_at(m) == old(self).node_at(m),
    {
        let ghost pre = *self;
        self.edges.push((id, edge));
        adj_add_edge(&mut self.graph, from.0, to.0, id.0);
        proof {
            let n = pre.edges@.len() as int;
            assert(self.nodes@ == pre.nodes@);
            assert forall|m: NodeId| self.has_node(m) == pre.has_node(m) by {
                assert(self.nodes@ == pre.nodes@);
            }
            assert forall|e: EdgeId| pre.has_edge(e) implies self.has_edge(e) by {
                let i = choose|i: int| 0 <= i < pre.edges@.len() && pre.edges@[i].0 == e;
                assert(self.edges@[i].0 == e);
            }
            // Freshness: nothing in the store carries the new edge id.
            assert forall|i: int| 0 <= i < n implies pre.edges@[i].0 != id by {
                if pre.edges@[i].0 == id {
                    assert(pre.has_edge(id));
                }
            }
            assert forall|i: int, j: int|
                0 <= i < j < self.edges@.len() implies self.edges@[i].0 != self.edges@[j].0 by {
                if j == n {
                    assert(pre.edges@[i].0 != id);
                } else {
                    assert(pre.edges@[i].0 != pre.edges@[j].0);
                }
            }
            // Well-formedness: the new adjacency entry points at existing
            // endpoints and the fresh edge; freshness keeps edge ids
            // registered for at most one pair.
            assert(self.edges@[n].0 == id);
            assert(self.has_edge(id));
            assert(self.adj() == pre.adj().insert((from.0, to.0), id.0));
            assert forall|p: (usize, usize)| #[trigger]
                self.adj().contains_key(p) implies self.has_node(NodeId(p.0)) && self.has_node(
                NodeId(p.1),
            ) && self.has_edge(EdgeId(self.adj()[p])) by {
                if p == (from.0, to.0) {
                    assert(self.adj()[p] == id.0);
                    assert(EdgeId(id.0) == id);
                    assert(self.has_edge(id));
                } else {
                    assert(pre.adj().contains_key(p));
                    assert(pre.has_node(NodeId(p.0)) && pre.has_node(NodeId(p.1)));
                    assert(pre.has_edge(EdgeId(pre.adj()[p])));
                }
            }
            assert forall|p: (usize, usize), q: (usize, usize)| #[trigger]
                self.adj().contains_key(p) && #[trigger] self.adj().contains_key(q) && self.adj()[p]
                == self.adj()[q] implies p == q by {
                if p != (from.0, to.0) && q != (from.0, to.0) {
                    assert(pre.adj().contains_key(p) && pre.adj().contains_key(q));
                } else if p == (from.0, to.0) && q != (from.0, to.0) {
                    assert(pre.adj().contains_key(q));
                    assert(pre.has_edge(EdgeId(pre.adj()[q])));
                    let i = choose|i: int|
                        0 <= i < pre.edges@.len() && pre.edges@[i].0 == EdgeId(pre.adj()[q]);
                    assert(pre.edges@[i].0 != id);
                    assert(false);
                } else if q == (from.0, to.0) && p != (from.0, to.0) {
                    assert(pre.adj().contains_key(p));
                    assert(pre.has_edge(EdgeId(pre.adj()[p])));
                    let i = choose|i: int|
                        0 <= i < pre.edges@.len() && pre.edges@[i].0 == EdgeId(pre.adj()[p]);
                    assert(pre.edges@[i].0 != id);
                    assert(false);
                }
            }
            assert(self.wf());
            self.lemma_edge_entry(n);
            assert forall|e: EdgeId| pre.has_edge(e) implies self.edge_at(e) == pre.edge_at(
                e,
            ) by {
                let i = pre.edge_index(e);
                pre.lemma_edge_entry(i);
                self.lemma_edge_entry(i);
            }
            assert forall|m: NodeId| pre.has_node(m) implies self.node_at(m) == pre.node_at(
                m,
            ) by {
                let i = pre.node_index(m);
                pre.lemma_node_entry(i);
                self.lemma_node_entry(i);
            }
        }
    }

    /// Lookup of a node by id; `NotFound` exactly when the id is absent.
    pub fn node(&self, id: NodeId) -> (r: Result<&Node, GraphError>)
        requires
            self.wf(),
        ensures
            match r {
                Ok(n) => self.has_node(id) && *n == self.node_at(id),
                Err(e) => e == GraphError::NotFound && !self.has_node(id),
            },
    {
        let n = self.nodes.len();
        for i in 0..n
            invariant
                n == self.nodes@.len(),
                self.wf(),
                forall|j: int| 0 <= j < i ==> self.nodes@[j].0 != id,
        {
            if self.nodes[i].0 == id {
                proof {
                    self.lemma_node_entry(i as int);
                }
                return Ok(&self.nodes[i].1);
            }
        }
        Err(GraphError::NotFound)
    }

    /// Lookup of an edge by id; `NotFound` exactly when the id is absent.
    pub fn edge(&self, id: EdgeId) -> (r: Result<&Edge, GraphError>)
        requires
            self.wf(),
        ensures
            match r {
                Ok(e) => self.has_edge(id) && *e == self.edge_at(id),
                Err(e) => e == GraphError::NotFound && !self.has_edge(id),
            },
    {
        let n = self.edges.len();
        for i in 0..n
            invariant
                n == self.edges@.len(),
                self.wf(),
                forall|j: int| 0 <= j < i ==> self.edges@[j].0 != id,
        {
            if self.edges[i].0 == id {
                proof {
                    self.lemma_edge_entry(i as int);
                }
                return Ok(&self.edges[i].1);
            }
        }
        Err(GraphError::NotFound)
    }

    /// The id of the one edge connecting `a` to `b` in that order, if any.
    pub fn edge_between(&self, a: NodeId, b: NodeId) -> (r: Option<EdgeId>)
        ensures
            match r {
                Some(e) => self.adj().contains_key((a.0, b.0)) && e.0 == self.adj()[(a.0, b.0)],
                None => !self.adj().contains_key((a.0, b.0)),
            },
    {
        match adj_edge_weight(&self.graph, a.0, b.0) {
            Some(e) => Some(EdgeId(e)),
            None => None,
        }
    }

    /// The set of node ids one hop away from `id` in the given direction,
    /// each exactly once, in no specified order.
    pub fn neighbors(&self, id: NodeId, dir: Direction) -> (r: Vec<NodeId>)
        ensures
            forall|i: int, j: int| 0 <= i < j < r@.len() ==> r@[i] != r@[j],
            forall|m: NodeId|
                #[trigger] r@.contains(m) <==> self.adj().contains_key(
                    dir_pair(dir is Incoming, m.0, id.0),
                ),
    {
        let raw = adj_neighbors(&self.graph, id.0, matches!(dir, Direction::Incoming));
        let mut r: Vec<NodeId> = Vec::new();
        let n = raw.len();
        for i in 0..n
            invariant
                n == raw@.len(),
                r@.len() == i,
                forall|j: int| 0 <= j < i ==> r@[j] == NodeId(raw@[j]),
        {
            r.push(NodeId(raw[i]));
        }
        proof {
            assert forall|m: NodeId| #[trigger]
                r@.contains(m) <==> self.adj().contains_key(
                dir_pair(dir is Incoming, m.0, id.0),
            ) by {
                if r@.contains(m) {
                    let j = choose|j: int| 0 <= j < r@.len() && r@[j] == m;
                    assert(raw@[j] == m.0);
                    assert(raw@.contains(m.0));
                }
                if self.adj().contains_key(dir_pair(dir is Incoming, m.0, id.0)) {
                    assert(raw@.contains(m.0));
                    let j = choose|j: int| 0 <= j < raw@.len() && raw@[j] == m.0;
                    assert(r@[j] == NodeId(m.0));
                    assert(NodeId(m.0) == m);
                    assert(r@.contains(m));
                }
            }
            assert forall|i: int, j: int| 0 <= i < j < r@.len() implies r@[i] != r@[j] by {
                assert(raw@[i] != raw@[j]);
            }
        }
        r
    }

    /// Every incident edge of `id` in the given direction, as (neighbor id,
    /// edge id) pairs, one per incident edge, in no specified order.
    pub fn edges_incident(&self, id: NodeId, dir: Direction) -> (r: Vec<(NodeId, EdgeId)>)
        requires
            self.wf(),
        ensures
            forall|i: int, j: int| 0 <= i < j < r@.len() ==> r@[i].0 != r@[j].0,
            forall|i: int|
                0 <= i < r@.len() ==> self.adj().contains_key(
                    dir_pair(dir is Incoming, r@[i].0.0, id.0),
                ) && r@[i].1.0 == self.adj()[dir_pair(dir is Incoming, r@[i].0.0, id.0)],
            forall|m: NodeId|
                self.adj().contains_key(dir_pair(dir is Incoming, m.0, id.0)) ==> exists|i: int|
                    0 <= i < r@.len() && r@[i].0 == m,
    {
        let ns = self.neighbors(id, dir);
        let mut r: Vec<(NodeId, EdgeId)> = Vec::new();
        let n = ns.len();
        let incoming = matches!(dir, Direction::Incoming);
        let mut i: usize = 0;
        while i < n
            invariant
                n == ns@.len(),
                i <= n,
                self.wf(),
                incoming == dir is Incoming,
                forall|a: int, b: int| 0 <= a < b < ns@.len() ==> ns@[a] != ns@[b],
                forall|m: NodeId|
                    #[trigger] ns@.contains(m) <==> self.adj().contains_key(
                        dir_pair(dir is Incoming, m.0, id.0),
                    ),
                r@.len() == i,
                forall|j: int| #![trigger r@[j]] 0 <= j < i ==> r@[j].0 == ns@[j],
                forall|j: int|
                    #![trigger ns@[j]]
                    0 <= j < i ==> self.adj().contains_key(
                        dir_pair(dir is Incoming, ns@[j].0, id.0),
                    ),
                forall|j: int|
                    #![trigger r@[j]]
                    0 <= j < i ==> r@[j].1.0 == self.adj()[dir_pair(dir is Incoming, ns@[j].0, id.0)],
            decreases n - i,
        {
            let m = ns[i];
            proof {
                assert(ns@[i as int] == m);
                assert(ns@.contains(m));
            }
            let w = if incoming {
                adj_edge_weight(&self.graph, m.0, id.0)
            } else {
                adj_edge_weight(&self.graph, id.0, m.0)
            };
            let ghost prev = r@;
            let e = match w {
                Some(e) => e,
                None => {
                    proof {
                        assert(self.adj().contains_key(dir_pair(dir is Incoming, m.0, id.0)));
                    }
                    vstd::pervasive::unreached()
                },
            };
            r.push((m, EdgeId(e)));
            proof {
                assert(self.adj().contains_key(dir_pair(dir is Incoming, m.0, id.0)));
                assert(self.adj()[dir_pair(dir is Incoming, m.0, id.0)] == e);
                assert forall|j: int| #![trigger r@[j]] 0 <= j < i + 1 implies r@[j].0 == ns@[j]
                    && r@[j].1.0 == self.adj()[dir_pair(dir is Incoming, ns@[j].0, id.0)] by {
                    if j < i {
                        assert(r@[j] == prev[j]);
                    } else {
                        assert(r@[j] == (m, EdgeId(e)));
                    }
                }
                assert forall|j: int| #![trigger ns@[j]] 0 <= j < i + 1 implies self.adj(
                ).contains_key(dir_pair(dir is Incoming, ns@[j].0, id.0)) by {
                    if j == i {
                        assert(ns@[j] == m);
                    }
                }
            }
            i += 1;
        }
        proof {
            assert forall|a: int, b: int| 0 <= a < b < r@.len() implies r@[a].0 != r@[b].0 by {
                assert(r@[a].0 == ns@[a]);
                assert(r@[b].0 == ns@[b]);
            }
            assert forall|k: int|
                0 <= k < r@.len() implies self.adj().contains_key(
                dir_pair(dir is Incoming, r@[k].0.0, id.0),
            ) && r@[k].1.0 == self.adj()[dir_pair(dir is Incoming, r@[k].0.0, id.0)] by {
                assert(r@[k].0 == ns@[k]);
            }
            assert forall|m: NodeId|
                self.adj().contains_key(
                    dir_pair(dir is Incoming, m.0, id.0),
                ) implies exists|i: int| 0 <= i < r@.len() && r@[i].0 == m by {
                assert(ns@.contains(m));
                let j = choose|j: int| 0 <= j < ns@.len() && ns@[j] == m;
                assert(r@[j].0 == m);
            }
        }
        r
    }
}

} // verus!
