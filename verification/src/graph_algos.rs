//! Read-only queries over the graph store: predicate filtering, tag lookup,
//! provenance queries (modification history, script-to-resource attribution,
//! the page's root URL) and the kind-dispatched causal-trace engine.

use vstd::prelude::*;

use crate::graph::{
    contains_id, dir_pair, Direction, Edge, EdgeId, GraphError, Node, NodeId, PageGraph,
};
use crate::types::{EdgeType, NodeType};

verus! {

/// A node handed back by a query, together with its id.
pub type NodeRef<'a> = (NodeId, &'a Node);

/// Exact string comparison between a stored name and a query argument.
pub fn str_eq(a: &String, b: &str) -> (r: bool)
    ensures
        r == (a@ == b@),
{
    *a == b.to_owned()
}

impl PageGraph {
    /// Full scan of the edge mapping: every edge whose kind the predicate
    /// accepts, in no guaranteed order.
    pub fn filter_edges<'a, F: Fn(&EdgeType) -> bool>(&'a self, f: F) -> (r: Vec<
        (EdgeId, &'a Edge),
    >)
        requires
            self.wf(),
            forall|t: &EdgeType| #[trigger] f.requires((t,)),
        ensures
            forall|i: int, j: int| 0 <= i < j < r@.len() ==> r@[i].0 != r@[j].0,
            forall|j: int|
                #![trigger r@[j]]
                0 <= j < r@.len() ==> self.has_edge(r@[j].0) && *r@[j].1 == self.edge_at(r@[j].0)
                    && f.ensures((&self.edge_at(r@[j].0).edge_type,), true),
            forall|id: EdgeId|
                self.has_edge(id) && !contains_id(r@, id) ==> f.ensures(
                    (&self.edge_at(id).edge_type,),
                    false,
                ),
    {
        let mut r: Vec<(EdgeId, &'a Edge)> = Vec::new();
        let n = self.edges.len();
        for i in 0..n
            invariant
                n == self.edges@.len(),
                self.wf(),
                forall|t: &EdgeType| #[trigger] f.requires((t,)),
                forall|a: int, b: int| 0 <= a < b < r@.len() ==> r@[a].0 != r@[b].0,
                forall|j: int|
                    #![trigger r@[j]]
                    0 <= j < r@.len() ==> self.has_edge(r@[j].0) && self.edge_index(r@[j].0) < i
                        && *r@[j].1 == self.edge_at(r@[j].0) && f.ensures(
                        (&self.edge_at(r@[j].0).edge_type,),
                        true,
                    ),
                forall|k: int|
                    #![trigger self.edges@[k]]
                    0 <= k < i && !contains_id(r@, self.edges@[k].0) ==> f.ensures(
                        (&self.edge_at(self.edges@[k].0).edge_type,),
                        false,
                    ),
        {
            proof {
                self.lemma_edge_entry(i as int);
            }
            let ghost prev = r@;
            let keep = f(&self.edges[i].1.edge_type);
            if keep {
                r.push((self.edges[i].0, &self.edges[i].1));
            }
            proof {
                assert forall|a: int, b: int| 0 <= a < b < r@.len() implies r@[a].0
                    != r@[b].0 by {
                    if b == r@.len() - 1 && keep {
                        if r@[a].0 == r@[b].0 {
                            assert(self.edge_index(r@[a].0) < i);
                            assert(self.edge_index(r@[b].0) == i);
                        }
                    }
                }
                assert forall|k: int|
                    0 <= k < i + 1 && !contains_id(r@, self.edges@[k].0) implies f.ensures(
                    (&self.edge_at((#[trigger] self.edges@[k]).0).edge_type,),
                    false,
                ) by {
                    if k < i {
                        if contains_id(prev, self.edges@[k].0) {
                            let j = choose|j: int|
                                0 <= j < prev.len() && prev[j].0 == self.edges@[k].0;
                            assert(r@[j].0 == self.edges@[k].0);
                            assert(contains_id(r@, self.edges@[k].0));
                        }
                    } else {
                        if keep {
                            assert(r@[r@.len() - 1].0 == self.edges@[k].0);
                            assert(contains_id(r@, self.edges@[k].0));
                        }
                    }
                }
            }
        }
        proof {
            assert forall|id: EdgeId|
                self.has_edge(id) && !contains_id(r@, id) implies f.ensures(
                (&self.edge_at(id).edge_type,),
                false,
            ) by {
                let k = choose|k: int| 0 <= k < self.edges@.len() && self.edges@[k].0 == id;
                assert(self.edges@[k].0 == id);
            }
        }
        r
    }

    /// Full scan of the node mapping: every node whose kind the predicate
    /// accepts, in no guaranteed order.
    pub fn filter_nodes<'a, F: Fn(&NodeType) -> bool>(&'a self, f: F) -> (r: Vec<NodeRef<'a>>)
        requires
            self.wf(),
            forall|t: &NodeType| #[trigger] f.requires((t,)),
        ensures
            forall|i: int, j: int| 0 <= i < j < r@.len() ==> r@[i].0 != r@[j].0,
            forall|j: int|
                #![trigger r@[j]]
                0 <= j < r@.len() ==> self.has_node(r@[j].0) && *r@[j].1 == self.node_at(r@[j].0)
                    && f.ensures((&self.node_at(r@[j].0).node_type,), true),
            forall|id: NodeId|
                self.has_node(id) && !contains_id(r@, id) ==> f.ensures(
                    (&self.node_at(id).node_type,),
                    false,
                ),
    {
        let mut r: Vec<NodeRef<'a>> = Vec::new();
        let n = self.nodes.len();
        for i in 0..n
            invariant
                n == self.nodes@.len(),
                self.wf(),
                forall|t: &NodeType| #[trigger] f.requires((t,)),
                forall|a: int, b: int| 0 <= a < b < r@.len() ==> r@[a].0 != r@[b].0,
                forall|j: int|
                    #![trigger r@[j]]
                    0 <= j < r@.len() ==> self.has_node(r@[j].0) && self.node_index(r@[j].0) < i
                        && *r@[j].1 == self.node_at(r@[j].0) && f.ensures(
                        (&self.node_at(r@[j].0).node_type,),
                        true,
                    ),
                forall|k: int|
                    #![trigger self.nodes@[k]]
                    0 <= k < i && !contains_id(r@, self.nodes@[k].0) ==> f.ensures(
                        (&self.node_at(self.nodes@[k].0).node_type,),
                        false,
                    ),
        {
            proof {
                self.lemma_node_entry(i as int);
            }
            let ghost prev = r@;
            let keep = f(&self.nodes[i].1.node_type);
            if keep {
                r.push((self.nodes[i].0, &self.nodes[i].1));
            }
            proof {
                assert forall|a: int, b: int| 0 <= a < b < r@.len() implies r@[a].0
                    != r@[b].0 by {
                    if b == r@.len() - 1 && keep {
                        if r@[a].0 == r@[b].0 {
                            assert(self.node_index(r@[a].0) < i);
                            assert(self.node_index(r@[b].0) == i);
                        }
                    }
                }
                assert forall|k: int|
                    0 <= k < i + 1 && !contains_id(r@, self.nodes@[k].0) implies f.ensures(
                    (&self.node_at((#[trigger] self.nodes@[k]).0).node_type,),
                    false,
                ) by {
                    if k < i {
                        if contains_id(prev, self.nodes@[k].0) {
                            let j = choose|j: int|
                                0 <= j < prev.len() && prev[j].0 == self.nodes@[k].0;
                            assert(r@[j].0 == self.nodes@[k].0);
                            assert(contains_id(r@, self.nodes@[k].0));
                        }
                    } else {
                        if keep {
                            assert(r@[r@.len() - 1].0 == self.nodes@[k].0);
                            assert(contains_id(r@, self.nodes@[k].0));
                        }
                    }
                }
            }
        }
        proof {
            assert forall|id: NodeId|
                self.has_node(id) && !contains_id(r@, id) implies f.ensures(
                (&self.node_at(id).node_type,),
                false,
            ) by {
                let k = choose|k: int| 0 <= k < self.nodes@.len() && self.nodes@[k].0 == id;
                assert(self.nodes@[k].0 == id);
            }
        }
        r
    }

    /// Every HTML element node whose tag name equals `tag_name` exactly
    /// (case-sensitive), in no guaranteed order.
    pub fn nodes_of_html_tag_name<'a>(&'a self, tag_name: &str) -> (r: Vec<NodeRef<'a>>)
        requires
            self.wf(),
        ensures
            forall|i: int, j: int| 0 <= i < j < r@.len() ==> r@[i].0 != r@[j].0,
            forall|j: int| #![trigger r@[j]] 0 <= j < r@.len() ==> *r@[j].1 == self.node_at(r@[j].0),
            forall|id: NodeId|
                #[trigger] contains_id(r@, id) <==> self.has_node(id)
                    && self.node_at(id).node_type.is_html_with_tag(tag_name@),
    {
        let mut r: Vec<NodeRef<'a>> = Vec::new();
        let n = self.nodes.len();
        for i in 0..n
            invariant
                n == self.nodes@.len(),
                self.wf(),
                forall|a: int, b: int| 0 <= a < b < r@.len() ==> r@[a].0 != r@[b].0,
                forall|j: int|
                    #![trigger r@[j]]
                    0 <= j < r@.len() ==> self.has_node(r@[j].0) && self.node_index(r@[j].0) < i
                        && *r@[j].1 == self.node_at(r@[j].0) && self.node_at(
                        r@[j].0,
                    ).node_type.is_html_with_tag(tag_name@),
                forall|k: int|
                    #![trigger self.nodes@[k]]
                    0 <= k < i && self.node_at(self.nodes@[k].0).node_type.is_html_with_tag(
                        tag_name@,
                    ) ==> contains_id(r@, self.nodes@[k].0),
        {
            proof {
                self.lemma_node_entry(i as int);
            }
            let ghost prev = r@;
            let keep = match &self.nodes[i].1.node_type {
                NodeType::HtmlElement { tag_name: tn, .. } => str_eq(tn, tag_name),
                _ => false,
            };
            if keep {
                r.push((self.nodes[i].0, &self.nodes[i].1));
            }
            proof {
                assert forall|a: int, b: int| 0 <= a < b < r@.len() implies r@[a].0
                    != r@[b].0 by {
                    if b == r@.len() - 1 && keep {
                        if r@[a].0 == r@[b].0 {
                            assert(self.node_index(r@[a].0) < i);
                            assert(self.node_index(r@[b].0) == i);
                        }
                    }
                }
                assert forall|k: int|
                    0 <= k < i + 1 && self.node_at(
                        (#[trigger] self.nodes@[k]).0,
                    ).node_type.is_html_with_tag(tag_name@) implies contains_id(
                    r@,
                    self.nodes@[k].0,
                ) by {
                    if k < i {
                        let j = choose|j: int|
                            0 <= j < prev.len() && prev[j].0 == self.nodes@[k].0;
                        assert(r@[j].0 == self.nodes@[k].0);
                    } else {
                        assert(keep);
                        assert(r@[r@.len() - 1].0 == self.nodes@[k].0);
                    }
                }
            }
        }
        proof {
            assert forall|id: NodeId| #[trigger]
                contains_id(r@, id) implies self.has_node(id) && self.node_at(
                id,
            ).node_type.is_html_with_tag(tag_name@) by {
                let j = choose|j: int| 0 <= j < r@.len() && r@[j].0 == id;
                assert(r@[j].0 == id);
            }
            assert forall|id: NodeId|
                self.has_node(id) && self.node_at(id).node_type.is_html_with_tag(
                    tag_name@,
                ) implies contains_id(r@, id) by {
                let k = choose|k: int| 0 <= k < self.nodes@.len() && self.nodes@[k].0 == id;
                assert(self.nodes@[k].0 == id);
            }
        }
        r
    }

    /// The cause of a DOM node's creation. No creating action is modeled for
    /// any kind yet, so every node is reported as uncaused.
    pub fn cause_of<'a>(&self, node_ref: &NodeRef<'a>) -> (r: Option<NodeRef<'a>>)
        ensures
            r is None,
    {
        match node_ref.1.node_type {
            NodeType::TextNode { .. } | NodeType::HtmlElement { .. } => None,
            _ => None,
        }
    }

    /// Whether edge `e` records a modification of node `n`: it runs into `n`
    /// through the adjacency index and is not a structural attachment.
    pub open spec fn is_mod_edge(self, n: NodeId, e: EdgeId) -> bool {
        exists|m: usize|
            #![trigger self.adj().contains_key((m, n.0))]
            self.adj().contains_key((m, n.0)) && self.adj()[(m, n.0)] == e.0 && !(self.edge_at(
                e,
            ).edge_type is Structure)
    }

    /// Every time the given HTML element was modified, as (edge id, edge)
    /// pairs ordered by ascending edge timestamp. Structural attachment edges
    /// are not modifications and are excluded. Fails on anything but an HTML
    /// element, and on a surviving edge without a timestamp, which ingestion
    /// must never produce.
    pub fn all_html_element_modifications<'a>(&'a self, node_id: NodeId) -> (r: Result<
        Vec<(EdgeId, &'a Edge)>,
        GraphError,
    >)
        requires
            self.wf(),
        ensures
            r is Ok <==> self.has_node(node_id) && self.node_at(node_id).node_type is HtmlElement
                && (forall|e: EdgeId|
                #[trigger] self.is_mod_edge(node_id, e) ==> self.edge_at(e).edge_timestamp is Some),
            r matches Err(er) ==> (er == GraphError::NotFound <==> !self.has_node(node_id)),
            r matches Err(er) ==> (er == GraphError::WrongNodeKind <==> self.has_node(node_id) && !(
            self.node_at(node_id).node_type is HtmlElement)),
            r matches Ok(v) ==> {
                &&& forall|i: int, j: int| 0 <= i < j < v@.len() ==> v@[i].0 != v@[j].0
                &&& forall|j: int|
                    #![trigger v@[j]]
                    0 <= j < v@.len() ==> self.is_mod_edge(node_id, v@[j].0) && *v@[j].1
                        == self.edge_at(v@[j].0) && self.edge_at(v@[j].0).edge_timestamp is Some
                &&& forall|e: EdgeId|
                    #[trigger] self.is_mod_edge(node_id, e) ==> contains_id(v@, e)
                &&& forall|i: int, j: int|
                    0 <= i < j < v@.len() ==> v@[i].1.edge_timestamp.unwrap()
                        <= v@[j].1.edge_timestamp.unwrap()
            },
    {
        let element = match self.node(node_id) {
            Ok(n) => n,
            Err(_) => {
                return Err(GraphError::NotFound);
            },
        };
        match &element.node_type {
            NodeType::HtmlElement { .. } => {},
            _ => {
                return Err(GraphError::WrongNodeKind);
            },
        }
        let incident = self.edges_incident(node_id, Direction::Incoming);
        let k = incident.len();
        // Collect the non-structural incoming edges, rejecting any without a
        // timestamp.
        let mut tmp: Vec<(NodeId, EdgeId, &'a Edge)> = Vec::new();
        let ghost mut sel: Seq<int> = Seq::empty();
        let mut i: usize = 0;
        while i < k
            invariant
                k == incident@.len(),
                i <= k,
                self.wf(),
                self.has_node(node_id),
                self.node_at(node_id).node_type is HtmlElement,
                forall|a: int, b: int| 0 <= a < b < incident@.len() ==> incident@[a].0
                    != incident@[b].0,
                forall|a: int|
                    #![trigger incident@[a]]
                    0 <= a < incident@.len() ==> self.adj().contains_key(
                        (incident@[a].0.0, node_id.0),
                    ) && incident@[a].1.0 == self.adj()[(incident@[a].0.0, node_id.0)],
                forall|m: NodeId|
                    self.adj().contains_key((m.0, node_id.0)) ==> exists|a: int|
                        0 <= a < incident@.len() && incident@[a].0 == m,
                sel.len() == tmp@.len(),
                forall|j: int|
                    #![trigger sel[j]]
                    0 <= j < sel.len() ==> 0 <= sel[j] < i && tmp@[j].0 == incident@[sel[j]].0
                        && tmp@[j].1 == incident@[sel[j]].1,
                forall|a: int, b: int| 0 <= a < b < sel.len() ==> sel[a] < sel[b],
                forall|j: int|
                    #![trigger tmp@[j]]
                    0 <= j < tmp@.len() ==> self.is_mod_edge(node_id, tmp@[j].1) && *tmp@[j].2
                        == self.edge_at(tmp@[j].1) && self.edge_at(
                        tmp@[j].1,
                    ).edge_timestamp is Some,
                forall|a: int|
                    #![trigger incident@[a]]
                    0 <= a < i && !(self.edge_at(incident@[a].1).edge_type is Structure)
                        ==> contains_id_mid(tmp@, incident@[a].1),
            decreases k - i,
        {
            let (m, eid) = incident[i];
            proof {
                assert(incident@[i as int].0 == m && incident@[i as int].1 == eid);
                assert(self.adj().contains_key((m.0, node_id.0)));
                assert(self.has_edge(EdgeId(self.adj()[(m.0, node_id.0)])));
                assert(EdgeId(eid.0) == eid);
            }
            let edge = match self.edge(eid) {
                Ok(e) => e,
                Err(_) => vstd::pervasive::unreached(),
            };
            let ghost prev = tmp@;
            let keep = match &edge.edge_type {
                EdgeType::Structure => false,
                _ => true,
            };
            if keep {
                match edge.edge_timestamp {
                    Some(_) => {},
                    None => {
                        proof {
                            assert(self.is_mod_edge(node_id, eid));
                        }
                        return Err(GraphError::MissingTimestamp);
                    },
                }
                tmp.push((m, eid, edge));
                proof {
                    sel = sel.push(i as int);
                    assert(self.is_mod_edge(node_id, eid));
                    assert forall|j: int| #![trigger sel[j]] 0 <= j < sel.len() implies 0 <= sel[j]
                        < i + 1 && tmp@[j].0 == incident@[sel[j]].0 && tmp@[j].1
                        == incident@[sel[j]].1 by {
                        if j < sel.len() - 1 {
                            assert(sel[j] == prev_sel(sel)[j]);
                        }
                    }
                }
            }
            proof {
                assert forall|a: int|
                    0 <= a < i + 1 && !(self.edge_at(
                        (#[trigger] incident@[a]).1,
                    ).edge_type is Structure) implies contains_id_mid(tmp@, incident@[a].1) by {
                    if a < i {
                        if contains_id_mid(prev, incident@[a].1) {
                            let j = choose|j: int|
                                0 <= j < prev.len() && prev[j].1 == incident@[a].1;
                            assert(tmp@[j].1 == incident@[a].1);
                        }
                    } else {
                        assert(keep);
                        assert(tmp@[tmp@.len() - 1].1 == incident@[a].1);
                    }
                }
            }
            i += 1;
        }
        // Distinct edge ids: distinct source neighbors registered distinct
        // edges, since no edge id occupies two ordered pairs.
        proof {
            assert forall|a: int, b: int| 0 <= a < b < tmp@.len() implies tmp@[a].1
                != tmp@[b].1 by {
                assert(sel[a] < sel[b]);
                assert(tmp@[a].0 == incident@[sel[a]].0);
                assert(tmp@[b].0 == incident@[sel[b]].0);
                assert(incident@[sel[a]].0 != incident@[sel[b]].0);
                if tmp@[a].1 == tmp@[b].1 {
                    assert(self.adj()[(tmp@[a].0.0, node_id.0)] == self.adj()[(
                        tmp@[b].0.0,
                        node_id.0,
                    )]);
                    assert((tmp@[a].0.0, node_id.0) == (tmp@[b].0.0, node_id.0));
                }
            }
            assert forall|e: EdgeId| #[trigger]
                self.is_mod_edge(node_id, e) implies contains_id_mid(tmp@, e) by {
                let m = choose|m: usize|
                    self.adj().contains_key((m, node_id.0)) && self.adj()[(m, node_id.0)] == e.0
                        && !(self.edge_at(e).edge_type is Structure);
                assert(NodeId(m).0 == m);
                assert(self.adj().contains_key((NodeId(m).0, node_id.0)));
                assert(exists|a: int|
                    0 <= a < incident@.len() && incident@[a].0 == NodeId(m));
                let a = choose|a: int| 0 <= a < incident@.len() && incident@[a].0 == NodeId(m);
                assert(incident@[a].1.0 == self.adj()[(m, node_id.0)]);
                assert(incident@[a].1 == e);
            }
        }
        // Sort by ascending timestamp, extracting a minimum each round.
        let mut rem = tmp;
        let mut out: Vec<(NodeId, EdgeId, &'a Edge)> = Vec::new();
        while rem.len() > 0
            invariant
                self.wf(),
                forall|j: int|
                    #![trigger rem@[j]]
                    0 <= j < rem@.len() ==> self.is_mod_edge(node_id, rem@[j].1) && *rem@[j].2
                        == self.edge_at(rem@[j].1) && self.edge_at(
                        rem@[j].1,
                    ).edge_timestamp is Some,
                forall|j: int|
                    #![trigger out@[j]]
                    0 <= j < out@.len() ==> self.is_mod_edge(node_id, out@[j].1) && *out@[j].2
                        == self.edge_at(out@[j].1) && self.edge_at(
                        out@[j].1,
                    ).edge_timestamp is Some,
                forall|a: int, b: int| 0 <= a < b < rem@.len() ==> rem@[a].1 != rem@[b].1,
                forall|a: int, b: int| 0 <= a < b < out@.len() ==> out@[a].1 != out@[b].1,
                forall|a: int, b: int|
                    0 <= a < out@.len() && 0 <= b < rem@.len() ==> out@[a].1 != rem@[b].1,
                forall|e: EdgeId|
                    #[trigger] self.is_mod_edge(node_id, e) ==> contains_id_mid(out@, e)
                        || contains_id_mid(rem@, e),
                forall|a: int, b: int|
                    0 <= a < b < out@.len() ==> out@[a].2.edge_timestamp.unwrap()
                        <= out@[b].2.edge_timestamp.unwrap(),
                forall|a: int, b: int|
                    0 <= a < out@.len() && 0 <= b < rem@.len() ==> out@[a].2.edge_timestamp.unwrap()
                        <= rem@[b].2.edge_timestamp.unwrap(),
            decreases rem@.len(),
        {
            let mut min_j: usize = 0;
            let mut j: usize = 1;
            while j < rem.len()
                invariant
                    0 < rem@.len(),
                    min_j < j,
                    j <= rem@.len(),
                    forall|b: int|
                        #![trigger rem@[b]]
                        0 <= b < rem@.len() ==> rem@[b].2.edge_timestamp is Some,
                    forall|b: int|
                        #![trigger rem@[b]]
                        0 <= b < j ==> rem@[min_j as int].2.edge_timestamp.unwrap()
                            <= rem@[b].2.edge_timestamp.unwrap(),
                decreases rem@.len() - j,
            {
                let tj = match rem[j].2.edge_timestamp {
                    Some(t) => t,
                    None => vstd::pervasive::unreached(),
                };
                let tmin = match rem[min_j].2.edge_timestamp {
                    Some(t) => t,
                    None => vstd::pervasive::unreached(),
                };
                if tj < tmin {
                    min_j = j;
                }
                j += 1;
            }
            let ghost prev_rem = rem@;
            let ghost prev_out = out@;
            let picked = rem.remove(min_j);
            out.push(picked);
            proof {
                assert(prev_rem[min_j as int] == picked);
                assert forall|e: EdgeId| #[trigger]
                    self.is_mod_edge(node_id, e) implies contains_id_mid(out@, e)
                    || contains_id_mid(rem@, e) by {
                    if contains_id_mid(prev_out, e) {
                        let a = choose|a: int| 0 <= a < prev_out.len() && prev_out[a].1 == e;
                        assert(out@[a].1 == e);
                    } else {
                        let a = choose|a: int| 0 <= a < prev_rem.len() && prev_rem[a].1 == e;
                        if a == min_j {
                            assert(out@[out@.len() - 1].1 == e);
                        } else if a < min_j {
                            assert(rem@[a].1 == e);
                        } else {
                            assert(rem@[a - 1].1 == e);
                        }
                    }
                }
            }
        }
        // Hand the sorted modifications back as (edge id, edge) pairs.
        let mut v: Vec<(EdgeId, &'a Edge)> = Vec::new();
        let n_out = out.len();
        let mut i2: usize = 0;
        while i2 < n_out
            invariant
                n_out == out@.len(),
                i2 <= n_out,
                v@.len() == i2,
                forall|j: int|
                    #![trigger v@[j]]
                    0 <= j < i2 ==> v@[j].0 == out@[j].1 && v@[j].1 == out@[j].2,
            decreases n_out - i2,
        {
            let (_, eid, e) = out[i2];
            v.push((eid, e));
            i2 += 1;
        }
        proof {
            assert forall|e: EdgeId| #[trigger]
                self.is_mod_edge(node_id, e) implies contains_id(v@, e) by {
                let a = choose|a: int| 0 <= a < out@.len() && out@[a].1 == e;
                assert(v@[a].0 == e);
            }
            assert forall|a: int, b: int| 0 <= a < b < v@.len() implies v@[a].0 != v@[b].0 by {
                assert(v@[a].0 == out@[a].1 && v@[b].0 == out@[b].1);
            }
        }
        Ok(v)
    }
}

/// Whether some triple in `s` carries `id` as its middle component.
pub open spec fn contains_id_mid<'a>(s: Seq<(NodeId, EdgeId, &'a Edge)>, id: EdgeId) -> bool {
    exists|j: int| 0 <= j < s.len() && s[j].1 == id
}

/// The selection before its last extension (naming the prefix keeps the
/// preservation proofs readable).
pub open spec fn prev_sel(s: Seq<int>) -> Seq<int> {
    s.drop_last()
}

/// Appending to a sequence keeps every id it already carried.
pub proof fn lemma_contains_id_push<A, B>(s: Seq<(A, B)>, x: (A, B), id: A)
    requires
        contains_id(s, id),
    ensures
        contains_id(s.push(x), id),
{
    let j = choose|j: int| 0 <= j < s.len() && s[j].0 == id;
    assert(s.push(x)[j].0 == id);
}

impl PageGraph {
    /// Whether `r` is a resource node fetched one hop out of `s`.
    pub open spec fn outgoing_resource(self, s: NodeId, r: NodeId) -> bool {
        self.adj().contains_key((s.0, r.0)) && self.has_node(r) && self.node_at(
            r,
        ).node_type is Resource
    }

    /// Whether `t` is a script node attached one hop out of `s`.
    pub open spec fn outgoing_script(self, s: NodeId, t: NodeId) -> bool {
        self.adj().contains_key((s.0, t.0)) && self.has_node(t) && self.node_at(
            t,
        ).node_type is Script
    }

    /// Whether node `s` may be asked for the resources it caused: a script
    /// node, or an HTML element with tag name "script".
    pub open spec fn script_query_ok(self, s: NodeId) -> bool {
        self.has_node(s) && (self.node_at(s).node_type is Script || self.node_at(
            s,
        ).node_type.is_html_with_tag("script"@))
    }

    /// Whether resource `r` is attributable to `s`: fetched directly from
    /// `s`, or — when `s` is a script element — fetched by a script node the
    /// element is attached to.
    pub open spec fn attributed_resource(self, s: NodeId, r: NodeId) -> bool {
        self.outgoing_resource(s, r) || (self.node_at(s).node_type.is_html_with_tag("script"@)
            && exists|t: NodeId| #[trigger] self.outgoing_script(s, t) && self.outgoing_resource(
            t,
            r,
        ))
    }

    /// Every resource node whose request was initiated by the given script
    /// node or "script" HTML element. A directly attached resource reachable
    /// both ways may be reported more than once; the set of reported nodes is
    /// exactly the attributable resources.
    pub fn resources_from_script<'a>(&'a self, node_id: NodeId) -> (r: Result<
        Vec<NodeRef<'a>>,
        GraphError,
    >)
        requires
            self.wf(),
        ensures
            r is Ok <==> self.script_query_ok(node_id),
            r matches Err(er) ==> (er == GraphError::NotFound <==> !self.has_node(node_id)),
            r matches Err(er) ==> (er == GraphError::WrongNodeKind <==> self.has_node(node_id)
                && !self.script_query_ok(node_id)),
            r matches Ok(v) ==> {
                &&& forall|j: int|
                    #![trigger v@[j]]
                    0 <= j < v@.len() ==> self.attributed_resource(node_id, v@[j].0) && *v@[j].1
                        == self.node_at(v@[j].0)
                &&& forall|m: NodeId|
                    #[trigger] self.attributed_resource(node_id, m) ==> contains_id(v@, m)
            },
    {
        let element = match self.node(node_id) {
            Ok(n) => n,
            Err(_) => {
                return Err(GraphError::NotFound);
            },
        };
        let is_script = match &element.node_type {
            NodeType::Script => true,
            _ => false,
        };
        let is_script_element = match &element.node_type {
            NodeType::HtmlElement { tag_name, .. } => str_eq(tag_name, "script"),
            _ => false,
        };
        if !is_script && !is_script_element {
            return Err(GraphError::WrongNodeKind);
        }
        let ns = self.neighbors(node_id, Direction::Outgoing);
        let n = ns.len();
        let mut v: Vec<NodeRef<'a>> = Vec::new();
        let mut i: usize = 0;
        while i < n
            invariant
                n == ns@.len(),
                i <= n,
                self.wf(),
                self.has_node(node_id),
                forall|m: NodeId|
                    #[trigger] ns@.contains(m) <==> self.adj().contains_key((node_id.0, m.0)),
                forall|j: int|
                    #![trigger v@[j]]
                    0 <= j < v@.len() ==> self.outgoing_resource(node_id, v@[j].0) && *v@[j].1
                        == self.node_at(v@[j].0),
                forall|a: int|
                    #![trigger ns@[a]]
                    0 <= a < i && self.has_node(ns@[a]) && self.node_at(
                        ns@[a],
                    ).node_type is Resource ==> contains_id(v@, ns@[a]),
            decreases n - i,
        {
            let m = ns[i];
            proof {
                assert(ns@[i as int] == m);
                assert(ns@.contains(m));
                assert(self.has_node(NodeId(m.0)));
                assert(NodeId(m.0) == m);
            }
            let nd = match self.node(m) {
                Ok(nd) => nd,
                Err(_) => vstd::pervasive::unreached(),
            };
            let ghost prev = v@;
            match &nd.node_type {
                NodeType::Resource { .. } => {
                    v.push((m, nd));
                },
                _ => {},
            }
            proof {
                assert forall|a: int|
                    0 <= a < i + 1 && self.has_node(#[trigger] ns@[a]) && self.node_at(
                        ns@[a],
                    ).node_type is Resource implies contains_id(v@, ns@[a]) by {
                    if a < i {
                        if contains_id(prev, ns@[a]) {
                            let j = choose|j: int| 0 <= j < prev.len() && prev[j].0 == ns@[a];
                            assert(v@[j].0 == ns@[a]);
                        }
                    } else {
                        assert(v@[v@.len() - 1].0 == ns@[a]);
                    }
                }
            }
            i += 1;
        }
        if is_script_element {
            // Resources fetched by the script nodes this element is attached
            // to (`src`-driven execution).
            let mut i2: usize = 0;
            while i2 < n
                invariant
                    n == ns@.len(),
                    i2 <= n,
                    self.wf(),
                    self.has_node(node_id),
                    self.node_at(node_id).node_type.is_html_with_tag("script"@),
                    forall|m: NodeId|
                        #[trigger] ns@.contains(m) <==> self.adj().contains_key((node_id.0, m.0)),
                    forall|j: int|
                        #![trigger v@[j]]
                        0 <= j < v@.len() ==> self.attributed_resource(node_id, v@[j].0)
                            && *v@[j].1 == self.node_at(v@[j].0),
                    forall|a: int|
                        #![trigger ns@[a]]
                        0 <= a < n && self.has_node(ns@[a]) && self.node_at(
                            ns@[a],
                        ).node_type is Resource ==> contains_id(v@, ns@[a]),
                    forall|a: int, rr: NodeId|
                        #![trigger self.outgoing_resource(ns@[a], rr)]
                        0 <= a < i2 && self.outgoing_script(node_id, ns@[a])
                            && self.outgoing_resource(ns@[a], rr) ==> contains_id(v@, rr),
                decreases n - i2,
            {
                let t = ns[i2];
                proof {
                    assert(ns@[i2 as int] == t);
                    assert(ns@.contains(t));
                    assert(self.has_node(NodeId(t.0)));
                    assert(NodeId(t.0) == t);
                }
                let tn = match self.node(t) {
                    Ok(nd) => nd,
                    Err(_) => vstd::pervasive::unreached(),
                };
                let t_is_script = match &tn.node_type {
                    NodeType::Script => true,
                    _ => false,
                };
                if t_is_script {
                    let inner = self.neighbors(t, Direction::Outgoing);
                    let kn = inner.len();
                    let mut j2: usize = 0;
                    while j2 < kn
                        invariant
                            kn == inner@.len(),
                            j2 <= kn,
                            n == ns@.len(),
                            i2 < n,
                            self.wf(),
                            self.has_node(node_id),
                            self.node_at(node_id).node_type.is_html_with_tag("script"@),
                            self.outgoing_script(node_id, t),
                            forall|m: NodeId|
                                #[trigger] ns@.contains(m) <==> self.adj().contains_key(
                                    (node_id.0, m.0),
                                ),
                            forall|m: NodeId|
                                #[trigger] inner@.contains(m) <==> self.adj().contains_key(
                                    (t.0, m.0),
                                ),
                            forall|j: int|
                                #![trigger v@[j]]
                                0 <= j < v@.len() ==> self.attributed_resource(node_id, v@[j].0)
                                    && *v@[j].1 == self.node_at(v@[j].0),
                            forall|a: int|
                                #![trigger ns@[a]]
                                0 <= a < n && self.has_node(ns@[a]) && self.node_at(
                                    ns@[a],
                                ).node_type is Resource ==> contains_id(v@, ns@[a]),
                            forall|a: int, rr: NodeId|
                                #![trigger self.outgoing_resource(ns@[a], rr)]
                                0 <= a < i2 && self.outgoing_script(node_id, ns@[a])
                                    && self.outgoing_resource(ns@[a], rr) ==> contains_id(v@, rr),
                            forall|b: int|
                                #![trigger inner@[b]]
                                0 <= b < j2 && self.has_node(inner@[b]) && self.node_at(
                                    inner@[b],
                                ).node_type is Resource ==> contains_id(v@, inner@[b]),
                        decreases kn - j2,
                    {
                        let rr = inner[j2];
                        proof {
                            assert(inner@[j2 as int] == rr);
                            assert(inner@.contains(rr));
                            assert(self.has_node(NodeId(rr.0)));
                            assert(NodeId(rr.0) == rr);
                        }
                        let rn = match self.node(rr) {
                            Ok(nd) => nd,
                            Err(_) => vstd::pervasive::unreached(),
                        };
                        let ghost prev = v@;
                        let keep = match &rn.node_type {
                            NodeType::Resource { .. } => true,
                            _ => false,
                        };
                        if keep {
                            proof {
                                assert(self.outgoing_resource(t, rr));
                                assert(self.attributed_resource(node_id, rr));
                            }
                            v.push((rr, rn));
                        }
                        proof {
                            if keep {
                                assert forall|a: int|
                                    0 <= a < n && self.has_node(#[trigger] ns@[a]) && self.node_at(
                                        ns@[a],
                                    ).node_type is Resource implies contains_id(v@, ns@[a]) by {
                                    lemma_contains_id_push(prev, (rr, rn), ns@[a]);
                                }
                                assert forall|a: int, rr2: NodeId|
                                    0 <= a < i2 && self.outgoing_script(node_id, ns@[a])
                                        && #[trigger] self.outgoing_resource(
                                        ns@[a],
                                        rr2,
                                    ) implies contains_id(v@, rr2) by {
                                    lemma_contains_id_push(prev, (rr, rn), rr2);
                                }
                            }
                            assert forall|b: int|
                                0 <= b < j2 + 1 && self.has_node(#[trigger] inner@[b])
                                    && self.node_at(
                                    inner@[b],
                                ).node_type is Resource implies contains_id(v@, inner@[b]) by {
                                if b < j2 {
                                    if keep {
                                        lemma_contains_id_push(prev, (rr, rn), inner@[b]);
                                    }
                                } else {
                                    assert(keep);
                                    assert(v@[v@.len() - 1].0 == inner@[b]);
                                }
                            }
                        }
                        j2 += 1;
                    }
                    proof {
                        assert forall|rr: NodeId| #[trigger]
                            self.outgoing_resource(t, rr) implies contains_id(v@, rr) by {
                            assert(inner@.contains(rr));
                            let b = choose|b: int| 0 <= b < inner@.len() && inner@[b] == rr;
                            assert(inner@[b] == rr);
                        }
                    }
                }
                proof {
                    assert forall|a: int, rr: NodeId|
                        0 <= a < i2 + 1 && self.outgoing_script(node_id, ns@[a])
                            && #[trigger] self.outgoing_resource(ns@[a], rr) implies contains_id(
                        v@,
                        rr,
                    ) by {
                        if a == i2 {
                            assert(ns@[a] == t);
                            assert(t_is_script);
                        }
                    }
                }
                i2 += 1;
            }
        }
        proof {
            assert forall|m: NodeId| #[trigger]
                self.attributed_resource(node_id, m) implies contains_id(v@, m) by {
                if self.outgoing_resource(node_id, m) {
                    assert(ns@.contains(m));
                    let a = choose|a: int| 0 <= a < ns@.len() && ns@[a] == m;
                    assert(ns@[a] == m);
                } else {
                    let t = choose|t: NodeId|
                        #[trigger] self.outgoing_script(node_id, t) && self.outgoing_resource(
                            t,
                            m,
                        );
                    assert(ns@.contains(t));
                    let a = choose|a: int| 0 <= a < ns@.len() && ns@[a] == t;
                    assert(ns@[a] == t);
                    assert(self.outgoing_resource(ns@[a], m));
                }
            }
            assert forall|j: int| 0 <= j < v@.len() implies self.attributed_resource(
                node_id,
                (#[trigger] v@[j]).0,
            ) && *v@[j].1 == self.node_at(v@[j].0) by {}
        }
        Ok(v)
    }

    /// Whether `n` is a DOM root with no incoming edges.
    pub open spec fn is_root_candidate(self, n: NodeId) -> bool {
        self.has_node(n) && self.node_at(n).node_type is DomRoot && forall|m: usize|
            !self.adj().contains_key((m, n.0))
    }

    /// Whether `n` is the one and only indegree-0 DOM root.
    pub open spec fn is_unique_root(self, n: NodeId) -> bool {
        self.is_root_candidate(n) && forall|m: NodeId| #[trigger] self.is_root_candidate(m) ==> m
            == n
    }

    /// The URL recorded on a DOM root node, if any.
    pub open spec fn root_url_of(self, n: NodeId) -> Option<Seq<char>> {
        match self.node_at(n).node_type {
            NodeType::DomRoot { url } => match url {
                Option::Some(u) => Option::Some(u@),
                Option::None => Option::None,
            },
            _ => Option::None,
        }
    }

    /// What `root_url` promises of its result: success exactly when the
    /// graph has one indegree-0 DOM root carrying a URL, and then that URL.
    pub open spec fn root_url_post(self, r: Result<String, GraphError>) -> bool {
        &&& r is Ok <==> exists|n: NodeId| #[trigger] self.is_unique_root(n) && self.root_url_of(
            n,
        ) is Some
        &&& forall|n: NodeId|
            #[trigger] self.is_unique_root(n) && r is Ok ==> r.unwrap()@ == self.root_url_of(
                n,
            ).unwrap()
        &&& (r matches Err(er) ==> (er == GraphError::RootCountViolation <==> !exists|n: NodeId|
            #[trigger] self.is_unique_root(n)))
        &&& (r matches Err(er) ==> (er == GraphError::MissingRootUrl <==> exists|n: NodeId|
            #[trigger] self.is_unique_root(n) && self.root_url_of(n) is None))
        &&& (r is Err ==> r.unwrap_err() == GraphError::RootCountViolation || r.unwrap_err()
            == GraphError::MissingRootUrl)
    }

    /// The URL of the page the graph was recorded from: the URL of the one
    /// DOM root with no incoming edges. Zero or several such roots, or a root
    /// without a URL, are fatal ingestion violations.
    pub fn root_url(&self) -> (r: Result<String, GraphError>)
        requires
            self.wf(),
        ensures
            self.root_url_post(r),
    {
        let n = self.nodes.len();
        let mut cand: Option<NodeId> = None;
        let mut count: usize = 0;
        let ghost mut w1: NodeId = NodeId(0);
        let ghost mut w2: NodeId = NodeId(0);
        let mut i: usize = 0;
        while i < n
            invariant
                n == self.nodes@.len(),
                i <= n,
                self.wf(),
                count == 0 ==> cand is None && forall|k: int|
                    0 <= k < i ==> !self.is_root_candidate((#[trigger] self.nodes@[k]).0),
                count == 1 ==> (cand matches Some(c) && self.is_root_candidate(c)
                    && self.node_index(c) < i && forall|k: int|
                    0 <= k < i && self.is_root_candidate((#[trigger] self.nodes@[k]).0)
                        ==> self.nodes@[k].0 == c),
                count >= 2 ==> self.is_root_candidate(w1) && self.is_root_candidate(w2) && w1 != w2,
                count <= i,
            decreases n - i,
        {
            proof {
                self.lemma_node_entry(i as int);
            }
            let id = self.nodes[i].0;
            let is_root = match &self.nodes[i].1.node_type {
                NodeType::DomRoot { .. } => true,
                _ => false,
            };
            if is_root {
                let ins = self.neighbors(id, Direction::Incoming);
                if ins.len() == 0 {
                    proof {
                        assert forall|m: usize| !self.adj().contains_key((m, id.0)) by {
                            if self.adj().contains_key((NodeId(m).0, id.0)) {
                                assert(ins@.contains(NodeId(m)));
                            }
                        }
                        assert(self.is_root_candidate(id));
                        assert(self.node_index(id) == i);
                        if count == 1 {
                            // A second distinct candidate: remember both in
                            // the ghost witnesses.
                            w1 = cand.unwrap();
                            w2 = id;
                            assert(self.node_index(w1) < i);
                            assert(w1 != w2);
                        }
                    }
                    cand = Some(id);
                    count = if count < 2 {
                        count + 1
                    } else {
                        count
                    };
                } else {
                    proof {
                        assert(ins@.contains(ins@[0]));
                        assert(self.adj().contains_key((ins@[0].0, id.0)));
                        assert(!self.is_root_candidate(id));
                    }
                }
            } else {
                proof {
                    assert(!self.is_root_candidate(id));
                }
            }
            i += 1;
        }
        if count == 0 {
            proof {
                assert forall|m: NodeId| !(#[trigger] self.is_unique_root(m)) by {
                    if self.is_unique_root(m) {
                        let k = choose|k: int|
                            0 <= k < self.nodes@.len() && self.nodes@[k].0 == m;
                        assert(!self.is_root_candidate(self.nodes@[k].0));
                    }
                }
            }
            return Err(GraphError::RootCountViolation);
        }
        if count >= 2 {
            proof {
                assert forall|m: NodeId| !(#[trigger] self.is_unique_root(m)) by {
                    if self.is_unique_root(m) {
                        assert(self.is_root_candidate(w1));
                        assert(self.is_root_candidate(w2));
                        assert(w1 == m && w2 == m);
                    }
                }
            }
            return Err(GraphError::RootCountViolation);
        }
        let c = match cand {
            Some(c) => c,
            None => vstd::pervasive::unreached(),
        };
        proof {
            assert forall|m: NodeId| #[trigger]
                self.is_root_candidate(m) implies m == c by {
                let k = choose|k: int| 0 <= k < self.nodes@.len() && self.nodes@[k].0 == m;
                assert(self.nodes@[k].0 == m);
            }
            assert(self.is_unique_root(c));
        }
        let cn = match self.node(c) {
            Ok(nd) => nd,
            Err(_) => vstd::pervasive::unreached(),
        };
        match &cn.node_type {
            NodeType::DomRoot { url: Some(u) } => Ok(u.clone()),
            NodeType::DomRoot { url: None } => Err(GraphError::MissingRootUrl),
            _ => vstd::pervasive::unreached(),
        }
    }
}

/// Law: `root_url` is stable. Any two results that `root_url` can return on
/// the same well-formed graph agree: both succeed with the identical string,
/// or both fail with the identical error.
pub proof fn lemma_root_url_stable(
    g: PageGraph,
    r1: Result<String, GraphError>,
    r2: Result<String, GraphError>,
)
    requires
        g.root_url_post(r1),
        g.root_url_post(r2),
    ensures
        r1 is Ok <==> r2 is Ok,
        r1 is Ok ==> r1.unwrap()@ == r2.unwrap()@,
        r1 is Err ==> r1 == r2,
{
    if r1 is Ok {
        let n = choose|n: NodeId| #[trigger] g.is_unique_root(n) && g.root_url_of(n) is Some;
        assert(r1.unwrap()@ == g.root_url_of(n).unwrap());
        assert(r2.unwrap()@ == g.root_url_of(n).unwrap());
    } else {
        if r1.unwrap_err() == GraphError::RootCountViolation {
            assert(r2 is Err);
            assert(r2.unwrap_err() == GraphError::RootCountViolation);
        } else {
            assert(r1.unwrap_err() == GraphError::MissingRootUrl);
            assert(r2 is Err);
            if r2.unwrap_err() == GraphError::RootCountViolation {
                let n = choose|n: NodeId|
                    #[trigger] g.is_unique_root(n) && g.root_url_of(n) is None;
                assert(false);
            }
        }
    }
}

} // verus!
