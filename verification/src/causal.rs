//! The causal-trace engine: direct downstream effects of a node through
//! kind-specific propagation rules, and their transitive closure.

use vstd::prelude::*;

use crate::graph::{contains_id, Direction, EdgeId, GraphError, NodeId, PageGraph};
use crate::graph_algos::{lemma_contains_id_push, str_eq, NodeRef};
use crate::types::NodeType;

verus! {

/// The ids carried by a sequence of (id, node) pairs.
pub open spec fn ids_of<'a>(v: Seq<NodeRef<'a>>) -> Seq<NodeId> {
    v.map_values(|p: NodeRef<'a>| p.0)
}

impl PageGraph {
    /// Whether a request-complete edge runs from `a` to `b`.
    pub open spec fn request_complete_between(self, a: NodeId, b: NodeId) -> bool {
        self.adj().contains_key((a.0, b.0)) && self.edge_at(
            EdgeId(self.adj()[(a.0, b.0)]),
        ).edge_type is RequestComplete
    }

    /// The node kinds causal tracing is modeled for: resources, scripts, and
    /// "script" HTML elements. Everything else is a deliberate scope
    /// boundary.
    pub open spec fn causal_supported(self, n: NodeId) -> bool {
        self.has_node(n) && match self.node_at(n).node_type {
            NodeType::Resource { .. } => true,
            NodeType::Script => true,
            NodeType::HtmlElement { .. } => self.node_at(n).node_type.is_html_with_tag("script"@),
            _ => false,
        }
    }

    /// A completed fetch of resource `n` into a "script" HTML element makes
    /// that element's attached script nodes `m` run.
    pub open spec fn script_effect_of_resource(self, n: NodeId, m: NodeId) -> bool {
        exists|h: NodeId|
            #[trigger] self.request_complete_between(n, h) && self.has_node(h) && self.node_at(
                h,
            ).node_type.is_html_with_tag("script"@) && self.outgoing_script(h, m)
    }

    /// Whether the element `n` has at least one outgoing resource neighbor.
    pub open spec fn has_any_outgoing_resource(self, n: NodeId) -> bool {
        exists|m: NodeId| #[trigger] self.outgoing_resource(n, m)
    }

    /// The kind-specific one-hop causal successor relation.
    pub open spec fn is_direct_effect(self, n: NodeId, m: NodeId) -> bool {
        self.has_node(n) && match self.node_at(n).node_type {
            NodeType::Resource { .. } => self.script_effect_of_resource(n, m),
            NodeType::Script => (self.request_complete_between(m, n) && self.has_node(m))
                || self.outgoing_script(n, m),
            NodeType::HtmlElement { .. } => self.node_at(n).node_type.is_html_with_tag("script"@)
                && (if self.has_any_outgoing_resource(n) {
                self.outgoing_resource(n, m)
            } else {
                self.outgoing_script(n, m)
            }),
            _ => false,
        }
    }

    /// The immediate causal successors of a node, by its kind: a fetched
    /// script resource marks the attached scripts as executed; a "script"
    /// element fetches its resources, or executes its inline script; a script
    /// points back at the resource that ran it and forward at the scripts it
    /// runs. Any other kind is not modeled and fails.
    pub fn direct_downstream_effects_of<'a>(&'a self, node_id: NodeId) -> (r: Result<
        Vec<NodeRef<'a>>,
        GraphError,
    >)
        requires
            self.wf(),
        ensures
            r is Ok <==> self.causal_supported(node_id),
            r matches Err(er) ==> (er == GraphError::NotFound <==> !self.has_node(node_id)),
            r matches Err(er) ==> (er == GraphError::UnsupportedNodeKind <==> self.has_node(node_id)
                && !self.causal_supported(node_id)),
            r matches Ok(v) ==> {
                &&& forall|j: int|
                    #![trigger v@[j]]
                    0 <= j < v@.len() ==> self.has_node(v@[j].0) && *v@[j].1 == self.node_at(
                        v@[j].0,
                    ) && self.is_direct_effect(node_id, v@[j].0)
                &&& forall|m: NodeId|
                    #[trigger] self.is_direct_effect(node_id, m) ==> contains_id(v@, m)
            },
    {
        let element = match self.node(node_id) {
            Ok(n) => n,
            Err(_) => {
                return Err(GraphError::NotFound);
            },
        };
        let is_resource = match &element.node_type {
            NodeType::Resource { .. } => true,
            _ => false,
        };
        let is_script = match &element.node_type {
            NodeType::Script => true,
            _ => false,
        };
        let is_script_element = match &element.node_type {
            NodeType::HtmlElement { tag_name, .. } => str_eq(tag_name, "script"),
            _ => false,
        };
        if is_resource {
            // Script resources cause the execution of the corresponding
            // script, connected through the fetched "script" element.
            let ns = self.neighbors(node_id, Direction::Outgoing);
            let n = ns.len();
            let mut v: Vec<NodeRef<'a>> = Vec::new();
            let mut i: usize = 0;
            while i < n
                invariant
                    n == ns@.len(),
                    i <= n,
                    self.wf(),
                    self.has_node(node_id),
                    self.node_at(node_id).node_type is Resource,
                    forall|m: NodeId|
                        #[trigger] ns@.contains(m) <==> self.adj().contains_key((node_id.0, m.0)),
                    forall|j: int|
                        #![trigger v@[j]]
                        0 <= j < v@.len() ==> self.has_node(v@[j].0) && *v@[j].1 == self.node_at(
                            v@[j].0,
                        ) && self.script_effect_of_resource(node_id, v@[j].0),
                    forall|a: int, m: NodeId|
                        #![trigger self.outgoing_script(ns@[a], m)]
                        0 <= a < i && self.request_complete_between(node_id, ns@[a])
                            && self.node_at(ns@[a]).node_type.is_html_with_tag("script"@)
                            && self.outgoing_script(ns@[a], m) ==> contains_id(v@, m),
                decreases n - i,
            {
                let h = ns[i];
                proof {
                    assert(ns@[i as int] == h);
                    assert(ns@.contains(h));
                    assert(self.has_node(NodeId(h.0)));
                    assert(NodeId(h.0) == h);
                }
                let eid = match self.edge_between(node_id, h) {
                    Some(e) => e,
                    None => vstd::pervasive::unreached(),
                };
                proof {
                    assert(EdgeId(self.adj()[(node_id.0, h.0)]) == eid);
                    assert(self.has_edge(eid));
                }
                let edge = match self.edge(eid) {
                    Ok(e) => e,
                    Err(_) => vstd::pervasive::unreached(),
                };
                let is_rc = match &edge.edge_type {
                    crate::types::EdgeType::RequestComplete => true,
                    _ => false,
                };
                let hn = match self.node(h) {
                    Ok(nd) => nd,
                    Err(_) => vstd::pervasive::unreached(),
                };
                let h_is_script_elem = match &hn.node_type {
                    NodeType::HtmlElement { tag_name, .. } => str_eq(tag_name, "script"),
                    _ => false,
                };
                if is_rc && h_is_script_elem {
                    proof {
                        assert(self.request_complete_between(node_id, h));
                    }
                    let inner = self.neighbors(h, Direction::Outgoing);
                    let kn = inner.len();
                    let mut j2: usize = 0;
                    while j2 < kn
                        invariant
                            kn == inner@.len(),
                            j2 <= kn,
                            n == ns@.len(),
                            i < n,
                            self.wf(),
                            self.has_node(node_id),
                            self.node_at(node_id).node_type is Resource,
                            self.request_complete_between(node_id, h),
                            self.has_node(h),
                            self.node_at(h).node_type.is_html_with_tag("script"@),
                            forall|m: NodeId|
                                #[trigger] inner@.contains(m) <==> self.adj().contains_key(
                                    (h.0, m.0),
                                ),
                            forall|j: int|
                                #![trigger v@[j]]
                                0 <= j < v@.len() ==> self.has_node(v@[j].0) && *v@[j].1
                                    == self.node_at(v@[j].0) && self.script_effect_of_resource(
                                    node_id,
                                    v@[j].0,
                                ),
                            forall|a: int, m: NodeId|
                                #![trigger self.outgoing_script(ns@[a], m)]
                                0 <= a < i && self.request_complete_between(node_id, ns@[a])
                                    && self.node_at(ns@[a]).node_type.is_html_with_tag("script"@)
                                    && self.outgoing_script(ns@[a], m) ==> contains_id(v@, m),
                            forall|b: int|
                                #![trigger inner@[b]]
                                0 <= b < j2 && self.has_node(inner@[b]) && self.node_at(
                                    inner@[b],
                                ).node_type is Script ==> contains_id(v@, inner@[b]),
                        decreases kn - j2,
                    {
                        let s = inner[j2];
                        proof {
                            assert(inner@[j2 as int] == s);
                            assert(inner@.contains(s));
                            assert(self.has_node(NodeId(s.0)));
                            assert(NodeId(s.0) == s);
                        }
                        let sn = match self.node(s) {
                            Ok(nd) => nd,
                            Err(_) => vstd::pervasive::unreached(),
                        };
                        let ghost prev = v@;
                        let keep = match &sn.node_type {
                            NodeType::Script => true,
                            _ => false,
                        };
                        if keep {
                            proof {
                                assert(self.outgoing_script(h, s));
                                assert(self.script_effect_of_resource(node_id, s));
                            }
                            v.push((s, sn));
                        }
                        proof {
                            if keep {
                                assert forall|a: int, m: NodeId|
                                    0 <= a < i && self.request_complete_between(node_id, ns@[a])
                                        && self.node_at(ns@[a]).node_type.is_html_with_tag(
                                        "script"@,
                                    ) && #[trigger] self.outgoing_script(
                                        ns@[a],
                                        m,
                                    ) implies contains_id(v@, m) by {
                                    lemma_contains_id_push(prev, (s, sn), m);
                                }
                            }
                            assert forall|b: int|
                                0 <= b < j2 + 1 && self.has_node(#[trigger] inner@[b])
                                    && self.node_at(
                                    inner@[b],
                                ).node_type is Script implies contains_id(v@, inner@[b]) by {
                                if b < j2 {
                                    if keep {
                                        lemma_contains_id_push(prev, (s, sn), inner@[b]);
                                    }
                                } else {
                                    assert(keep);
                                    assert(v@[v@.len() - 1].0 == inner@[b]);
                                }
                            }
                        }
                        j2 += 1;
                    }
                    proof {
                        assert forall|m: NodeId| #[trigger]
                            self.outgoing_script(h, m) implies contains_id(v@, m) by {
                            assert(inner@.contains(m));
                            let b = choose|b: int| 0 <= b < inner@.len() && inner@[b] == m;
                            assert(inner@[b] == m);
                        }
                    }
                }
                proof {
                    assert forall|a: int, m: NodeId|
                        0 <= a < i + 1 && self.request_complete_between(node_id, ns@[a])
                            && self.node_at(ns@[a]).node_type.is_html_with_tag("script"@)
                            && #[trigger] self.outgoing_script(ns@[a], m) implies contains_id(
                        v@,
                        m,
                    ) by {
                        if a == i {
                            assert(ns@[a] == h);
                            assert(is_rc && h_is_script_elem);
                        }
                    }
                }
                i += 1;
            }
            proof {
                assert forall|m: NodeId| #[trigger]
                    self.is_direct_effect(node_id, m) implies contains_id(v@, m) by {
                    let h2 = choose|h2: NodeId|
                        #[trigger] self.request_complete_between(node_id, h2) && self.has_node(h2)
                            && self.node_at(h2).node_type.is_html_with_tag("script"@)
                            && self.outgoing_script(h2, m);
                    assert(ns@.contains(h2));
                    let a = choose|a: int| 0 <= a < ns@.len() && ns@[a] == h2;
                    assert(ns@[a] == h2);
                    assert(self.outgoing_script(ns@[a], m));
                }
                assert forall|j: int| 0 <= j < v@.len() implies self.is_direct_effect(
                    node_id,
                    (#[trigger] v@[j]).0,
                ) by {}
            }
            return Ok(v);
        }
        if is_script_element {
            // A `src`-bearing script element fetches resources; an inline one
            // executes its attached script directly.
            let ns = self.neighbors(node_id, Direction::Outgoing);
            let n = ns.len();
            let mut vr: Vec<NodeRef<'a>> = Vec::new();
            let mut i: usize = 0;
            while i < n
                invariant
                    n == ns@.len(),
                    i <= n,
                    self.wf(),
                    self.has_node(node_id),
                    self.node_at(node_id).node_type.is_html_with_tag("script"@),
                    forall|m: NodeId|
                        #[trigger] ns@.contains(m) <==> self.adj().contains_key((node_id.0, m.0)),
                    forall|j: int|
                        #![trigger vr@[j]]
                        0 <= j < vr@.len() ==> self.has_node(vr@[j].0) && *vr@[j].1 == self.node_at(
                            vr@[j].0,
                        ) && self.outgoing_resource(node_id, vr@[j].0),
                    forall|a: int|
                        #![trigger ns@[a]]
                        0 <= a < i && self.has_node(ns@[a]) && self.node_at(
                            ns@[a],
                        ).node_type is Resource ==> contains_id(vr@, ns@[a]),
                decreases n - i,
            {
                let m = ns[i];
                proof {
                    assert(ns@[i as int] == m);
                    assert(ns@.contains(m));
                    assert(self.has_node(NodeId(m.0)));
                    assert(NodeId(m.0) == m);
                }
                let nd = match self.node(m) {
                    Ok(nd) => nd,
                    Err(_) => vstd::pervasive::unreached(),
                };
                let ghost prev = vr@;
                let keep = match &nd.node_type {
                    NodeType::Resource { .. } => true,
                    _ => false,
                };
                if keep {
                    vr.push((m, nd));
                }
                proof {
                    assert forall|a: int|
                        0 <= a < i + 1 && self.has_node(#[trigger] ns@[a]) && self.node_at(
                            ns@[a],
                        ).node_type is Resource implies contains_id(vr@, ns@[a]) by {
                        if a < i {
                            if keep {
                                lemma_contains_id_push(prev, (m, nd), ns@[a]);
                            }
                        } else {
                            assert(keep);
                            assert(vr@[vr@.len() - 1].0 == ns@[a]);
                        }
                    }
                }
                i += 1;
            }
            if vr.len() > 0 {
                proof {
                    assert(self.outgoing_resource(node_id, vr@[0].0));
                    assert(self.has_any_outgoing_resource(node_id));
                    assert forall|m: NodeId| #[trigger]
                        self.is_direct_effect(node_id, m) implies contains_id(vr@, m) by {
                        assert(self.outgoing_resource(node_id, m));
                        assert(ns@.contains(m));
                        let a = choose|a: int| 0 <= a < ns@.len() && ns@[a] == m;
                        assert(ns@[a] == m);
                    }
                }
                return Ok(vr);
            }
            proof {
                assert forall|m: NodeId| !(#[trigger] self.outgoing_resource(node_id, m)) by {
                    if self.outgoing_resource(node_id, m) {
                        assert(ns@.contains(m));
                        let a = choose|a: int| 0 <= a < ns@.len() && ns@[a] == m;
                        assert(ns@[a] == m);
                        assert(contains_id(vr@, ns@[a]));
                    }
                }
                assert(!self.has_any_outgoing_resource(node_id));
            }
            let mut vs: Vec<NodeRef<'a>> = Vec::new();
            let mut i2: usize = 0;
            while i2 < n
                invariant
                    n == ns@.len(),
                    i2 <= n,
                    self.wf(),
                    self.has_node(node_id),
                    self.node_at(node_id).node_type.is_html_with_tag("script"@),
                    !self.has_any_outgoing_resource(node_id),
                    forall|m: NodeId|
                        #[trigger] ns@.contains(m) <==> self.adj().contains_key((node_id.0, m.0)),
                    forall|j: int|
                        #![trigger vs@[j]]
                        0 <= j < vs@.len() ==> self.has_node(vs@[j].0) && *vs@[j].1 == self.node_at(
                            vs@[j].0,
                        ) && self.outgoing_script(node_id, vs@[j].0),
                    forall|a: int|
                        #![trigger ns@[a]]
                        0 <= a < i2 && self.has_node(ns@[a]) && self.node_at(
                            ns@[a],
                        ).node_type is Script ==> contains_id(vs@, ns@[a]),
                decreases n - i2,
            {
                let m = ns[i2];
                proof {
                    assert(ns@[i2 as int] == m);
                    assert(ns@.contains(m));
                    assert(self.has_node(NodeId(m.0)));
                    assert(NodeId(m.0) == m);
                }
                let nd = match self.node(m) {
                    Ok(nd) => nd,
                    Err(_) => vstd::pervasive::unreached(),
                };
                let ghost prev = vs@;
                let keep = match &nd.node_type {
                    NodeType::Script => true,
                    _ => false,
                };
                if keep {
                    vs.push((m, nd));
                }
                proof {
                    assert forall|a: int|
                        0 <= a < i2 + 1 && self.has_node(#[trigger] ns@[a]) && self.node_at(
                            ns@[a],
                        ).node_type is Script implies contains_id(vs@, ns@[a]) by {
                        if a < i2 {
                            if keep {
                                lemma_contains_id_push(prev, (m, nd), ns@[a]);
                            }
                        } else {
                            assert(keep);
                            assert(vs@[vs@.len() - 1].0 == ns@[a]);
                        }
                    }
                }
                i2 += 1;
            }
            proof {
                assert forall|m: NodeId| #[trigger]
                    self.is_direct_effect(node_id, m) implies contains_id(vs@, m) by {
                    assert(self.outgoing_script(node_id, m));
                    assert(ns@.contains(m));
                    let a = choose|a: int| 0 <= a < ns@.len() && ns@[a] == m;
                    assert(ns@[a] == m);
                }
            }
            return Ok(vs);
        }
        if is_script {
            // The resource whose completed fetch ran this script, plus the
            // scripts this script executes in turn.
            let ins = self.neighbors(node_id, Direction::Incoming);
            let kin = ins.len();
            let mut v: Vec<NodeRef<'a>> = Vec::new();
            let mut i: usize = 0;
            while i < kin
                invariant
                    kin == ins@.len(),
                    i <= kin,
                    self.wf(),
                    self.has_node(node_id),
                    self.node_at(node_id).node_type is Script,
                    forall|m: NodeId|
                        #[trigger] ins@.contains(m) <==> self.adj().contains_key((m.0, node_id.0)),
                    forall|j: int|
                        #![trigger v@[j]]
                        0 <= j < v@.len() ==> self.has_node(v@[j].0) && *v@[j].1 == self.node_at(
                            v@[j].0,
                        ) && self.request_complete_between(v@[j].0, node_id),
                    forall|a: int|
                        #![trigger ins@[a]]
                        0 <= a < i && self.request_complete_between(ins@[a], node_id)
                            ==> contains_id(v@, ins@[a]),
                decreases kin - i,
            {
                let m = ins[i];
                proof {
                    assert(ins@[i as int] == m);
                    assert(ins@.contains(m));
                    assert(self.has_node(NodeId(m.0)));
                    assert(NodeId(m.0) == m);
                }
                let eid = match self.edge_between(m, node_id) {
                    Some(e) => e,
                    None => vstd::pervasive::unreached(),
                };
                proof {
                    assert(EdgeId(self.adj()[(m.0, node_id.0)]) == eid);
                    assert(self.has_edge(eid));
                }
                let edge = match self.edge(eid) {
                    Ok(e) => e,
                    Err(_) => vstd::pervasive::unreached(),
                };
                let nd = match self.node(m) {
                    Ok(nd) => nd,
                    Err(_) => vstd::pervasive::unreached(),
                };
                let ghost prev = v@;
                let keep = match &edge.edge_type {
                    crate::types::EdgeType::RequestComplete => true,
                    _ => false,
                };
                if keep {
                    proof {
                        assert(self.request_complete_between(m, node_id));
                    }
                    v.push((m, nd));
                }
                proof {
                    assert forall|a: int|
                        0 <= a < i + 1 && self.request_complete_between(
                            #[trigger] ins@[a],
                            node_id,
                        ) implies contains_id(v@, ins@[a]) by {
                        if a < i {
                            if keep {
                                lemma_contains_id_push(prev, (m, nd), ins@[a]);
                            }
                        } else {
                            assert(keep);
                            assert(v@[v@.len() - 1].0 == ins@[a]);
                        }
                    }
                }
                i += 1;
            }
            let ns = self.neighbors(node_id, Direction::Outgoing);
            let n = ns.len();
            let mut i2: usize = 0;
            while i2 < n
                invariant
                    n == ns@.len(),
                    i2 <= n,
                    self.wf(),
                    self.has_node(node_id),
                    self.node_at(node_id).node_type is Script,
                    forall|m: NodeId|
                        #[trigger] ns@.contains(m) <==> self.adj().contains_key((node_id.0, m.0)),
                    forall|m: NodeId|
                        #[trigger] ins@.contains(m) <==> self.adj().contains_key((m.0, node_id.0)),
                    forall|j: int|
                        #![trigger v@[j]]
                        0 <= j < v@.len() ==> self.has_node(v@[j].0) && *v@[j].1 == self.node_at(
                            v@[j].0,
                        ) && (self.request_complete_between(v@[j].0, node_id)
                            || self.outgoing_script(node_id, v@[j].0)),
                    forall|a: int|
                        #![trigger ins@[a]]
                        0 <= a < ins@.len() && self.request_complete_between(ins@[a], node_id)
                            ==> contains_id(v@, ins@[a]),
                    forall|a: int|
                        #![trigger ns@[a]]
                        0 <= a < i2 && self.has_node(ns@[a]) && self.node_at(
                            ns@[a],
                        ).node_type is Script ==> contains_id(v@, ns@[a]),
                decreases n - i2,
            {
                let m = ns[i2];
                proof {
                    assert(ns@[i2 as int] == m);
                    assert(ns@.contains(m));
                    assert(self.has_node(NodeId(m.0)));
                    assert(NodeId(m.0) == m);
                }
                let nd = match self.node(m) {
                    Ok(nd) => nd,
                    Err(_) => vstd::pervasive::unreached(),
                };
                let ghost prev = v@;
                let keep = match &nd.node_type {
                    NodeType::Script => true,
                    _ => false,
                };
                if keep {
                    v.push((m, nd));
                }
                proof {
                    if keep {
                        assert forall|a: int|
                            0 <= a < ins@.len() && self.request_complete_between(
                                #[trigger] ins@[a],
                                node_id,
                            ) implies contains_id(v@, ins@[a]) by {
                            lemma_contains_id_push(prev, (m, nd), ins@[a]);
                        }
                    }
                    assert forall|a: int|
                        0 <= a < i2 + 1 && self.has_node(#[trigger] ns@[a]) && self.node_at(
                            ns@[a],
                        ).node_type is Script implies contains_id(v@, ns@[a]) by {
                        if a < i2 {
                            if keep {
                                lemma_contains_id_push(prev, (m, nd), ns@[a]);
                            }
                        } else {
                            assert(keep);
                            assert(v@[v@.len() - 1].0 == ns@[a]);
                        }
                    }
                }
                i2 += 1;
            }
            proof {
                assert forall|m: NodeId| #[trigger]
                    self.is_direct_effect(node_id, m) implies contains_id(v@, m) by {
                    if self.request_complete_between(m, node_id) && self.has_node(m) {
                        assert(ins@.contains(m));
                        let a = choose|a: int| 0 <= a < ins@.len() && ins@[a] == m;
                        assert(ins@[a] == m);
                    } else {
                        assert(self.outgoing_script(node_id, m));
                        assert(ns@.contains(m));
                        let a = choose|a: int| 0 <= a < ns@.len() && ns@[a] == m;
                        assert(ns@[a] == m);
                    }
                }
                assert forall|j: int| 0 <= j < v@.len() implies self.is_direct_effect(
                    node_id,
                    (#[trigger] v@[j]).0,
                ) by {}
            }
            return Ok(v);
        }
        Err(GraphError::UnsupportedNodeKind)
    }

    /// Whether `s` is closed under the direct-effect relation.
    pub open spec fn effects_closed(self, s: Set<NodeId>) -> bool {
        forall|x: NodeId, y: NodeId|
            s.contains(x) && #[trigger] self.is_direct_effect(x, y) ==> s.contains(y)
    }

    /// A set witnessing that tracing from `start` stays inside modeled
    /// kinds: it holds `start`, is closed under direct effects, and holds
    /// supported nodes only.
    pub open spec fn closure_witness(self, start: NodeId, s: Set<NodeId>) -> bool {
        s.contains(start) && self.effects_closed(s) && forall|x: NodeId|
            #[trigger] s.contains(x) ==> self.causal_supported(x)
    }

    /// Whether the full downstream trace from `start` is computable.
    pub open spec fn traceable(self, start: NodeId) -> bool {
        exists|s: Set<NodeId>| #[trigger] self.closure_witness(start, s)
    }

    /// What the set of ids returned by `all_downstream_effects_of` promises:
    /// no node appears twice, the start node is in it, it is closed under
    /// direct effects, holds only supported nodes, and is the least such set.
    pub open spec fn downstream_ids_ok(self, start: NodeId, ids: Seq<NodeId>) -> bool {
        &&& forall|a: int, b: int| 0 <= a < b < ids.len() ==> ids[a] != ids[b]
        &&& ids.contains(start)
        &&& forall|x: NodeId, y: NodeId|
            ids.contains(x) && #[trigger] self.is_direct_effect(x, y) ==> ids.contains(y)
        &&& forall|j: int| 0 <= j < ids.len() ==> self.causal_supported(#[trigger] ids[j])
        &&& forall|s: Set<NodeId>|
            s.contains(start) && #[trigger] self.effects_closed(s) ==> forall|j: int|
                0 <= j < ids.len() ==> s.contains(#[trigger] ids[j])
    }

    /// A sequence of distinct existing node ids is no longer than the store.
    proof fn lemma_distinct_ids_bound(self, s: Seq<NodeId>)
        requires
            self.wf(),
            forall|a: int, b: int| 0 <= a < b < s.len() ==> s[a] != s[b],
            forall|j: int| 0 <= j < s.len() ==> self.has_node(#[trigger] s[j]),
        ensures
            s.len() <= self.nodes@.len(),
    {
        broadcast use vstd::seq_lib::seq_to_set_is_finite;
        broadcast use vstd::seq_lib::group_seq_properties;

        let ids = self.nodes@.map_values(|p: (NodeId, crate::graph::Node)| p.0);
        assert(s.no_duplicates());
        s.unique_seq_to_set();
        ids.lemma_cardinality_of_set();
        assert forall|x: NodeId| s.to_set().contains(x) implies ids.to_set().contains(x) by {
            let j = choose|j: int| 0 <= j < s.len() && s[j] == x;
            assert(self.has_node(s[j]));
            let k = choose|k: int| 0 <= k < self.nodes@.len() && self.nodes@[k].0 == x;
            assert(ids[k] == x);
            assert(ids.contains(x));
        }
        vstd::set_lib::lemma_len_subset(s.to_set(), ids.to_set());
    }

    /// The transitive closure of `direct_downstream_effects_of` from the
    /// given node, computed by a work-list that visits each node at most
    /// once. The order of the result is unspecified; its set of ids is the
    /// least effect-closed set holding the start node. Reaching a node whose
    /// kind is not modeled fails the whole trace.
    pub fn all_downstream_effects_of<'a>(&'a self, init_node_id: NodeId) -> (r: Result<
        Vec<NodeRef<'a>>,
        GraphError,
    >)
        requires
            self.wf(),
        ensures
            r is Ok <==> self.traceable(init_node_id),
            r matches Err(er) ==> (er == GraphError::NotFound <==> !self.has_node(init_node_id)),
            r matches Err(er) ==> (er == GraphError::UnsupportedNodeKind <==> self.has_node(
                init_node_id,
            ) && !self.traceable(init_node_id)),
            r matches Ok(v) ==> self.downstream_ids_ok(init_node_id, ids_of(v@)) && forall|j: int|
                0 <= j < v@.len() ==> self.has_node((#[trigger] v@[j]).0) && *v@[j].1
                    == self.node_at(v@[j].0),
    {
        match self.node(init_node_id) {
            Ok(_) => {},
            Err(_) => {
                return Err(GraphError::NotFound);
            },
        }
        let mut to_check: Vec<NodeId> = Vec::new();
        to_check.push(init_node_id);
        let mut checked: Vec<NodeRef<'a>> = Vec::new();
        proof {
            assert(to_check@[0] == init_node_id);
            assert(to_check@.contains(init_node_id));
        }
        while to_check.len() > 0
            invariant
                self.wf(),
                self.has_node(init_node_id),
                forall|j: int| 0 <= j < to_check@.len() ==> self.has_node(#[trigger] to_check@[j]),
                forall|j: int|
                    #![trigger checked@[j]]
                    0 <= j < checked@.len() ==> self.has_node(checked@[j].0) && *checked@[j].1
                        == self.node_at(checked@[j].0) && self.causal_supported(checked@[j].0),
                forall|a: int, b: int| 0 <= a < b < checked@.len() ==> checked@[a].0
                    != checked@[b].0,
                checked@.len() <= self.nodes@.len(),
                to_check@.contains(init_node_id) || contains_id(checked@, init_node_id),
                forall|j: int, y: NodeId|
                    0 <= j < checked@.len() && #[trigger] self.is_direct_effect(
                        checked@[j].0,
                        y,
                    ) ==> contains_id(checked@, y) || to_check@.contains(y),
                forall|s: Set<NodeId>|
                    s.contains(init_node_id) && #[trigger] self.effects_closed(s) ==> (forall|
                        j: int,
                    |
                        0 <= j < to_check@.len() ==> s.contains(#[trigger] to_check@[j])) && (
                    forall|j: int|
                        0 <= j < checked@.len() ==> s.contains((#[trigger] checked@[j]).0)),
            decreases self.nodes@.len() - checked@.len(), to_check@.len(),
        {
            let ghost old_to = to_check@;
            let x = match to_check.pop() {
                Some(x) => x,
                None => vstd::pervasive::unreached(),
            };
            proof {
                assert(old_to[old_to.len() - 1] == x);
                assert(old_to.contains(x));
            }
            let already = contains_entry(&checked, x);
            if !already {
                proof {
                    if !contains_id(checked@, init_node_id) && init_node_id != x {
                        let a = choose|a: int|
                            0 <= a < old_to.len() && old_to[a] == init_node_id;
                        assert(a < old_to.len() - 1);
                        assert(to_check@[a] == init_node_id);
                    }
                    assert forall|j: int, y: NodeId|
                        0 <= j < checked@.len() && #[trigger] self.is_direct_effect(
                            checked@[j].0,
                            y,
                        ) implies contains_id(checked@, y) || to_check@.contains(y) || y == x by {
                        if !contains_id(checked@, y) && y != x {
                            assert(old_to.contains(y));
                            let a = choose|a: int| 0 <= a < old_to.len() && old_to[a] == y;
                            assert(a < old_to.len() - 1);
                            assert(to_check@[a] == y);
                        }
                    }
                }
                let nd = match self.node(x) {
                    Ok(nd) => nd,
                    Err(_) => vstd::pervasive::unreached(),
                };
                let direct = match self.direct_downstream_effects_of(x) {
                    Ok(d) => d,
                    Err(_) => {
                        // A reached node of an unmodeled kind: the trace as a
                        // whole is out of scope.
                        proof {
                            if self.traceable(init_node_id) {
                                let s = choose|s: Set<NodeId>|
                                    #[trigger] self.closure_witness(init_node_id, s);
                                assert(s.contains(x));
                                assert(self.causal_supported(x));
                            }
                        }
                        return Err(GraphError::UnsupportedNodeKind);
                    },
                };
                let kd = direct.len();
                let mut k: usize = 0;
                while k < kd
                    invariant
                        kd == direct@.len(),
                        k <= kd,
                        self.wf(),
                        self.has_node(init_node_id),
                        self.has_node(x),
                        self.causal_supported(x),
                        !contains_id(checked@, x),
                        *nd == self.node_at(x),
                        old_to.contains(x),
                        forall|j: int|
                            #![trigger direct@[j]]
                            0 <= j < direct@.len() ==> self.has_node(direct@[j].0)
                                && self.is_direct_effect(x, direct@[j].0),
                        forall|m: NodeId|
                            #[trigger] self.is_direct_effect(x, m) ==> contains_id(direct@, m),
                        forall|j: int|
                            0 <= j < to_check@.len() ==> self.has_node(#[trigger] to_check@[j]),
                        forall|j: int|
                            #![trigger checked@[j]]
                            0 <= j < checked@.len() ==> self.has_node(checked@[j].0)
                                && *checked@[j].1 == self.node_at(checked@[j].0)
                                && self.causal_supported(checked@[j].0),
                        forall|a: int, b: int| 0 <= a < b < checked@.len() ==> checked@[a].0
                            != checked@[b].0,
                        checked@.len() <= self.nodes@.len(),
                        to_check@.contains(init_node_id) || contains_id(checked@, init_node_id)
                            || init_node_id == x,
                        forall|j: int, y: NodeId|
                            0 <= j < checked@.len() && #[trigger] self.is_direct_effect(
                                checked@[j].0,
                                y,
                            ) ==> contains_id(checked@, y) || to_check@.contains(y) || y == x,
                        forall|a: int|
                            #![trigger direct@[a]]
                            0 <= a < k ==> contains_id(checked@, direct@[a].0)
                                || to_check@.contains(direct@[a].0),
                        forall|s: Set<NodeId>|
                            s.contains(init_node_id) && #[trigger] self.effects_closed(s) ==> (
                            forall|j: int|
                                0 <= j < to_check@.len() ==> s.contains(#[trigger] to_check@[j]))
                                && (forall|j: int|
                                0 <= j < checked@.len() ==> s.contains((#[trigger] checked@[j]).0))
                                && s.contains(x),
                    decreases kd - k,
                {
                    let (y, _) = direct[k];
                    proof {
                        assert(direct@[k as int].0 == y);
                    }
                    let seen = contains_entry(&checked, y);
                    let ghost prev_to = to_check@;
                    if !seen {
                        to_check.push(y);
                        proof {
                            if prev_to.contains(init_node_id) {
                                let a0 = choose|a0: int|
                                    0 <= a0 < prev_to.len() && prev_to[a0] == init_node_id;
                                assert(to_check@[a0] == init_node_id);
                                assert(to_check@.contains(init_node_id));
                            }
                            assert forall|j: int|
                                0 <= j < to_check@.len() implies self.has_node(
                                #[trigger] to_check@[j],
                            ) by {
                                if j < to_check@.len() - 1 {
                                    assert(to_check@[j] == prev_to[j]);
                                }
                            }
                            assert forall|j: int, y2: NodeId|
                                0 <= j < checked@.len() && #[trigger] self.is_direct_effect(
                                    checked@[j].0,
                                    y2,
                                ) implies contains_id(checked@, y2) || to_check@.contains(y2) || y2
                                == x by {
                                if !contains_id(checked@, y2) && y2 != x {
                                    assert(prev_to.contains(y2));
                                    let a = choose|a: int|
                                        0 <= a < prev_to.len() && prev_to[a] == y2;
                                    assert(to_check@[a] == y2);
                                }
                            }
                            assert forall|a: int|
                                0 <= a < k + 1 implies contains_id(
                                checked@,
                                (#[trigger] direct@[a]).0,
                            ) || to_check@.contains(direct@[a].0) by {
                                if a < k {
                                    if !contains_id(checked@, direct@[a].0) {
                                        assert(prev_to.contains(direct@[a].0));
                                        let c = choose|c: int|
                                            0 <= c < prev_to.len() && prev_to[c] == direct@[a].0;
                                        assert(to_check@[c] == direct@[a].0);
                                    }
                                } else {
                                    assert(to_check@[to_check@.len() - 1] == y);
                                    assert(to_check@.contains(y));
                                }
                            }
                            assert forall|s: Set<NodeId>|
                                s.contains(init_node_id) && #[trigger] self.effects_closed(
                                    s,
                                ) implies (forall|j: int|
                                0 <= j < to_check@.len() ==> s.contains(#[trigger] to_check@[j]))
                                && (forall|j: int|
                                0 <= j < checked@.len() ==> s.contains((#[trigger] checked@[j]).0))
                                && s.contains(x) by {
                                assert(s.contains(x));
                                assert(self.is_direct_effect(x, y));
                                assert(s.contains(y));
                                assert forall|j: int|
                                    0 <= j < to_check@.len() implies s.contains(
                                    #[trigger] to_check@[j],
                                ) by {
                                    if j < to_check@.len() - 1 {
                                        assert(to_check@[j] == prev_to[j]);
                                        assert(s.contains(prev_to[j]));
                                    }
                                }
                            }
                        }
                    } else {
                        proof {
                            assert forall|a: int|
                                0 <= a < k + 1 implies contains_id(
                                checked@,
                                (#[trigger] direct@[a]).0,
                            ) || to_check@.contains(direct@[a].0) by {}
                        }
                    }
                    k += 1;
                }
                let ghost prev_checked = checked@;
                checked.push((x, nd));
                proof {
                    assert(checked@[checked@.len() - 1] == (x, nd));
                    assert forall|a: int, b: int|
                        0 <= a < b < checked@.len() implies checked@[a].0 != checked@[b].0 by {
                        if b == checked@.len() - 1 {
                            if checked@[a].0 == x {
                                assert(prev_checked[a].0 == x);
                                assert(contains_id(prev_checked, x));
                            }
                        }
                    }
                    assert forall|j: int, y: NodeId|
                        0 <= j < checked@.len() && #[trigger] self.is_direct_effect(
                            checked@[j].0,
                            y,
                        ) implies contains_id(checked@, y) || to_check@.contains(y) by {
                        if j < checked@.len() - 1 {
                            assert(checked@[j] == prev_checked[j]);
                            if contains_id(prev_checked, y) {
                                lemma_contains_id_push(prev_checked, (x, nd), y);
                            }
                            if y == x {
                                assert(checked@[checked@.len() - 1].0 == x);
                                assert(contains_id(checked@, y));
                            }
                        } else {
                            assert(checked@[j].0 == x);
                            assert(contains_id(direct@, y));
                            let a = choose|a: int|
                                0 <= a < direct@.len() && direct@[a].0 == y;
                            assert(direct@[a].0 == y);
                            if contains_id(prev_checked, y) {
                                lemma_contains_id_push(prev_checked, (x, nd), y);
                            }
                        }
                    }
                    assert forall|s: Set<NodeId>|
                        s.contains(init_node_id) && #[trigger] self.effects_closed(s) implies (
                    forall|j: int|
                        0 <= j < to_check@.len() ==> s.contains(#[trigger] to_check@[j])) && (
                    forall|j: int|
                        0 <= j < checked@.len() ==> s.contains((#[trigger] checked@[j]).0)) by {
                        assert forall|j: int|
                            0 <= j < checked@.len() implies s.contains(
                            (#[trigger] checked@[j]).0,
                        ) by {
                            if j < checked@.len() - 1 {
                                assert(checked@[j] == prev_checked[j]);
                            } else {
                                assert(checked@[j].0 == x);
                            }
                        }
                    }
                    if contains_id(prev_checked, init_node_id) {
                        lemma_contains_id_push(prev_checked, (x, nd), init_node_id);
                    } else if to_check@.contains(init_node_id) {
                    } else {
                        assert(init_node_id == x);
                        assert(checked@[checked@.len() - 1].0 == x);
                        assert(contains_id(checked@, init_node_id));
                    }
                    // The visited nodes stay within the store, so the visit
                    // count is bounded by the store's size.
                    let ids = ids_of(checked@);
                    assert forall|a: int, b: int| 0 <= a < b < ids.len() implies ids[a]
                        != ids[b] by {
                        assert(ids[a] == checked@[a].0 && ids[b] == checked@[b].0);
                    }
                    assert forall|j: int| 0 <= j < ids.len() implies self.has_node(
                        #[trigger] ids[j],
                    ) by {
                        assert(ids[j] == checked@[j].0);
                    }
                    self.lemma_distinct_ids_bound(ids);
                    assert(ids.len() == checked@.len());
                }
            } else {
                proof {
                    assert forall|j: int, y: NodeId|
                        0 <= j < checked@.len() && #[trigger] self.is_direct_effect(
                            checked@[j].0,
                            y,
                        ) implies contains_id(checked@, y) || to_check@.contains(y) by {
                        if !contains_id(checked@, y) {
                            assert(old_to.contains(y));
                            let a = choose|a: int| 0 <= a < old_to.len() && old_to[a] == y;
                            if a < old_to.len() - 1 {
                                assert(to_check@[a] == y);
                            } else {
                                assert(y == x);
                                assert(contains_id(checked@, x));
                            }
                        }
                    }
                    if !contains_id(checked@, init_node_id) && old_to.contains(init_node_id) {
                        let a = choose|a: int|
                            0 <= a < old_to.len() && old_to[a] == init_node_id;
                        if a < old_to.len() - 1 {
                            assert(to_check@[a] == init_node_id);
                        } else {
                            assert(init_node_id == x);
                        }
                    }
                }
            }
        }
        proof {
            assert(to_check@.len() == 0);
            assert(contains_id(checked@, init_node_id));
            let ids = ids_of(checked@);
            assert forall|j: int|
                0 <= j < checked@.len() implies ids[j] == (#[trigger] checked@[j]).0 by {}
            let visited = ids.to_set();
            assert forall|x: NodeId| #[trigger]
                visited.contains(x) implies contains_id(checked@, x) by {
                let j = choose|j: int| 0 <= j < ids.len() && ids[j] == x;
                assert(checked@[j].0 == x);
            }
            assert forall|x: NodeId| contains_id(checked@, x) implies visited.contains(x) by {
                let j = choose|j: int| 0 <= j < checked@.len() && checked@[j].0 == x;
                assert(ids[j] == x);
                assert(ids.contains(x));
            }
            assert(self.effects_closed(visited)) by {
                assert forall|x: NodeId, y: NodeId|
                    visited.contains(x) && #[trigger] self.is_direct_effect(
                        x,
                        y,
                    ) implies visited.contains(y) by {
                    let j = choose|j: int| 0 <= j < checked@.len() && checked@[j].0 == x;
                    assert(self.is_direct_effect(checked@[j].0, y));
                    assert(contains_id(checked@, y) || to_check@.contains(y));
                }
            }
            assert(visited.contains(init_node_id));
            assert forall|x: NodeId| #[trigger]
                visited.contains(x) implies self.causal_supported(x) by {
                let j = choose|j: int| 0 <= j < checked@.len() && checked@[j].0 == x;
            }
            assert(self.closure_witness(init_node_id, visited));
            assert(self.traceable(init_node_id));
            // The returned ids meet the full downstream contract.
            let start = init_node_id;
            assert(ids.contains(start)) by {
                let j = choose|j: int| 0 <= j < checked@.len() && checked@[j].0 == start;
                assert(ids[j] == start);
            }
            assert forall|x: NodeId, y: NodeId|
                ids.contains(x) && #[trigger] self.is_direct_effect(x, y) implies ids.contains(
                y,
            ) by {
                assert(visited.contains(x));
                assert(visited.contains(y));
            }
            assert forall|j: int| 0 <= j < ids.len() implies self.causal_supported(
                #[trigger] ids[j],
            ) by {
                assert(ids[j] == checked@[j].0);
            }
            assert forall|a: int, b: int| 0 <= a < b < ids.len() implies ids[a] != ids[b] by {
                assert(ids[a] == checked@[a].0 && ids[b] == checked@[b].0);
            }
            assert forall|s: Set<NodeId>|
                s.contains(start) && #[trigger] self.effects_closed(s) implies forall|j: int|
                0 <= j < ids.len() ==> s.contains(#[trigger] ids[j]) by {
                assert forall|j: int| 0 <= j < ids.len() implies s.contains(
                    #[trigger] ids[j],
                ) by {
                    assert(s.contains(checked@[j].0));
                    assert(ids[j] == checked@[j].0);
                }
            }
            assert(self.downstream_ids_ok(init_node_id, ids));
        }
        Ok(checked)
    }
}

/// Linear scan for an id among collected (id, node) pairs.
fn contains_entry(v: &Vec<NodeRef<'_>>, x: NodeId) -> (r: bool)
    ensures
        r == contains_id(v@, x),
{
    let n = v.len();
    let mut i: usize = 0;
    while i < n
        invariant
            n == v@.len(),
            i <= n,
            forall|j: int| 0 <= j < i ==> (#[trigger] v@[j]).0 != x,
        decreases n - i,
    {
        if v[i].0 == x {
            proof {
                assert(v@[i as int].0 == x);
            }
            return true;
        }
        i += 1;
    }
    false
}

/// Law: the downstream trace holds the start node and every one of its
/// direct effects — it is a superset of `direct_effects(start)` together
/// with the start itself.
pub proof fn lemma_downstream_superset(g: PageGraph, start: NodeId, ids: Seq<NodeId>, m: NodeId)
    requires
        g.downstream_ids_ok(start, ids),
        g.is_direct_effect(start, m),
    ensures
        ids.contains(start),
        ids.contains(m),
{
}

/// Law: the downstream trace is idempotent. Tracing again from any node it
/// already holds yields nothing outside it.
pub proof fn lemma_downstream_idempotent(
    g: PageGraph,
    start: NodeId,
    ids: Seq<NodeId>,
    y: NodeId,
    ids2: Seq<NodeId>,
)
    requires
        g.downstream_ids_ok(start, ids),
        ids.contains(y),
        g.downstream_ids_ok(y, ids2),
    ensures
        forall|j: int| 0 <= j < ids2.len() ==> ids.contains(#[trigger] ids2[j]),
{
    let s = ids.to_set();
    assert(s.contains(y));
    assert forall|x: NodeId, z: NodeId|
        s.contains(x) && #[trigger] g.is_direct_effect(x, z) implies s.contains(z) by {
        assert(ids.contains(x));
        assert(ids.contains(z));
    }
    assert(g.effects_closed(s));
    assert forall|j: int| 0 <= j < ids2.len() implies ids.contains(#[trigger] ids2[j]) by {
        assert(s.contains(ids2[j]));
    }
}

} // verus!
