//! Matching resource nodes against network filter rules. The rule grammar,
//! URL parsing and the public-suffix list live in outside crates (`adblock`,
//! `url`, `addr`); each is consumed through a trusted wrapper whose result is
//! named by an uninterpreted function of its arguments, and everything
//! around the calls — collecting request types, the consistency checks, the
//! selection of matching resources — is verified.

use vstd::prelude::*;

use crate::graph::{contains_id, Direction, EdgeId, GraphError, NodeId, PageGraph};
use crate::graph_algos::{str_eq, NodeRef};
use crate::types::{EdgeType, NodeType};

verus! {

/// Whether `adblock` accepts the pattern as a network filter rule.
pub uninterp spec fn filter_parses(pattern: Seq<char>) -> bool;

/// What the one-rule list built from `pattern` decides for a request with
/// the given type, URL, host, source host and third-party flag.
pub uninterp spec fn filter_match_of(
    pattern: Seq<char>,
    request_type: Seq<char>,
    url: Seq<char>,
    host: Seq<char>,
    source_host: Seq<char>,
    third_party: bool,
) -> bool;

/// The scheme and optional host that `url` parses the string into, `None`
/// when it does not parse.
pub uninterp spec fn url_parts_of(s: Seq<char>) -> Option<(Seq<char>, Option<Seq<char>>)>;

/// The registrable-domain suffix of a host under the public suffix list,
/// `None` when the host does not parse as a domain name.
pub uninterp spec fn domain_root_of(host: Seq<char>) -> Option<Seq<char>>;

/// Relies on `adblock`'s `NetworkFilter::parse`: whether the pattern is a
/// syntactically valid network filter rule; a function of the pattern alone.
#[verifier::external_body]
fn filter_pattern_valid(pattern: &str) -> (r: bool)
    ensures
        r == filter_parses(pattern@),
{
    adblock::filters::network::NetworkFilter::parse(
        pattern,
        false,
        adblock::lists::ParseOptions::default(),
    ).is_ok()
}

/// Relies on `adblock`'s `Engine::check_network_request` (with
/// `FilterSet::add_filter_list` and `Request::preparsed` converting the
/// arguments): whether the one-rule list built from `pattern` blocks the
/// request assembled from these fields; a function of the arguments alone.
#[verifier::external_body]
fn filter_match(
    pattern: &str,
    request_type: &str,
    url: &str,
    host: &str,
    source_host: &str,
    third_party: bool,
) -> (r: bool)
    ensures
        filter_parses(pattern@) ==> r == filter_match_of(
            pattern@,
            request_type@,
            url@,
            host@,
            source_host@,
            third_party,
        ),
{
    let mut rules = adblock::lists::FilterSet::new(false);
    let _ = rules.add_filter_list(pattern.to_string(), adblock::lists::ParseOptions::default());
    let engine = adblock::Engine::new_with_filter_set(rules);
    let req = adblock::request::Request::preparsed(
        url,
        host,
        source_host,
        request_type,
        third_party,
        "get",
    );
    engine.check_network_request(&req).should_block()
}

/// Relies on `url::Url::parse`, `Url::scheme` and `Url::host_str`: the
/// scheme and optional host of a parseable URL; a function of the string
/// alone.
#[verifier::external_body]
fn parse_url_parts(s: &str) -> (r: Option<(String, Option<String>)>)
    ensures
        r is Some <==> url_parts_of(s@) is Some,
        r matches Some(p) ==> p.0@ == url_parts_of(s@).unwrap().0 && (p.1 is Some <==> url_parts_of(
            s@,
        ).unwrap().1 is Some) && (p.1 matches Some(h) ==> h@ == url_parts_of(
            s@,
        ).unwrap().1.unwrap()),
{
    match url::Url::parse(s) {
        Ok(u) => {
            let host = u.host_str().map(|h| h.to_string());
            Some((u.scheme().to_string(), host))
        },
        Err(_) => None,
    }
}

/// Relies on `addr::parse_domain_name` and `Name::root`: the registrable
/// domain of a host that parses against the public suffix list; a function
/// of the host alone.
#[verifier::external_body]
fn parse_domain_root(host: &str) -> (r: Option<String>)
    ensures
        r is Some <==> domain_root_of(host@) is Some,
        r matches Some(d) ==> d@ == domain_root_of(host@).unwrap(),
{
    match addr::parse_domain_name(host) {
        Ok(name) => name.root().map(|d| d.to_string()),
        Err(_) => None,
    }
}

/// The registrable domain of `host`: the shortest public-suffix-aware
/// right-hand part of it that names a registered domain. Fails when `host`
/// cannot be parsed as a domain name.
pub fn get_domain(host: &str) -> (r: Result<String, GraphError>)
    ensures
        r is Ok <==> domain_root_of(host@) is Some,
        r matches Ok(d) ==> d@ == domain_root_of(host@).unwrap(),
        r matches Err(e) ==> e == GraphError::UnparseableDomain && domain_root_of(host@) is None,
{
    match parse_domain_root(host) {
        Some(d) => Ok(d),
        None => Err(GraphError::UnparseableDomain),
    }
}

impl PageGraph {
    /// The request type carried into `n` by the edge registered for the
    /// ordered pair `(m, n)`, if that edge starts a request.
    pub open spec fn request_start_type(self, m: usize, n: NodeId) -> Option<Seq<char>> {
        if self.adj().contains_key((m, n.0)) {
            match self.edge_at(EdgeId(self.adj()[(m, n.0)])).edge_type {
                EdgeType::RequestStart { request_type } => Option::Some(request_type@),
                _ => Option::None,
            }
        } else {
            Option::None
        }
    }

    /// Whether some request-start edge into `n` carries type `t`.
    pub open spec fn has_request_type(self, n: NodeId, t: Seq<char>) -> bool {
        exists|m: usize| #[trigger] self.request_start_type(m, n) == Option::Some(t)
    }

    /// Whether any request-start edge runs into `n`.
    pub open spec fn some_request_type(self, n: NodeId) -> bool {
        exists|t: Seq<char>| #[trigger] self.has_request_type(n, t)
    }

    /// Whether `t` is the single request type of `n`.
    pub open spec fn unique_request_type(self, n: NodeId, t: Seq<char>) -> bool {
        self.has_request_type(n, t) && forall|t2: Seq<char>|
            #[trigger] self.has_request_type(n, t2) ==> t2 == t
    }

    /// Whether `n` was requested with exactly one distinct type.
    pub open spec fn consistent_request_type(self, n: NodeId) -> bool {
        exists|t: Seq<char>| #[trigger] self.unique_request_type(n, t)
    }

    /// The single request type of `n` (meaningful when consistent).
    pub open spec fn the_request_type(self, n: NodeId) -> Seq<char> {
        choose|t: Seq<char>| self.unique_request_type(n, t)
    }

    /// The unique indegree-0 DOM root (meaningful when one exists).
    pub open spec fn the_root(self) -> NodeId {
        choose|n: NodeId| self.is_unique_root(n)
    }

    /// The page's root URL (meaningful when the root carries one).
    pub open spec fn source_url_spec(self) -> Seq<char> {
        self.root_url_of(self.the_root()).unwrap()
    }

    /// The root URL's host (meaningful when it parses and has one).
    pub open spec fn source_host_spec(self) -> Seq<char> {
        url_parts_of(self.source_url_spec()).unwrap().1.unwrap()
    }

    /// The root URL's registrable domain (meaningful when it has one).
    pub open spec fn source_domain_spec(self) -> Seq<char> {
        domain_root_of(self.source_host_spec()).unwrap()
    }

    /// The URL string stored on a resource node.
    pub open spec fn resource_url_of(self, n: NodeId) -> Seq<char> {
        match self.node_at(n).node_type {
            NodeType::Resource { url } => url@,
            _ => Seq::empty(),
        }
    }

    /// A resource node either has an unparseable URL (and is skipped), or
    /// must have a host, a registrable domain and one consistent request
    /// type; anything else is a fatal ingestion inconsistency.
    pub open spec fn resource_processable(self, n: NodeId) -> bool {
        match self.node_at(n).node_type {
            NodeType::Resource { url } => url_parts_of(url@) is Some ==> {
                &&& url_parts_of(url@).unwrap().1 is Some
                &&& domain_root_of(url_parts_of(url@).unwrap().1.unwrap()) is Some
                &&& self.consistent_request_type(n)
            },
            _ => true,
        }
    }

    /// Whether the whole filter query can run: a rooted page URL with host
    /// and domain, and every resource node processable.
    pub open spec fn filter_query_ok(self) -> bool {
        &&& exists|n: NodeId| #[trigger] self.is_unique_root(n) && self.root_url_of(n) is Some
        &&& url_parts_of(self.source_url_spec()) is Some
        &&& url_parts_of(self.source_url_spec()).unwrap().1 is Some
        &&& domain_root_of(self.source_host_spec()) is Some
        &&& forall|id: NodeId| #[trigger] self.has_node(id) ==> self.resource_processable(id)
    }

    /// Whether the rule parsed from `pattern` keeps resource node `n`.
    pub open spec fn resource_included(self, pattern: Seq<char>, n: NodeId) -> bool {
        self.has_node(n) && match self.node_at(n).node_type {
            NodeType::Resource { url } => {
                &&& url_parts_of(url@) is Some
                &&& url_parts_of(url@).unwrap().1 is Some
                &&& domain_root_of(url_parts_of(url@).unwrap().1.unwrap()) is Some
                &&& self.consistent_request_type(n)
                &&& filter_match_of(
                    pattern,
                    self.the_request_type(n),
                    url@,
                    url_parts_of(url@).unwrap().1.unwrap(),
                    self.source_host_spec(),
                    domain_root_of(url_parts_of(url@).unwrap().1.unwrap()).unwrap()
                        != self.source_domain_spec(),
                )
            },
            _ => false,
        }
    }

    /// Every resource node whose request the rule parsed from `pattern`
    /// matches. A pattern the grammar rejects yields an empty result, never
    /// an error; a graph that breaks the request-consistency invariants
    /// fails fatally.
    pub fn resources_matching_filter<'a>(&'a self, pattern: &str) -> (r: Result<
        Vec<NodeRef<'a>>,
        GraphError,
    >)
        requires
            self.wf(),
        ensures
            !filter_parses(pattern@) ==> (r matches Ok(v) && v@.len() == 0),
            filter_parses(pattern@) ==> (r is Ok <==> self.filter_query_ok()),
            r matches Ok(v) ==> filter_parses(pattern@) ==> {
                &&& forall|i: int, j: int| 0 <= i < j < v@.len() ==> v@[i].0 != v@[j].0
                &&& forall|j: int|
                    #![trigger v@[j]]
                    0 <= j < v@.len() ==> self.resource_included(pattern@, v@[j].0) && *v@[j].1
                        == self.node_at(v@[j].0)
                &&& forall|m: NodeId|
                    #[trigger] self.resource_included(pattern@, m) ==> contains_id(v@, m)
            },
            r matches Err(er) ==> filter_parses(pattern@),
            r matches Err(er) ==> (er == GraphError::NoRequestStart ==> exists|id: NodeId|
                #[trigger] self.has_node(id) && self.node_at(id).node_type is Resource
                    && !self.some_request_type(id)),
            r matches Err(er) ==> (er == GraphError::InconsistentRequestTypes ==> exists|id: NodeId|
                #[trigger] self.has_node(id) && self.node_at(id).node_type is Resource
                    && !self.consistent_request_type(id)),
    {
        if !filter_pattern_valid(pattern) {
            return Ok(Vec::new());
        }
        let source_url = match self.root_url() {
            Ok(u) => u,
            Err(e) => {
                proof {
                    assert(!self.filter_query_ok());
                }
                return Err(e);
            },
        };
        proof {
            let n0 = choose|n0: NodeId|
                #[trigger] self.is_unique_root(n0) && self.root_url_of(n0) is Some;
            assert(self.is_unique_root(self.the_root()));
            assert(self.the_root() == n0);
            assert(source_url@ == self.source_url_spec());
        }
        let source_parts = match parse_url_parts(source_url.as_str()) {
            Some(p) => p,
            None => {
                proof {
                    assert(!self.filter_query_ok());
                }
                return Err(GraphError::UnparseableSourceUrl);
            },
        };
        let source_host = match source_parts.1 {
            Some(h) => h,
            None => {
                proof {
                    assert(!self.filter_query_ok());
                }
                return Err(GraphError::SourceUrlNoHost);
            },
        };
        proof {
            assert(source_host@ == self.source_host_spec());
        }
        let source_domain = match get_domain(source_host.as_str()) {
            Ok(d) => d,
            Err(_) => {
                proof {
                    assert(!self.filter_query_ok());
                }
                return Err(GraphError::UnparseableDomain);
            },
        };
        proof {
            assert(source_domain@ == self.source_domain_spec());
        }
        let nn = self.nodes.len();
        let mut v: Vec<NodeRef<'a>> = Vec::new();
        let mut i: usize = 0;
        while i < nn
            invariant
                nn == self.nodes@.len(),
                i <= nn,
                self.wf(),
                filter_parses(pattern@),
                exists|n0: NodeId|
                    #[trigger] self.is_unique_root(n0) && self.root_url_of(n0) is Some,
                url_parts_of(self.source_url_spec()) is Some,
                url_parts_of(self.source_url_spec()).unwrap().1 is Some,
                domain_root_of(self.source_host_spec()) is Some,
                source_host@ == self.source_host_spec(),
                source_domain@ == self.source_domain_spec(),
                forall|a: int, b: int| 0 <= a < b < v@.len() ==> v@[a].0 != v@[b].0,
                forall|j: int|
                    #![trigger v@[j]]
                    0 <= j < v@.len() ==> self.has_node(v@[j].0) && self.node_index(v@[j].0) < i
                        && *v@[j].1 == self.node_at(v@[j].0) && self.resource_included(
                        pattern@,
                        v@[j].0,
                    ),
                forall|k: int|
                    #![trigger self.nodes@[k]]
                    0 <= k < i && self.resource_included(pattern@, self.nodes@[k].0)
                        ==> contains_id(v@, self.nodes@[k].0),
                forall|k: int|
                    #![trigger self.nodes@[k]]
                    0 <= k < i ==> self.resource_processable(self.nodes@[k].0),
            decreases nn - i,
        {
            proof {
                self.lemma_node_entry(i as int);
            }
            let id = self.nodes[i].0;
            let ghost prev = v@;
            match &self.nodes[i].1.node_type {
                NodeType::Resource { url } => {
                    match parse_url_parts(url.as_str()) {
                        None => {
                            // An unparseable resource URL excludes the node,
                            // it is not an error.
                        },
                        Some(p) => {
                            let rhost = match p.1 {
                                Some(h) => h,
                                None => {
                                    proof {
                                        assert(!self.resource_processable(id));
                                        assert(!self.filter_query_ok());
                                    }
                                    return Err(GraphError::RequestUrlNoHost);
                                },
                            };
                            let rdomain = match get_domain(rhost.as_str()) {
                                Ok(d) => d,
                                Err(_) => {
                                    proof {
                                        assert(!self.resource_processable(id));
                                        assert(!self.filter_query_ok());
                                    }
                                    return Err(GraphError::UnparseableDomain);
                                },
                            };
                            // Collect the distinct request types on incoming
                            // request-start edges; exactly one must exist.
                            let incident = self.edges_incident(id, Direction::Incoming);
                            let ki = incident.len();
                            let mut rt: Option<String> = None;
                            let mut a: usize = 0;
                            while a < ki
                                invariant
                                    ki == incident@.len(),
                                    a <= ki,
                                    self.wf(),
                                    self.has_node(id),
                                    filter_parses(pattern@),
                                    self.node_at(id).node_type is Resource,
                                    url_parts_of(self.resource_url_of(id)) is Some,
                                    forall|b: int|
                                        #![trigger incident@[b]]
                                        0 <= b < incident@.len() ==> self.adj().contains_key(
                                            (incident@[b].0.0, id.0),
                                        ) && incident@[b].1.0 == self.adj()[(
                                            incident@[b].0.0,
                                            id.0,
                                        )],
                                    forall|m: NodeId|
                                        self.adj().contains_key((m.0, id.0)) ==> exists|b: int|
                                            0 <= b < incident@.len() && incident@[b].0 == m,
                                    rt is None ==> forall|b: int|
                                        0 <= b < a ==> self.request_start_type(
                                            (#[trigger] incident@[b]).0.0,
                                            id,
                                        ) is None,
                                    rt matches Some(t) ==> self.has_request_type(id, t@) && forall|
                                        b: int,
                                    |
                                        0 <= b < a ==> (self.request_start_type(
                                            (#[trigger] incident@[b]).0.0,
                                            id,
                                        ) matches Some(t2) ==> t2 == t@),
                                decreases ki - a,
                            {
                                let (mb, eb) = incident[a];
                                proof {
                                    assert(incident@[a as int].0 == mb && incident@[a as int].1
                                        == eb);
                                    assert(self.adj().contains_key((mb.0, id.0)));
                                    assert(self.has_edge(EdgeId(self.adj()[(mb.0, id.0)])));
                                    assert(EdgeId(eb.0) == eb);
                                }
                                let edge = match self.edge(eb) {
                                    Ok(e) => e,
                                    Err(_) => vstd::pervasive::unreached(),
                                };
                                match &edge.edge_type {
                                    EdgeType::RequestStart { request_type } => {
                                        proof {
                                            assert(self.request_start_type(mb.0, id)
                                                == Option::Some(request_type@));
                                        }
                                        let set_first = match &rt {
                                            None => true,
                                            Some(t) => {
                                                if !str_eq(t, request_type.as_str()) {
                                                    proof {
                                                        assert(self.has_request_type(
                                                            id,
                                                            request_type@,
                                                        ));
                                                        assert(!self.consistent_request_type(id))
                                                            by {
                                                            if self.consistent_request_type(id) {
                                                                let tu = choose|tu: Seq<char>|
                                                                    self.unique_request_type(
                                                                        id,
                                                                        tu,
                                                                    );
                                                            }
                                                        }
                                                        assert(!self.resource_processable(id));
                                                        assert(!self.filter_query_ok());
                                                    }
                                                    return Err(
                                                        GraphError::InconsistentRequestTypes,
                                                    );
                                                }
                                                false
                                            },
                                        };
                                        if set_first {
                                            rt = Some(request_type.clone());
                                        }
                                    },
                                    _ => {
                                        proof {
                                            assert(self.request_start_type(mb.0, id) is None);
                                        }
                                    },
                                }
                                a += 1;
                            }
                            let t = match rt {
                                Some(t) => t,
                                None => {
                                    proof {
                                        assert(!self.some_request_type(id)) by {
                                            if self.some_request_type(id) {
                                                let t2 = choose|t2: Seq<char>|
                                                    #[trigger] self.has_request_type(id, t2);
                                                let m = choose|m: usize|
                                                    #[trigger] self.request_start_type(m, id)
                                                        == Option::Some(t2);
                                                assert(self.adj().contains_key((m, id.0)));
                                                assert(self.adj().contains_key(
                                                    (NodeId(m).0, id.0),
                                                ));
                                                let b = choose|b: int|
                                                    0 <= b < incident@.len() && incident@[b].0
                                                        == NodeId(m);
                                                assert(self.request_start_type(
                                                    incident@[b].0.0,
                                                    id,
                                                ) is None);
                                            }
                                        }
                                        assert(!self.consistent_request_type(id)) by {
                                            if self.consistent_request_type(id) {
                                                let tu = choose|tu: Seq<char>|
                                                    self.unique_request_type(id, tu);
                                                assert(self.has_request_type(id, tu));
                                            }
                                        }
                                        assert(!self.resource_processable(id));
                                        assert(!self.filter_query_ok());
                                    }
                                    return Err(GraphError::NoRequestStart);
                                },
                            };
                            proof {
                                assert(self.unique_request_type(id, t@)) by {
                                    assert forall|t2: Seq<char>| #[trigger]
                                        self.has_request_type(id, t2) implies t2 == t@ by {
                                        let m = choose|m: usize|
                                            #[trigger] self.request_start_type(m, id)
                                                == Option::Some(t2);
                                        assert(self.adj().contains_key((m, id.0)));
                                        assert(self.adj().contains_key((NodeId(m).0, id.0)));
                                        let b = choose|b: int|
                                            0 <= b < incident@.len() && incident@[b].0 == NodeId(
                                                m,
                                            );
                                        assert(incident@[b].0.0 == m);
                                    }
                                }
                                assert(self.the_request_type(id) == t@) by {
                                    let tu = choose|tu: Seq<char>|
                                        self.unique_request_type(id, tu);
                                    assert(self.has_request_type(id, t@));
                                }
                                assert(self.resource_processable(id));
                            }
                            let matched = filter_match(
                                pattern,
                                t.as_str(),
                                url.as_str(),
                                rhost.as_str(),
                                source_host.as_str(),
                                !(rdomain == source_domain),
                            );
                            if matched {
                                proof {
                                    assert(self.resource_included(pattern@, id));
                                }
                                v.push((id, &self.nodes[i].1));
                            } else {
                                proof {
                                    assert(!self.resource_included(pattern@, id));
                                }
                            }
                        },
                    }
                },
                _ => {},
            }
            proof {
                assert forall|a2: int, b2: int| 0 <= a2 < b2 < v@.len() implies v@[a2].0
                    != v@[b2].0 by {
                    if b2 == v@.len() - 1 && v@.len() == prev.len() + 1 {
                        if v@[a2].0 == v@[b2].0 {
                            assert(self.node_index(v@[a2].0) < i);
                            assert(self.node_index(v@[b2].0) == i);
                        }
                    }
                }
                assert forall|k: int|
                    0 <= k < i + 1 && self.resource_included(
                        pattern@,
                        (#[trigger] self.nodes@[k]).0,
                    ) implies contains_id(v@, self.nodes@[k].0) by {
                    if k < i {
                        if contains_id(prev, self.nodes@[k].0) {
                            let j = choose|j: int|
                                0 <= j < prev.len() && prev[j].0 == self.nodes@[k].0;
                            assert(v@[j].0 == self.nodes@[k].0);
                        }
                    } else {
                        assert(v@[v@.len() - 1].0 == self.nodes@[k].0);
                    }
                }
            }
            i += 1;
        }
        proof {
            assert forall|m: NodeId| #[trigger]
                self.resource_included(pattern@, m) implies contains_id(v@, m) by {
                let k = choose|k: int| 0 <= k < self.nodes@.len() && self.nodes@[k].0 == m;
                assert(self.nodes@[k].0 == m);
            }
            assert forall|id2: NodeId| #[trigger]
                self.has_node(id2) implies self.resource_processable(id2) by {
                let k = choose|k: int| 0 <= k < self.nodes@.len() && self.nodes@[k].0 == id2;
                assert(self.nodes@[k].0 == id2);
            }
            assert(self.filter_query_ok());
        }
        Ok(v)
    }
}

} // verus!
