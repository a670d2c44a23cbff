use pagegraph::filtering::get_domain;
use pagegraph::graph::{Edge, EdgeId, GraphError, Node, NodeId, PageGraph};
use pagegraph::types::{EdgeType, NodeType};

fn node(ts: isize, kind: NodeType) -> Node {
    Node { node_timestamp: ts, node_type: kind }
}

fn edge(ts: Option<isize>, kind: EdgeType) -> Edge {
    Edge { edge_timestamp: ts, edge_type: kind }
}

fn html(tag: &str, dom_id: usize) -> NodeType {
    NodeType::HtmlElement { tag_name: tag.to_string(), node_id: dom_id }
}

/// One DOM root, one "script" HTML element with no resource neighbor and one
/// outgoing edge to a script node.
fn inline_script_graph() -> PageGraph {
    let mut g = PageGraph::new();
    g.insert_node(NodeId::from(1), node(0, NodeType::DomRoot { url: Some("http://a.test/".to_string()) }));
    g.insert_node(NodeId::from(2), node(1, html("script", 1)));
    g.insert_node(NodeId::from(3), node(2, NodeType::Script));
    g.insert_edge(EdgeId::from(10), NodeId::from(1), NodeId::from(2), edge(None, EdgeType::Structure));
    g.insert_edge(EdgeId::from(11), NodeId::from(2), NodeId::from(3), edge(Some(3), EdgeType::Execute));
    g
}

#[test]
fn inline_script_element_effect_is_the_script_node() {
    let g = inline_script_graph();
    let effects = g.direct_downstream_effects_of(NodeId::from(2)).unwrap();
    let ids: Vec<NodeId> = effects.iter().map(|(id, _)| *id).collect();
    assert_eq!(ids, vec![NodeId::from(3)]);
}

#[test]
fn src_script_element_prefers_resources() {
    let mut g = inline_script_graph();
    g.insert_node(NodeId::from(4), node(3, NodeType::Resource { url: "http://a.test/x.js".to_string() }));
    g.insert_edge(
        EdgeId::from(12),
        NodeId::from(2),
        NodeId::from(4),
        edge(Some(4), EdgeType::RequestStart { request_type: "script".to_string() }),
    );
    let effects = g.direct_downstream_effects_of(NodeId::from(2)).unwrap();
    let ids: Vec<NodeId> = effects.iter().map(|(id, _)| *id).collect();
    assert_eq!(ids, vec![NodeId::from(4)]);
}

#[test]
fn resource_effect_reaches_attached_scripts() {
    let mut g = PageGraph::new();
    g.insert_node(NodeId::from(1), node(0, NodeType::Resource { url: "http://a.test/x.js".to_string() }));
    g.insert_node(NodeId::from(2), node(1, html("script", 1)));
    g.insert_node(NodeId::from(3), node(2, NodeType::Script));
    g.insert_edge(EdgeId::from(10), NodeId::from(1), NodeId::from(2), edge(Some(5), EdgeType::RequestComplete));
    g.insert_edge(EdgeId::from(11), NodeId::from(2), NodeId::from(3), edge(Some(6), EdgeType::Execute));

    let effects = g.direct_downstream_effects_of(NodeId::from(1)).unwrap();
    let ids: Vec<NodeId> = effects.iter().map(|(id, _)| *id).collect();
    assert_eq!(ids, vec![NodeId::from(3)]);

    // The script in turn points back at the resource that completed into its
    // element? No: its incoming request-complete edges only. Here it has
    // none, and no scripts of its own.
    let script_effects = g.direct_downstream_effects_of(NodeId::from(3)).unwrap();
    assert_eq!(script_effects.len(), 0);
}

#[test]
fn unsupported_kinds_fail_causal_tracing() {
    let mut g = PageGraph::new();
    g.insert_node(NodeId::from(1), node(0, NodeType::DomRoot { url: Some("http://a.test/".to_string()) }));
    g.insert_node(NodeId::from(2), node(0, html("div", 1)));
    assert_eq!(
        g.direct_downstream_effects_of(NodeId::from(1)).unwrap_err(),
        GraphError::UnsupportedNodeKind
    );
    assert_eq!(
        g.direct_downstream_effects_of(NodeId::from(2)).unwrap_err(),
        GraphError::UnsupportedNodeKind
    );
    assert_eq!(g.direct_downstream_effects_of(NodeId::from(9)).unwrap_err(), GraphError::NotFound);
    assert_eq!(g.all_downstream_effects_of(NodeId::from(1)).unwrap_err(), GraphError::UnsupportedNodeKind);
    assert_eq!(g.all_downstream_effects_of(NodeId::from(9)).unwrap_err(), GraphError::NotFound);
}

#[test]
fn downstream_closure_contains_start_and_direct_effects() {
    // resource -> (request complete) script element -> script -> another
    // script: the closure from the resource walks the whole chain.
    let mut g = PageGraph::new();
    g.insert_node(NodeId::from(1), node(0, NodeType::Resource { url: "http://a.test/x.js".to_string() }));
    g.insert_node(NodeId::from(2), node(1, html("script", 1)));
    g.insert_node(NodeId::from(3), node(2, NodeType::Script));
    g.insert_node(NodeId::from(4), node(3, NodeType::Script));
    g.insert_edge(EdgeId::from(10), NodeId::from(1), NodeId::from(2), edge(Some(5), EdgeType::RequestComplete));
    g.insert_edge(EdgeId::from(11), NodeId::from(2), NodeId::from(3), edge(Some(6), EdgeType::Execute));
    g.insert_edge(EdgeId::from(12), NodeId::from(3), NodeId::from(4), edge(Some(7), EdgeType::Execute));

    let all = g.all_downstream_effects_of(NodeId::from(1)).unwrap();
    let mut ids: Vec<NodeId> = all.iter().map(|(id, _)| *id).collect();
    ids.sort();
    // Each node once.
    let mut deduped = ids.clone();
    deduped.dedup();
    assert_eq!(ids, deduped);
    assert_eq!(ids, vec![NodeId::from(1), NodeId::from(3), NodeId::from(4)]);

    // Superset of the direct effects and of the start node itself.
    let direct = g.direct_downstream_effects_of(NodeId::from(1)).unwrap();
    for (id, _) in &direct {
        assert!(ids.contains(id));
    }
    assert!(ids.contains(&NodeId::from(1)));

    // Idempotence: tracing again from any collected node adds nothing new.
    for (id, _) in &all {
        let again = g.all_downstream_effects_of(*id).unwrap();
        for (inner, _) in &again {
            assert!(ids.contains(inner));
        }
    }
}

/// A rooted page with one resource requested by two script nodes.
fn filter_graph(second_type: &str) -> PageGraph {
    let mut g = PageGraph::new();
    g.insert_node(NodeId::from(1), node(0, NodeType::DomRoot { url: Some("http://a.test/".to_string()) }));
    g.insert_node(NodeId::from(2), node(1, NodeType::Script));
    g.insert_node(NodeId::from(3), node(2, NodeType::Script));
    g.insert_node(
        NodeId::from(4),
        node(3, NodeType::Resource { url: "http://ads.example.com/banner.js".to_string() }),
    );
    g.insert_edge(
        EdgeId::from(10),
        NodeId::from(2),
        NodeId::from(4),
        edge(Some(4), EdgeType::RequestStart { request_type: "script".to_string() }),
    );
    g.insert_edge(
        EdgeId::from(11),
        NodeId::from(3),
        NodeId::from(4),
        edge(Some(5), EdgeType::RequestStart { request_type: second_type.to_string() }),
    );
    g
}

#[test]
fn filter_matches_resource_with_one_request_type() {
    let g = filter_graph("script");
    let hits = g.resources_matching_filter("||example.com^").unwrap();
    let ids: Vec<NodeId> = hits.iter().map(|(id, _)| *id).collect();
    assert_eq!(ids, vec![NodeId::from(4)]);

    let misses = g.resources_matching_filter("||other.com^").unwrap();
    assert_eq!(misses.len(), 0);
}

#[test]
fn filter_fails_on_inconsistent_request_types() {
    let g = filter_graph("image");
    assert_eq!(
        g.resources_matching_filter("||example.com^").unwrap_err(),
        GraphError::InconsistentRequestTypes
    );
}

#[test]
fn invalid_pattern_yields_empty_not_fatal() {
    // Even on a graph whose resource has no request-start edge, a pattern
    // the grammar rejects returns an empty result before anything else.
    let mut g = PageGraph::new();
    g.insert_node(NodeId::from(1), node(0, NodeType::Resource { url: "http://a.test/x.png".to_string() }));
    let hits = g.resources_matching_filter("ads$~important").unwrap();
    assert_eq!(hits.len(), 0);
}

#[test]
fn filter_fails_on_resource_without_request() {
    let mut g = PageGraph::new();
    g.insert_node(NodeId::from(1), node(0, NodeType::DomRoot { url: Some("http://a.test/".to_string()) }));
    g.insert_node(NodeId::from(2), node(1, NodeType::Resource { url: "http://a.test/x.png".to_string() }));
    assert_eq!(
        g.resources_matching_filter("||example.com^").unwrap_err(),
        GraphError::NoRequestStart
    );
}

#[test]
fn filter_skips_unparseable_resource_urls() {
    let mut g = filter_graph("script");
    g.insert_node(NodeId::from(5), node(6, NodeType::Resource { url: "not a url at all".to_string() }));
    let hits = g.resources_matching_filter("||example.com^").unwrap();
    let ids: Vec<NodeId> = hits.iter().map(|(id, _)| *id).collect();
    assert_eq!(ids, vec![NodeId::from(4)]);
}

#[test]
fn filter_fails_without_a_root() {
    let mut g = PageGraph::new();
    g.insert_node(NodeId::from(1), node(0, NodeType::Resource { url: "http://a.test/x.png".to_string() }));
    assert_eq!(
        g.resources_matching_filter("||example.com^").unwrap_err(),
        GraphError::RootCountViolation
    );
}

#[test]
fn filter_fails_on_unparseable_root_url() {
    let mut g = PageGraph::new();
    g.insert_node(NodeId::from(1), node(0, NodeType::DomRoot { url: Some("not a url".to_string()) }));
    assert_eq!(
        g.resources_matching_filter("||example.com^").unwrap_err(),
        GraphError::UnparseableSourceUrl
    );
}

#[test]
fn filter_fails_on_root_url_without_host() {
    let mut g = PageGraph::new();
    g.insert_node(
        NodeId::from(1),
        node(0, NodeType::DomRoot { url: Some("data:text/plain,hello".to_string()) }),
    );
    assert_eq!(
        g.resources_matching_filter("||example.com^").unwrap_err(),
        GraphError::SourceUrlNoHost
    );
}

#[test]
fn filter_fails_on_resource_url_without_host() {
    let mut g = filter_graph("script");
    g.insert_node(
        NodeId::from(5),
        node(6, NodeType::Resource { url: "data:text/plain,pixel".to_string() }),
    );
    assert_eq!(
        g.resources_matching_filter("||example.com^").unwrap_err(),
        GraphError::RequestUrlNoHost
    );
}

#[test]
fn registrable_domain_strips_subdomains() {
    assert_eq!(get_domain("www.example.co.uk").unwrap(), "example.co.uk".to_string());
    assert_eq!(get_domain("ads.example.com").unwrap(), "example.com".to_string());
    assert_eq!(get_domain("a.test").unwrap(), "a.test".to_string());
    assert_eq!(get_domain("..bad..").unwrap_err(), GraphError::UnparseableDomain);
}
