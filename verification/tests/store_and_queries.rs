use pagegraph::graph::{Direction, Edge, EdgeId, GraphError, Node, NodeId, PageGraph};
use pagegraph::types::{EdgeType, NodeType};

fn node(ts: isize, kind: NodeType) -> Node {
    Node { node_timestamp: ts, node_type: kind }
}

fn edge(ts: Option<isize>, kind: EdgeType) -> Edge {
    Edge { edge_timestamp: ts, edge_type: kind }
}

fn html(tag: &str, dom_id: usize) -> NodeType {
    NodeType::HtmlElement { tag_name: tag.to_string(), node_id: dom_id }
}

#[test]
fn store_lookup_and_not_found() {
    let mut g = PageGraph::new();
    g.insert_node(NodeId::from(1), node(0, NodeType::Script));
    g.insert_node(NodeId::from(2), node(5, NodeType::Resource { url: "http://a.test/x.js".to_string() }));
    g.insert_edge(EdgeId::from(10), NodeId::from(1), NodeId::from(2), edge(Some(7), EdgeType::RequestComplete));

    assert_eq!(g.node(NodeId::from(1)).unwrap().node_timestamp, 0);
    assert_eq!(g.node(NodeId::from(3)).unwrap_err(), GraphError::NotFound);
    assert_eq!(g.edge(EdgeId::from(10)).unwrap().edge_timestamp, Some(7));
    assert_eq!(g.edge(EdgeId::from(11)).unwrap_err(), GraphError::NotFound);
}

#[test]
fn adjacency_is_directed() {
    let mut g = PageGraph::new();
    g.insert_node(NodeId::from(1), node(0, NodeType::Script));
    g.insert_node(NodeId::from(2), node(0, NodeType::Script));
    g.insert_edge(EdgeId::from(10), NodeId::from(1), NodeId::from(2), edge(Some(1), EdgeType::Execute));

    assert_eq!(g.edge_between(NodeId::from(1), NodeId::from(2)), Some(EdgeId::from(10)));
    assert_eq!(g.edge_between(NodeId::from(2), NodeId::from(1)), None);
    assert_eq!(g.neighbors(NodeId::from(1), Direction::Outgoing), vec![NodeId::from(2)]);
    assert_eq!(g.neighbors(NodeId::from(1), Direction::Incoming), Vec::<NodeId>::new());
    let incident = g.edges_incident(NodeId::from(2), Direction::Incoming);
    assert_eq!(incident, vec![(NodeId::from(1), EdgeId::from(10))]);
}

#[test]
fn filter_nodes_and_edges() {
    let mut g = PageGraph::new();
    g.insert_node(NodeId::from(1), node(0, NodeType::Script));
    g.insert_node(NodeId::from(2), node(0, NodeType::Resource { url: "http://a.test/x.js".to_string() }));
    g.insert_node(NodeId::from(3), node(0, html("div", 7)));
    g.insert_edge(EdgeId::from(10), NodeId::from(1), NodeId::from(2), edge(Some(1), EdgeType::RequestComplete));
    g.insert_edge(EdgeId::from(11), NodeId::from(3), NodeId::from(1), edge(None, EdgeType::Structure));

    let scripts = g.filter_nodes(|t: &NodeType| matches!(t, NodeType::Script));
    assert_eq!(scripts.len(), 1);
    assert_eq!(scripts[0].0, NodeId::from(1));

    let structural = g.filter_edges(|t: &EdgeType| matches!(t, EdgeType::Structure));
    assert_eq!(structural.len(), 1);
    assert_eq!(structural[0].0, EdgeId::from(11));
}

#[test]
fn html_tag_lookup_is_case_sensitive() {
    let mut g = PageGraph::new();
    g.insert_node(NodeId::from(1), node(0, html("script", 1)));
    g.insert_node(NodeId::from(2), node(0, html("Script", 2)));
    g.insert_node(NodeId::from(3), node(0, html("div", 3)));

    let hits = g.nodes_of_html_tag_name("script");
    assert_eq!(hits.len(), 1);
    assert_eq!(hits[0].0, NodeId::from(1));
    assert_eq!(g.nodes_of_html_tag_name("span").len(), 0);
}

#[test]
fn cause_of_is_unmodeled() {
    let mut g = PageGraph::new();
    g.insert_node(NodeId::from(1), node(0, html("div", 1)));
    let n = g.node(NodeId::from(1)).unwrap();
    assert!(g.cause_of(&(NodeId::from(1), n)).is_none());
}

#[test]
fn modification_history_ordered_10_20_30() {
    let mut g = PageGraph::new();
    g.insert_node(NodeId::from(1), node(0, html("div", 1)));
    g.insert_node(NodeId::from(2), node(0, NodeType::Script));
    g.insert_node(NodeId::from(3), node(0, NodeType::Script));
    g.insert_node(NodeId::from(4), node(0, NodeType::Script));
    g.insert_edge(
        EdgeId::from(10),
        NodeId::from(2),
        NodeId::from(1),
        edge(Some(30), EdgeType::AttributeSet { key: "a".to_string() }),
    );
    g.insert_edge(
        EdgeId::from(11),
        NodeId::from(3),
        NodeId::from(1),
        edge(Some(10), EdgeType::AttributeSet { key: "b".to_string() }),
    );
    g.insert_edge(
        EdgeId::from(12),
        NodeId::from(4),
        NodeId::from(1),
        edge(Some(20), EdgeType::TextChange),
    );

    let mods = g.all_html_element_modifications(NodeId::from(1)).unwrap();
    let stamps: Vec<isize> = mods.iter().map(|(_, e)| e.edge_timestamp.unwrap()).collect();
    assert_eq!(stamps, vec![10, 20, 30]);
}

#[test]
fn modification_history_excludes_structural_edges() {
    let mut g = PageGraph::new();
    g.insert_node(NodeId::from(1), node(0, html("div", 1)));
    g.insert_node(NodeId::from(2), node(0, NodeType::Parser));
    g.insert_node(NodeId::from(3), node(0, NodeType::Script));
    g.insert_edge(EdgeId::from(10), NodeId::from(2), NodeId::from(1), edge(None, EdgeType::Structure));
    g.insert_edge(EdgeId::from(11), NodeId::from(3), NodeId::from(1), edge(Some(4), EdgeType::TextChange));

    let mods = g.all_html_element_modifications(NodeId::from(1)).unwrap();
    assert_eq!(mods.len(), 1);
    assert_eq!(mods[0].0, EdgeId::from(11));
}

#[test]
fn modification_history_wrong_kind_fails() {
    let mut g = PageGraph::new();
    g.insert_node(NodeId::from(1), node(0, NodeType::Script));
    assert_eq!(g.all_html_element_modifications(NodeId::from(1)).unwrap_err(), GraphError::WrongNodeKind);
    assert_eq!(g.all_html_element_modifications(NodeId::from(9)).unwrap_err(), GraphError::NotFound);
}

#[test]
fn modification_history_missing_timestamp_fails() {
    let mut g = PageGraph::new();
    g.insert_node(NodeId::from(1), node(0, html("div", 1)));
    g.insert_node(NodeId::from(2), node(0, NodeType::Script));
    g.insert_edge(EdgeId::from(10), NodeId::from(2), NodeId::from(1), edge(None, EdgeType::TextChange));
    assert_eq!(g.all_html_element_modifications(NodeId::from(1)).unwrap_err(), GraphError::MissingTimestamp);
}

#[test]
fn resources_from_script_node_and_element() {
    let mut g = PageGraph::new();
    // A script element attached to a script node; both reach resources.
    g.insert_node(NodeId::from(1), node(0, html("script", 1)));
    g.insert_node(NodeId::from(2), node(0, NodeType::Script));
    g.insert_node(NodeId::from(3), node(0, NodeType::Resource { url: "http://a.test/direct.js".to_string() }));
    g.insert_node(NodeId::from(4), node(0, NodeType::Resource { url: "http://a.test/fetched.png".to_string() }));
    g.insert_edge(EdgeId::from(10), NodeId::from(1), NodeId::from(2), edge(Some(1), EdgeType::Execute));
    g.insert_edge(EdgeId::from(11), NodeId::from(1), NodeId::from(3), edge(Some(2), EdgeType::RequestStart { request_type: "script".to_string() }));
    g.insert_edge(EdgeId::from(12), NodeId::from(2), NodeId::from(4), edge(Some(3), EdgeType::RequestStart { request_type: "image".to_string() }));

    // From the script node: only its own outgoing resource.
    let from_node = g.resources_from_script(NodeId::from(2)).unwrap();
    let mut ids: Vec<NodeId> = from_node.iter().map(|(id, _)| *id).collect();
    ids.sort();
    assert_eq!(ids, vec![NodeId::from(4)]);

    // From the element: its direct resource plus the script's resource.
    let from_elem = g.resources_from_script(NodeId::from(1)).unwrap();
    let mut ids: Vec<NodeId> = from_elem.iter().map(|(id, _)| *id).collect();
    ids.sort();
    ids.dedup();
    assert_eq!(ids, vec![NodeId::from(3), NodeId::from(4)]);
    for (_, n) in &from_elem {
        assert!(matches!(n.node_type, NodeType::Resource { .. }));
    }

    // Anything else is rejected.
    assert_eq!(g.resources_from_script(NodeId::from(3)).unwrap_err(), GraphError::WrongNodeKind);
}

#[test]
fn root_url_is_stable() {
    let mut g = PageGraph::new();
    g.insert_node(NodeId::from(1), node(0, NodeType::DomRoot { url: Some("http://a.test/".to_string()) }));
    g.insert_node(NodeId::from(2), node(0, html("body", 1)));
    g.insert_edge(EdgeId::from(10), NodeId::from(1), NodeId::from(2), edge(None, EdgeType::Structure));

    let first = g.root_url().unwrap();
    let second = g.root_url().unwrap();
    assert_eq!(first, second);
    assert_eq!(first, "http://a.test/".to_string());
}

#[test]
fn root_url_fails_without_exactly_one_root() {
    let g = PageGraph::new();
    assert_eq!(g.root_url().unwrap_err(), GraphError::RootCountViolation);

    let mut g2 = PageGraph::new();
    g2.insert_node(NodeId::from(1), node(0, NodeType::DomRoot { url: Some("http://a.test/".to_string()) }));
    g2.insert_node(NodeId::from(2), node(0, NodeType::DomRoot { url: Some("http://b.test/".to_string()) }));
    assert_eq!(g2.root_url().unwrap_err(), GraphError::RootCountViolation);

    let mut g3 = PageGraph::new();
    g3.insert_node(NodeId::from(1), node(0, NodeType::DomRoot { url: None }));
    assert_eq!(g3.root_url().unwrap_err(), GraphError::MissingRootUrl);
}

#[test]
fn root_with_incoming_edge_does_not_count() {
    let mut g = PageGraph::new();
    g.insert_node(NodeId::from(1), node(0, NodeType::DomRoot { url: Some("http://a.test/".to_string()) }));
    g.insert_node(NodeId::from(2), node(0, NodeType::DomRoot { url: Some("http://iframe.test/".to_string()) }));
    g.insert_node(NodeId::from(3), node(0, html("iframe", 1)));
    // The second root hangs under an iframe element: it has an incoming edge.
    g.insert_edge(EdgeId::from(10), NodeId::from(3), NodeId::from(2), edge(None, EdgeType::Structure));
    assert_eq!(g.root_url().unwrap(), "http://a.test/".to_string());
}
