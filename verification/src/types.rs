//! The closed taxonomy of node and edge kinds that the queries pattern-match
//! on. Payload fields exist only where some query inspects them.

use vstd::prelude::*;

verus! {

/// The kind of a page-load graph node, with the payload the queries read.
#[derive(Debug, PartialEq, Eq, Clone)]
#[allow(inconsistent_fields)]
pub enum NodeType {
    /// The document root; its URL names the page under analysis.
    DomRoot { url: Option<String> },
    /// An HTML element, identified by its tag name and numeric DOM id.
    HtmlElement { tag_name: String, node_id: usize },
    /// A text node in the DOM.
    TextNode,
    /// An executed script.
    Script,
    /// A fetched network resource, identified by its URL.
    Resource { url: String },
    /// The HTML parser.
    Parser,
    Storage,
    LocalStorage,
    SessionStorage,
    CookieJar,
    WebApi,
    JsBuiltin,
    AdFilter,
    TrackerFilter,
    FingerprintingFilter,
    BraveShields,
    AdsShield,
    TrackersShield,
    JavascriptShield,
    FingerprintingShield,
    FrameOwner,
    RemoteFrame,
    Extensions,
}

/// The kind of a page-load graph edge, with the payload the queries read.
#[derive(Debug, PartialEq, Eq, Clone)]
pub enum EdgeType {
    /// DOM parent/child attachment; not a modification of the target.
    Structure,
    /// The start of a network request, carrying the requested content type.
    RequestStart { request_type: String },
    /// The completion of a network request.
    RequestComplete,
    /// An attribute written on the target element.
    AttributeSet { key: String },
    /// A change of the target's text contents.
    TextChange,
    /// An execution action taken on the target.
    Execute,
}

impl NodeType {
    /// True of HTML elements whose tag name is exactly `tag` (case-sensitive).
    pub open spec fn is_html_with_tag(self, tag: Seq<char>) -> bool {
        match self {
            NodeType::HtmlElement { tag_name, .. } => tag_name@ == tag,
            _ => false,
        }
    }
}

} // verus!
