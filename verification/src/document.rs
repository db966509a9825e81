//! The tree model of parsed documents and of prescriptions.
//!
//! A document is a tree of typed nodes carrying the semantic values the
//! matcher reads: element type, heading level, list kind, content text and,
//! for links, url and title. A prescription is the same shape of tree with
//! each node additionally classified by match type and wildcard flag.

use vstd::prelude::*;

use crate::data::ListType;
use crate::data::MatchType;
use crate::data::NodeType;

verus! {

/// One element of a parsed document.
pub struct Node {
    pub node_type: NodeType,
    /// Heading level, meaningful when `node_type` is `Heading`.
    pub heading_level: u32,
    /// List kind, meaningful when `node_type` is `List`.
    pub list_type: ListType,
    /// Content text of a leaf element.
    pub content: String,
    /// Link destination, meaningful when `node_type` is `Link`.
    pub url: String,
    /// Link title, meaningful when `node_type` is `Link`.
    pub title: String,
    pub children: Vec<Node>,
}

/// One element of a prescription: a document node together with its match
/// classification.
pub struct RxNode {
    pub node_type: NodeType,
    pub heading_level: u32,
    pub list_type: ListType,
    pub content: String,
    pub url: String,
    pub title: String,
    /// How this node must be satisfied by document nodes.
    pub match_type: MatchType,
    /// When set, the matcher does not descend into this node's children.
    pub is_wildcard: bool,
    pub children: Vec<RxNode>,
}

/// A parsed document, owned as a tree rooted at a `Document` node.
pub struct Document {
    pub root: Node,
}

/// A prescription: a template document whose nodes carry match types and
/// wildcard flags.
pub struct Prescription {
    pub root: RxNode,
}

/// Size of a prescription node: the node itself and all its descendants.
pub open spec fn rx_size(rx: RxNode) -> nat
    decreases rx, 0int,
{
    1 + rx_forest_size_from(rx.children, 0)
}

/// Size of the suffix of a prescription sibling list starting at `i`.
pub open spec fn rx_forest_size_from(v: Vec<RxNode>, i: int) -> nat
    decreases v, v@.len() - i,
{
    if 0 <= i < v@.len() {
        rx_size(v@[i]) + rx_forest_size_from(v, i + 1)
    } else {
        0
    }
}

/// Size of a whole prescription sibling list.
pub open spec fn rx_forest_size(v: Vec<RxNode>) -> nat {
    rx_forest_size_from(v, 0)
}

/// An element's size is bounded by the size of its whole sibling list.
pub proof fn lemma_rx_size_le_forest(v: Vec<RxNode>, i: int)
    requires
        0 <= i < v@.len(),
    ensures
        rx_size(v@[i]) <= rx_forest_size(v),
{
    lemma_rx_size_le_forest_from(v, 0, i);
}

/// Monotonicity of the suffix sizes: an element's size is bounded by the size
/// of any suffix that contains it.
pub proof fn lemma_rx_size_le_forest_from(v: Vec<RxNode>, j: int, i: int)
    requires
        0 <= j <= i < v@.len(),
    ensures
        rx_size(v@[i]) <= rx_forest_size_from(v, j),
    decreases i - j,
{
    if j < i {
        lemma_rx_size_le_forest_from(v, j + 1, i);
    }
}


/// Whether `rx` is the prescription image of `node`: the same tree, with
/// every node classified mandatory and nothing marked wildcard.
pub open spec fn is_mandatory_rx_of(rx: RxNode, node: Node) -> bool
    decreases node,
{
    &&& rx.node_type == node.node_type
    &&& rx.heading_level == node.heading_level
    &&& rx.list_type == node.list_type
    &&& rx.content@ == node.content@
    &&& rx.url@ == node.url@
    &&& rx.title@ == node.title@
    &&& rx.match_type == MatchType::Mandatory
    &&& !rx.is_wildcard
    &&& rx.children@.len() == node.children@.len()
    &&& (forall|i: int|
        0 <= i < node.children@.len() ==> is_mandatory_rx_of(
            #[trigger] rx.children@[i],
            node.children@[i],
        ))
}

/// The prescription image of one document node: the node itself, classified
/// mandatory.
pub fn mandatory_rx_of_node(node: &Node) -> (rx: RxNode)
    ensures
        is_mandatory_rx_of(rx, *node),
    decreases *node,
{
    let mut children: Vec<RxNode> = Vec::new();
    let n: usize = node.children.len();
    let mut i: usize = 0;
    while i < n
        invariant
            n == node.children@.len(),
            i <= n,
            children@.len() == i as int,
            forall|j: int|
                0 <= j < i ==> is_mandatory_rx_of(
                    #[trigger] children@[j],
                    node.children@[j],
                ),
        decreases n - i,
    {
        proof {
            crate::document::lemma_child_decreases(*node, i as int);
        }
        let child = mandatory_rx_of_node(&node.children[i]);
        children.push(child);
        i = i + 1;
    }
    RxNode {
        node_type: node.node_type,
        heading_level: node.heading_level,
        list_type: node.list_type,
        content: node.content.clone(),
        url: node.url.clone(),
        title: node.title.clone(),
        match_type: MatchType::Mandatory,
        is_wildcard: false,
        children,
    }
}

/// A child stands below its parent in the tree order.
pub proof fn lemma_child_decreases(node: Node, i: int)
    requires
        0 <= i < node.children@.len(),
    ensures
        decreases_to!(node => node.children@[i]),
{
}

impl Prescription {
    /// Reads a document itself as a prescription: every node is mandatory
    /// and nothing is a wildcard, so a document is prescribed verbatim.
    pub fn from_document(document: &Document) -> (p: Prescription)
        ensures
            is_mandatory_rx_of(p.root, document.root),
    {
        Prescription { root: mandatory_rx_of_node(&document.root) }
    }
}

} // verus!
