//! Validation of a document against a prescription.
//!
//! Sibling block lists are matched right to left: both cursors start at the
//! last child, and a bookmark into the already-visited document siblings lets
//! a mandatory prescription element reclaim nodes that an optional or
//! repeatable element consumed earlier. Children are matched by recursion;
//! inline siblings are matched left to right, and leaf content is compared by
//! the content matcher.

use vstd::prelude::*;

use crate::content::match_contents;
use crate::content::spec_match_contents;
use crate::data::ContentMatchPair;
use crate::data::spec_contains_mismatch;
use crate::data::ElementType;
use crate::data::MatchType;
use crate::data::NodeType;
use crate::document::rx_forest_size;
use crate::document::rx_forest_size_from;
use crate::document::rx_size;
use crate::document::lemma_rx_size_le_forest;
use crate::document::Document;
use crate::document::Node;
use crate::document::Prescription;
use crate::document::RxNode;
use crate::errors::Diagnostic;
use crate::errors::ErrorKind;
use crate::errors::ValidationProblems;
use crate::errors::ValidationReport;

verus! {

/// A sibling cursor: the index of the current node, or `-1` when the list is
/// exhausted.
pub open spec fn prev(c: int) -> int {
    if c <= 0 {
        -1
    } else {
        c - 1
    }
}

/// The rank of a cursor, for termination measures.
pub open spec fn rank(c: int) -> nat {
    if c >= 0 {
        (c + 1) as nat
    } else {
        0
    }
}

/// Whether a document node and a prescription node agree in type, and in
/// heading level or list kind where the type calls for it.
pub open spec fn spec_types_match(node: Node, rx: RxNode) -> bool {
    &&& node.node_type == rx.node_type
    &&& (node.node_type == NodeType::Heading ==> node.heading_level == rx.heading_level)
    &&& (node.node_type == NodeType::List ==> node.list_type == rx.list_type)
}

/// Whether a leaf inline's content satisfies its prescription content: for
/// links, url, title and content text must each align; for other leaves the
/// content text must.
pub open spec fn spec_node_content_ok(node: Node, rx: RxNode) -> bool {
    if rx.node_type == NodeType::Link {
        &&& !spec_contains_mismatch(spec_match_contents(node.url@, rx.url@))
        &&& !spec_contains_mismatch(spec_match_contents(node.title@, rx.title@))
        &&& !spec_contains_mismatch(spec_match_contents(node.content@, rx.content@))
    } else {
        !spec_contains_mismatch(spec_match_contents(node.content@, rx.content@))
    }
}

/// Whether the inline siblings of a prescription node are satisfied by the
/// inline siblings of a document node, aligned pairwise left to right from
/// position `i`. Surplus document inlines are not tolerated here; a wildcard
/// parent tolerates them one level up.
pub open spec fn spec_inlines_valid(rxs: Vec<RxNode>, nodes: Vec<Node>, i: int) -> bool
    decreases rx_forest_size_from(rxs, i), 1nat, 0nat,
{
    if 0 <= i < rxs@.len() {
        if i < nodes@.len() {
            spec_inline_matches(nodes@[i], rxs@[i]) && spec_inlines_valid(rxs, nodes, i + 1)
        } else {
            false
        }
    } else {
        nodes@.len() <= i
    }
}

/// Whether one document inline satisfies one prescription inline: inline
/// containers require matching types and matching children; inline leaves
/// require matching types and aligned content.
pub open spec fn spec_inline_matches(node: Node, rx: RxNode) -> bool
    decreases rx_size(rx), 0nat, 0nat,
{
    match ElementType::spec_determine(rx.node_type) {
        ElementType::InlineLeaf => spec_types_match(node, rx) && spec_node_content_ok(node, rx),
        ElementType::InlineContainer => spec_types_match(node, rx) && spec_inlines_valid(
            rx.children,
            node.children,
            0,
        ),
        _ => false,
    }
}

/// The outcome of consuming one prescription sibling: the advanced cursors,
/// or failure.
pub enum BlockOutcome {
    Next { r: int, n: int, b: int },
    Fail,
}

/// Whether the sibling blocks of a document node satisfy the sibling blocks
/// of a prescription node. Matching starts with all cursors at the last
/// child.
pub open spec fn spec_blocks_valid(rxs: Vec<RxNode>, nodes: Vec<Node>) -> bool
    decreases rx_forest_size(rxs), 9nat, 0nat, 0nat, 0nat, 0nat,
{
    spec_blocks_loop(
        rxs,
        nodes,
        rxs@.len() - 1,
        nodes@.len() - 1,
        nodes@.len() - 1,
    )
}

/// The sibling matching loop: consume prescription siblings right to left
/// until the prescription is exhausted; any document sibling left over is
/// superfluous.
pub open spec fn spec_blocks_loop(rxs: Vec<RxNode>, nodes: Vec<Node>, r: int, n: int, b: int) -> bool
    decreases rx_forest_size(rxs), 8nat, rank(r), 0nat, 0nat, 0nat,
{
    if r < 0 {
        n < 0
    } else {
        match spec_consume(rxs, nodes, r, n, b) {
            BlockOutcome::Fail => false,
            BlockOutcome::Next { r: r2, n: n2, b: b2 } => {
                if rank(r2) < rank(r) {
                    spec_blocks_loop(rxs, nodes, r2, n2, b2)
                } else {
                    false
                }
            },
        }
    }
}

/// Consuming one prescription sibling, dispatched on its match type.
///
/// A mandatory element matches the current node directly, or rewinds through
/// the bookmarked, already-visited siblings; an optional element matches or
/// is skipped; a repeatable element repeats its previous sibling; a void
/// element is skipped.
pub open spec fn spec_consume(rxs: Vec<RxNode>, nodes: Vec<Node>, r: int, n: int, b: int) -> BlockOutcome
    decreases rx_forest_size(rxs), 5nat, rank(r), rank(b), rank(n), 0nat,
{
    if !(0 <= r < rxs@.len()) {
        BlockOutcome::Fail
    } else {
        match rxs@[r].match_type {
            MatchType::Repeatable => {
                if r == 0 {
                    BlockOutcome::Fail
                } else {
                    spec_repeat(rxs, nodes, r - 1, n, b, 0, -1)
                }
            },
            MatchType::Mandatory => {
                if b < 0 {
                    BlockOutcome::Fail
                } else {
                    proof {
                        lemma_rx_size_le_forest(rxs, r);
                    }
                    if 0 <= n < nodes@.len() && spec_block_matches(nodes@[n], rxs@[r]) {
                        let m = spec_scan(rxs, nodes, r, b, n);
                        BlockOutcome::Next {
                            r: prev(r),
                            n: prev(n),
                            b: if m >= 0 {
                                prev(m)
                            } else {
                                -1
                            },
                        }
                    } else if n >= 0 {
                        let m = spec_scan(rxs, nodes, r, b, n);
                        if m >= 0 {
                            BlockOutcome::Next { r: prev(r), n: prev(m), b: prev(m) }
                        } else {
                            BlockOutcome::Fail
                        }
                    } else {
                        let m = spec_scan(rxs, nodes, r, b, -1);
                        if m >= 0 {
                            BlockOutcome::Next { r: prev(r), n: prev(m), b: prev(m) }
                        } else {
                            BlockOutcome::Fail
                        }
                    }
                }
            },
            MatchType::Optional => {
                proof {
                    lemma_rx_size_le_forest(rxs, r);
                }
                if 0 <= n < nodes@.len() && spec_block_matches(nodes@[n], rxs@[r]) {
                    BlockOutcome::Next { r: prev(r), n: prev(n), b: b }
                } else {
                    BlockOutcome::Next { r: prev(r), n: n, b: b }
                }
            },
            MatchType::Void => BlockOutcome::Next { r: prev(r), n: n, b: b },
        }
    }
}

/// The repeat loop: match the target prescription sibling `t` as many times
/// as it will go. The bookmark after the second success is kept as the
/// output bookmark, so later mandatory elements can rewind just past the
/// repeated span. The loop stops at the first failure, or when an iteration
/// no longer advances either document cursor.
pub open spec fn spec_repeat(
    rxs: Vec<RxNode>,
    nodes: Vec<Node>,
    t: int,
    n: int,
    b: int,
    count: nat,
    out_b: int,
) -> BlockOutcome
    decreases rx_forest_size(rxs), 5nat, rank(t), rank(b), rank(n), 1nat,
{
    if !(0 <= t < rxs@.len()) {
        BlockOutcome::Fail
    } else {
        match spec_consume(rxs, nodes, t, n, b) {
            BlockOutcome::Fail => {
                if count == 0 && rxs@[t].match_type == MatchType::Mandatory {
                    BlockOutcome::Fail
                } else {
                    BlockOutcome::Next { r: prev(t), n: prev(n), b: out_b }
                }
            },
            BlockOutcome::Next { r: _, n: n2, b: b2 } => {
                if rank(b2) < rank(b) || (b2 == b && rank(n2) < rank(n)) {
                    let out2 = if count == 1 {
                        b2
                    } else {
                        out_b
                    };
                    let c2 = if count < 2 {
                        count + 1
                    } else {
                        count
                    };
                    spec_repeat(rxs, nodes, t, n2, b2, c2 as nat, out2)
                } else {
                    if count == 0 && rxs@[t].match_type == MatchType::Mandatory {
                        BlockOutcome::Fail
                    } else {
                        BlockOutcome::Next { r: prev(t), n: prev(n), b: out_b }
                    }
                }
            },
        }
    }
}

/// The rewind scan: starting from the bookmark `from` and walking leftwards,
/// the first document sibling that matches the prescription sibling `r`; the
/// scan stops after examining node `stop` when `stop` is a valid index.
/// Returns the found index, or `-1`.
pub open spec fn spec_scan(rxs: Vec<RxNode>, nodes: Vec<Node>, r: int, from: int, stop: int) -> int
    decreases rx_forest_size(rxs), 2nat, rank(from), 0nat, 0nat, 0nat,
{
    if !(0 <= r < rxs@.len()) || from < 0 || from >= nodes@.len() {
        -1
    } else {
        proof {
            lemma_rx_size_le_forest(rxs, r);
        }
        if spec_block_matches(nodes@[from], rxs@[r]) {
            from
        } else if from == stop {
            -1
        } else {
            spec_scan(rxs, nodes, r, from - 1, stop)
        }
    }
}

/// Whether one document block satisfies one prescription block: matching
/// types, and children that validate unless the prescription node is a
/// wildcard.
pub open spec fn spec_block_matches(node: Node, rx: RxNode) -> bool
    decreases rx_size(rx), 1nat, 0nat, 0nat, 0nat, 0nat,
{
    match ElementType::spec_determine(rx.node_type) {
        ElementType::ContainerBlock => spec_types_match(node, rx) && (rx.is_wildcard
            || spec_blocks_valid(rx.children, node.children)),
        ElementType::LeafBlock => spec_types_match(node, rx) && (rx.is_wildcard
            || spec_inlines_valid(rx.children, node.children, 0)),
        _ => false,
    }
}

/// Whether a document conforms to a prescription: the two roots' sibling
/// blocks must match.
pub open spec fn spec_validate(p: Prescription, d: Document) -> bool {
    spec_blocks_valid(p.root.children, d.root.children)
}


/// The spec value of an executable sibling cursor.
pub open spec fn cv(c: Option<usize>) -> int {
    match c {
        Option::Some(i) => i as int,
        Option::None => -1,
    }
}

/// Steps a cursor one sibling leftward.
fn prev_cursor(c: usize) -> (r: Option<usize>)
    ensures
        cv(r) == prev(c as int),
{
    if c == 0 {
        Option::None
    } else {
        Option::Some(c - 1)
    }
}

/// Whether the left cursor ranks strictly below the right one.
fn rank_lt(a: &Option<usize>, b: &Option<usize>) -> (r: bool)
    ensures
        r == (rank(cv(*a)) < rank(cv(*b))),
{
    match (a, b) {
        (Option::None, Option::Some(_)) => true,
        (Option::Some(x), Option::Some(y)) => *x < *y,
        _ => false,
    }
}

/// Whether two cursors are equal.
fn cursor_eq(a: &Option<usize>, b: &Option<usize>) -> (r: bool)
    ensures
        r == (cv(*a) == cv(*b)),
{
    match (a, b) {
        (Option::None, Option::None) => true,
        (Option::Some(x), Option::Some(y)) => *x == *y,
        _ => false,
    }
}

/// The cursor state of the sibling matcher between steps.
pub struct MatchState {
    pub rx: Option<usize>,
    pub node: Option<usize>,
    pub bookmark: Option<usize>,
}

/// The outcome of one sibling matching step.
pub enum MatchResult {
    State(MatchState),
    Error(Vec<Diagnostic>),
}

/// Whether a document node and a prescription node agree in type, heading
/// level and list kind.
pub fn types_match(node: &Node, rx: &RxNode) -> (r: bool)
    ensures
        r == spec_types_match(*node, *rx),
{
    if node.node_type != rx.node_type {
        return false;
    }
    if node.node_type == NodeType::Heading {
        return node.heading_level == rx.heading_level;
    }
    if node.node_type == NodeType::List {
        return node.list_type == rx.list_type;
    }
    true
}

/// Compares a link's url, title and content text each against its
/// prescription, collecting a content diagnostic for every part that does
/// not align.
pub fn validate_link_node_content(node: &Node, rx: &RxNode) -> (r: ValidationProblems)
    ensures
        (r is None) == (!spec_contains_mismatch(spec_match_contents(node.url@, rx.url@))
            && !spec_contains_mismatch(spec_match_contents(node.title@, rx.title@))
            && !spec_contains_mismatch(spec_match_contents(node.content@, rx.content@))),
        r matches Option::Some(e) ==> e@.len() >= 1,
{
    let mut errors: Vec<Diagnostic> = Vec::new();
    let url_pairs = match_contents(node.url.as_str(), rx.url.as_str());
    if ContentMatchPair::contains_mismatch(&url_pairs) {
        errors.push(Diagnostic { kind: ErrorKind::ContentMismatch, pairs: Option::Some(url_pairs) });
    }
    let title_pairs = match_contents(node.title.as_str(), rx.title.as_str());
    if ContentMatchPair::contains_mismatch(&title_pairs) {
        errors.push(Diagnostic { kind: ErrorKind::ContentMismatch, pairs: Option::Some(title_pairs) });
    }
    let content_pairs = match_contents(node.content.as_str(), rx.content.as_str());
    if ContentMatchPair::contains_mismatch(&content_pairs) {
        errors.push(Diagnostic { kind: ErrorKind::ContentMismatch, pairs: Option::Some(content_pairs) });
    }
    if errors.len() > 0 {
        Option::Some(errors)
    } else {
        Option::None
    }
}

/// Compares a leaf inline's content text against its prescription content.
pub fn validate_general_node_content(node: &Node, rx: &RxNode) -> (r: ValidationProblems)
    ensures
        (r is None) == !spec_contains_mismatch(spec_match_contents(node.content@, rx.content@)),
        r matches Option::Some(e) ==> e@.len() >= 1,
{
    let pairs = match_contents(node.content.as_str(), rx.content.as_str());
    if ContentMatchPair::contains_mismatch(&pairs) {
        Option::Some(
            vec![Diagnostic { kind: ErrorKind::ContentMismatch, pairs: Option::Some(pairs) }],
        )
    } else {
        Option::None
    }
}

/// Compares a leaf inline's content against its prescription: for links,
/// url, title and content text each; for other leaves the content text.
pub fn validate_node_content(node: &Node, rx: &RxNode) -> (r: ValidationProblems)
    ensures
        (r is None) == spec_node_content_ok(*node, *rx),
        r matches Option::Some(e) ==> e@.len() >= 1,
{
    if rx.node_type == NodeType::Link {
        validate_link_node_content(node, rx)
    } else {
        validate_general_node_content(node, rx)
    }
}

/// Whether one document inline satisfies one prescription inline leaf: the
/// types must agree and the content must align.
pub fn leaf_inline_matches(node: &Node, rx: &RxNode) -> (r: bool)
    ensures
        r == (spec_types_match(*node, *rx) && spec_node_content_ok(*node, *rx)),
{
    if !types_match(node, rx) {
        return false;
    }
    validate_node_content(node, rx).is_none()
}

/// Whether one document inline satisfies one prescription inline container:
/// the types must agree and the children must match pairwise.
pub fn container_inline_matches(node: &Node, rx: &RxNode) -> (r: bool)
    ensures
        r == (spec_types_match(*node, *rx) && spec_inlines_valid(rx.children, node.children, 0)),
    decreases rx_size(*rx), 0nat, 0nat,
{
    if !types_match(node, rx) {
        return false;
    }
    validate_sibling_inlines(&rx.children, &node.children, 0).is_none()
}

/// Whether one document inline satisfies one prescription inline.
pub fn inline_matches(node: &Node, rx: &RxNode) -> (r: bool)
    ensures
        r == spec_inline_matches(*node, *rx),
    decreases rx_size(*rx), 0nat, 1nat,
{
    match ElementType::determine(rx.node_type) {
        ElementType::InlineLeaf => leaf_inline_matches(node, rx),
        ElementType::InlineContainer => container_inline_matches(node, rx),
        _ => false,
    }
}

/// Matches inline siblings pairwise, left to right, from position `i`.
pub fn validate_sibling_inlines(rxs: &Vec<RxNode>, nodes: &Vec<Node>, i: usize) -> (r:
    ValidationProblems)
    ensures
        (r is None) == spec_inlines_valid(*rxs, *nodes, i as int),
        r matches Option::Some(e) ==> e@.len() >= 1,
    decreases rx_forest_size_from(*rxs, i as int), 1nat, 0nat,
{
    if i < rxs.len() {
        if i < nodes.len() {
            if inline_matches(&nodes[i], &rxs[i]) {
                validate_sibling_inlines(rxs, nodes, i + 1)
            } else {
                Option::Some(
                    vec![Diagnostic { kind: ErrorKind::MissingMandatory, pairs: Option::None }],
                )
            }
        } else {
            Option::Some(
                vec![Diagnostic { kind: ErrorKind::MissingMandatory, pairs: Option::None }],
            )
        }
    } else {
        if i < nodes.len() {
            Option::Some(
                vec![Diagnostic { kind: ErrorKind::SuperfluousNode, pairs: Option::None }],
            )
        } else {
            Option::None
        }
    }
}

/// Whether one document block satisfies one prescription container block:
/// the types must agree, and the children must validate unless the
/// prescription node is a wildcard.
pub fn container_block_matches(node: &Node, rx: &RxNode) -> (r: bool)
    ensures
        r == (spec_types_match(*node, *rx) && (rx.is_wildcard || spec_blocks_valid(
            rx.children,
            node.children,
        ))),
    decreases rx_size(*rx), 0nat, 0nat, 0nat, 0nat, 0nat,
{
    if !types_match(node, rx) {
        return false;
    }
    if rx.is_wildcard {
        return true;
    }
    validate_sibling_blocks(&rx.children, &node.children).is_none()
}

/// Whether one document block satisfies one prescription leaf block: the
/// types must agree, and the inline children must validate unless the
/// prescription node is a wildcard.
pub fn leaf_block_matches(node: &Node, rx: &RxNode) -> (r: bool)
    ensures
        r == (spec_types_match(*node, *rx) && (rx.is_wildcard || spec_inlines_valid(
            rx.children,
            node.children,
            0,
        ))),
    decreases rx_size(*rx), 0nat, 0nat, 0nat, 0nat, 0nat,
{
    if !types_match(node, rx) {
        return false;
    }
    if rx.is_wildcard {
        return true;
    }
    validate_sibling_inlines(&rx.children, &node.children, 0).is_none()
}

/// Whether one document block satisfies one prescription block.
pub fn block_matches(node: &Node, rx: &RxNode) -> (r: bool)
    ensures
        r == spec_block_matches(*node, *rx),
    decreases rx_size(*rx), 1nat, 0nat, 0nat, 0nat, 0nat,
{
    match ElementType::determine(rx.node_type) {
        ElementType::ContainerBlock => container_block_matches(node, rx),
        ElementType::LeafBlock => leaf_block_matches(node, rx),
        _ => false,
    }
}

/// The rewind scan: from the bookmark `from` leftwards, the first document
/// sibling matching prescription sibling `r`, stopping after `stop`.
pub fn scan_for_match(rxs: &Vec<RxNode>, nodes: &Vec<Node>, r: usize, from: usize, stop: &Option<
    usize,
>) -> (res: Option<usize>)
    requires
        r < rxs@.len(),
    ensures
        cv(res) == spec_scan(*rxs, *nodes, r as int, from as int, cv(*stop)),
    decreases rx_forest_size(*rxs), 2nat, rank(from as int), 0nat, 0nat, 0nat,
{
    if from >= nodes.len() {
        return Option::None;
    }
    proof {
        lemma_rx_size_le_forest(*rxs, r as int);
    }
    if block_matches(&nodes[from], &rxs[r]) {
        return Option::Some(from);
    }
    let at_stop = match stop {
        Option::Some(s) => *s == from,
        Option::None => false,
    };
    if at_stop {
        return Option::None;
    }
    if from == 0 {
        proof {
            assert(spec_scan(*rxs, *nodes, r as int, -1, cv(*stop)) == -1);
        }
        return Option::None;
    }
    scan_for_match(rxs, nodes, r, from - 1, stop)
}


/// The advanced cursors after an optional sibling is consumed.
pub struct OptionalMatchOutput {
    pub rx: Option<usize>,
    pub node: Option<usize>,
}

/// Consumes a mandatory prescription sibling, with the bookmark present:
/// either the current node matches it directly, or the scan rewinds through
/// the already-visited siblings for one that does; otherwise it is missing.
pub fn consume_mandatory_block_match(rxs: &Vec<RxNode>, nodes: &Vec<Node>, r: usize, n: Option<
    usize,
>, bi: usize) -> (res: MatchResult)
    requires
        r < rxs@.len(),
        rxs@[r as int].match_type == MatchType::Mandatory,
    ensures
        match res {
            MatchResult::State(st) => spec_consume(*rxs, *nodes, r as int, cv(n), bi as int)
                == (BlockOutcome::Next { r: cv(st.rx), n: cv(st.node), b: cv(st.bookmark) }),
            MatchResult::Error(e) => spec_consume(*rxs, *nodes, r as int, cv(n), bi as int)
                == BlockOutcome::Fail && e@.len() >= 1,
        },
    decreases rx_forest_size(*rxs), 4nat, rank(r as int), 0nat, 0nat, 0nat,
{
    proof {
        lemma_rx_size_le_forest(*rxs, r as int);
    }
    let direct = match n {
        Option::Some(ni) => ni < nodes.len() && block_matches(&nodes[ni], &rxs[r]),
        Option::None => false,
    };
    if direct {
        let ni = n.unwrap();
        let m = scan_for_match(rxs, nodes, r, bi, &n);
        let next_bookmark = match m {
            Option::Some(mi) => prev_cursor(mi),
            Option::None => Option::None,
        };
        MatchResult::State(
            MatchState { rx: prev_cursor(r), node: prev_cursor(ni), bookmark: next_bookmark },
        )
    } else {
        let m = scan_for_match(rxs, nodes, r, bi, &n);
        match m {
            Option::Some(mi) => MatchResult::State(
                MatchState { rx: prev_cursor(r), node: prev_cursor(mi), bookmark: prev_cursor(mi) },
            ),
            Option::None => MatchResult::Error(
                vec![Diagnostic { kind: ErrorKind::MissingMandatory, pairs: Option::None }],
            ),
        }
    }
}

/// Consumes an optional prescription sibling: the current node is taken when
/// it matches, and skipped over otherwise; an optional sibling never fails.
pub fn consume_optional_block_match(rxs: &Vec<RxNode>, nodes: &Vec<Node>, r: usize, n: Option<
    usize,
>) -> (out: OptionalMatchOutput)
    requires
        r < rxs@.len(),
        rxs@[r as int].match_type == MatchType::Optional,
    ensures
        forall|b: int|
            spec_consume(*rxs, *nodes, r as int, cv(n), b) == (BlockOutcome::Next {
                r: cv(out.rx),
                n: cv(out.node),
                b: b,
            }),
    decreases rx_forest_size(*rxs), 4nat, rank(r as int), 0nat, 0nat, 0nat,
{
    proof {
        lemma_rx_size_le_forest(*rxs, r as int);
    }
    let direct = match n {
        Option::Some(ni) => ni < nodes.len() && block_matches(&nodes[ni], &rxs[r]),
        Option::None => false,
    };
    if direct {
        let ni = n.unwrap();
        OptionalMatchOutput { rx: prev_cursor(r), node: prev_cursor(ni) }
    } else {
        OptionalMatchOutput { rx: prev_cursor(r), node: n }
    }
}

/// Consumes one prescription sibling against the current document cursors.
pub fn consume_block_match(rxs: &Vec<RxNode>, nodes: &Vec<Node>, r: usize, n: Option<usize>, b:
    Option<usize>) -> (res: MatchResult)
    requires
        r < rxs@.len(),
    ensures
        match res {
            MatchResult::State(st) => spec_consume(*rxs, *nodes, r as int, cv(n), cv(b))
                == (BlockOutcome::Next { r: cv(st.rx), n: cv(st.node), b: cv(st.bookmark) }),
            MatchResult::Error(e) => spec_consume(*rxs, *nodes, r as int, cv(n), cv(b))
                == BlockOutcome::Fail && e@.len() >= 1,
        },
    decreases rx_forest_size(*rxs), 5nat, rank(r as int), rank(cv(b)), rank(cv(n)), 0nat,
{
    match rxs[r].match_type {
        MatchType::Repeatable => {
            if r == 0 {
                MatchResult::Error(
                    vec![Diagnostic { kind: ErrorKind::RxStructure, pairs: Option::None }],
                )
            } else {
                consume_repeatable_matches(rxs, nodes, r - 1, n, b, 0, Option::None)
            }
        },
        MatchType::Mandatory => {
            match b {
                Option::None => MatchResult::Error(
                    vec![Diagnostic { kind: ErrorKind::MissingMandatory, pairs: Option::None }],
                ),
                Option::Some(bi) => consume_mandatory_block_match(rxs, nodes, r, n, bi),
            }
        },
        MatchType::Optional => {
            let out = consume_optional_block_match(rxs, nodes, r, n);
            MatchResult::State(MatchState { rx: out.rx, node: out.node, bookmark: b })
        },
        MatchType::Void => MatchResult::State(
            MatchState { rx: prev_cursor(r), node: n, bookmark: b },
        ),
    }
}

/// The repeat loop: matches the target prescription sibling `t` repeatedly,
/// keeping the bookmark seen after the second success as the output
/// bookmark; stops at the first failure or when an iteration no longer
/// advances either document cursor.
pub fn consume_repeatable_matches(rxs: &Vec<RxNode>, nodes: &Vec<Node>, t: usize, n: Option<usize>,
    b: Option<usize>, count: usize, out_b: Option<usize>) -> (res: MatchResult)
    requires
        t < rxs@.len(),
    ensures
        match res {
            MatchResult::State(st) => spec_repeat(
                *rxs,
                *nodes,
                t as int,
                cv(n),
                cv(b),
                count as nat,
                cv(out_b),
            ) == (BlockOutcome::Next { r: cv(st.rx), n: cv(st.node), b: cv(st.bookmark) }),
            MatchResult::Error(e) => spec_repeat(
                *rxs,
                *nodes,
                t as int,
                cv(n),
                cv(b),
                count as nat,
                cv(out_b),
            ) == BlockOutcome::Fail && e@.len() >= 1,
        },
    decreases rx_forest_size(*rxs), 5nat, rank(t as int), rank(cv(b)), rank(cv(n)), 1nat,
{
    let step = consume_block_match(rxs, nodes, t, n, b);
    match step {
        MatchResult::Error(_) => {
            if count == 0 && rxs[t].match_type == MatchType::Mandatory {
                MatchResult::Error(
                    vec![Diagnostic { kind: ErrorKind::MissingMandatory, pairs: Option::None }],
                )
            } else {
                let next_node = match n {
                    Option::Some(ni) => prev_cursor(ni),
                    Option::None => Option::None,
                };
                MatchResult::State(
                    MatchState { rx: prev_cursor(t), node: next_node, bookmark: out_b },
                )
            }
        },
        MatchResult::State(st) => {
            let progressed = rank_lt(&st.bookmark, &b) || (cursor_eq(&st.bookmark, &b) && rank_lt(
                &st.node,
                &n,
            ));
            if progressed {
                let out2 = if count == 1 {
                    st.bookmark
                } else {
                    out_b
                };
                let c2: usize = if count < 2 {
                    count + 1
                } else {
                    count
                };
                consume_repeatable_matches(rxs, nodes, t, st.node, st.bookmark, c2, out2)
            } else {
                if count == 0 && rxs[t].match_type == MatchType::Mandatory {
                    MatchResult::Error(
                        vec![
                            Diagnostic { kind: ErrorKind::MissingMandatory, pairs: Option::None },
                        ],
                    )
                } else {
                    let next_node = match n {
                        Option::Some(ni) => prev_cursor(ni),
                        Option::None => Option::None,
                    };
                    MatchResult::State(
                        MatchState { rx: prev_cursor(t), node: next_node, bookmark: out_b },
                    )
                }
            }
        },
    }
}


/// The repeat loop, when it succeeds, hands back the cursor just left of
/// its target.
proof fn lemma_repeat_advances(
    rxs: Vec<RxNode>,
    nodes: Vec<Node>,
    t: int,
    n: int,
    b: int,
    count: nat,
    out_b: int,
)
    ensures
        spec_repeat(rxs, nodes, t, n, b, count, out_b) matches BlockOutcome::Next { r: r2, .. }
            ==> r2 == prev(t),
    decreases rank(b), rank(n),
{
    if 0 <= t < rxs@.len() {
        match spec_consume(rxs, nodes, t, n, b) {
            BlockOutcome::Fail => {},
            BlockOutcome::Next { r: _, n: n2, b: b2 } => {
                if rank(b2) < rank(b) || (b2 == b && rank(n2) < rank(n)) {
                    let out2 = if count == 1 {
                        b2
                    } else {
                        out_b
                    };
                    let c2 = if count < 2 {
                        count + 1
                    } else {
                        count
                    };
                    lemma_repeat_advances(rxs, nodes, t, n2, b2, c2 as nat, out2);
                }
            },
        }
    }
}

/// Consuming one prescription sibling, when it succeeds, always advances
/// the prescription cursor leftward.
proof fn lemma_consume_advances(rxs: Vec<RxNode>, nodes: Vec<Node>, r: int, n: int, b: int)
    ensures
        spec_consume(rxs, nodes, r, n, b) matches BlockOutcome::Next { r: r2, .. } ==> rank(r2)
            < rank(r),
{
    if 0 <= r < rxs@.len() {
        match rxs@[r].match_type {
            MatchType::Repeatable => {
                if r > 0 {
                    lemma_repeat_advances(rxs, nodes, r - 1, n, b, 0, -1);
                }
            },
            _ => {},
        }
    }
}

/// The sibling matching loop, from the given cursors.
pub fn validate_blocks_from(rxs: &Vec<RxNode>, nodes: &Vec<Node>, r: Option<usize>, n: Option<
    usize,
>, b: Option<usize>) -> (res: ValidationProblems)
    requires
        r matches Option::Some(ri) ==> ri < rxs@.len(),
    ensures
        (res is None) == spec_blocks_loop(*rxs, *nodes, cv(r), cv(n), cv(b)),
        res matches Option::Some(e) ==> e@.len() >= 1,
    decreases rx_forest_size(*rxs), 8nat, rank(cv(r)), 0nat, 0nat, 0nat,
{
    match r {
        Option::None => {
            match n {
                Option::Some(_) => Option::Some(
                    vec![Diagnostic { kind: ErrorKind::SuperfluousNode, pairs: Option::None }],
                ),
                Option::None => Option::None,
            }
        },
        Option::Some(ri) => {
            match consume_block_match(rxs, nodes, ri, n, b) {
                MatchResult::Error(e) => Option::Some(e),
                MatchResult::State(st) => {
                    proof {
                        lemma_consume_advances(*rxs, *nodes, ri as int, cv(n), cv(b));
                    }
                    validate_blocks_from(rxs, nodes, st.rx, st.node, st.bookmark)
                },
            }
        },
    }
}

/// Matches two sibling block lists, starting with all cursors at the last
/// child.
pub fn validate_sibling_blocks(rxs: &Vec<RxNode>, nodes: &Vec<Node>) -> (res: ValidationProblems)
    ensures
        (res is None) == spec_blocks_valid(*rxs, *nodes),
        res matches Option::Some(e) ==> e@.len() >= 1,
    decreases rx_forest_size(*rxs), 9nat, 0nat, 0nat, 0nat, 0nat,
{
    let r: Option<usize> = if rxs.len() == 0 {
        Option::None
    } else {
        Option::Some(rxs.len() - 1)
    };
    let n: Option<usize> = if nodes.len() == 0 {
        Option::None
    } else {
        Option::Some(nodes.len() - 1)
    };
    let b: Option<usize> = if nodes.len() == 0 {
        Option::None
    } else {
        Option::Some(nodes.len() - 1)
    };
    validate_blocks_from(rxs, nodes, r, n, b)
}

/// Validates a `Document` against a `Prescription`.
pub struct Validator {
    pub prescription: Prescription,
    pub document: Document,
}

impl Validator {
    /// Pairs a prescription with the document to validate against it.
    pub fn new(prescription: Prescription, document: Document) -> (v: Validator)
        ensures
            v.prescription == prescription,
            v.document == document,
    {
        Validator { prescription, document }
    }

    /// The result of validating the document against the prescription:
    /// errors are absent exactly when the document conforms, and a failed
    /// validation always carries at least one diagnostic.
    pub fn validate(&self) -> (report: ValidationReport)
        ensures
            (report.errors is None) == spec_validate(self.prescription, self.document),
            report.errors matches Option::Some(e) ==> e@.len() >= 1,
            report.warnings is None,
    {
        match validate_sibling_blocks(&self.prescription.root.children, &self.document.root.children) {
            Option::Some(errors) => ValidationReport::new(Option::Some(errors), Option::None),
            Option::None => ValidationReport::new(Option::None, Option::None),
        }
    }
}

} // verus!
