use howser::data::ListType;
use howser::data::MatchType;
use howser::data::NodeType;
use howser::document::Document;
use howser::document::Node;
use howser::document::Prescription;
use howser::document::RxNode;
use howser::validator::Validator;

fn leaf(node_type: NodeType, content: &str) -> Node {
    Node {
        node_type,
        heading_level: 0,
        list_type: ListType::NoList,
        content: content.to_string(),
        url: String::new(),
        title: String::new(),
        children: vec![],
    }
}

fn text(content: &str) -> Node {
    leaf(NodeType::Text, content)
}

fn paragraph(children: Vec<Node>) -> Node {
    Node {
        node_type: NodeType::Paragraph,
        heading_level: 0,
        list_type: ListType::NoList,
        content: String::new(),
        url: String::new(),
        title: String::new(),
        children,
    }
}

fn heading(level: u32, children: Vec<Node>) -> Node {
    Node {
        node_type: NodeType::Heading,
        heading_level: level,
        list_type: ListType::NoList,
        content: String::new(),
        url: String::new(),
        title: String::new(),
        children,
    }
}

fn document(children: Vec<Node>) -> Document {
    Document {
        root: Node {
            node_type: NodeType::Document,
            heading_level: 0,
            list_type: ListType::NoList,
            content: String::new(),
            url: String::new(),
            title: String::new(),
            children,
        },
    }
}

fn rx_leaf(node_type: NodeType, content: &str) -> RxNode {
    RxNode {
        node_type,
        heading_level: 0,
        list_type: ListType::NoList,
        content: content.to_string(),
        url: String::new(),
        title: String::new(),
        match_type: MatchType::Mandatory,
        is_wildcard: false,
        children: vec![],
    }
}

fn rx_text(content: &str) -> RxNode {
    rx_leaf(NodeType::Text, content)
}

fn rx_paragraph(match_type: MatchType, is_wildcard: bool, children: Vec<RxNode>) -> RxNode {
    RxNode {
        node_type: NodeType::Paragraph,
        heading_level: 0,
        list_type: ListType::NoList,
        content: String::new(),
        url: String::new(),
        title: String::new(),
        match_type,
        is_wildcard,
        children,
    }
}

fn prescription(children: Vec<RxNode>) -> Prescription {
    Prescription {
        root: RxNode {
            node_type: NodeType::Document,
            heading_level: 0,
            list_type: ListType::NoList,
            content: String::new(),
            url: String::new(),
            title: String::new(),
            match_type: MatchType::Mandatory,
            is_wildcard: false,
            children,
        },
    }
}

/// A prescription as the preprocessor yields it for one plain paragraph of
/// text: the paragraph and its text are mandatory, nothing is a wildcard.
fn text_paragraph_rx(content: &str) -> Prescription {
    prescription(vec![rx_paragraph(
        MatchType::Mandatory,
        false,
        vec![rx_text(content)],
    )])
}

fn text_paragraph_doc(content: &str) -> Document {
    document(vec![paragraph(vec![text(content)])])
}

#[test]
fn test_literal_text_match() {
    let rx = text_paragraph_rx("The quick brown fox jumps over the dog.");
    let doc = text_paragraph_doc("The quick brown fox jumps over the dog.");
    let validator = Validator::new(rx, doc);

    let report = validator.validate();

    assert!(report.errors.is_none());
}

#[test]
fn test_literal_text_mismatch() {
    let rx = text_paragraph_rx("The quick brown fox jumps over the dog.");
    let doc = text_paragraph_doc("The slow brown fox jumps over the dog.");
    let validator = Validator::new(rx, doc);

    let report = validator.validate();

    assert!(report.errors.is_some());
}

#[test]
fn test_prompted_text_match() {
    let rx_1 = text_paragraph_rx("The quick brown fox -!!- over-??-.");
    let rx_2 = text_paragraph_rx("The quick brown fox -!!- over-??-.");
    let doc_1 = text_paragraph_doc("The quick brown fox jumps overthrows the dog.");
    let doc_2 = text_paragraph_doc("The quick brown fox slinks over.");

    let validator_1 = Validator::new(rx_1, doc_1);
    let validator_2 = Validator::new(rx_2, doc_2);

    let report_1 = validator_1.validate();
    let report_2 = validator_2.validate();

    assert!(report_1.errors.is_none());
    assert!(report_2.errors.is_none());
}

#[test]
fn test_prompted_text_mismatch() {
    let rx = text_paragraph_rx("The quick brown fox -!!- over-??-.");
    let doc = text_paragraph_doc("The quick brown fox over.");
    let validator = Validator::new(rx, doc);

    let report = validator.validate();

    assert!(report.errors.is_some());
}

/// A prescription for one paragraph holding one inline code span.
fn code_paragraph_rx(content: &str) -> Prescription {
    prescription(vec![rx_paragraph(
        MatchType::Mandatory,
        false,
        vec![rx_leaf(NodeType::Code, content)],
    )])
}

fn code_paragraph_doc(content: &str) -> Document {
    document(vec![paragraph(vec![leaf(NodeType::Code, content)])])
}

#[test]
fn test_literal_code_match() {
    let rx = code_paragraph_rx("let my_num: u32 = 42;");
    let doc = code_paragraph_doc("let my_num: u32 = 42;");
    let validator = Validator::new(rx, doc);

    let report = validator.validate();

    assert!(report.errors.is_none());
}

#[test]
fn test_literal_code_mismatch() {
    let rx = code_paragraph_rx("let my_num: u32 = 42;");
    let doc = code_paragraph_doc("let my_num: u32 = 13;");
    let validator = Validator::new(rx, doc);

    let report = validator.validate();

    assert!(report.errors.is_some());
}

#[test]
fn test_prompted_code_match() {
    let rx_1 = code_paragraph_rx("let -!!- = 42-??-;");
    let rx_2 = code_paragraph_rx("let -!!- = 42-??-;");
    let doc_1 = code_paragraph_doc("let my_num: u32 = 42;");
    let doc_2 = code_paragraph_doc("let the_answer = 4200;");

    let validator_1 = Validator::new(rx_1, doc_1);
    let validator_2 = Validator::new(rx_2, doc_2);

    let report_1 = validator_1.validate();
    let report_2 = validator_2.validate();

    assert!(report_1.errors.is_none());
    assert!(report_2.errors.is_none());
}

#[test]
fn test_prompted_code_mismatch() {
    let rx = code_paragraph_rx("let -!!- = 42;");
    let doc = code_paragraph_doc("let = 42;");
    let validator = Validator::new(rx, doc);

    let report = validator.validate();

    assert!(report.errors.is_some());
}

#[test]
fn test_mandatory_wildcard_paragraph_match() {
    let rx = prescription(vec![rx_paragraph(
        MatchType::Mandatory,
        true,
        vec![rx_text("-!!-")],
    )]);
    let doc = text_paragraph_doc("Literally any content here");
    let validator = Validator::new(rx, doc);

    let report = validator.validate();

    assert!(report.errors.is_none());
}

#[test]
fn test_optional_wildcard_paragraph_match() {
    let rx_1 = prescription(vec![rx_paragraph(
        MatchType::Optional,
        true,
        vec![rx_text("-??-")],
    )]);
    let rx_2 = prescription(vec![rx_paragraph(
        MatchType::Optional,
        true,
        vec![rx_text("-??-")],
    )]);
    let doc = text_paragraph_doc("Literally any content here");
    let empty_doc = document(vec![]);
    let validator_1 = Validator::new(rx_1, doc);
    let validator_2 = Validator::new(rx_2, empty_doc);

    assert!(validator_1.validate().errors.is_none());
    assert!(validator_2.validate().errors.is_none());
}

#[test]
fn test_mandatory_wildcard_paragraph_mismatch() {
    let rx = prescription(vec![rx_paragraph(
        MatchType::Mandatory,
        true,
        vec![rx_text("-!!-")],
    )]);
    let doc = document(vec![]);
    let validator = Validator::new(rx, doc);

    let report = validator.validate();

    assert!(
        report.errors.is_some(),
        "The mandatory wildcard paragraph did not fail against empty document."
    );
}

/// A prescription of a mandatory wildcard paragraph followed by the repeat
/// marker: the paragraph may match one or more document paragraphs.
fn repeatable_paragraph_rx() -> Prescription {
    prescription(vec![
        rx_paragraph(MatchType::Mandatory, true, vec![rx_text("-!!-")]),
        rx_paragraph(MatchType::Repeatable, true, vec![rx_text("-\"\"-")]),
    ])
}

#[test]
fn test_repeatable_wildcard_paragraph_match() {
    let rx = repeatable_paragraph_rx();
    let doc = document(vec![
        paragraph(vec![text("Some random first paragraph")]),
        paragraph(vec![text("Some random second paragraph")]),
    ]);
    let validator = Validator::new(rx, doc);

    let report = validator.validate();

    assert!(report.errors.is_none());
}

#[test]
fn test_repeatable_wildcard_paragraph_mismatch() {
    let rx = repeatable_paragraph_rx();
    let doc = document(vec![
        paragraph(vec![text("Some random first paragraph")]),
        paragraph(vec![text("Some random second paragraph")]),
        heading(1, vec![text("And a heading")]),
    ]);
    let validator = Validator::new(rx, doc);

    let report = validator.validate();

    assert!(report.errors.is_some());
}

#[test]
fn test_mandatory_block_level_prompted_paragraph_match() {
    let rx = prescription(vec![rx_paragraph(
        MatchType::Mandatory,
        false,
        vec![rx_text("-!!-my dear-??-")],
    )]);
    let doc = text_paragraph_doc("Elementary my dear Watson");
    let validator = Validator::new(rx, doc);

    let report = validator.validate();

    assert!(report.errors.is_none());
}

#[test]
fn test_optional_block_level_prompted_paragraph_match() {
    let rx_1 = prescription(vec![rx_paragraph(
        MatchType::Optional,
        false,
        vec![rx_text("-!!-my dear-??-")],
    )]);
    let rx_2 = prescription(vec![rx_paragraph(
        MatchType::Optional,
        false,
        vec![rx_text("-!!-my dear-??-")],
    )]);
    let doc_1 = text_paragraph_doc("Elementary my dear Watson");
    let doc_2 = document(vec![]);

    let validator_1 = Validator::new(rx_1, doc_1);
    let validator_2 = Validator::new(rx_2, doc_2);

    assert!(
        validator_1.validate().errors.is_none(),
        "The optional prompted paragraph did not match the given string."
    );
    assert!(
        validator_2.validate().errors.is_none(),
        "The optional prompted paragraph did not match an empty string"
    );
}

#[test]
fn test_mandatory_block_level_prompted_paragraph_mismatch() {
    let rx_1 = prescription(vec![rx_paragraph(
        MatchType::Mandatory,
        false,
        vec![rx_text("-!!-my dear-??-")],
    )]);
    let rx_2 = prescription(vec![rx_paragraph(
        MatchType::Mandatory,
        false,
        vec![rx_text("-!!-my dear-??-")],
    )]);
    let doc_1 = text_paragraph_doc("my dear");
    let doc_2 = document(vec![]);

    let validator_1 = Validator::new(rx_1, doc_1);
    let validator_2 = Validator::new(rx_2, doc_2);

    assert!(
        validator_1.validate().errors.is_some(),
        "The mandatory prompted paragraph did not fail against mismatched text."
    );
    assert!(
        validator_2.validate().errors.is_some(),
        "The mandatory prompted paragraph did not fail against empty document."
    );
}

/// A paragraph whose whole text is prompts and literals, kept mandatory at
/// the block level: it must be present, and its text must align.
#[test]
fn inline_prompted_paragraph_scenarios() {
    let cases = [
        ("Elementary my dear Watson", true),
        ("my dear", false),
    ];
    for (doc_text, expect_pass) in cases {
        let rx = prescription(vec![rx_paragraph(
            MatchType::Mandatory,
            false,
            vec![rx_text("-??--!!-my dear-??-")],
        )]);
        let doc = text_paragraph_doc(doc_text);
        let report = Validator::new(rx, doc).validate();
        assert_eq!(report.errors.is_none(), expect_pass, "doc: {:?}", doc_text);
    }

    let rx = prescription(vec![rx_paragraph(
        MatchType::Mandatory,
        false,
        vec![rx_text("-??--!!-my dear-??-")],
    )]);
    let empty_doc = document(vec![]);
    let report = Validator::new(rx, empty_doc).validate();
    assert!(report.errors.is_some());
}

/// Validating a document against itself, read as a prescription, passes when
/// its text holds no prompt markers.
#[test]
fn identity_validation_passes() {
    let make_doc = || {
        document(vec![
            heading(2, vec![text("A heading")]),
            paragraph(vec![text("Some plain prose with no markers at all.")]),
            paragraph(vec![leaf(NodeType::Code, "let x = 1;")]),
        ])
    };
    let doc = make_doc();
    let rx = Prescription::from_document(&make_doc());
    let report = Validator::new(rx, doc).validate();
    assert!(report.errors.is_none());
}

/// Two adjacent identical mandatory prescription paragraphs: each consumes
/// one document paragraph, so two document paragraphs pass and one fails.
#[test]
fn adjacent_duplicate_mandatory_paragraphs() {
    let rx_pass = prescription(vec![
        rx_paragraph(MatchType::Mandatory, false, vec![rx_text("same")]),
        rx_paragraph(MatchType::Mandatory, false, vec![rx_text("same")]),
    ]);
    let doc_pass = document(vec![
        paragraph(vec![text("same")]),
        paragraph(vec![text("same")]),
    ]);
    assert!(Validator::new(rx_pass, doc_pass).validate().errors.is_none());

    let rx_fail = prescription(vec![
        rx_paragraph(MatchType::Mandatory, false, vec![rx_text("same")]),
        rx_paragraph(MatchType::Mandatory, false, vec![rx_text("same")]),
    ]);
    let doc_fail = document(vec![paragraph(vec![text("same")])]);
    assert!(Validator::new(rx_fail, doc_fail).validate().errors.is_some());
}

/// A document sibling that nothing in the prescription accounts for fails
/// validation.
#[test]
fn superfluous_sibling_fails() {
    let rx = text_paragraph_rx("kept");
    let doc = document(vec![
        paragraph(vec![text("extra")]),
        paragraph(vec![text("kept")]),
    ]);
    let report = Validator::new(rx, doc).validate();
    assert!(report.errors.is_some());
}

/// A repeat marker with no preceding sibling is a malformed prescription.
#[test]
fn repeat_marker_without_predecessor_fails() {
    let rx = prescription(vec![rx_paragraph(
        MatchType::Repeatable,
        true,
        vec![rx_text("-\"\"-")],
    )]);
    let doc = text_paragraph_doc("anything");
    let report = Validator::new(rx, doc).validate();
    assert!(report.errors.is_some());
}

/// An optional element lets a later mandatory element take the node it
/// skipped; the bookmark rewind recovers nodes consumed too early.
#[test]
fn optional_yields_node_to_mandatory() {
    let rx = prescription(vec![
        rx_paragraph(MatchType::Mandatory, false, vec![rx_text("body")]),
        rx_paragraph(MatchType::Optional, false, vec![rx_text("body")]),
    ]);
    let doc = document(vec![paragraph(vec![text("body")])]);
    let report = Validator::new(rx, doc).validate();
    assert!(report.errors.is_none());
}

/// Heading levels and list kinds must agree for types to match.
#[test]
fn heading_level_must_agree() {
    let rx = prescription(vec![RxNode {
        node_type: NodeType::Heading,
        heading_level: 1,
        list_type: ListType::NoList,
        content: String::new(),
        url: String::new(),
        title: String::new(),
        match_type: MatchType::Mandatory,
        is_wildcard: false,
        children: vec![rx_text("title")],
    }]);
    let doc = document(vec![heading(2, vec![text("title")])]);
    let report = Validator::new(rx, doc).validate();
    assert!(report.errors.is_some());
}

/// Validation is a pure function of its inputs: repeating it on equal inputs
/// repeats its outcome.
#[test]
fn validation_is_deterministic() {
    for _ in 0..2 {
        let rx = text_paragraph_rx("The quick brown fox -!!- over-??-.");
        let doc = text_paragraph_doc("The quick brown fox jumps overthrows the dog.");
        let report = Validator::new(rx, doc).validate();
        assert!(report.errors.is_none());
        assert!(report.warnings.is_none());
    }
    for _ in 0..2 {
        let rx = text_paragraph_rx("The quick brown fox -!!- over-??-.");
        let doc = text_paragraph_doc("The quick brown fox over.");
        let report = Validator::new(rx, doc).validate();
        assert!(report.errors.is_some());
        let errors = report.errors.unwrap();
        assert!(errors.len() >= 1);
    }
}

/// Container blocks recurse: a block quote matches when its inner blocks
/// match the prescription's inner blocks, and fails when they do not.
#[test]
fn container_blocks_recurse() {
    let quote_rx = |content: &str| RxNode {
        node_type: NodeType::BlockQuote,
        heading_level: 0,
        list_type: ListType::NoList,
        content: String::new(),
        url: String::new(),
        title: String::new(),
        match_type: MatchType::Mandatory,
        is_wildcard: false,
        children: vec![rx_paragraph(MatchType::Mandatory, false, vec![rx_text(content)])],
    };
    let quote_doc = |content: &str| Node {
        node_type: NodeType::BlockQuote,
        heading_level: 0,
        list_type: ListType::NoList,
        content: String::new(),
        url: String::new(),
        title: String::new(),
        children: vec![paragraph(vec![text(content)])],
    };

    let rx = prescription(vec![quote_rx("quoted -!!-")]);
    let doc = document(vec![quote_doc("quoted words")]);
    assert!(Validator::new(rx, doc).validate().errors.is_none());

    let rx = prescription(vec![quote_rx("quoted -!!-")]);
    let doc = document(vec![quote_doc("quoted")]);
    assert!(Validator::new(rx, doc).validate().errors.is_some());
}

/// A wildcard container accepts any children so long as its own type
/// matches.
#[test]
fn wildcard_container_ignores_children() {
    let rx = prescription(vec![RxNode {
        node_type: NodeType::BlockQuote,
        heading_level: 0,
        list_type: ListType::NoList,
        content: String::new(),
        url: String::new(),
        title: String::new(),
        match_type: MatchType::Mandatory,
        is_wildcard: true,
        children: vec![],
    }]);
    let doc = document(vec![Node {
        node_type: NodeType::BlockQuote,
        heading_level: 0,
        list_type: ListType::NoList,
        content: String::new(),
        url: String::new(),
        title: String::new(),
        children: vec![paragraph(vec![text("anything whatsoever")])],
    }]);
    assert!(Validator::new(rx, doc).validate().errors.is_none());
}

/// Link inlines compare url, title and content text, each through the
/// content matcher.
#[test]
fn link_content_compares_url_and_title() {
    let link_rx = |url: &str, title: &str, content: &str| {
        prescription(vec![rx_paragraph(
            MatchType::Mandatory,
            false,
            vec![RxNode {
                node_type: NodeType::Link,
                heading_level: 0,
                list_type: ListType::NoList,
                content: content.to_string(),
                url: url.to_string(),
                title: title.to_string(),
                match_type: MatchType::Mandatory,
                is_wildcard: false,
                children: vec![],
            }],
        )])
    };
    let link_doc = |url: &str, title: &str, content: &str| {
        document(vec![paragraph(vec![Node {
            node_type: NodeType::Link,
            heading_level: 0,
            list_type: ListType::NoList,
            content: content.to_string(),
            url: url.to_string(),
            title: title.to_string(),
            children: vec![],
        }])])
    };

    let rx = link_rx("https://example.com/-!!-", "a title", "click");
    let doc = link_doc("https://example.com/page", "a title", "click");
    assert!(Validator::new(rx, doc).validate().errors.is_none());

    let rx = link_rx("https://example.com/-!!-", "a title", "click");
    let doc = link_doc("https://elsewhere.org/page", "a title", "click");
    assert!(Validator::new(rx, doc).validate().errors.is_some());
}
