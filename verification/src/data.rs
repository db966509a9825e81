//! Core data model: node taxonomy, match classifications, prompt tokens and
//! the pairs produced by content matching.

use vstd::prelude::*;

verus! {

/// The closed set of element types a parsed document node may carry.
#[derive(Clone, Copy, Debug, PartialEq, Eq, Structural)]
pub enum NodeType {
    Document,
    BlockQuote,
    List,
    Item,
    Paragraph,
    Heading,
    CodeBlock,
    HtmlBlock,
    ThematicBreak,
    Text,
    Code,
    HtmlInline,
    SoftBreak,
    LineBreak,
    Emph,
    Strong,
    Link,
    Image,
}

/// The kind of a list node.
#[derive(Clone, Copy, Debug, PartialEq, Eq, Structural)]
pub enum ListType {
    NoList,
    Bullet,
    Ordered,
}

/// Structural category of an element, derived from its node type.
#[derive(Clone, Copy, Debug, PartialEq, Eq, Structural)]
pub enum ElementType {
    ContainerBlock,
    LeafBlock,
    InlineContainer,
    InlineLeaf,
}

impl ElementType {
    /// The category of each node type; the classification is deterministic.
    pub open spec fn spec_determine(t: NodeType) -> ElementType {
        match t {
            NodeType::Document => ElementType::ContainerBlock,
            NodeType::BlockQuote => ElementType::ContainerBlock,
            NodeType::List => ElementType::ContainerBlock,
            NodeType::Item => ElementType::ContainerBlock,
            NodeType::Paragraph => ElementType::LeafBlock,
            NodeType::Heading => ElementType::LeafBlock,
            NodeType::CodeBlock => ElementType::LeafBlock,
            NodeType::HtmlBlock => ElementType::LeafBlock,
            NodeType::ThematicBreak => ElementType::LeafBlock,
            NodeType::Emph => ElementType::InlineContainer,
            NodeType::Strong => ElementType::InlineContainer,
            NodeType::Image => ElementType::InlineContainer,
            NodeType::Text => ElementType::InlineLeaf,
            NodeType::Code => ElementType::InlineLeaf,
            NodeType::HtmlInline => ElementType::InlineLeaf,
            NodeType::SoftBreak => ElementType::InlineLeaf,
            NodeType::LineBreak => ElementType::InlineLeaf,
            NodeType::Link => ElementType::InlineLeaf,
        }
    }

    /// Classifies a node type into its structural category.
    pub fn determine(t: NodeType) -> (r: ElementType)
        ensures
            r == ElementType::spec_determine(t),
    {
        match t {
            NodeType::Document => ElementType::ContainerBlock,
            NodeType::BlockQuote => ElementType::ContainerBlock,
            NodeType::List => ElementType::ContainerBlock,
            NodeType::Item => ElementType::ContainerBlock,
            NodeType::Paragraph => ElementType::LeafBlock,
            NodeType::Heading => ElementType::LeafBlock,
            NodeType::CodeBlock => ElementType::LeafBlock,
            NodeType::HtmlBlock => ElementType::LeafBlock,
            NodeType::ThematicBreak => ElementType::LeafBlock,
            NodeType::Emph => ElementType::InlineContainer,
            NodeType::Strong => ElementType::InlineContainer,
            NodeType::Image => ElementType::InlineContainer,
            NodeType::Text => ElementType::InlineLeaf,
            NodeType::Code => ElementType::InlineLeaf,
            NodeType::HtmlInline => ElementType::InlineLeaf,
            NodeType::SoftBreak => ElementType::InlineLeaf,
            NodeType::LineBreak => ElementType::InlineLeaf,
            NodeType::Link => ElementType::InlineLeaf,
        }
    }
}

/// How a prescription node must be satisfied by document nodes.
#[derive(Clone, Copy, Debug, PartialEq, Eq, Structural)]
pub enum MatchType {
    /// Must be satisfied by exactly one document node.
    Mandatory,
    /// May be satisfied by zero or one document node.
    Optional,
    /// A sentinel meaning: the previous prescription sibling may match any
    /// number of additional document nodes.
    Repeatable,
    /// A node that should never be surfaced to the matcher; the sibling
    /// matcher passes over it.
    Void,
}

/// Spec-level form of a prompt token: the mathematical value that a
/// `PromptToken` stands for, with literal text as a sequence of characters.
pub enum Token {
    Mandatory,
    Optional,
    Literal(Seq<char>),
    Void,
}

/// A token parsed from a prescription content string: a prompt marker, a
/// literal substring between markers, or the internal `Void` sentinel, which
/// a correct tokenizer never emits.
#[derive(Clone, Debug, PartialEq, Eq)]
pub enum PromptToken {
    Mandatory,
    Optional,
    Literal(String),
    Void,
}

impl View for PromptToken {
    type V = Token;

    open spec fn view(&self) -> Token {
        match self {
            PromptToken::Mandatory => Token::Mandatory,
            PromptToken::Optional => Token::Optional,
            PromptToken::Literal(s) => Token::Literal(s@),
            PromptToken::Void => Token::Void,
        }
    }
}

/// A pair of a prompt token and the document substring bound to it, if any.
/// A sequence of these is the output of content matching; a `Void` token
/// paired with a substring records a preface that stood between literals.
#[derive(Clone, Debug, PartialEq, Eq)]
pub struct ContentMatchPair(pub PromptToken, pub Option<String>);

impl View for ContentMatchPair {
    type V = (Token, Option<Seq<char>>);

    open spec fn view(&self) -> (Token, Option<Seq<char>>) {
        (
            self.0@,
            match self.1 {
                Option::Some(s) => Option::Some(s@),
                Option::None => Option::None,
            },
        )
    }
}

/// Whether one spec-level match pair records a mismatch: a mandatory prompt
/// or a literal that no document text was bound to.
pub open spec fn pair_is_mismatch(p: (Token, Option<Seq<char>>)) -> bool {
    match p {
        (Token::Mandatory, Option::None) => true,
        (Token::Literal(_), Option::None) => true,
        _ => false,
    }
}

/// Whether a spec-level match pair sequence contains a mismatch.
pub open spec fn spec_contains_mismatch(pairs: Seq<(Token, Option<Seq<char>>)>) -> bool {
    exists|i: int| 0 <= i < pairs.len() && pair_is_mismatch(pairs[i])
}

/// The spec-level value of a sequence of match pairs.
pub open spec fn pairs_view(pairs: Seq<ContentMatchPair>) -> Seq<(Token, Option<Seq<char>>)> {
    pairs.map_values(|p: ContentMatchPair| p@)
}

impl ContentMatchPair {
    /// Whether any pair in the sequence records a mismatch; content matching
    /// fails exactly when its output contains one.
    pub fn contains_mismatch(pairs: &Vec<ContentMatchPair>) -> (r: bool)
        ensures
            r == spec_contains_mismatch(pairs_view(pairs@)),
    {
        let mut i: usize = 0;
        while i < pairs.len()
            invariant
                i <= pairs@.len(),
                forall|j: int| 0 <= j < i ==> !pair_is_mismatch(pairs_view(pairs@)[j]),
            decreases pairs@.len() - i,
        {
            let is_bad = match &pairs[i] {
                ContentMatchPair(PromptToken::Mandatory, Option::None) => true,
                ContentMatchPair(PromptToken::Literal(_), Option::None) => true,
                _ => false,
            };
            if is_bad {
                assert(pair_is_mismatch(pairs_view(pairs@)[i as int]));
                return true;
            }
            assert(!pair_is_mismatch(pairs_view(pairs@)[i as int]));
            i = i + 1;
        }
        false
    }
}

} // verus!
