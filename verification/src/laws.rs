//! Laws of the tokenizer and the matchers, stated and proved over the same
//! spec functions that the executable functions are verified against.

use vstd::prelude::*;

use crate::content::find_marker_from;
use crate::content::is_space;
use crate::content::lemma_find_marker_bounds;
use crate::content::lemma_find_marker_least;
use crate::content::mandatory_marker;
use crate::content::marker_at;
use crate::content::marker_token;
use crate::content::optional_marker;
use crate::content::rskip_spaces;
use crate::content::skip_spaces;
use crate::content::spec_tokenize;
use crate::content::tokens_from;
use crate::content::content_finish;
use crate::content::content_loop;
use crate::content::find_first_from;
use crate::content::find_last_before;
use crate::content::spec_match_tokens;
use crate::content::step_right;
use crate::content::lemma_find_first_bounds;
use crate::content::lemma_find_first_least;
use crate::content::lemma_rskip_le;
use crate::content::occurs_at;
use crate::content::spec_match_contents;
use crate::content::step_left;
use crate::data::pair_is_mismatch;
use crate::data::spec_contains_mismatch;
use crate::data::ElementType;
use crate::data::MatchType;
use crate::data::NodeType;
use crate::data::Token;
use crate::document::is_mandatory_rx_of;
use crate::document::rx_forest_size;
use crate::document::rx_forest_size_from;
use crate::document::rx_size;
use crate::document::Document;
use crate::document::Node;
use crate::document::Prescription;
use crate::document::RxNode;
use crate::validator::prev;
use crate::validator::rank;
use crate::validator::spec_block_matches;
use crate::validator::spec_blocks_loop;
use crate::validator::spec_consume;
use crate::validator::spec_inline_matches;
use crate::validator::spec_inlines_valid;
use crate::validator::spec_scan;
use crate::validator::spec_validate;
use crate::validator::BlockOutcome;

verus! {

/// The string form of one prompt token.
pub open spec fn token_text(t: Token) -> Seq<char> {
    match t {
        Token::Mandatory => mandatory_marker(),
        Token::Optional => optional_marker(),
        Token::Literal(s) => s,
        Token::Void => Seq::empty(),
    }
}

/// The concatenation of the string forms of a token sequence.
pub open spec fn render_tokens(toks: Seq<Token>) -> Seq<char>
    decreases toks.len(),
{
    if toks.len() == 0 {
        Seq::empty()
    } else {
        token_text(toks[0]) + render_tokens(toks.drop_first())
    }
}

/// A token sequence in the shape the tokenizer itself produces: no internal
/// sentinels, no empty literals, no two adjacent literals, and literal text
/// that cannot form or extend a prompt marker.
pub open spec fn well_formed_tokens(toks: Seq<Token>) -> bool {
    &&& (forall|i: int| 0 <= i < toks.len() ==> #[trigger] toks[i] != Token::Void)
    &&& (forall|i: int|
        0 <= i < toks.len() ==> (#[trigger] toks[i] matches Token::Literal(s) ==> s.len() > 0
            && (forall|j: int| 0 <= j < s.len() ==> s[j] != '-')))
    &&& (forall|i: int|
        0 <= i < toks.len() - 1 ==> !((#[trigger] toks[i] is Literal) && toks[i + 1] is Literal))
}

/// A token sequence that the trim pass leaves alone: its first and last
/// literal characters are not trimmed space.
pub open spec fn untrimmed_tokens(toks: Seq<Token>) -> bool {
    &&& (toks.len() > 0 ==> (toks[0] matches Token::Literal(s) ==> !is_space(s[0])))
    &&& (toks.len() > 0 ==> (toks[toks.len() - 1] matches Token::Literal(s) ==> !is_space(
        s[s.len() - 1],
    )))
}

/// The rendering of a token sequence, unfolded over its first two tokens.
proof fn lemma_render_unfold2(toks: Seq<Token>)
    requires
        toks.len() >= 2,
    ensures
        render_tokens(toks) == token_text(toks[0]) + token_text(toks[1]) + render_tokens(
            toks.skip(2),
        ),
{
    let rest = toks.drop_first();
    assert(render_tokens(toks) == token_text(toks[0]) + render_tokens(rest));
    assert(rest.len() >= 1);
    assert(rest[0] == toks[1]);
    assert(render_tokens(rest) == token_text(rest[0]) + render_tokens(rest.drop_first()));
    assert(rest.drop_first() =~= toks.skip(2));
    assert(render_tokens(rest.drop_first()) == render_tokens(toks.skip(2)));
    assert(token_text(toks[0]) + token_text(toks[1]) + render_tokens(toks.skip(2)) =~= token_text(
        toks[0],
    ) + (token_text(toks[1]) + render_tokens(toks.skip(2))));
}

/// Tokenizing the region of `s` that holds the rendering of a well-formed
/// token sequence yields that sequence back.
proof fn lemma_tokens_from_render(s: Seq<char>, i: int, end: int, toks: Seq<Token>)
    requires
        0 <= i <= end <= s.len(),
        s.subrange(i, end) == render_tokens(toks),
        well_formed_tokens(toks),
    ensures
        tokens_from(s, i, end) == toks,
    decreases toks.len(),
{
    if toks.len() == 0 {
        assert(render_tokens(toks).len() == 0);
        assert(end - i == 0);
        assert(tokens_from(s, i, end) =~= toks);
    } else {
        let t0 = toks[0];
        let rest = toks.drop_first();
        assert(render_tokens(toks) == token_text(t0) + render_tokens(rest));
        let tl: int = token_text(t0).len() as int;
        assert(end - i == render_tokens(toks).len());
        assert forall|k: int| 0 <= k < end - i implies s[i + k] == render_tokens(toks)[k] by {
            assert(s.subrange(i, end)[k] == s[i + k]);
        }
        match t0 {
            Token::Void => {
                assert(false);
            },
            Token::Mandatory => {
                lemma_render_marker_head(s, i, end, toks, mandatory_marker());
                assert(marker_token(s, i) == Token::Mandatory) by {
                    assert(s.subrange(i, i + 4) =~= mandatory_marker());
                }
                assert(tokens_from(s, i, end) =~= seq![Token::Mandatory] + tokens_from(
                    s,
                    i + 4,
                    end,
                ));
                assert(s.subrange(i + 4, end) =~= render_tokens(rest)) by {
                    assert forall|k: int| 0 <= k < end - i - 4 implies s[i + 4 + k]
                        == render_tokens(rest)[k] by {
                        assert(render_tokens(toks)[4 + k] == render_tokens(rest)[k]);
                    }
                }
                lemma_tokens_from_render(s, i + 4, end, rest);
                assert(seq![Token::Mandatory] + rest =~= toks);
            },
            Token::Optional => {
                lemma_render_marker_head(s, i, end, toks, optional_marker());
                assert(marker_token(s, i) == Token::Optional) by {
                    assert(s.subrange(i, i + 4) =~= optional_marker());
                    assert(s.subrange(i, i + 4)[1] == '?');
                    assert(mandatory_marker()[1] == '!');
                }
                assert(tokens_from(s, i, end) =~= seq![Token::Optional] + tokens_from(
                    s,
                    i + 4,
                    end,
                ));
                assert(s.subrange(i + 4, end) =~= render_tokens(rest)) by {
                    assert forall|k: int| 0 <= k < end - i - 4 implies s[i + 4 + k]
                        == render_tokens(rest)[k] by {
                        assert(render_tokens(toks)[4 + k] == render_tokens(rest)[k]);
                    }
                }
                lemma_tokens_from_render(s, i + 4, end, rest);
                assert(seq![Token::Optional] + rest =~= toks);
            },
            Token::Literal(t) => {
                assert forall|k: int| 0 <= k < t.len() implies s[i + k] == t[k] by {
                    assert(render_tokens(toks)[k] == (token_text(t0) + render_tokens(rest))[k]);
                }
                if toks.len() == 1 {
                    assert(render_tokens(rest).len() == 0);
                    assert(end == i + tl);
                    assert(find_marker_from(s, i, end) is None) by {
                        lemma_find_marker_bounds(s, i, end);
                        match find_marker_from(s, i, end) {
                            Option::None => {},
                            Option::Some(m) => {
                                assert(s.subrange(m, m + 4)[0] == s[m]);
                                assert(s[m] == t[m - i]);
                                assert(mandatory_marker()[0] == '-' && optional_marker()[0]
                                    == '-');
                            },
                        }
                    }
                    assert(s.subrange(i, end) =~= t);
                    assert(tokens_from(s, i, end) =~= toks);
                } else {
                    let t1 = toks[1];
                    assert(rest[0] == t1);
                    assert(!(t1 is Literal));
                    assert(t1 != Token::Void);
                    lemma_render_unfold2(toks);
                    let mk: Seq<char> = token_text(t1);
                    assert(mk == mandatory_marker() || mk == optional_marker());
                    assert(mk.len() == 4);
                    assert(end - i >= tl + 4) by {
                        assert(render_tokens(toks).len() >= token_text(t0).len() + token_text(
                            t1,
                        ).len());
                    }
                    assert forall|k: int| 0 <= k < 4 implies s[i + tl + k] == mk[k] by {
                        assert(render_tokens(toks)[tl + k] == (token_text(t0) + token_text(t1)
                            + render_tokens(toks.skip(2)))[tl + k]);
                    }
                    assert(marker_at(s, i + tl, end)) by {
                        assert(s.subrange(i + tl, i + tl + 4) =~= mk);
                    }
                    lemma_find_marker_least(s, i, end, i + tl);
                    lemma_find_marker_bounds(s, i, end);
                    let m = find_marker_from(s, i, end)->Some_0;
                    assert(i <= m <= i + tl);
                    assert(m == i + tl) by {
                        if m < i + tl {
                            assert(s.subrange(m, m + 4)[0] == s[m]);
                            assert(s[m] == t[m - i]);
                            assert(mandatory_marker()[0] == '-' && optional_marker()[0] == '-');
                        }
                    }
                    assert(s.subrange(i, m) =~= t);
                    assert(marker_token(s, m) == t1) by {
                        assert(s.subrange(m, m + 4) =~= mk);
                        if t1 == Token::Optional {
                            assert(s.subrange(m, m + 4)[1] == '?');
                            assert(mandatory_marker()[1] == '!');
                        }
                    }
                    assert(s.subrange(m + 4, end) =~= render_tokens(toks.skip(2))) by {
                        assert forall|k: int| 0 <= k < end - m - 4 implies s[m + 4 + k]
                            == render_tokens(toks.skip(2))[k] by {
                            assert(render_tokens(toks)[tl + 4 + k] == (token_text(t0) + token_text(
                                t1,
                            ) + render_tokens(toks.skip(2)))[tl + 4 + k]);
                        }
                    }
                    assert(well_formed_tokens(toks.skip(2))) by {
                        assert forall|k: int| 0 <= k < toks.skip(2).len() implies toks.skip(2)[k]
                            == toks[k + 2] by {}
                    }
                    lemma_tokens_from_render(s, m + 4, end, toks.skip(2));
                    assert(tokens_from(s, i, end) =~= seq![Token::Literal(t), t1] + toks.skip(2));
                    assert(seq![Token::Literal(t), t1] + toks.skip(2) =~= toks);
                }
            },
        }
    }
}

/// When a token sequence opens with a marker token, that marker is the first
/// one found in its rendering.
proof fn lemma_render_marker_head(s: Seq<char>, i: int, end: int, toks: Seq<Token>, mk: Seq<char>)
    requires
        0 <= i <= end <= s.len(),
        s.subrange(i, end) == render_tokens(toks),
        toks.len() > 0,
        token_text(toks[0]) == mk,
        mk == mandatory_marker() || mk == optional_marker(),
    ensures
        find_marker_from(s, i, end) == Option::Some(i),
        end - i >= 4,
        s.subrange(i, i + 4) =~= mk,
{
    assert(render_tokens(toks) == token_text(toks[0]) + render_tokens(toks.drop_first()));
    assert(end - i >= 4);
    assert forall|k: int| 0 <= k < 4 implies s[i + k] == mk[k] by {
        assert(s.subrange(i, end)[k] == s[i + k]);
        assert(render_tokens(toks)[k] == (token_text(toks[0]) + render_tokens(
            toks.drop_first(),
        ))[k]);
    }
    assert(s.subrange(i, i + 4) =~= mk);
    assert(marker_at(s, i, end));
    lemma_find_marker_least(s, i, end, i);
    lemma_find_marker_bounds(s, i, end);
}

/// Tokenizer round trip: concatenating the string forms of a sequence of
/// prompt tokens and tokenizing the result yields the sequence back, for any
/// sequence in the shape the tokenizer itself can produce: no internal
/// sentinels, no empty or adjacent literals, literal text free of the marker
/// delimiter, and no trimmed space at either end.
pub proof fn lemma_tokenize_round_trip(toks: Seq<Token>)
    requires
        well_formed_tokens(toks),
        untrimmed_tokens(toks),
    ensures
        spec_tokenize(render_tokens(toks)) == toks,
{
    let s = render_tokens(toks);
    if toks.len() == 0 {
        assert(s.len() == 0);
        assert(spec_tokenize(s) =~= toks);
    } else {
        assert(s == token_text(toks[0]) + render_tokens(toks.drop_first()));
        assert(token_text(toks[0]).len() > 0);
        assert(s[0] == token_text(toks[0])[0]);
        assert(!is_space(s[0])) by {
            match toks[0] {
                Token::Literal(t) => {},
                _ => {
                    assert(s[0] == '-');
                },
            }
        }
        assert(skip_spaces(s, 0) == 0);
        lemma_render_last(toks);
        assert(!is_space(s[s.len() - 1])) by {
            match toks[toks.len() - 1] {
                Token::Literal(t) => {},
                _ => {
                    assert(token_text(toks[toks.len() - 1]).last() == '-');
                },
            }
        }
        assert(rskip_spaces(s, s.len() as int) == s.len());
        assert(s.subrange(0, s.len() as int) =~= s);
        lemma_tokens_from_render(s, 0, s.len() as int, toks);
    }
}

/// The rendering of a non-empty well-formed token sequence is non-empty and
/// ends with the last character of its last token's string form.
proof fn lemma_render_last(toks: Seq<Token>)
    requires
        toks.len() > 0,
        forall|i: int|
            0 <= i < toks.len() ==> (#[trigger] toks[i] matches Token::Literal(s) ==> s.len() > 0),
        forall|i: int| 0 <= i < toks.len() ==> #[trigger] toks[i] != Token::Void,
    ensures
        render_tokens(toks).len() > 0,
        render_tokens(toks).last() == token_text(toks.last()).last(),
    decreases toks.len(),
{
    assert(token_text(toks[0]).len() > 0);
    if toks.len() == 1 {
        assert(render_tokens(toks.drop_first()).len() == 0);
        assert(render_tokens(toks) =~= token_text(toks[0]));
    } else {
        let rest = toks.drop_first();
        assert(forall|i: int|
            0 <= i < rest.len() ==> (#[trigger] rest[i] matches Token::Literal(s) ==> s.len()
                > 0));
        assert(forall|i: int| 0 <= i < rest.len() ==> #[trigger] rest[i] != Token::Void);
        lemma_render_last(rest);
        assert(rest.last() == toks.last());
        assert(render_tokens(toks).last() == render_tokens(rest).last());
    }
}


/// A content string free of prompt markers.
pub open spec fn marker_free(s: Seq<char>) -> bool {
    forall|p: int| !marker_at(s, p, s.len() as int)
}

/// Matching a marker-free content string against itself as prescription
/// content produces no mismatch.
pub proof fn lemma_identity_content(c: Seq<char>)
    requires
        marker_free(c),
    ensures
        !spec_contains_mismatch(spec_match_contents(c, c)),
{
    let n: int = c.len() as int;
    let a = skip_spaces(c, 0);
    let b = rskip_spaces(c, n);
    crate::content::lemma_skip_spaces_le(c, 0);
    lemma_rskip_le(c, n);
    let toks = spec_tokenize(c);
    let e: Seq<(Token, Option<Seq<char>>)> = Seq::empty();
    if 0 <= a < b <= n {
        assert(find_marker_from(c, a, b) is None) by {
            lemma_find_marker_bounds(c, a, b);
            match find_marker_from(c, a, b) {
                Option::None => {},
                Option::Some(m) => {
                    assert(marker_at(c, m, b));
                    assert(marker_at(c, m, n));
                },
            }
        }
        let t = c.subrange(a, b);
        assert(toks =~= seq![Token::Literal(t)]);
        assert(occurs_at(c, a, t));
        lemma_find_first_least(c, 0, n, t, a);
        lemma_find_first_bounds(c, 0, n, t);
        let p = find_first_from(c, 0, n, t)->Some_0;
        let (stack2, lo2) = step_left(c, 0, n, toks[0], e);
        assert(content_loop(c, toks, 0, n, 0, 1, e, e, true) == content_loop(
            c,
            toks,
            lo2,
            n,
            1,
            1,
            stack2,
            e,
            false,
        ));
        let pairs = spec_match_contents(c, c);
        assert(pairs == content_finish(c, lo2, n, stack2, e));
        assert(pairs == stack2 + e);
        assert(pairs =~= stack2);
        assert forall|i: int| 0 <= i < pairs.len() implies !pair_is_mismatch(pairs[i]) by {
            if p > 0 {
                assert(stack2 =~= seq![
                    (Token::Void, Option::Some(c.subrange(0, p))),
                    (Token::Literal(t), Option::Some(c.subrange(p, p + t.len()))),
                ]);
            } else {
                assert(stack2 =~= seq![
                    (Token::Literal(t), Option::Some(c.subrange(p, p + t.len()))),
                ]);
            }
        }
    } else {
        assert(toks =~= Seq::<Token>::empty());
        assert(content_loop(c, toks, 0, n, 0, 0, e, e, true) == (e, e, 0int, n));
        let pairs = spec_match_contents(c, c);
        assert(pairs == content_finish(c, 0, n, e, e));
        assert(pairs =~= e + e);
        assert(pairs.len() == 0);
    }
}

/// A well-formed inline subtree whose text is free of prompt markers: inline
/// containers hold inline children, and content, url and title never spell a
/// marker.
pub open spec fn inline_identity_wf(n: Node) -> bool
    decreases n,
{
    &&& marker_free(n.content@)
    &&& marker_free(n.url@)
    &&& marker_free(n.title@)
    &&& match ElementType::spec_determine(n.node_type) {
        ElementType::InlineContainer => forall|i: int|
            0 <= i < n.children@.len() ==> inline_identity_wf(#[trigger] n.children@[i]),
        ElementType::InlineLeaf => true,
        _ => false,
    }
}

/// A well-formed block subtree whose text is free of prompt markers: block
/// containers hold blocks, leaf blocks hold inlines, and no text spells a
/// marker.
pub open spec fn block_identity_wf(n: Node) -> bool
    decreases n,
{
    &&& marker_free(n.content@)
    &&& match ElementType::spec_determine(n.node_type) {
        ElementType::ContainerBlock => forall|i: int|
            0 <= i < n.children@.len() ==> block_identity_wf(#[trigger] n.children@[i]),
        ElementType::LeafBlock => forall|i: int|
            0 <= i < n.children@.len() ==> inline_identity_wf(#[trigger] n.children@[i]),
        _ => false,
    }
}

/// Every marker-free inline node satisfies its own mandatory prescription
/// image.
proof fn lemma_identity_inline_matches(node: Node, rx: RxNode)
    requires
        is_mandatory_rx_of(rx, node),
        inline_identity_wf(node),
    ensures
        spec_inline_matches(node, rx),
    decreases rx_size(rx), 0nat, 0nat,
{
    match ElementType::spec_determine(rx.node_type) {
        ElementType::InlineLeaf => {
            lemma_identity_content(node.content@);
            if rx.node_type == NodeType::Link {
                lemma_identity_content(node.url@);
                lemma_identity_content(node.title@);
            }
        },
        ElementType::InlineContainer => {
            lemma_identity_inlines(rx.children, node.children, 0);
        },
        _ => {},
    }
}

/// Every marker-free inline sibling list satisfies its own mandatory
/// prescription image, position by position.
proof fn lemma_identity_inlines(rxs: Vec<RxNode>, nodes: Vec<Node>, i: int)
    requires
        rxs@.len() == nodes@.len(),
        forall|j: int|
            0 <= j < nodes@.len() ==> is_mandatory_rx_of(#[trigger] rxs@[j], nodes@[j]),
        forall|j: int| 0 <= j < nodes@.len() ==> inline_identity_wf(#[trigger] nodes@[j]),
        0 <= i,
    ensures
        spec_inlines_valid(rxs, nodes, i),
    decreases rx_forest_size_from(rxs, i), 1nat, 0nat,
{
    if i < rxs@.len() {
        lemma_identity_inline_matches(nodes@[i], rxs@[i]);
        lemma_identity_inlines(rxs, nodes, i + 1);
    }
}

/// A scan that starts at or after a matching stop node finds a match at or
/// after the stop node, and no further than where it started.
proof fn lemma_scan_finds(rxs: Vec<RxNode>, nodes: Vec<Node>, r: int, from: int, stop: int)
    requires
        0 <= r < rxs@.len(),
        0 <= stop <= from < nodes@.len(),
        spec_block_matches(nodes@[stop], rxs@[r]),
    ensures
        stop <= spec_scan(rxs, nodes, r, from, stop) <= from,
    decreases from - stop,
{
    if !spec_block_matches(nodes@[from], rxs@[r]) {
        lemma_scan_finds(rxs, nodes, r, from - 1, stop);
    }
}

/// Every marker-free block node satisfies its own mandatory prescription
/// image.
proof fn lemma_identity_block_matches(node: Node, rx: RxNode)
    requires
        is_mandatory_rx_of(rx, node),
        block_identity_wf(node),
    ensures
        spec_block_matches(node, rx),
    decreases rx_size(rx), 0nat, 0nat,
{
    match ElementType::spec_determine(rx.node_type) {
        ElementType::ContainerBlock => {
            lemma_identity_blocks(rx.children, node.children, node.children@.len() - 1, node.children@.len() - 1);
        },
        ElementType::LeafBlock => {
            lemma_identity_inlines(rx.children, node.children, 0);
        },
        _ => {},
    }
}

/// The sibling matching loop succeeds on a marker-free sibling list matched
/// against its own mandatory prescription image, whenever both cursors stand
/// at the same place and the bookmark at or to the right of them.
proof fn lemma_identity_blocks(rxs: Vec<RxNode>, nodes: Vec<Node>, k: int, bk: int)
    requires
        rxs@.len() == nodes@.len(),
        forall|j: int|
            0 <= j < nodes@.len() ==> is_mandatory_rx_of(#[trigger] rxs@[j], nodes@[j]),
        forall|j: int| 0 <= j < nodes@.len() ==> block_identity_wf(#[trigger] nodes@[j]),
        -1 <= k < nodes@.len(),
        k <= bk < nodes@.len(),
        -1 <= bk,
    ensures
        spec_blocks_loop(rxs, nodes, k, k, bk),
    decreases rx_forest_size(rxs), 1nat, (k + 1) as nat,
{
    if k >= 0 {
        assert(rxs@[k].match_type == MatchType::Mandatory);
        crate::document::lemma_rx_size_le_forest(rxs, k);
        lemma_identity_block_matches(nodes@[k], rxs@[k]);
        lemma_scan_finds(rxs, nodes, k, bk, k);
        let m = spec_scan(rxs, nodes, k, bk, k);
        assert(spec_consume(rxs, nodes, k, k, bk) == (BlockOutcome::Next {
            r: prev(k),
            n: prev(k),
            b: prev(m),
        }));
        lemma_identity_blocks(rxs, nodes, k - 1, prev(m));
        assert(prev(k) == k - 1);
        assert(rank(k - 1) < rank(k));
    }
}

/// Identity: a document whose text holds no prompt markers conforms to
/// itself read as a prescription, with every node mandatory and nothing a
/// wildcard.
pub proof fn lemma_identity_validation(p: Prescription, d: Document)
    requires
        is_mandatory_rx_of(p.root, d.root),
        block_identity_wf(d.root),
        ElementType::spec_determine(d.root.node_type) == ElementType::ContainerBlock,
    ensures
        spec_validate(p, d),
{
    lemma_identity_blocks(
        p.root.children,
        d.root.children,
        d.root.children@.len() - 1,
        d.root.children@.len() - 1,
    );
}


/// The position in the substituted document where the text standing for
/// token `i` begins: the total length of the earlier substitutions.
pub open spec fn subs_pos(subs: Seq<Seq<char>>, i: int) -> int
    decreases i,
{
    if i <= 0 {
        0
    } else {
        subs_pos(subs, i - 1) + subs[i - 1].len()
    }
}

/// The document produced by substituting text for each token.
pub open spec fn concat_subs(subs: Seq<Seq<char>>) -> Seq<char>
    decreases subs.len(),
{
    if subs.len() == 0 {
        Seq::empty()
    } else {
        subs[0] + concat_subs(subs.drop_first())
    }
}

/// Whether `subs` substitutes validly into `toks`: literals stand for
/// themselves, mandatory prompts for non-empty text, optional prompts for
/// any text.
pub open spec fn valid_substitution(toks: Seq<Token>, subs: Seq<Seq<char>>) -> bool {
    &&& subs.len() == toks.len()
    &&& (forall|i: int|
        0 <= i < toks.len() ==> match #[trigger] toks[i] {
            Token::Literal(t) => subs[i] == t,
            Token::Mandatory => subs[i].len() >= 1,
            Token::Optional => true,
            Token::Void => false,
        })
}

/// Substitution positions never run backwards.
proof fn lemma_pos_mono(subs: Seq<Seq<char>>, i: int, j: int)
    requires
        0 <= i <= j,
    ensures
        subs_pos(subs, i) <= subs_pos(subs, j),
    decreases j - i,
{
    if i < j {
        lemma_pos_mono(subs, i, j - 1);
    }
}

/// Substitution positions shift by the first substitution's length when the
/// first substitution is dropped.
proof fn lemma_pos_shift(subs: Seq<Seq<char>>, i: int)
    requires
        1 <= i <= subs.len(),
    ensures
        subs_pos(subs, i) == subs[0].len() + subs_pos(subs.drop_first(), i - 1),
    decreases i,
{
    if i == 1 {
        assert(subs_pos(subs, 1) == subs_pos(subs, 0) + subs[0].len());
        assert(subs_pos(subs, 0) == 0);
        assert(subs_pos(subs.drop_first(), 0) == 0);
    } else {
        lemma_pos_shift(subs, i - 1);
        assert(subs.drop_first()[i - 2] == subs[i - 1]);
        assert(subs_pos(subs, i) == subs_pos(subs, i - 1) + subs[i - 1].len());
        assert(subs_pos(subs.drop_first(), i - 1) == subs_pos(subs.drop_first(), i - 2)
            + subs.drop_first()[i - 2].len());
    }
}

/// The substituted document is as long as the last substitution position.
proof fn lemma_concat_len(subs: Seq<Seq<char>>)
    ensures
        concat_subs(subs).len() == subs_pos(subs, subs.len() as int),
    decreases subs.len(),
{
    if subs.len() > 0 {
        lemma_concat_len(subs.drop_first());
        lemma_pos_shift(subs, subs.len() as int);
    }
}

/// Each substitution occupies its own span of the substituted document.
proof fn lemma_concat_sub(subs: Seq<Seq<char>>, i: int)
    requires
        0 <= i < subs.len(),
    ensures
        0 <= subs_pos(subs, i),
        subs_pos(subs, i + 1) == subs_pos(subs, i) + subs[i].len(),
        subs_pos(subs, i + 1) <= concat_subs(subs).len(),
        concat_subs(subs).subrange(subs_pos(subs, i), subs_pos(subs, i + 1)) == subs[i],
    decreases i,
{
    lemma_pos_mono(subs, 0, i);
    lemma_concat_len(subs);
    lemma_pos_mono(subs, i + 1, subs.len() as int);
    if i == 0 {
        assert(concat_subs(subs) == subs[0] + concat_subs(subs.drop_first()));
        assert(concat_subs(subs).subrange(0, subs[0].len() as int) =~= subs[0]);
    } else {
        lemma_concat_sub(subs.drop_first(), i - 1);
        lemma_pos_shift(subs, i);
        lemma_pos_shift(subs, i + 1);
        assert(subs.drop_first()[i - 1] == subs[i]);
        let rest = concat_subs(subs.drop_first());
        let l0: int = subs[0].len() as int;
        assert(concat_subs(subs) == subs[0] + rest);
        let x = subs_pos(subs.drop_first(), i - 1);
        let y = subs_pos(subs.drop_first(), i);
        assert(rest.subrange(x, y) == subs[i]);
        assert(concat_subs(subs).subrange(l0 + x, l0 + y) =~= rest.subrange(x, y));
    }
}

/// Pushing a pair adds exactly its own possible mismatch.
proof fn lemma_mismatch_push(stack: Seq<(Token, Option<Seq<char>>)>, p: (Token, Option<Seq<char>>))
    ensures
        spec_contains_mismatch(stack.push(p)) == (spec_contains_mismatch(stack)
            || pair_is_mismatch(p)),
{
    if spec_contains_mismatch(stack) {
        let i = choose|i: int| 0 <= i < stack.len() && pair_is_mismatch(stack[i]);
        assert(stack.push(p)[i] == stack[i]);
    }
    if pair_is_mismatch(p) {
        assert(stack.push(p)[stack.len() as int] == p);
    }
    if spec_contains_mismatch(stack.push(p)) {
        let i = choose|i: int| 0 <= i < stack.push(p).len() && pair_is_mismatch(stack.push(p)[i]);
        if i < stack.len() {
            assert(stack[i] == stack.push(p)[i]);
        }
    }
}

/// A concatenation holds a mismatch exactly when one part does.
proof fn lemma_mismatch_concat(a: Seq<(Token, Option<Seq<char>>)>, b: Seq<(Token, Option<Seq<char>>)>)
    ensures
        spec_contains_mismatch(a + b) == (spec_contains_mismatch(a) || spec_contains_mismatch(b)),
{
    if spec_contains_mismatch(a) {
        let i = choose|i: int| 0 <= i < a.len() && pair_is_mismatch(a[i]);
        assert((a + b)[i] == a[i]);
    }
    if spec_contains_mismatch(b) {
        let i = choose|i: int| 0 <= i < b.len() && pair_is_mismatch(b[i]);
        assert((a + b)[a.len() + i] == b[i]);
    }
    if spec_contains_mismatch(a + b) {
        let i = choose|i: int| 0 <= i < (a + b).len() && pair_is_mismatch((a + b)[i]);
        if i < a.len() {
            assert(a[i] == (a + b)[i]);
        } else {
            assert(b[i - a.len()] == (a + b)[i]);
        }
    }
}

/// The matching loop, run on a document produced by valid substitution into
/// the tokens, never pushes a mismatch: the substituted spans of the still
/// unprocessed tokens always lie inside the unconsumed window.
proof fn lemma_soundness_loop(
    toks: Seq<Token>,
    subs: Seq<Seq<char>>,
    lo: int,
    hi: int,
    pl: int,
    ph: int,
    left: Seq<(Token, Option<Seq<char>>)>,
    right: Seq<(Token, Option<Seq<char>>)>,
    from_left: bool,
)
    requires
        valid_substitution(toks, subs),
        0 <= pl <= ph <= toks.len(),
        0 <= lo <= subs_pos(subs, pl),
        subs_pos(subs, ph) <= hi <= concat_subs(subs).len(),
        !spec_contains_mismatch(left),
        !spec_contains_mismatch(right),
    ensures
        ({
            let (l2, r2, lo2, hi2) = content_loop(
                concat_subs(subs),
                toks,
                lo,
                hi,
                pl,
                ph,
                left,
                right,
                from_left,
            );
            !spec_contains_mismatch(l2) && !spec_contains_mismatch(r2) && lo2 <= hi2
        }),
    decreases ph - pl,
{
    let doc = concat_subs(subs);
    lemma_pos_mono(subs, pl, ph);
    if pl >= ph {
        assert(lo <= hi);
    } else if from_left {
        let tok = toks[pl];
        let (stack, lo2) = step_left(doc, lo, hi, tok, left);
        match tok {
            Token::Void => {
                assert(false);
            },
            Token::Mandatory => {
                lemma_concat_sub(subs, pl);
                lemma_pos_mono(subs, pl + 1, ph);
                assert(lo < hi);
                lemma_mismatch_push(left, (Token::Mandatory, Option::Some(doc.subrange(lo, lo + 1))));
                lemma_soundness_loop(toks, subs, lo + 1, hi, pl + 1, ph, stack, right, false);
            },
            Token::Optional => {
                lemma_pos_mono(subs, pl, pl + 1);
                lemma_mismatch_push(left, (Token::Optional, Option::None));
                lemma_soundness_loop(toks, subs, lo, hi, pl + 1, ph, stack, right, false);
            },
            Token::Literal(t) => {
                lemma_concat_sub(subs, pl);
                lemma_pos_mono(subs, pl + 1, ph);
                assert(occurs_at(doc, subs_pos(subs, pl), t));
                lemma_find_first_least(doc, lo, hi, t, subs_pos(subs, pl));
                lemma_find_first_bounds(doc, lo, hi, t);
                let p = find_first_from(doc, lo, hi, t)->Some_0;
                let pushed = if p > lo && crate::content::preface_kept(left) {
                    left.push((Token::Void, Option::Some(doc.subrange(lo, p))))
                } else {
                    left
                };
                lemma_mismatch_push(left, (Token::Void, Option::Some(doc.subrange(lo, p))));
                lemma_mismatch_push(
                    pushed,
                    (Token::Literal(t), Option::Some(doc.subrange(p, p + t.len()))),
                );
                lemma_soundness_loop(
                    toks,
                    subs,
                    p + t.len(),
                    hi,
                    pl + 1,
                    ph,
                    stack,
                    right,
                    false,
                );
            },
        }
    } else {
        let tok = toks[ph - 1];
        let (stack, hi2) = step_right(doc, lo, hi, tok, right);
        match tok {
            Token::Void => {
                assert(false);
            },
            Token::Mandatory => {
                lemma_concat_sub(subs, ph - 1);
                lemma_pos_mono(subs, pl, ph - 1);
                assert(lo < hi);
                lemma_mismatch_push(
                    right,
                    (Token::Mandatory, Option::Some(doc.subrange(hi - 1, hi))),
                );
                lemma_soundness_loop(toks, subs, lo, hi - 1, pl, ph - 1, left, stack, true);
            },
            Token::Optional => {
                lemma_pos_mono(subs, ph - 1, ph);
                lemma_mismatch_push(right, (Token::Optional, Option::None));
                lemma_soundness_loop(toks, subs, lo, hi, pl, ph - 1, left, stack, true);
            },
            Token::Literal(t) => {
                lemma_concat_sub(subs, ph - 1);
                lemma_pos_mono(subs, pl, ph - 1);
                assert(occurs_at(doc, subs_pos(subs, ph - 1), t));
                crate::content::lemma_find_last_greatest(doc, lo, hi, t, subs_pos(subs, ph - 1));
                crate::content::lemma_find_last_bounds(doc, lo, hi, t);
                let p = find_last_before(doc, lo, hi, t)->Some_0;
                let pushed = if p + t.len() < hi && crate::content::preface_kept(right) {
                    right.push((Token::Void, Option::Some(doc.subrange(p + t.len(), hi))))
                } else {
                    right
                };
                lemma_mismatch_push(
                    right,
                    (Token::Void, Option::Some(doc.subrange(p + t.len(), hi))),
                );
                lemma_mismatch_push(
                    pushed,
                    (Token::Literal(t), Option::Some(doc.subrange(p, p + t.len()))),
                );
                lemma_soundness_loop(toks, subs, lo, p, pl, ph - 1, left, stack, true);
            },
        }
    }
}

/// Content match soundness: a document produced by substituting text for
/// each prompt token of a prescription, non-empty for mandatory prompts,
/// matches the tokens without a mismatch.
pub proof fn lemma_content_match_soundness(toks: Seq<Token>, subs: Seq<Seq<char>>)
    requires
        valid_substitution(toks, subs),
    ensures
        !spec_contains_mismatch(spec_match_tokens(concat_subs(subs), toks)),
{
    let doc = concat_subs(subs);
    let e: Seq<(Token, Option<Seq<char>>)> = Seq::empty();
    lemma_concat_len(subs);
    lemma_pos_mono(subs, 0, toks.len() as int);
    lemma_soundness_loop(toks, subs, 0, doc.len() as int, 0, toks.len() as int, e, e, true);
    let (l2, r2, lo2, hi2) = content_loop(
        doc,
        toks,
        0,
        doc.len() as int,
        0,
        toks.len() as int,
        e,
        e,
        true,
    );
    let fin = content_finish(doc, lo2, hi2, l2, r2);
    if lo2 < hi2 && l2.len() > 0 && (l2.last() matches (Token::Literal(_), _)) && r2.len() > 0
        && (r2.last() matches (Token::Literal(_), _)) {
        lemma_mismatch_push(l2, (Token::Void, Option::Some(doc.subrange(lo2, hi2))));
        lemma_mismatch_concat(l2.push((Token::Void, Option::Some(doc.subrange(lo2, hi2)))), r2);
    } else {
        lemma_mismatch_concat(l2, r2);
    }
}

/// Content match soundness, against a prescription content string: if the
/// document content is produced by substituting into the prescription
/// content's tokens, matching the two strings reports no mismatch.
pub proof fn lemma_content_match_soundness_for(rx: Seq<char>, subs: Seq<Seq<char>>)
    requires
        valid_substitution(spec_tokenize(rx), subs),
    ensures
        !spec_contains_mismatch(spec_match_contents(concat_subs(subs), rx)),
{
    lemma_content_match_soundness(spec_tokenize(rx), subs);
}


/// The least document text a token can be matched against without a
/// mismatch: its own text for a literal, one character for a mandatory
/// prompt, nothing for an optional prompt.
pub open spec fn token_need(t: Token) -> int {
    match t {
        Token::Literal(s) => s.len() as int,
        Token::Mandatory => 1,
        _ => 0,
    }
}

/// The least document text the tokens `pl .. ph` can be matched against
/// without a mismatch.
pub open spec fn min_need(toks: Seq<Token>, pl: int, ph: int) -> int
    decreases ph - pl,
{
    if pl < ph {
        token_need(toks[pl]) + min_need(toks, pl + 1, ph)
    } else {
        0
    }
}

/// The least need, taken apart at its right end.
proof fn lemma_min_need_right(toks: Seq<Token>, pl: int, ph: int)
    requires
        pl < ph,
    ensures
        min_need(toks, pl, ph) == min_need(toks, pl, ph - 1) + token_need(toks[ph - 1]),
    decreases ph - pl,
{
    assert(min_need(toks, pl, ph) == token_need(toks[pl]) + min_need(toks, pl + 1, ph));
    if pl < ph - 1 {
        lemma_min_need_right(toks, pl + 1, ph);
        assert(min_need(toks, pl, ph - 1) == token_need(toks[pl]) + min_need(toks, pl + 1, ph - 1));
    } else {
        assert(min_need(toks, pl + 1, ph) == 0);
        assert(min_need(toks, pl, ph - 1) == 0);
    }
}

/// The matching loop only pushes onto the two stacks: what is on them when
/// it starts is still there, in place, when it ends.
proof fn lemma_loop_extends(
    doc: Seq<char>,
    toks: Seq<Token>,
    lo: int,
    hi: int,
    pl: int,
    ph: int,
    left: Seq<(Token, Option<Seq<char>>)>,
    right: Seq<(Token, Option<Seq<char>>)>,
    from_left: bool,
)
    ensures
        ({
            let (l2, r2, lo2, hi2) = content_loop(doc, toks, lo, hi, pl, ph, left, right, from_left);
            left.is_prefix_of(l2) && right.is_prefix_of(r2)
        }),
    decreases ph - pl,
{
    let (l2, r2, lo2, hi2) = content_loop(doc, toks, lo, hi, pl, ph, left, right, from_left);
    if pl < ph {
        if from_left {
            let (stack, lo_2) = step_left(doc, lo, hi, toks[pl], left);
            lemma_loop_extends(doc, toks, lo_2, hi, pl + 1, ph, stack, right, false);
            assert(left.is_prefix_of(stack)) by {
                lemma_step_stack_extends(left, stack, doc, lo, hi, toks[pl], true);
            }
            lemma_prefix_trans(left, stack, l2);
        } else {
            let (stack, hi_2) = step_right(doc, lo, hi, toks[ph - 1], right);
            lemma_loop_extends(doc, toks, lo, hi_2, pl, ph - 1, left, stack, true);
            assert(right.is_prefix_of(stack)) by {
                lemma_step_stack_extends(right, stack, doc, lo, hi, toks[ph - 1], false);
            }
            lemma_prefix_trans(right, stack, r2);
        }
    } else {
        assert(left.is_prefix_of(l2)) by {
            assert(l2.subrange(0, left.len() as int) =~= left);
        }
        assert(right.is_prefix_of(r2)) by {
            assert(r2.subrange(0, right.len() as int) =~= right);
        }
    }
}

/// One matching step leaves the stack it pushes onto as a prefix of the
/// result.
proof fn lemma_step_stack_extends(
    stack: Seq<(Token, Option<Seq<char>>)>,
    stack2: Seq<(Token, Option<Seq<char>>)>,
    doc: Seq<char>,
    lo: int,
    hi: int,
    tok: Token,
    left_side: bool,
)
    requires
        left_side ==> stack2 == step_left(doc, lo, hi, tok, stack).0,
        !left_side ==> stack2 == step_right(doc, lo, hi, tok, stack).0,
    ensures
        stack.is_prefix_of(stack2),
{
    lemma_push_prefix(stack);
}

/// A stack is a prefix of itself and of anything pushed onto it, once or
/// twice.
proof fn lemma_push_prefix(stack: Seq<(Token, Option<Seq<char>>)>)
    ensures
        forall|p: (Token, Option<Seq<char>>)| stack.is_prefix_of(#[trigger] stack.push(p)),
        forall|p: (Token, Option<Seq<char>>), q: (Token, Option<Seq<char>>)|
            stack.is_prefix_of(#[trigger] stack.push(p).push(q)),
        stack.is_prefix_of(stack),
{
    assert forall|p: (Token, Option<Seq<char>>)| stack.is_prefix_of(#[trigger] stack.push(p)) by {
        assert(stack.push(p).subrange(0, stack.len() as int) =~= stack);
    }
    assert forall|p: (Token, Option<Seq<char>>), q: (Token, Option<Seq<char>>)|
        stack.is_prefix_of(#[trigger] stack.push(p).push(q)) by {
        assert(stack.push(p).push(q).subrange(0, stack.len() as int) =~= stack);
    }
    assert(stack.subrange(0, stack.len() as int) =~= stack);
}

/// Prefixes compose.
proof fn lemma_prefix_trans(
    a: Seq<(Token, Option<Seq<char>>)>,
    b: Seq<(Token, Option<Seq<char>>)>,
    c: Seq<(Token, Option<Seq<char>>)>,
)
    requires
        a.is_prefix_of(b),
        b.is_prefix_of(c),
    ensures
        a.is_prefix_of(c),
{
    assert(c.subrange(0, a.len() as int) =~= b.subrange(0, a.len() as int));
}

/// A mismatch on a prefix stays a mismatch on the whole.
proof fn lemma_mismatch_prefix(
    a: Seq<(Token, Option<Seq<char>>)>,
    b: Seq<(Token, Option<Seq<char>>)>,
)
    requires
        a.is_prefix_of(b),
        spec_contains_mismatch(a),
    ensures
        spec_contains_mismatch(b),
{
    let i = choose|i: int| 0 <= i < a.len() && pair_is_mismatch(a[i]);
    assert(b.subrange(0, a.len() as int)[i] == b[i]);
}

/// When the matching loop ends without a mismatch, the window it started
/// from was at least as long as the least need of the tokens it processed.
proof fn lemma_mismatch_bound_loop(
    doc: Seq<char>,
    toks: Seq<Token>,
    lo: int,
    hi: int,
    pl: int,
    ph: int,
    left: Seq<(Token, Option<Seq<char>>)>,
    right: Seq<(Token, Option<Seq<char>>)>,
    from_left: bool,
)
    requires
        0 <= pl <= ph <= toks.len(),
        0 <= lo <= hi <= doc.len(),
    ensures
        ({
            let (l2, r2, lo2, hi2) = content_loop(doc, toks, lo, hi, pl, ph, left, right, from_left);
            !spec_contains_mismatch(l2) && !spec_contains_mismatch(r2) ==> hi - lo >= min_need(
                toks,
                pl,
                ph,
            )
        }),
    decreases ph - pl,
{
    let (l2, r2, lo2, hi2) = content_loop(doc, toks, lo, hi, pl, ph, left, right, from_left);
    if pl < ph {
        if from_left {
            let tok = toks[pl];
            let (stack, lo_2) = step_left(doc, lo, hi, tok, left);
            match tok {
                Token::Mandatory => {
                    if lo >= hi {
                        lemma_loop_extends(doc, toks, lo_2, hi, pl + 1, ph, stack, right, false);
                        lemma_push_prefix(left);
                        lemma_mismatch_push(left, (Token::Mandatory, Option::None));
                        lemma_mismatch_prefix(stack, l2);
                    } else {
                        lemma_mismatch_bound_loop(
                            doc,
                            toks,
                            lo + 1,
                            hi,
                            pl + 1,
                            ph,
                            stack,
                            right,
                            false,
                        );
                    }
                },
                Token::Optional => {
                    lemma_mismatch_bound_loop(doc, toks, lo, hi, pl + 1, ph, stack, right, false);
                },
                Token::Literal(t) => {
                    match find_first_from(doc, lo, hi, t) {
                        Option::None => {
                            lemma_loop_extends(doc, toks, lo_2, hi, pl + 1, ph, stack, right, false);
                            lemma_push_prefix(left);
                            lemma_mismatch_push(left, (Token::Literal(t), Option::None));
                            lemma_mismatch_prefix(stack, l2);
                        },
                        Option::Some(p) => {
                            lemma_find_first_bounds(doc, lo, hi, t);
                            lemma_mismatch_bound_loop(
                                doc,
                                toks,
                                p + t.len(),
                                hi,
                                pl + 1,
                                ph,
                                stack,
                                right,
                                false,
                            );
                        },
                    }
                },
                Token::Void => {
                    lemma_mismatch_bound_loop(doc, toks, lo, hi, pl + 1, ph, stack, right, false);
                },
            }
        } else {
            let tok = toks[ph - 1];
            let (stack, hi_2) = step_right(doc, lo, hi, tok, right);
            lemma_min_need_right(toks, pl, ph);
            match tok {
                Token::Mandatory => {
                    if lo >= hi {
                        lemma_loop_extends(doc, toks, lo, hi_2, pl, ph - 1, left, stack, true);
                        lemma_push_prefix(right);
                        lemma_mismatch_push(right, (Token::Mandatory, Option::None));
                        lemma_mismatch_prefix(stack, r2);
                    } else {
                        lemma_mismatch_bound_loop(
                            doc,
                            toks,
                            lo,
                            hi - 1,
                            pl,
                            ph - 1,
                            left,
                            stack,
                            true,
                        );
                    }
                },
                Token::Optional => {
                    lemma_mismatch_bound_loop(doc, toks, lo, hi, pl, ph - 1, left, stack, true);
                },
                Token::Literal(t) => {
                    match find_last_before(doc, lo, hi, t) {
                        Option::None => {
                            lemma_loop_extends(doc, toks, lo, hi_2, pl, ph - 1, left, stack, true);
                            lemma_push_prefix(right);
                            lemma_mismatch_push(right, (Token::Literal(t), Option::None));
                            lemma_mismatch_prefix(stack, r2);
                        },
                        Option::Some(p) => {
                            crate::content::lemma_find_last_bounds(doc, lo, hi, t);
                            lemma_mismatch_bound_loop(
                                doc,
                                toks,
                                lo,
                                p,
                                pl,
                                ph - 1,
                                left,
                                stack,
                                true,
                            );
                        },
                    }
                },
                Token::Void => {
                    lemma_mismatch_bound_loop(doc, toks, lo, hi, pl, ph - 1, left, stack, true);
                },
            }
        }
    }
}

/// Content mismatch detection, in its counting form: matching binds every
/// literal to its own text and every mandatory prompt to at least one
/// character, so a document shorter than that least need — in particular
/// one in which some mandatory prompt could only be substituted by empty
/// text — is always reported as a mismatch.
pub proof fn lemma_content_mismatch_detection(toks: Seq<Token>, doc: Seq<char>)
    requires
        doc.len() < min_need(toks, 0, toks.len() as int),
    ensures
        spec_contains_mismatch(spec_match_tokens(doc, toks)),
{
    let e: Seq<(Token, Option<Seq<char>>)> = Seq::empty();
    let n: int = doc.len() as int;
    lemma_mismatch_bound_loop(doc, toks, 0, n, 0, toks.len() as int, e, e, true);
    let (l2, r2, lo2, hi2) = content_loop(doc, toks, 0, n, 0, toks.len() as int, e, e, true);
    if !spec_contains_mismatch(spec_match_tokens(doc, toks)) {
        let fin = content_finish(doc, lo2, hi2, l2, r2);
        if lo2 < hi2 && l2.len() > 0 && (l2.last() matches (Token::Literal(_), _)) && r2.len() > 0
            && (r2.last() matches (Token::Literal(_), _)) {
            lemma_mismatch_push(l2, (Token::Void, Option::Some(doc.subrange(lo2, hi2))));
            lemma_mismatch_concat(l2.push((Token::Void, Option::Some(doc.subrange(lo2, hi2)))), r2);
        } else {
            lemma_mismatch_concat(l2, r2);
        }
    }
}

/// Content mismatch detection, against a prescription content string.
pub proof fn lemma_content_mismatch_detection_for(rx: Seq<char>, doc: Seq<char>)
    requires
        doc.len() < min_need(spec_tokenize(rx), 0, spec_tokenize(rx).len() as int),
    ensures
        spec_contains_mismatch(spec_match_contents(doc, rx)),
{
    lemma_content_mismatch_detection(spec_tokenize(rx), doc);
}

} // verus!
