//! Content matching: tokenizing prescription content strings into prompt
//! tokens, and aligning a document content string against them.

use vstd::prelude::*;

use crate::data::pairs_view;
use crate::data::ContentMatchPair;
use crate::data::PromptToken;
use crate::data::Token;

verus! {

/// The characters trimmed from the ends of a prescription content string
/// before tokenizing.
pub open spec fn is_space(c: char) -> bool {
    c == ' ' || c == '\t' || c == '\n' || c == '\r' || c == '\u{b}' || c == '\u{c}'
}

/// The marker spelling a mandatory prompt.
pub open spec fn mandatory_marker() -> Seq<char> {
    seq!['-', '!', '!', '-']
}

/// The marker spelling an optional prompt.
pub open spec fn optional_marker() -> Seq<char> {
    seq!['-', '?', '?', '-']
}

/// Whether a prompt marker occupies positions `i .. i + 4` of `s`, entirely
/// before `end`.
pub open spec fn marker_at(s: Seq<char>, i: int, end: int) -> bool {
    &&& 0 <= i
    &&& i + 4 <= end
    &&& end <= s.len()
    &&& (s.subrange(i, i + 4) == mandatory_marker() || s.subrange(i, i + 4) == optional_marker())
}

/// The least position in `i .. end` where a prompt marker starts, if any.
pub open spec fn find_marker_from(s: Seq<char>, i: int, end: int) -> Option<int>
    decreases end - i,
{
    if i < 0 || i + 4 > end || end > s.len() {
        Option::None
    } else if marker_at(s, i, end) {
        Option::Some(i)
    } else {
        find_marker_from(s, i + 1, end)
    }
}

/// A found marker lies within the searched range.
pub proof fn lemma_find_marker_bounds(s: Seq<char>, i: int, end: int)
    ensures
        find_marker_from(s, i, end) matches Option::Some(m) ==> i <= m && m + 4 <= end
            && marker_at(s, m, end),
    decreases end - i,
{
    if !(i < 0 || i + 4 > end || end > s.len()) && !marker_at(s, i, end) {
        lemma_find_marker_bounds(s, i + 1, end);
    }
}

/// No marker starts before a found one, within the searched range.
pub proof fn lemma_find_marker_least(s: Seq<char>, i: int, end: int, j: int)
    requires
        0 <= i <= j,
        marker_at(s, j, end),
    ensures
        find_marker_from(s, i, end) matches Option::Some(m) && m <= j,
    decreases j - i,
{
    if i < j && !marker_at(s, i, end) {
        lemma_find_marker_least(s, i + 1, end, j);
    }
}

/// The first index at or after `i` holding a character that is not trimmed.
pub open spec fn skip_spaces(s: Seq<char>, i: int) -> int
    decreases s.len() - i,
{
    if 0 <= i < s.len() {
        if is_space(s[i]) {
            skip_spaces(s, i + 1)
        } else {
            i
        }
    } else {
        s.len() as int
    }
}

/// The end of the last character before `j` that is not trimmed; `0` when all
/// of `s` before `j` is trimmed.
pub open spec fn rskip_spaces(s: Seq<char>, j: int) -> int
    decreases j,
{
    if 0 < j <= s.len() {
        if is_space(s[j - 1]) {
            rskip_spaces(s, j - 1)
        } else {
            j
        }
    } else {
        0
    }
}

/// The token standing for the marker at position `m`.
pub open spec fn marker_token(s: Seq<char>, m: int) -> Token {
    if s.subrange(m, m + 4) == mandatory_marker() {
        Token::Mandatory
    } else {
        Token::Optional
    }
}

/// The tokens of the region `i .. end` of `s`: literal spans between prompt
/// markers, and the markers' own tokens.
pub open spec fn tokens_from(s: Seq<char>, i: int, end: int) -> Seq<Token>
    decreases end - i,
{
    if 0 <= i < end <= s.len() {
        match find_marker_from(s, i, end) {
            Option::None => seq![Token::Literal(s.subrange(i, end))],
            Option::Some(m) => {
                proof {
                    lemma_find_marker_bounds(s, i, end);
                }
                let rest = tokens_from(s, m + 4, end);
                if m > i {
                    seq![Token::Literal(s.subrange(i, m)), marker_token(s, m)] + rest
                } else {
                    seq![marker_token(s, m)] + rest
                }
            },
        }
    } else {
        Seq::empty()
    }
}

/// The tokens of a prescription content string: the string is trimmed, then
/// scanned for prompt markers; spans between markers become literals.
pub open spec fn spec_tokenize(s: Seq<char>) -> Seq<Token> {
    tokens_from(s, skip_spaces(s, 0), rskip_spaces(s, s.len() as int))
}

/// The spec-level value of a sequence of prompt tokens.
pub open spec fn tokens_view(tokens: Seq<PromptToken>) -> Seq<Token> {
    tokens.map_values(|t: PromptToken| t@)
}

/// Whether a character is trimmed from the ends of prescription content.
fn is_space_char(c: char) -> (r: bool)
    ensures
        r == is_space(c),
{
    c == ' ' || c == '\t' || c == '\n' || c == '\r' || c == '\u{b}' || c == '\u{c}'
}

/// The characters of `s`, as a vector.
pub fn str_chars(s: &str) -> (v: Vec<char>)
    ensures
        v@ == s@,
{
    let n: usize = s.unicode_len();
    let mut v: Vec<char> = Vec::new();
    let mut i: usize = 0;
    while i < n
        invariant
            n == s@.len(),
            i <= n,
            v@ == s@.take(i as int),
        decreases n - i,
    {
        let c = s.get_char(i);
        v.push(c);
        i = i + 1;
        assert(v@ =~= s@.take(i as int));
    }
    assert(s@.take(n as int) =~= s@);
    v
}

/// Whether a prompt marker starts at `i`, entirely before `end`.
fn marker_at_exec(chars: &Vec<char>, i: usize, end: usize) -> (r: bool)
    requires
        end <= chars@.len(),
    ensures
        r == marker_at(chars@, i as int, end as int),
{
    if end < 4 || i > end - 4 {
        assert(!marker_at(chars@, i as int, end as int));
        return false;
    }
    let mand = chars[i] == '-' && chars[i + 1] == '!' && chars[i + 2] == '!' && chars[i + 3] == '-';
    let opt = chars[i] == '-' && chars[i + 1] == '?' && chars[i + 2] == '?' && chars[i + 3] == '-';
    proof {
        if mand {
            assert(chars@.subrange(i as int, i + 4) =~= mandatory_marker());
        }
        if opt {
            assert(chars@.subrange(i as int, i + 4) =~= optional_marker());
        }
        if !mand && !opt {
            let sub = chars@.subrange(i as int, i + 4);
            assert(sub[0] == chars@[i as int]);
            assert(sub[1] == chars@[i as int + 1]);
            assert(sub[2] == chars@[i as int + 2]);
            assert(sub[3] == chars@[i as int + 3]);
            assert(sub != mandatory_marker() && sub != optional_marker()) by {
                if sub == mandatory_marker() {
                    assert(sub[0] == '-' && sub[1] == '!' && sub[2] == '!' && sub[3] == '-');
                }
                if sub == optional_marker() {
                    assert(sub[0] == '-' && sub[1] == '?' && sub[2] == '?' && sub[3] == '-');
                }
            }
        }
    }
    mand || opt
}

/// The least position in `i .. end` where a prompt marker starts.
fn find_marker_exec(chars: &Vec<char>, i: usize, end: usize) -> (r: Option<usize>)
    requires
        end <= chars@.len(),
    ensures
        match r {
            Option::Some(m) => find_marker_from(chars@, i as int, end as int)
                == Option::Some(m as int),
            Option::None => find_marker_from(chars@, i as int, end as int) is None,
        },
{
    let mut p = i;
    loop
        invariant
            end <= chars@.len(),
            i <= p,
            find_marker_from(chars@, i as int, end as int) == find_marker_from(
                chars@,
                p as int,
                end as int,
            ),
        decreases end + 4 - p,
    {
        if end < 4 || p > end - 4 {
            return Option::None;
        }
        if marker_at_exec(chars, p, end) {
            return Option::Some(p);
        }
        p = p + 1;
    }
}

/// Parses a prescription content string into prompt tokens. The string is
/// trimmed, then occurrences of the mandatory and optional markers become
/// prompt tokens and the spans between them become literals.
pub fn tokenize_prompts(content: &str) -> (tokens: Vec<PromptToken>)
    ensures
        tokens_view(tokens@) == spec_tokenize(content@),
{
    let chars = str_chars(content);
    let n: usize = chars.len();
    let mut a: usize = 0;
    while a < n && is_space_char(chars[a])
        invariant
            n == chars@.len(),
            a <= n,
            skip_spaces(chars@, 0) == skip_spaces(chars@, a as int),
        decreases n - a,
    {
        a = a + 1;
    }
    assert(skip_spaces(chars@, 0) == a as int);
    let mut b: usize = n;
    while b > a && is_space_char(chars[b - 1])
        invariant
            n == chars@.len(),
            a <= b <= n,
            a == skip_spaces(chars@, 0),
            rskip_spaces(chars@, n as int) == rskip_spaces(chars@, b as int),
        decreases b,
    {
        b = b - 1;
    }
    let mut tokens: Vec<PromptToken> = Vec::new();
    if b <= a {
        proof {
            lemma_rskip_below(chars@, b as int, a as int);
        }
        return tokens;
    }
    assert(rskip_spaces(chars@, b as int) == b as int);
    let ghost endv: int = b as int;
    let mut i: usize = a;
    while i < b
        invariant
            n == chars@.len(),
            content@ == chars@,
            a <= i <= b <= n,
            endv == b as int,
            spec_tokenize(content@) == tokens_view(tokens@) + tokens_from(
                chars@,
                i as int,
                endv,
            ),
        decreases b - i,
    {
        match find_marker_exec(&chars, i, b) {
            Option::None => {
                let lit = String::from_str(content.substring_char(i, b));
                tokens.push(PromptToken::Literal(lit));
                proof {
                    assert(tokens_view(tokens@) =~= tokens_view(tokens@.drop_last()) + seq![
                        Token::Literal(chars@.subrange(i as int, endv)),
                    ]);
                    assert(tokens_view(tokens@) + tokens_from(chars@, endv, endv)
                        =~= spec_tokenize(content@));
                }
                i = b;
            },
            Option::Some(m) => {
                proof {
                    lemma_find_marker_bounds(chars@, i as int, endv);
                }
                if m > i {
                    let lit = String::from_str(content.substring_char(i, m));
                    tokens.push(PromptToken::Literal(lit));
                }
                let is_mand = chars[m] == '-' && chars[m + 1] == '!';
                proof {
                    assert(marker_at(chars@, m as int, endv));
                    if is_mand {
                        assert(chars@.subrange(m as int, m as int + 4)[1] == chars@[m as int + 1]);
                        assert(chars@.subrange(m as int, m as int + 4) != optional_marker()) by {
                            if chars@.subrange(m as int, m as int + 4) == optional_marker() {
                                assert(optional_marker()[1] == '?');
                            }
                        }
                        assert(marker_token(chars@, m as int) == Token::Mandatory);
                    } else {
                        assert(chars@.subrange(m as int, m as int + 4)[1] == chars@[m as int + 1]);
                        assert(chars@.subrange(m as int, m as int + 4) != mandatory_marker()) by {
                            if chars@.subrange(m as int, m as int + 4) == mandatory_marker() {
                                assert(mandatory_marker()[1] == '!');
                            }
                        }
                        assert(marker_token(chars@, m as int) == Token::Optional);
                    }
                }
                if is_mand {
                    tokens.push(PromptToken::Mandatory);
                } else {
                    tokens.push(PromptToken::Optional);
                }
                proof {
                    if m > i {
                        assert(tokens_view(tokens@) =~= tokens_view(
                            tokens@.subrange(0, tokens@.len() - 2),
                        ) + seq![Token::Literal(chars@.subrange(i as int, m as int)), marker_token(
                            chars@,
                            m as int,
                        )]);
                    } else {
                        assert(tokens_view(tokens@) =~= tokens_view(tokens@.drop_last()) + seq![
                            marker_token(chars@, m as int),
                        ]);
                    }
                    assert(tokens_view(tokens@) + tokens_from(chars@, m as int + 4, endv)
                        =~= spec_tokenize(content@));
                }
                i = m + 4;
            },
        }
    }
    assert(tokens_view(tokens@) =~= tokens_view(tokens@) + tokens_from(chars@, endv, endv));
    tokens
}

/// No token produced by tokenizing is the internal sentinel.
pub proof fn lemma_tokens_from_no_void(s: Seq<char>, i: int, end: int)
    ensures
        forall|k: int| 0 <= k < tokens_from(s, i, end).len() ==> tokens_from(s, i, end)[k]
            != Token::Void,
    decreases end - i,
{
    if 0 <= i < end <= s.len() {
        match find_marker_from(s, i, end) {
            Option::None => {},
            Option::Some(m) => {
                lemma_find_marker_bounds(s, i, end);
                lemma_tokens_from_no_void(s, m + 4, end);
            },
        }
    }
}

/// No token of a tokenized content string is the internal sentinel.
pub proof fn lemma_spec_tokenize_no_void(s: Seq<char>)
    ensures
        forall|k: int| 0 <= k < spec_tokenize(s).len() ==> spec_tokenize(s)[k] != Token::Void,
{
    lemma_tokens_from_no_void(s, skip_spaces(s, 0), rskip_spaces(s, s.len() as int));
}

/// The left trim scan never passes the end of the string.
pub proof fn lemma_skip_spaces_le(s: Seq<char>, i: int)
    requires
        0 <= i <= s.len(),
    ensures
        i <= skip_spaces(s, i) <= s.len(),
    decreases s.len() - i,
{
    if i < s.len() && is_space(s[i]) {
        lemma_skip_spaces_le(s, i + 1);
    }
}

/// When the trim bounds cross, everything before `a` is trimmed space, so the
/// right trim scan reaches the left one and no token remains.
proof fn lemma_rskip_below(s: Seq<char>, b: int, a: int)
    requires
        0 <= b <= a,
        a == skip_spaces(s, 0),
        rskip_spaces(s, s.len() as int) == rskip_spaces(s, b),
    ensures
        spec_tokenize(s) == Seq::<Token>::empty(),
    decreases b,
{
    lemma_skip_spaces_le(s, 0);
    if 0 < b {
        lemma_skip_spaces_ge(s, 0, b - 1);
        assert(is_space(s[b - 1]));
        lemma_rskip_below(s, b - 1, a);
    }
}

/// Positions before the first untrimmed character hold trimmed characters.
proof fn lemma_skip_spaces_ge(s: Seq<char>, i: int, j: int)
    requires
        i <= j < skip_spaces(s, i),
        0 <= i,
    ensures
        is_space(s[j]),
    decreases j - i,
{
    if i < j {
        if 0 <= i < s.len() && is_space(s[i]) {
            lemma_skip_spaces_ge(s, i + 1, j);
        }
    }
}


/// Whether `lit` occurs at position `p` of `s`.
pub open spec fn occurs_at(s: Seq<char>, p: int, lit: Seq<char>) -> bool {
    0 <= p && p + lit.len() <= s.len() && s.subrange(p, p + lit.len() as int) == lit
}

/// The least `p` in `from .. hi` where `lit` occurs wholly before `hi`.
pub open spec fn find_first_from(s: Seq<char>, from: int, hi: int, lit: Seq<char>) -> Option<int>
    decreases hi + 1 - from,
{
    if from < 0 || from + lit.len() > hi || hi > s.len() {
        Option::None
    } else if occurs_at(s, from, lit) {
        Option::Some(from)
    } else {
        find_first_from(s, from + 1, hi, lit)
    }
}

/// The greatest `p` at or after `lo` where `lit` occurs wholly before `till`.
pub open spec fn find_last_before(s: Seq<char>, lo: int, till: int, lit: Seq<char>) -> Option<int>
    decreases till + 1,
{
    if lo < 0 || lo + lit.len() > till || till > s.len() {
        Option::None
    } else if occurs_at(s, till - lit.len(), lit) {
        Option::Some(till - lit.len())
    } else {
        find_last_before(s, lo, till - 1, lit)
    }
}

/// A found first occurrence lies within the searched window.
pub proof fn lemma_find_first_bounds(s: Seq<char>, from: int, hi: int, lit: Seq<char>)
    ensures
        find_first_from(s, from, hi, lit) matches Option::Some(p) ==> from <= p && p
            + lit.len() <= hi && hi <= s.len() && occurs_at(s, p, lit),
    decreases hi + 1 - from,
{
    if !(from < 0 || from + lit.len() > hi || hi > s.len()) && !occurs_at(s, from, lit) {
        lemma_find_first_bounds(s, from + 1, hi, lit);
    }
}

/// A found last occurrence lies within the searched window.
pub proof fn lemma_find_last_bounds(s: Seq<char>, lo: int, till: int, lit: Seq<char>)
    ensures
        find_last_before(s, lo, till, lit) matches Option::Some(p) ==> lo <= p && p
            + lit.len() <= till && till <= s.len() && occurs_at(s, p, lit),
    decreases till + 1,
{
    if !(lo < 0 || lo + lit.len() > till || till > s.len()) && !occurs_at(s, till - lit.len(), lit) {
        lemma_find_last_bounds(s, lo, till - 1, lit);
    }
}

/// Whether a preface found before a literal is recorded: only when the stack
/// is empty or its top is itself a literal pair; otherwise the preface is
/// absorbed by the neighbouring unbounded prompt.
pub open spec fn preface_kept(stack: Seq<(Token, Option<Seq<char>>)>) -> bool {
    stack.len() == 0 || (stack.last() matches (Token::Literal(_), _))
}

/// One left-side step of content matching: consume from the front of the
/// window `lo .. hi` according to `tok`, pushing onto `stack`. Returns the
/// stack and the new front of the window.
pub open spec fn step_left(
    doc: Seq<char>,
    lo: int,
    hi: int,
    tok: Token,
    stack: Seq<(Token, Option<Seq<char>>)>,
) -> (Seq<(Token, Option<Seq<char>>)>, int) {
    match tok {
        Token::Mandatory => {
            if lo >= hi {
                (stack.push((Token::Mandatory, Option::None)), lo)
            } else {
                (stack.push((Token::Mandatory, Option::Some(doc.subrange(lo, lo + 1)))), lo + 1)
            }
        },
        Token::Optional => (stack.push((Token::Optional, Option::None)), lo),
        Token::Literal(lit) => {
            match find_first_from(doc, lo, hi, lit) {
                Option::None => (stack.push((Token::Literal(lit), Option::None)), lo),
                Option::Some(p) => {
                    let pushed = if p > lo && preface_kept(stack) {
                        stack.push((Token::Void, Option::Some(doc.subrange(lo, p))))
                    } else {
                        stack
                    };
                    (
                        pushed.push(
                            (Token::Literal(lit), Option::Some(
                                doc.subrange(p, p + lit.len()),
                            )),
                        ),
                        p + lit.len(),
                    )
                },
            }
        },
        Token::Void => (stack, lo),
    }
}

/// One right-side step of content matching: consume from the back of the
/// window `lo .. hi` according to `tok`, pushing onto `stack`. Returns the
/// stack and the new back of the window.
pub open spec fn step_right(
    doc: Seq<char>,
    lo: int,
    hi: int,
    tok: Token,
    stack: Seq<(Token, Option<Seq<char>>)>,
) -> (Seq<(Token, Option<Seq<char>>)>, int) {
    match tok {
        Token::Mandatory => {
            if lo >= hi {
                (stack.push((Token::Mandatory, Option::None)), hi)
            } else {
                (stack.push((Token::Mandatory, Option::Some(doc.subrange(hi - 1, hi)))), hi - 1)
            }
        },
        Token::Optional => (stack.push((Token::Optional, Option::None)), hi),
        Token::Literal(lit) => {
            match find_last_before(doc, lo, hi, lit) {
                Option::None => (stack.push((Token::Literal(lit), Option::None)), hi),
                Option::Some(p) => {
                    let pushed = if p + lit.len() < hi && preface_kept(stack) {
                        stack.push((Token::Void, Option::Some(doc.subrange(p + lit.len(), hi))))
                    } else {
                        stack
                    };
                    (
                        pushed.push(
                            (Token::Literal(lit), Option::Some(
                                doc.subrange(p, p + lit.len()),
                            )),
                        ),
                        p,
                    )
                },
            }
        },
        Token::Void => (stack, hi),
    }
}

/// The two-stack bidirectional matching loop: prompts are taken alternately
/// from the front and the back of the token window `pl .. ph`, consuming
/// document text from the matching end of the window `lo .. hi`. Returns the
/// two stacks and the unconsumed window.
pub open spec fn content_loop(
    doc: Seq<char>,
    toks: Seq<Token>,
    lo: int,
    hi: int,
    pl: int,
    ph: int,
    left: Seq<(Token, Option<Seq<char>>)>,
    right: Seq<(Token, Option<Seq<char>>)>,
    from_left: bool,
) -> (Seq<(Token, Option<Seq<char>>)>, Seq<(Token, Option<Seq<char>>)>, int, int)
    decreases ph - pl,
{
    if pl < ph {
        if from_left {
            let (stack, lo2) = step_left(doc, lo, hi, toks[pl], left);
            content_loop(doc, toks, lo2, hi, pl + 1, ph, stack, right, false)
        } else {
            let (stack, hi2) = step_right(doc, lo, hi, toks[ph - 1], right);
            content_loop(doc, toks, lo, hi2, pl, ph - 1, left, stack, true)
        }
    } else {
        (left, right, lo, hi)
    }
}

/// The residue rule: text left unconsumed between two anchored literals is
/// recorded as a trailing preface pair; otherwise it is absorbed by a
/// neighbouring unbounded match.
pub open spec fn content_finish(
    doc: Seq<char>,
    lo: int,
    hi: int,
    left: Seq<(Token, Option<Seq<char>>)>,
    right: Seq<(Token, Option<Seq<char>>)>,
) -> Seq<(Token, Option<Seq<char>>)> {
    if lo < hi && left.len() > 0 && (left.last() matches (Token::Literal(_), _)) && right.len() > 0
        && (right.last() matches (Token::Literal(_), _)) {
        left.push((Token::Void, Option::Some(doc.subrange(lo, hi)))) + right
    } else {
        left + right
    }
}

/// The match pairs produced by aligning a document content string against a
/// sequence of prompt tokens.
pub open spec fn spec_match_tokens(doc: Seq<char>, toks: Seq<Token>) -> Seq<
    (Token, Option<Seq<char>>),
> {
    let (left, right, lo, hi) = content_loop(
        doc,
        toks,
        0,
        doc.len() as int,
        0,
        toks.len() as int,
        Seq::empty(),
        Seq::empty(),
        true,
    );
    content_finish(doc, lo, hi, left, right)
}

/// The match pairs produced by aligning a document content string against a
/// prescription content string.
pub open spec fn spec_match_contents(doc: Seq<char>, rx: Seq<char>) -> Seq<
    (Token, Option<Seq<char>>),
> {
    spec_match_tokens(doc, spec_tokenize(rx))
}

/// Whether `lit` occurs at position `p` of `doc`.
fn occurs_at_exec(doc: &Vec<char>, p: usize, lit: &Vec<char>) -> (r: bool)
    requires
        p + lit@.len() <= doc@.len(),
    ensures
        r == occurs_at(doc@, p as int, lit@),
{
    let n: usize = lit.len();
    let dn: usize = doc.len();
    let mut j: usize = 0;
    while j < n
        invariant
            n == lit@.len(),
            dn == doc@.len(),
            p + n <= dn,
            j <= n,
            forall|k: int| 0 <= k < j ==> doc@[p + k] == lit@[k],
        decreases n - j,
    {
        if doc[p + j] != lit[j] {
            proof {
                assert(doc@.subrange(p as int, p + lit@.len())[j as int] == doc@[p + j]);
            }
            return false;
        }
        j = j + 1;
    }
    proof {
        assert(doc@.subrange(p as int, p + lit@.len()) =~= lit@);
    }
    true
}

/// The least position in `lo .. hi` where `lit` occurs.
fn find_first_exec(doc: &Vec<char>, lo: usize, hi: usize, lit: &Vec<char>) -> (r: Option<usize>)
    requires
        lo <= hi <= doc@.len(),
    ensures
        match r {
            Option::Some(p) => find_first_from(doc@, lo as int, hi as int, lit@)
                == Option::Some(p as int) && lo <= p && p + lit@.len() <= hi,
            Option::None => find_first_from(doc@, lo as int, hi as int, lit@) is None,
        },
{
    let n: usize = lit.len();
    let mut p = lo;
    loop
        invariant
            lo <= p,
            lo <= hi <= doc@.len(),
            n == lit@.len(),
            find_first_from(doc@, lo as int, hi as int, lit@) == find_first_from(
                doc@,
                p as int,
                hi as int,
                lit@,
            ),
        decreases hi + 1 - p,
    {
        if p > hi || hi - p < n {
            return Option::None;
        }
        if occurs_at_exec(doc, p, lit) {
            return Option::Some(p);
        }
        proof {
            if n == 0 {
                assert(doc@.subrange(p as int, p as int) =~= lit@);
            }
        }
        p = p + 1;
    }
}

/// The greatest position at or after `lo` where `lit` occurs wholly before
/// `hi`.
fn find_last_exec(doc: &Vec<char>, lo: usize, hi: usize, lit: &Vec<char>) -> (r: Option<usize>)
    requires
        lo <= hi <= doc@.len(),
    ensures
        match r {
            Option::Some(p) => find_last_before(doc@, lo as int, hi as int, lit@)
                == Option::Some(p as int) && lo <= p && p + lit@.len() <= hi,
            Option::None => find_last_before(doc@, lo as int, hi as int, lit@) is None,
        },
{
    let n: usize = lit.len();
    let mut till = hi;
    loop
        invariant
            lo <= till <= hi <= doc@.len(),
            n == lit@.len(),
            find_last_before(doc@, lo as int, hi as int, lit@) == find_last_before(
                doc@,
                lo as int,
                till as int,
                lit@,
            ),
        decreases till,
    {
        if till - lo < n {
            return Option::None;
        }
        if occurs_at_exec(doc, till - n, lit) {
            return Option::Some(till - n);
        }
        proof {
            if n == 0 {
                assert(doc@.subrange(till as int, till as int) =~= lit@);
            }
        }
        till = till - 1;
    }
}

/// Whether a preface found next to a literal would be recorded on this
/// stack: it is when the stack is empty or its top is a literal pair.
fn preface_kept_exec(stack: &Vec<ContentMatchPair>) -> (r: bool)
    ensures
        r == preface_kept(pairs_view(stack@)),
{
    if stack.len() == 0 {
        return true;
    }
    top_is_literal(stack)
}

/// Whether the top of a stack of match pairs is a literal pair.
fn top_is_literal(stack: &Vec<ContentMatchPair>) -> (r: bool)
    ensures
        r == (pairs_view(stack@).len() > 0 && (pairs_view(stack@).last()
            matches (Token::Literal(_), _))),
{
    if stack.len() == 0 {
        return false;
    }
    let r = match &stack[stack.len() - 1] {
        ContentMatchPair(PromptToken::Literal(_), _) => true,
        _ => false,
    };
    proof {
        assert(pairs_view(stack@).last() == stack@.last()@);
    }
    r
}


/// Aligns a document content string against a prescription content string.
///
/// The prescription content is tokenized; prompts are then consumed
/// alternately from the two ends of the token list, taking document text from
/// the matching end. The result pairs each prompt with the text bound to it;
/// the match failed exactly when some pair binds nothing to a mandatory
/// prompt or a literal.
pub fn match_contents(node_content: &str, rx_content: &str) -> (pairs: Vec<ContentMatchPair>)
    ensures
        pairs_view(pairs@) == spec_match_contents(node_content@, rx_content@),
{
    let toks: Vec<PromptToken> = tokenize_prompts(rx_content);
    let doc = str_chars(node_content);
    let dn: usize = doc.len();
    let mut lo: usize = 0;
    let mut hi: usize = dn;
    let mut pl: usize = 0;
    let mut ph: usize = toks.len();
    let mut left: Vec<ContentMatchPair> = Vec::new();
    let mut right: Vec<ContentMatchPair> = Vec::new();
    let mut from_left: bool = true;
    proof {
        assert(pairs_view(left@) =~= Seq::<(Token, Option<Seq<char>>)>::empty());
        assert(pairs_view(right@) =~= Seq::<(Token, Option<Seq<char>>)>::empty());
    }
    let ghost target: (
        Seq<(Token, Option<Seq<char>>)>,
        Seq<(Token, Option<Seq<char>>)>,
        int,
        int,
    ) = content_loop(
        node_content@,
        spec_tokenize(rx_content@),
        0,
        node_content@.len() as int,
        0,
        spec_tokenize(rx_content@).len() as int,
        Seq::empty(),
        Seq::empty(),
        true,
    );
    while pl < ph
        invariant
            doc@ == node_content@,
            dn == doc@.len(),
            lo <= hi <= dn,
            pl <= ph <= toks@.len(),
            tokens_view(toks@) == spec_tokenize(rx_content@),
            content_loop(
                node_content@,
                spec_tokenize(rx_content@),
                lo as int,
                hi as int,
                pl as int,
                ph as int,
                pairs_view(left@),
                pairs_view(right@),
                from_left,
            ) == target,
        decreases ph - pl,
    {
        let ghost pre_left = pairs_view(left@);
        let ghost pre_right = pairs_view(right@);
        let ghost pre_lo: int = lo as int;
        let ghost pre_hi: int = hi as int;
        if from_left {
            let ghost tok_v: Token = spec_tokenize(rx_content@)[pl as int];
            proof {
                assert(tokens_view(toks@)[pl as int] == toks@[pl as int]@);
            }
            match &toks[pl] {
                PromptToken::Mandatory => {
                    if lo >= hi {
                        left.push(ContentMatchPair(PromptToken::Mandatory, Option::None));
                    } else {
                        let bound = String::from_str(node_content.substring_char(lo, lo + 1));
                        left.push(
                            ContentMatchPair(PromptToken::Mandatory, Option::Some(bound)),
                        );
                        lo = lo + 1;
                    }
                },
                PromptToken::Optional => {
                    left.push(ContentMatchPair(PromptToken::Optional, Option::None));
                },
                PromptToken::Literal(lit_str) => {
                    let lit = str_chars(lit_str.as_str());
                    match find_first_exec(&doc, lo, hi, &lit) {
                        Option::None => {
                            let lit_copy = lit_str.clone();
                            left.push(
                                ContentMatchPair(
                                    PromptToken::Literal(lit_copy),
                                    Option::None,
                                ),
                            );
                        },
                        Option::Some(p) => {
                            if p > lo && preface_kept_exec(&left) {
                                let preface = String::from_str(
                                    node_content.substring_char(lo, p),
                                );
                                left.push(
                                    ContentMatchPair(
                                        PromptToken::Void,
                                        Option::Some(preface),
                                    ),
                                );
                            }
                            let lit_copy = lit_str.clone();
                            let bound = String::from_str(
                                node_content.substring_char(p, p + lit.len()),
                            );
                            left.push(
                                ContentMatchPair(
                                    PromptToken::Literal(lit_copy),
                                    Option::Some(bound),
                                ),
                            );
                            lo = p + lit.len();
                        },
                    }
                },
                PromptToken::Void => {
                    proof {
                        lemma_spec_tokenize_no_void(rx_content@);
                    }
                },
            }
            pl = pl + 1;
            from_left = false;
            proof {
                let (st, lo2) = step_left(node_content@, pre_lo, pre_hi, tok_v, pre_left);
                assert(pairs_view(left@) =~= st);
                assert(lo as int == lo2);
            }
        } else {
            let ghost tok_v: Token = spec_tokenize(rx_content@)[ph - 1];
            proof {
                assert(tokens_view(toks@)[ph - 1] == toks@[ph - 1]@);
            }
            match &toks[ph - 1] {
                PromptToken::Mandatory => {
                    if lo >= hi {
                        right.push(ContentMatchPair(PromptToken::Mandatory, Option::None));
                    } else {
                        let bound = String::from_str(node_content.substring_char(hi - 1, hi));
                        right.push(
                            ContentMatchPair(PromptToken::Mandatory, Option::Some(bound)),
                        );
                        hi = hi - 1;
                    }
                },
                PromptToken::Optional => {
                    right.push(ContentMatchPair(PromptToken::Optional, Option::None));
                },
                PromptToken::Literal(lit_str) => {
                    let lit = str_chars(lit_str.as_str());
                    match find_last_exec(&doc, lo, hi, &lit) {
                        Option::None => {
                            let lit_copy = lit_str.clone();
                            right.push(
                                ContentMatchPair(
                                    PromptToken::Literal(lit_copy),
                                    Option::None,
                                ),
                            );
                        },
                        Option::Some(p) => {
                            if p + lit.len() < hi && preface_kept_exec(&right) {
                                let preface = String::from_str(
                                    node_content.substring_char(p + lit.len(), hi),
                                );
                                right.push(
                                    ContentMatchPair(
                                        PromptToken::Void,
                                        Option::Some(preface),
                                    ),
                                );
                            }
                            let lit_copy = lit_str.clone();
                            let bound = String::from_str(
                                node_content.substring_char(p, p + lit.len()),
                            );
                            right.push(
                                ContentMatchPair(
                                    PromptToken::Literal(lit_copy),
                                    Option::Some(bound),
                                ),
                            );
                            hi = p;
                        },
                    }
                },
                PromptToken::Void => {
                    proof {
                        lemma_spec_tokenize_no_void(rx_content@);
                    }
                },
            }
            ph = ph - 1;
            from_left = true;
            proof {
                let (st, hi2) = step_right(node_content@, pre_lo, pre_hi, tok_v, pre_right);
                assert(pairs_view(right@) =~= st);
                assert(hi as int == hi2);
            }
        }
    }
    if lo < hi && top_is_literal(&left) && top_is_literal(&right) {
        let residue = String::from_str(node_content.substring_char(lo, hi));
        left.push(ContentMatchPair(PromptToken::Void, Option::Some(residue)));
        proof {
            assert(pairs_view(left@) =~= pairs_view(left@.drop_last()).push(
                (Token::Void, Option::Some(node_content@.subrange(lo as int, hi as int))),
            ));
        }
    }
    let mut pairs = left;
    pairs.append(&mut right);
    proof {
        assert(pairs_view(pairs@) =~= spec_match_contents(node_content@, rx_content@));
    }
    pairs
}


/// No earlier occurrence is passed over: the first find returns a position
/// at or before any occurrence.
pub proof fn lemma_find_first_least(s: Seq<char>, from: int, hi: int, lit: Seq<char>, j: int)
    requires
        0 <= from <= j,
        j + lit.len() <= hi <= s.len(),
        occurs_at(s, j, lit),
    ensures
        find_first_from(s, from, hi, lit) matches Option::Some(m) && m <= j,
    decreases j - from,
{
    if from < j && !occurs_at(s, from, lit) {
        lemma_find_first_least(s, from + 1, hi, lit, j);
    }
}

/// The right trim scan stays within its bounds.
pub proof fn lemma_rskip_le(s: Seq<char>, j: int)
    requires
        0 <= j <= s.len(),
    ensures
        0 <= rskip_spaces(s, j) <= j,
    decreases j,
{
    if 0 < j && is_space(s[j - 1]) {
        lemma_rskip_le(s, j - 1);
    }
}


/// No later occurrence is passed over: the last find returns a position at
/// or after any occurrence.
pub proof fn lemma_find_last_greatest(s: Seq<char>, lo: int, till: int, lit: Seq<char>, j: int)
    requires
        0 <= lo <= j,
        j + lit.len() <= till <= s.len(),
        occurs_at(s, j, lit),
    ensures
        find_last_before(s, lo, till, lit) matches Option::Some(m) && m >= j,
    decreases till,
{
    if !occurs_at(s, till - lit.len(), lit) {
        lemma_find_last_greatest(s, lo, till - 1, lit, j);
    }
}

} // verus!
