use howser::content::match_contents;
use howser::content::tokenize_prompts;
use howser::data::ContentMatchPair;
use howser::data::PromptToken;

fn lit(s: &str) -> PromptToken {
    PromptToken::Literal(s.to_string())
}

#[test]
fn tokenize_plain_literal() {
    let tokens = tokenize_prompts("The quick brown fox jumps over the dog.");
    assert_eq!(tokens, vec![lit("The quick brown fox jumps over the dog.")]);
}

#[test]
fn tokenize_empty_and_blank() {
    assert_eq!(tokenize_prompts(""), vec![]);
    assert_eq!(tokenize_prompts("   \t\n  "), vec![]);
}

#[test]
fn tokenize_trims_ends() {
    let tokens = tokenize_prompts("  some text  ");
    assert_eq!(tokens, vec![lit("some text")]);
}

#[test]
fn tokenize_single_markers() {
    assert_eq!(tokenize_prompts("-!!-"), vec![PromptToken::Mandatory]);
    assert_eq!(tokenize_prompts("-??-"), vec![PromptToken::Optional]);
}

#[test]
fn tokenize_mixed_prompts() {
    let tokens = tokenize_prompts("The quick brown fox -!!- over-??-.");
    assert_eq!(
        tokens,
        vec![
            lit("The quick brown fox "),
            PromptToken::Mandatory,
            lit(" over"),
            PromptToken::Optional,
            lit("."),
        ]
    );
}

/// Concatenating the string forms of a token sequence and tokenizing the
/// result yields the sequence back.
#[test]
fn tokenize_round_trip() {
    let tokens = vec![
        PromptToken::Mandatory,
        lit("my dear"),
        PromptToken::Optional,
    ];
    let mut rendered = String::new();
    for token in &tokens {
        match token {
            PromptToken::Mandatory => rendered.push_str("-!!-"),
            PromptToken::Optional => rendered.push_str("-??-"),
            PromptToken::Literal(s) => rendered.push_str(s),
            PromptToken::Void => {}
        }
    }
    assert_eq!(rendered, "-!!-my dear-??-");
    assert_eq!(tokenize_prompts(&rendered), tokens);
}

#[test]
fn adjacent_markers_tokenize_separately() {
    let tokens = tokenize_prompts("-??--!!-my dear-??-");
    assert_eq!(
        tokens,
        vec![
            PromptToken::Optional,
            PromptToken::Mandatory,
            lit("my dear"),
            PromptToken::Optional,
        ]
    );
}

fn mismatches(doc: &str, rx: &str) -> bool {
    let pairs = match_contents(doc, rx);
    ContentMatchPair::contains_mismatch(&pairs)
}

#[test]
fn exact_literal_contents_match() {
    assert!(!mismatches("same words", "same words"));
    assert!(mismatches("other words", "same words"));
}

/// Substituting non-empty text for the mandatory prompt and any text for the
/// optional prompts keeps the contents aligned.
#[test]
fn substituted_contents_match() {
    assert!(!mismatches("aXbc", "a-!!-b-??-c"));
    assert!(!mismatches("aXbYc", "a-!!-b-??-c"));
    assert!(!mismatches("Elementary my dear Watson", "-!!-my dear-??-"));
}

/// An empty substitution for a mandatory prompt is reported as a mismatch
/// even when every literal appears in order.
#[test]
fn empty_mandatory_substitution_mismatches() {
    assert!(mismatches("ab", "a-!!-b"));
    assert!(mismatches("", "-!!-"));
    assert!(mismatches("my dear", "-!!-my dear-??-"));
}

#[test]
fn optional_never_consumes() {
    assert!(!mismatches("", "-??-"));
    assert!(!mismatches("anything at all", "-??-"));
}

#[test]
fn missing_literal_mismatches() {
    assert!(mismatches("over", "The quick brown fox -!!- over-??-."));
    assert!(mismatches("let = 42;", "let -!!- = 42;"));
}

/// Text standing before a literal is kept as a preface pair when nothing
/// unbounded is there to absorb it.
#[test]
fn preface_before_literal_is_recorded() {
    let pairs = match_contents("XXab", "ab");
    assert!(!ContentMatchPair::contains_mismatch(&pairs));
    assert_eq!(pairs.len(), 2);
    assert_eq!(
        pairs[0],
        ContentMatchPair(PromptToken::Void, Some("XX".to_string()))
    );
    assert_eq!(
        pairs[1],
        ContentMatchPair(PromptToken::Literal("ab".to_string()), Some("ab".to_string()))
    );
}

/// Text standing between a mandatory prompt and a literal is absorbed by the
/// prompt rather than recorded.
#[test]
fn preface_after_mandatory_is_absorbed() {
    let pairs = match_contents("Elementary my dear Watson", "-!!-my dear-??-");
    assert!(!ContentMatchPair::contains_mismatch(&pairs));
    assert!(pairs
        .iter()
        .all(|p| !matches!(p, ContentMatchPair(PromptToken::Void, _))));
}

#[test]
fn empty_contents_match_empty_prescription() {
    assert!(!mismatches("", ""));
    assert!(!mismatches("", "   "));
}

/// The matcher consumes from both ends: literals at either end anchor there,
/// and the mandatory prompt draws from the matching end.
#[test]
fn bidirectional_consumption() {
    assert!(!mismatches("let my_num: u32 = 42;", "let -!!- = 42-??-;"));
    assert!(!mismatches("let the_answer = 4200;", "let -!!- = 42-??-;"));
    assert!(mismatches("let = 42;", "let -!!- = 42;"));
}
