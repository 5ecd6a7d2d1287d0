use pgcl::diagnostics::{Diagnostic, LabelRole, Severity};
use pgcl::lexer::{tokenize, LexerError, Token};
use pgcl::span::Span;

fn sp(start: usize, end: usize) -> Span {
    Span { start, end }
}

#[test]
fn scenario_if_braces() {
    let mut diags: Vec<Diagnostic> = Vec::new();
    let (tokens, spans) = tokenize(b"if{}", &mut diags);
    assert_eq!(tokens, vec![Token::If, Token::LCur, Token::RCur, Token::EOF]);
    assert_eq!(spans, vec![sp(0, 2), sp(2, 3), sp(3, 4), sp(4, 4)]);
    assert_eq!(diags.len(), 0);
}

#[test]
fn scenario_invalid_token() {
    let mut diags: Vec<Diagnostic> = Vec::new();
    let (tokens, spans) = tokenize(b"if?{}", &mut diags);
    assert_eq!(
        tokens,
        vec![Token::If, Token::Error, Token::LCur, Token::RCur, Token::EOF]
    );
    assert_eq!(spans, vec![sp(0, 2), sp(2, 3), sp(3, 4), sp(4, 5), sp(5, 5)]);
    assert_eq!(diags.len(), 1);
    assert_eq!(diags[0].message, "invalid token");
    assert_eq!(diags[0].severity, Severity::Error);
    assert_eq!(diags[0].labels.len(), 1);
    assert_eq!(diags[0].labels[0].role, LabelRole::Primary);
    assert_eq!(diags[0].labels[0].span, sp(2, 3));
    assert_eq!(diags[0].labels[0].note, None);
}

#[test]
fn scenario_empty_buffer() {
    let mut diags: Vec<Diagnostic> = Vec::new();
    let (tokens, spans) = tokenize(b"", &mut diags);
    assert_eq!(tokens, vec![Token::EOF]);
    assert_eq!(spans, vec![sp(0, 0)]);
    assert_eq!(diags.len(), 0);
}

#[test]
fn tokenize_twice_is_identical() {
    let src = b"while{if{}}?x";
    let mut diags1: Vec<Diagnostic> = Vec::new();
    let mut diags2: Vec<Diagnostic> = Vec::new();
    let (tokens1, spans1) = tokenize(src, &mut diags1);
    let (tokens2, spans2) = tokenize(src, &mut diags2);
    assert_eq!(tokens1, tokens2);
    assert_eq!(spans1, spans2);
    assert_eq!(diags1, diags2);
}

#[test]
fn round_trip_reconstructs_buffer() {
    let src = b"if{} ?? while junk{}}";
    let mut diags: Vec<Diagnostic> = Vec::new();
    let (_tokens, spans) = tokenize(src, &mut diags);
    let mut rebuilt: Vec<u8> = Vec::new();
    for s in &spans {
        rebuilt.extend_from_slice(&src[s.start..s.end]);
    }
    assert_eq!(rebuilt, src.to_vec());
}

#[test]
fn contiguous_error_run_is_one_token() {
    let mut diags: Vec<Diagnostic> = Vec::new();
    let (tokens, spans) = tokenize(b"if??{}", &mut diags);
    assert_eq!(
        tokens,
        vec![Token::If, Token::Error, Token::LCur, Token::RCur, Token::EOF]
    );
    assert_eq!(spans[1], sp(2, 4));
    assert_eq!(diags.len(), 1);
    assert_eq!(diags[0].labels[0].span, sp(2, 4));
}

#[test]
fn while_keyword_is_longest_match() {
    let mut diags: Vec<Diagnostic> = Vec::new();
    let (tokens, spans) = tokenize(b"while{}if{}", &mut diags);
    assert_eq!(
        tokens,
        vec![
            Token::While,
            Token::LCur,
            Token::RCur,
            Token::If,
            Token::LCur,
            Token::RCur,
            Token::EOF
        ]
    );
    assert_eq!(spans[0], sp(0, 5));
    assert_eq!(diags.len(), 0);
}

#[test]
fn partial_keyword_is_an_error() {
    let mut diags: Vec<Diagnostic> = Vec::new();
    let (tokens, spans) = tokenize(b"whil", &mut diags);
    assert_eq!(tokens, vec![Token::Error, Token::EOF]);
    assert_eq!(spans, vec![sp(0, 4), sp(4, 4)]);
    assert_eq!(diags.len(), 1);
}

#[test]
fn into_diagnostic_has_primary_label() {
    let d = LexerError::Invalid.into_diagnostic(sp(3, 5));
    assert_eq!(d.severity, Severity::Error);
    assert_eq!(d.message, "invalid token");
    assert_eq!(d.labels.len(), 1);
    assert_eq!(d.labels[0].role, LabelRole::Primary);
    assert_eq!(d.labels[0].span, sp(3, 5));
    assert_eq!(d.labels[0].note, None);
}

#[test]
fn lexer_error_default_is_invalid() {
    assert_eq!(LexerError::default(), LexerError::Invalid);
}

#[test]
fn sequences_are_parallel_and_ordered() {
    let mut diags: Vec<Diagnostic> = Vec::new();
    let (tokens, spans) = tokenize(b"?while??if{ }}x", &mut diags);
    assert_eq!(tokens.len(), spans.len());
    assert_eq!(tokens.last(), Some(&Token::EOF));
    for s in &spans {
        assert!(s.start <= s.end);
    }
    for w in spans.windows(2) {
        assert!(w[0].start <= w[1].start);
    }
}
