use pgcl::diagnostics::{expected_message, Diagnostic, LabelRole, Severity};
use pgcl::span::Span;

#[test]
fn one_alternative_is_quoted_after_a_colon() {
    let alts = vec!["{".to_string()];
    let msg = expected_message(&alts);
    assert_eq!(msg, "invalid syntax, expected: '{'");
}

#[test]
fn several_alternatives_are_listed() {
    let alts = vec!["if".to_string(), "while".to_string(), "}".to_string()];
    let msg = expected_message(&alts);
    assert_eq!(msg, "invalid syntax, expected one of: 'if', 'while', '}'");
}

#[test]
fn placeholder_names_are_not_quoted() {
    let alts = vec!["<ident>".to_string()];
    let msg = expected_message(&alts);
    assert_eq!(msg, "invalid syntax, expected: <ident>");
}

#[test]
fn placeholder_and_terminal_mix() {
    let alts = vec!["<ident>".to_string(), "{".to_string()];
    let msg = expected_message(&alts);
    assert_eq!(msg, "invalid syntax, expected one of: <ident>, '{'");
}

#[test]
fn error_record_has_one_primary_label() {
    let d = Diagnostic::error("boom".to_string(), Span { start: 4, end: 7 });
    assert_eq!(d.severity, Severity::Error);
    assert_eq!(d.message, "boom");
    assert_eq!(d.labels.len(), 1);
    assert_eq!(d.labels[0].role, LabelRole::Primary);
    assert_eq!(d.labels[0].span, Span { start: 4, end: 7 });
    assert_eq!(d.labels[0].note, None);
}

#[test]
fn span_length_is_end_minus_start() {
    let s = Span::new(3, 9);
    assert_eq!(s.len(), 6);
    let e = Span::empty(5);
    assert_eq!(e.len(), 0);
    assert_eq!(e, Span { start: 5, end: 5 });
}
