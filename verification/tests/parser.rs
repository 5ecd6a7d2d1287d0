use pgcl::arena::{Arena, NodeRef, Rule};
use pgcl::diagnostics::{Diagnostic, LabelRole, Severity};
use pgcl::lexer::tokenize;
use pgcl::parser::{parse, parse_source};
use pgcl::span::Span;

fn sp(start: usize, end: usize) -> Span {
    Span { start, end }
}

#[test]
fn scenario_missing_open_brace() {
    let mut diags: Vec<Diagnostic> = Vec::new();
    let (tokens, spans) = tokenize(b"if}", &mut diags);
    assert_eq!(diags.len(), 0);
    let (arena, root) = parse(&tokens, &spans, &mut diags);
    assert_eq!(diags.len(), 1);
    assert_eq!(diags[0].message, "invalid syntax, expected: '{'");
    assert_eq!(diags[0].severity, Severity::Error);
    assert_eq!(diags[0].labels.len(), 1);
    assert_eq!(diags[0].labels[0].role, LabelRole::Primary);
    assert_eq!(diags[0].labels[0].span, sp(2, 3));
    let root_node = arena.get(root);
    assert_eq!(root_node.rule, Rule::Root);
    assert_eq!(root_node.tok_start, 0);
    assert_eq!(root_node.tok_end, 2);
}

#[test]
fn valid_program_parses_silently() {
    let mut diags: Vec<Diagnostic> = Vec::new();
    let (tokens, spans) = tokenize(b"if{while{}}", &mut diags);
    let (arena, root) = parse(&tokens, &spans, &mut diags);
    assert_eq!(diags.len(), 0);
    let root_node = arena.get(root);
    assert_eq!(root_node.rule, Rule::Root);
    assert_eq!((root_node.tok_start, root_node.tok_end), (0, 6));
    assert_eq!(root_node.children.len(), 1);
    let stmt = arena.get(root_node.children[0]);
    assert_eq!(stmt.rule, Rule::Stmt);
    assert_eq!((stmt.tok_start, stmt.tok_end), (0, 6));
    assert_eq!(stmt.children.len(), 1);
    let block = arena.get(stmt.children[0]);
    assert_eq!(block.rule, Rule::Block);
    assert_eq!((block.tok_start, block.tok_end), (1, 6));
    assert_eq!(block.children.len(), 1);
    let inner_stmt = arena.get(block.children[0]);
    assert_eq!(inner_stmt.rule, Rule::Stmt);
    assert_eq!((inner_stmt.tok_start, inner_stmt.tok_end), (2, 5));
    let inner_block = arena.get(inner_stmt.children[0]);
    assert_eq!(inner_block.rule, Rule::Block);
    assert_eq!((inner_block.tok_start, inner_block.tok_end), (3, 5));
    assert_eq!(inner_block.children.len(), 0);
}

#[test]
fn empty_buffer_still_has_a_root() {
    let mut diags: Vec<Diagnostic> = Vec::new();
    let (tokens, spans) = tokenize(b"", &mut diags);
    let (arena, root) = parse(&tokens, &spans, &mut diags);
    assert_eq!(diags.len(), 0);
    let root_node = arena.get(root);
    assert_eq!(root_node.rule, Rule::Root);
    assert_eq!((root_node.tok_start, root_node.tok_end), (0, 0));
    assert_eq!(root_node.children.len(), 0);
}

#[test]
fn stray_top_level_token_is_reported_and_skipped() {
    let mut diags: Vec<Diagnostic> = Vec::new();
    let (tokens, spans) = tokenize(b"}if{}", &mut diags);
    let (arena, root) = parse(&tokens, &spans, &mut diags);
    assert_eq!(diags.len(), 1);
    assert_eq!(diags[0].message, "invalid syntax, expected one of: 'if', 'while'");
    assert_eq!(diags[0].labels[0].span, sp(0, 1));
    // Recovery still parses the statement after the stray token.
    let root_node = arena.get(root);
    assert_eq!(root_node.children.len(), 1);
    let stmt = arena.get(root_node.children[0]);
    assert_eq!((stmt.tok_start, stmt.tok_end), (1, 4));
}

#[test]
fn unclosed_block_is_reported() {
    let mut diags: Vec<Diagnostic> = Vec::new();
    let (tokens, spans) = tokenize(b"if{", &mut diags);
    let (arena, root) = parse(&tokens, &spans, &mut diags);
    assert_eq!(diags.len(), 1);
    assert_eq!(
        diags[0].message,
        "invalid syntax, expected one of: 'if', 'while', '}'"
    );
    // The diagnostic points at end of input.
    assert_eq!(diags[0].labels[0].span, sp(3, 3));
    let root_node = arena.get(root);
    assert_eq!(root_node.children.len(), 1);
}

#[test]
fn children_nest_inside_parents() {
    let mut diags: Vec<Diagnostic> = Vec::new();
    let (tokens, spans) = tokenize(b"if{while{}if{}}while{}?", &mut diags);
    let (arena, root) = parse(&tokens, &spans, &mut diags);
    let mut stack: Vec<NodeRef> = vec![root];
    while let Some(r) = stack.pop() {
        let node = arena.get(r);
        let mut prev_start = node.tok_start;
        for &c in &node.children {
            let child = arena.get(c);
            assert!(node.tok_start <= child.tok_start);
            assert!(child.tok_end <= node.tok_end);
            assert!(prev_start <= child.tok_start);
            prev_start = child.tok_start;
            stack.push(c);
        }
    }
}

#[test]
fn parse_source_collects_both_kinds_of_diagnostics() {
    let mut diags: Vec<Diagnostic> = Vec::new();
    let (tokens, _spans, arena, root) = parse_source(b"if?{}", &mut diags);
    assert_eq!(tokens.len(), 5);
    assert_eq!(diags.len(), 2);
    assert_eq!(diags[0].message, "invalid token");
    assert_eq!(diags[1].message, "invalid syntax, expected: '{'");
    let root_node = arena.get(root);
    assert_eq!(root_node.rule, Rule::Root);
    assert_eq!((root_node.tok_start, root_node.tok_end), (0, 4));
}

#[test]
fn parse_source_on_valid_input_is_silent() {
    let mut diags: Vec<Diagnostic> = Vec::new();
    let (tokens, spans, arena, root) = parse_source(b"while{}", &mut diags);
    assert_eq!(diags.len(), 0);
    assert_eq!(tokens.len(), 4);
    assert_eq!(spans.len(), 4);
    assert_eq!(arena.get(root).rule, Rule::Root);
}

#[test]
fn arena_handles_stay_stable() {
    let mut arena = Arena::new();
    let a = arena.allocate(Rule::Block, 1, 3);
    let first_len = arena.len();
    let b = arena.allocate(Rule::Stmt, 0, 3);
    arena.attach_child(b, a);
    assert_eq!(first_len, 1);
    assert_eq!(arena.len(), 2);
    let child = arena.get(a);
    assert_eq!(child.rule, Rule::Block);
    assert_eq!((child.tok_start, child.tok_end), (1, 3));
    let parent = arena.get(b);
    assert_eq!(parent.children.len(), 1);
    assert_eq!(parent.children[0], a);
}
