//! The parser/driver: walks the token sequence, builds the concrete syntax
//! tree in the arena, and recovers from unexpected tokens.
//!
//! The grammar: a program is a sequence of statements up to end of input; a
//! statement is `if` or `while` followed by a block; a block is `{`, a
//! sequence of statements, `}`. On a token that fits no production the
//! driver appends an "invalid syntax" diagnostic naming the acceptable
//! alternatives, skips to a synchronization point, and keeps building, so a
//! parse always completes and always returns a root node.

use vstd::prelude::*;
use vstd::string::*;
use crate::span::Span;
use crate::diagnostics::{
    Diagnostic,
    DiagnosticModel,
    LabelRole,
    Severity,
    diags_view,
    error_diag,
    expected_message,
    expected_message_view,
    strings_view,
};
use crate::lexer::{Token, stream_wf, spec_tokenize, toks_of, spans_of, lex_diags, tokenize};
use crate::arena::{Arena, NodeRef, Rule};

verus! {

/// Whether a token can start a statement.
pub open spec fn starts_stmt(t: Token) -> bool {
    t == Token::If || t == Token::While
}

/// Where the statement starting at `pos` ends, if the tokens from `pos`
/// form a valid statement: a statement keyword followed by a block.
pub open spec fn stmt_end(t: Seq<Token>, pos: int) -> Option<int>
    decreases t.len() - pos, 0int,
{
    if 0 <= pos < t.len() && starts_stmt(t[pos]) {
        block_end(t, pos + 1)
    } else {
        None
    }
}

/// Where the block starting at `pos` ends, if the tokens from `pos` form a
/// valid block: `{`, then statements, then `}`.
pub open spec fn block_end(t: Seq<Token>, pos: int) -> Option<int>
    decreases t.len() - pos, 2int,
{
    if 0 <= pos < t.len() && t[pos] == Token::LCur {
        match stmt_list_end(t, pos + 1) {
            Some(p) => if 0 <= p < t.len() && t[p] == Token::RCur {
                Some(p + 1)
            } else {
                None
            },
            None => None,
        }
    } else {
        None
    }
}

/// Where the maximal valid statement list starting at `pos` ends: the first
/// position whose token cannot start a statement, or `None` if a statement
/// along the way is malformed.
pub open spec fn stmt_list_end(t: Seq<Token>, pos: int) -> Option<int>
    decreases t.len() - pos, 1int,
{
    if 0 <= pos < t.len() && starts_stmt(t[pos]) {
        match stmt_end(t, pos) {
            Some(p) => if pos < p <= t.len() {
                stmt_list_end(t, p)
            } else {
                None
            },
            None => None,
        }
    } else {
        Some(pos)
    }
}

/// A token sequence is a valid program when the statement list from the
/// start ends exactly at the `EOF` token.
pub open spec fn program_valid(t: Seq<Token>) -> bool {
    stmt_list_end(t, 0) == Some(t.len() - 1)
}

/// The token ranges of the consecutive valid statements starting at `pos`,
/// in source order, up to the first position that starts no statement or
/// holds a malformed one.
pub open spec fn top_stmts(t: Seq<Token>, pos: int) -> Seq<(int, int)>
    decreases t.len() - pos,
{
    if 0 <= pos < t.len() && starts_stmt(t[pos]) {
        match stmt_end(t, pos) {
            Some(p) => if pos < p <= t.len() {
                seq![(pos, p)] + top_stmts(t, p)
            } else {
                Seq::empty()
            },
            None => Seq::empty(),
        }
    } else {
        Seq::empty()
    }
}

/// A valid parse step always moves forward and stays inside the sequence.
pub proof fn lemma_grammar_bounds(t: Seq<Token>, pos: int)
    requires
        0 <= pos <= t.len(),
    ensures
        stmt_end(t, pos) matches Some(p) ==> pos < p <= t.len(),
        block_end(t, pos) matches Some(p) ==> pos < p <= t.len(),
        stmt_list_end(t, pos) matches Some(p) ==> pos <= p <= t.len(),
    decreases t.len() - pos, 3int,
{
    if pos < t.len() {
        lemma_grammar_bounds(t, pos + 1);
    }
    if 0 <= pos < t.len() && starts_stmt(t[pos]) {
        match stmt_end(t, pos) {
            Some(p) => {
                if pos < p <= t.len() {
                    lemma_grammar_bounds(t, p);
                }
            },
            None => {},
        }
    }
}

/// The shape of every diagnostic the parser appends: an error with exactly
/// one primary label, anchored on one of the token spans.
pub open spec fn syntax_diag_ok(d: DiagnosticModel, spans: Seq<Span>) -> bool {
    &&& d.severity == Severity::Error
    &&& d.labels.len() == 1
    &&& d.labels[0].role == LabelRole::Primary
    &&& d.labels[0].note is None
    &&& exists|j: int| 0 <= j < spans.len() && d.labels[0].span == spans[j]
}

/// Appends one "invalid syntax" diagnostic naming `alts`, anchored on the
/// span of token `at`.
fn push_syntax_diag(diags: &mut Vec<Diagnostic>, alts: &Vec<String>, spans: &Vec<Span>, at: usize)
    requires
        alts@.len() >= 1,
        at < spans@.len(),
    ensures
        final(diags)@.len() == old(diags)@.len() + 1,
        forall|k: int| 0 <= k < old(diags)@.len() ==> final(diags)@[k] == old(diags)@[k],
        final(diags)@.last()@ == error_diag(
            expected_message_view(strings_view(alts@)),
            spans@[at as int],
        ),
        syntax_diag_ok(final(diags)@.last()@, spans@),
{
    let msg = expected_message(alts);
    let d = Diagnostic::error(msg, spans[at]);
    diags.push(d);
    proof {
        assert(diags@.last()@.labels[0].span == spans@[at as int]);
    }
}

/// Allocates a node and attaches an already-parsed child list, handed over
/// in source order with every child's token range inside `[tok_start,
/// tok_end)`.
fn build_node(
    arena: &mut Arena,
    rule: Rule,
    tok_start: usize,
    tok_end: usize,
    children: &Vec<NodeRef>,
) -> (r: NodeRef)
    requires
        old(arena).wf(),
        tok_start <= tok_end,
        forall|j: int|
            0 <= j < children@.len() ==> {
                let ci = (#[trigger] children@[j]).index();
                &&& 0 <= ci < old(arena)@.len()
                &&& tok_start <= old(arena)@[ci].tok_start
                &&& old(arena)@[ci].tok_end <= tok_end
                &&& (j > 0 ==> old(arena)@[children@[j - 1].index()].tok_end
                    <= old(arena)@[ci].tok_start)
            },
    ensures
        final(arena).wf(),
        final(arena)@.len() == old(arena)@.len() + 1,
        forall|k: int| 0 <= k < old(arena)@.len() ==> final(arena)@[k] == old(arena)@[k],
        r.index() == old(arena)@.len(),
        final(arena)@[r.index()].rule == rule,
        final(arena)@[r.index()].tok_start == tok_start,
        final(arena)@[r.index()].tok_end == tok_end,
{
    let ghost apre = arena@;
    let nr = arena.allocate(rule, tok_start, tok_end);
    let mut k: usize = 0;
    while k < children.len()
        invariant
            arena.wf(),
            arena@.len() == apre.len() + 1,
            nr.index() == apre.len(),
            forall|j: int| 0 <= j < apre.len() ==> arena@[j] == apre[j],
            arena@[nr.index()].rule == rule,
            arena@[nr.index()].tok_start == tok_start,
            arena@[nr.index()].tok_end == tok_end,
            k <= children@.len(),
            arena@[nr.index()].children@ =~= children@.take(k as int),
            tok_start <= tok_end,
            forall|j: int|
                0 <= j < children@.len() ==> {
                    let ci = (#[trigger] children@[j]).index();
                    &&& 0 <= ci < apre.len()
                    &&& tok_start <= apre[ci].tok_start
                    &&& apre[ci].tok_end <= tok_end
                    &&& (j > 0 ==> apre[children@[j - 1].index()].tok_end
                        <= apre[ci].tok_start)
                },
        decreases children@.len() - k,
    {
        proof {
            assert(children@.take(k as int + 1) =~= children@.take(k as int).push(
                children@[k as int],
            ));
            if k > 0 {
                assert(arena@[nr.index()].children@.last() == children@[k as int - 1]);
            }
        }
        arena.attach_child(nr, children[k]);
        k = k + 1;
    }
    nr
}

/// Parses one statement at `pos`: the keyword, then a block. Returns the
/// statement's node and the position after it. Appends diagnostics exactly
/// when the statement is malformed, recovering rather than failing.
fn parse_stmt(
    tokens: &Vec<Token>,
    spans: &Vec<Span>,
    pos: usize,
    arena: &mut Arena,
    diags: &mut Vec<Diagnostic>,
) -> (r: (NodeRef, usize))
    requires
        stream_wf(tokens@, spans@),
        pos < tokens@.len(),
        starts_stmt(tokens@[pos as int]),
        old(arena).wf(),
    ensures
        pos < r.1 <= tokens@.len() - 1,
        final(arena).wf(),
        final(arena)@.len() > old(arena)@.len(),
        forall|k: int| 0 <= k < old(arena)@.len() ==> final(arena)@[k] == old(arena)@[k],
        r.0.index() == final(arena)@.len() - 1,
        final(arena)@[r.0.index()].rule == Rule::Stmt,
        final(arena)@[r.0.index()].tok_start == pos,
        final(arena)@[r.0.index()].tok_end == r.1,
        final(diags)@.len() >= old(diags)@.len(),
        forall|k: int| 0 <= k < old(diags)@.len() ==> final(diags)@[k] == old(diags)@[k],
        forall|k: int|
            old(diags)@.len() <= k < final(diags)@.len() ==> syntax_diag_ok(
                final(diags)@[k]@,
                spans@,
            ),
        stmt_end(tokens@, pos as int) matches Some(p) ==> r.1 == p && final(diags)@.len() == old(
            diags,
        )@.len(),
        stmt_end(tokens@, pos as int) is None ==> final(diags)@.len() > old(diags)@.len(),
    decreases tokens@.len() - pos,
{
    let n = tokens.len();
    proof {
        assert(tokens@[pos as int] != Token::EOF);
        assert(pos < n - 1);
    }
    let (block_ref, after) = parse_block(tokens, spans, pos + 1, arena, diags);
    let nr = arena.allocate(Rule::Stmt, pos, after);
    arena.attach_child(nr, block_ref);
    (nr, after)
}

/// Parses one block at `pos`. If the opening `{` is missing, or the block
/// is left unclosed, an "invalid syntax" diagnostic is appended and the
/// cursor skips to a synchronization point (a statement start, `}`, or end
/// of input), so a recovery node is still produced.
#[verifier::rlimit(100)]
fn parse_block(
    tokens: &Vec<Token>,
    spans: &Vec<Span>,
    pos: usize,
    arena: &mut Arena,
    diags: &mut Vec<Diagnostic>,
) -> (r: (NodeRef, usize))
    requires
        stream_wf(tokens@, spans@),
        pos < tokens@.len(),
        old(arena).wf(),
    ensures
        pos <= r.1 <= tokens@.len() - 1,
        final(arena).wf(),
        final(arena)@.len() > old(arena)@.len(),
        forall|k: int| 0 <= k < old(arena)@.len() ==> final(arena)@[k] == old(arena)@[k],
        r.0.index() == final(arena)@.len() - 1,
        final(arena)@[r.0.index()].rule == Rule::Block,
        final(arena)@[r.0.index()].tok_start == pos,
        final(arena)@[r.0.index()].tok_end == r.1,
        final(diags)@.len() >= old(diags)@.len(),
        forall|k: int| 0 <= k < old(diags)@.len() ==> final(diags)@[k] == old(diags)@[k],
        forall|k: int|
            old(diags)@.len() <= k < final(diags)@.len() ==> syntax_diag_ok(
                final(diags)@[k]@,
                spans@,
            ),
        block_end(tokens@, pos as int) matches Some(p) ==> r.1 == p && final(diags)@.len() == old(
            diags,
        )@.len(),
        block_end(tokens@, pos as int) is None ==> final(diags)@.len() > old(diags)@.len(),
    decreases tokens@.len() - pos,
{
    let ghost t = tokens@;
    let ghost d0 = diags@;
    let ghost a0 = arena@;
    let n = tokens.len();
    if tokens[pos] == Token::LCur {
        proof {
            assert(t[pos as int] != Token::EOF);
            assert(pos < n - 1);
        }
        let mut cur = pos + 1;
        let mut children: Vec<NodeRef> = Vec::new();
        loop
            invariant_except_break
                diags@.len() == d0.len() ==> stmt_list_end(t, pos + 1) == stmt_list_end(
                    t,
                    cur as int,
                ),
            invariant
                stream_wf(t, spans@),
                t == tokens@,
                n == t.len(),
                t[pos as int] == Token::LCur,
                pos + 1 <= cur <= n - 1,
                arena.wf(),
                a0.len() <= arena@.len(),
                forall|k: int| 0 <= k < a0.len() ==> arena@[k] == a0[k],
                forall|k: int|
                    0 <= k < children@.len() ==> {
                        let ci = (#[trigger] children@[k]).index();
                        &&& 0 <= ci < arena@.len()
                        &&& arena@[ci].rule == Rule::Stmt
                        &&& pos + 1 <= arena@[ci].tok_start
                        &&& arena@[ci].tok_end <= cur
                        &&& (k > 0 ==> arena@[children@[k - 1].index()].tok_end
                            <= arena@[ci].tok_start)
                    },
                diags@.len() >= d0.len(),
                forall|k: int| 0 <= k < d0.len() ==> diags@[k] == d0[k],
                forall|k: int|
                    d0.len() <= k < diags@.len() ==> syntax_diag_ok(diags@[k]@, spans@),
                diags@.len() > d0.len() ==> block_end(t, pos as int) is None,
            ensures
                stream_wf(t, spans@),
                t == tokens@,
                n == t.len(),
                pos + 1 <= cur <= n - 1,
                arena.wf(),
                a0.len() <= arena@.len(),
                forall|k: int| 0 <= k < a0.len() ==> arena@[k] == a0[k],
                forall|k: int|
                    0 <= k < children@.len() ==> {
                        let ci = (#[trigger] children@[k]).index();
                        &&& 0 <= ci < arena@.len()
                        &&& arena@[ci].rule == Rule::Stmt
                        &&& pos + 1 <= arena@[ci].tok_start
                        &&& arena@[ci].tok_end <= cur
                        &&& (k > 0 ==> arena@[children@[k - 1].index()].tok_end
                            <= arena@[ci].tok_start)
                    },
                diags@.len() >= d0.len(),
                forall|k: int| 0 <= k < d0.len() ==> diags@[k] == d0[k],
                forall|k: int|
                    d0.len() <= k < diags@.len() ==> syntax_diag_ok(diags@[k]@, spans@),
                diags@.len() == d0.len() ==> block_end(t, pos as int) == Some(cur as int),
                diags@.len() > d0.len() ==> block_end(t, pos as int) is None,
            decreases n - cur,
        {
            let tok = tokens[cur];
            if tok == Token::If || tok == Token::While {
                let ghost dpre = diags@;
                let (nr, newpos) = parse_stmt(tokens, spans, cur, arena, diags);
                children.push(nr);
                proof {
                    lemma_grammar_bounds(t, cur as int);
                    if dpre.len() == d0.len() && diags@.len() == dpre.len() {
                        assert(stmt_end(t, cur as int) == Some(newpos as int));
                        assert(stmt_list_end(t, cur as int) == stmt_list_end(t, newpos as int));
                    }
                    if diags@.len() > dpre.len() {
                        assert(stmt_end(t, cur as int) is None);
                        assert(stmt_list_end(t, cur as int) is None);
                        if dpre.len() == d0.len() {
                            assert(stmt_list_end(t, pos + 1) is None);
                            assert(block_end(t, pos as int) is None);
                        }
                    }
                }
                cur = newpos;
            } else if tok == Token::RCur {
                proof {
                    assert(t[cur as int] != Token::EOF);
                    assert(cur < n - 1);
                    if diags@.len() == d0.len() {
                        assert(!starts_stmt(t[cur as int]));
                        assert(stmt_list_end(t, cur as int) == Some(cur as int));
                        assert(t[pos as int] == Token::LCur);
                        assert(stmt_list_end(t, pos + 1) == Some(cur as int));
                        assert(t[cur as int] == Token::RCur);
                        assert(block_end(t, pos as int) == Some(cur as int + 1));
                    }
                }
                cur = cur + 1;
                break;
            } else {
                // `tok` is `EOF`, `LCur` or `Error`: nothing that can stand
                // here. Report what would be acceptable, then either stop at
                // end of input or skip the stray token.
                proof {
                    if diags@.len() == d0.len() {
                        assert(!starts_stmt(t[cur as int]));
                        assert(stmt_list_end(t, cur as int) == Some(cur as int));
                        assert(t[cur as int] != Token::RCur);
                        assert(block_end(t, pos as int) is None);
                    }
                }
                let mut alts: Vec<String> = Vec::new();
                alts.push(String::from_str("if"));
                alts.push(String::from_str("while"));
                alts.push(String::from_str("}"));
                push_syntax_diag(diags, &alts, spans, cur);
                if tok == Token::EOF {
                    break;
                }
                proof {
                    assert(t[cur as int] != Token::EOF);
                    assert(cur < n - 1);
                }
                cur = cur + 1;
            }
        }
        let end = cur;
        let nr = build_node(arena, Rule::Block, pos, end, &children);
        (nr, end)
    } else {
        // The block does not open with `{`: report it, then resynchronize.
        let mut alts: Vec<String> = Vec::new();
        alts.push(String::from_str("{"));
        push_syntax_diag(diags, &alts, spans, pos);
        let mut cur = pos;
        while tokens[cur] != Token::RCur && tokens[cur] != Token::If && tokens[cur] != Token::While
            && tokens[cur] != Token::EOF
            invariant
                stream_wf(t, spans@),
                t == tokens@,
                n == t.len(),
                pos <= cur <= n - 1,
            decreases n - cur,
        {
            proof {
                assert(t[cur as int] != Token::EOF);
                assert(cur < n - 1);
            }
            cur = cur + 1;
        }
        if tokens[cur] == Token::RCur {
            proof {
                assert(t[cur as int] != Token::EOF);
                assert(cur < n - 1);
            }
            cur = cur + 1;
        }
        let nr = arena.allocate(Rule::Block, pos, cur);
        (nr, cur)
    }
}

/// Parses a whole token sequence into a concrete syntax tree.
///
/// Always returns an arena whose node 0 is the root, labelled `Root` and
/// covering every token but the trailing `EOF`; the arena is well formed,
/// so every node's children nest inside it in source order. Diagnostics are
/// appended exactly when the program is not valid — a valid program parses
/// silently, an invalid one appends at least one "invalid syntax" record,
/// each an error with one primary label on a token span. The parse itself
/// never fails.
pub fn parse(tokens: &Vec<Token>, spans: &Vec<Span>, diags: &mut Vec<Diagnostic>) -> (r: (
    Arena,
    NodeRef,
))
    requires
        stream_wf(tokens@, spans@),
    ensures
        r.1.index() == 0,
        r.0.wf(),
        r.0@.len() >= 1,
        r.0@[0].rule == Rule::Root,
        r.0@[0].tok_start == 0,
        r.0@[0].tok_end == tokens@.len() - 1,
        final(diags)@.len() >= old(diags)@.len(),
        forall|k: int| 0 <= k < old(diags)@.len() ==> final(diags)@[k] == old(diags)@[k],
        forall|k: int|
            old(diags)@.len() <= k < final(diags)@.len() ==> syntax_diag_ok(
                final(diags)@[k]@,
                spans@,
            ),
        program_valid(tokens@) <==> final(diags)@.len() == old(diags)@.len(),
        program_valid(tokens@) ==> r.0@[0].children@.len() == top_stmts(tokens@, 0).len(),
        program_valid(tokens@) ==> forall|k: int|
            0 <= k < top_stmts(tokens@, 0).len() ==> {
                let ci = (#[trigger] r.0@[0].children@[k]).index();
                &&& 0 < ci < r.0@.len()
                &&& r.0@[ci].rule == Rule::Stmt
                &&& r.0@[ci].tok_start as int == top_stmts(tokens@, 0)[k].0
                &&& r.0@[ci].tok_end as int == top_stmts(tokens@, 0)[k].1
            },
{
    let ghost t = tokens@;
    let ghost d0 = diags@;
    let ghost mut done: Seq<(int, int)> = Seq::empty();
    let n = tokens.len();
    let mut arena = Arena::new();
    let root = arena.allocate(Rule::Root, 0, n - 1);
    let mut cur: usize = 0;
    proof {
        assert(done + top_stmts(t, 0) =~= top_stmts(t, 0));
    }
    while cur < n - 1
        invariant
            stream_wf(t, spans@),
            t == tokens@,
            n == t.len(),
            0 <= cur <= n - 1,
            arena.wf(),
            arena@.len() >= 1,
            root.index() == 0,
            arena@[0].rule == Rule::Root,
            arena@[0].tok_start == 0,
            arena@[0].tok_end == n - 1,
            arena@[0].children@.len() > 0 ==> arena@[arena@[0].children@.last().index()].tok_end
                <= cur,
            diags@.len() >= d0.len(),
            forall|k: int| 0 <= k < d0.len() ==> diags@[k] == d0[k],
            forall|k: int| d0.len() <= k < diags@.len() ==> syntax_diag_ok(diags@[k]@, spans@),
            diags@.len() == d0.len() ==> stmt_list_end(t, 0) == stmt_list_end(t, cur as int),
            diags@.len() > d0.len() ==> !program_valid(t),
            diags@.len() == d0.len() ==> top_stmts(t, 0) == done + top_stmts(t, cur as int),
            diags@.len() == d0.len() ==> arena@[0].children@.len() == done.len(),
            diags@.len() == d0.len() ==> forall|k: int|
                0 <= k < done.len() ==> {
                    let ci = (#[trigger] arena@[0].children@[k]).index();
                    &&& 0 < ci < arena@.len()
                    &&& arena@[ci].rule == Rule::Stmt
                    &&& arena@[ci].tok_start as int == done[k].0
                    &&& arena@[ci].tok_end as int == done[k].1
                },
        decreases n - cur,
    {
        let tok = tokens[cur];
        if tok == Token::If || tok == Token::While {
            let ghost dpre = diags@;
            let ghost apre = arena@;
            let (nr, newpos) = parse_stmt(tokens, spans, cur, &mut arena, diags);
            proof {
                assert(arena@[0] == apre[0]);
                if apre[0].children@.len() > 0 {
                    assert(crate::arena::node_wf(apre, apre[0]));
                    assert(crate::arena::child_ok(apre, apre[0], apre[0].children@.len() - 1));
                    let li = apre[0].children@.last().index();
                    assert(arena@[li] == apre[li]);
                }
            }
            arena.attach_child(root, nr);
            proof {
                lemma_grammar_bounds(t, cur as int);
                if dpre.len() == d0.len() && diags@.len() == dpre.len() {
                    assert(stmt_end(t, cur as int) == Some(newpos as int));
                    assert(stmt_list_end(t, cur as int) == stmt_list_end(t, newpos as int));
                    assert(top_stmts(t, cur as int) == seq![(cur as int, newpos as int)]
                        + top_stmts(t, newpos as int));
                    let done2 = done.push((cur as int, newpos as int));
                    assert(done + top_stmts(t, cur as int) =~= done2 + top_stmts(
                        t,
                        newpos as int,
                    ));
                    assert(arena@[0].children@ == apre[0].children@.push(nr));
                    assert forall|k: int| 0 <= k < done2.len() implies {
                        let ci = (#[trigger] arena@[0].children@[k]).index();
                        &&& 0 < ci < arena@.len()
                        &&& arena@[ci].rule == Rule::Stmt
                        &&& arena@[ci].tok_start as int == done2[k].0
                        &&& arena@[ci].tok_end as int == done2[k].1
                    } by {
                        if k < done2.len() - 1 {
                            assert(arena@[0].children@[k] == apre[0].children@[k]);
                        } else {
                            assert(arena@[0].children@[k] == nr);
                        }
                    }
                    done = done2;
                }
                if diags@.len() > dpre.len() {
                    assert(stmt_end(t, cur as int) is None);
                    assert(stmt_list_end(t, cur as int) is None);
                    if dpre.len() == d0.len() {
                        assert(stmt_list_end(t, 0) is None);
                        assert(!program_valid(t));
                    }
                }
            }
            cur = newpos;
        } else {
            // A token that cannot start a statement at top level: report it
            // and skip it.
            proof {
                if diags@.len() == d0.len() {
                    assert(!starts_stmt(t[cur as int]));
                    assert(stmt_list_end(t, cur as int) == Some(cur as int));
                    assert(stmt_list_end(t, 0) == Some(cur as int));
                    assert(cur as int != t.len() - 1);
                    assert(!program_valid(t));
                }
            }
            let mut alts: Vec<String> = Vec::new();
            alts.push(String::from_str("if"));
            alts.push(String::from_str("while"));
            push_syntax_diag(diags, &alts, spans, cur);
            cur = cur + 1;
        }
    }
    proof {
        if diags@.len() == d0.len() {
            assert(!starts_stmt(t[cur as int]));
            assert(stmt_list_end(t, cur as int) == Some(cur as int));
            assert(program_valid(t));
            assert(top_stmts(t, cur as int) =~= Seq::<(int, int)>::empty());
            assert(top_stmts(t, 0) =~= done);
        }
    }
    (arena, root)
}

/// Runs the whole front end over a source buffer: classification, then
/// parsing. Returns the token and span sequences, the arena, and the root
/// node. The sink stays exactly as it was if and only if the buffer has no
/// unrecognized lexeme and forms a valid program.
pub fn parse_source(src: &[u8], diags: &mut Vec<Diagnostic>) -> (r: (
    Vec<Token>,
    Vec<Span>,
    Arena,
    NodeRef,
))
    ensures
        r.0@ == toks_of(spec_tokenize(src@)),
        r.1@ == spans_of(spec_tokenize(src@)),
        stream_wf(r.0@, r.1@),
        r.3.index() == 0,
        r.2.wf(),
        r.2@.len() >= 1,
        r.2@[0].rule == Rule::Root,
        r.2@[0].tok_start == 0,
        r.2@[0].tok_end == r.0@.len() - 1,
        final(diags)@.len() >= old(diags)@.len(),
        forall|k: int| 0 <= k < old(diags)@.len() ==> final(diags)@[k] == old(diags)@[k],
        final(diags)@.len() == old(diags)@.len() <==> (lex_diags(spec_tokenize(src@)).len() == 0
            && program_valid(toks_of(spec_tokenize(src@)))),
{
    let ghost d0 = diags@;
    let (tokens, spans) = tokenize(src, diags);
    proof {
        assert(diags_view(diags@).len() == diags@.len());
        assert(diags_view(d0).len() == d0.len());
        assert(diags@.len() == d0.len() + lex_diags(spec_tokenize(src@)).len());
    }
    let (arena, root) = parse(&tokens, &spans, diags);
    (tokens, spans, arena, root)
}

} // verus!
