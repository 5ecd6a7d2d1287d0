//! Error-tolerant token classification.
//!
//! The classifier scans a byte buffer left to right, picking the longest
//! fixed pattern that matches at the current position. A run of bytes that
//! matches no pattern becomes one `Error` token (never stopping the pass),
//! with an "invalid token" diagnostic per run. The output always ends in an
//! `EOF` token whose empty span sits at the end of the buffer.

use vstd::prelude::*;
use vstd::string::*;
use crate::span::Span;
use crate::diagnostics::{Diagnostic, DiagnosticModel, diags_view, error_diag};

verus! {

/// The closed set of token tags. Tokens carry no payload: the text of a
/// token is looked up through its span in the parallel span sequence.
#[allow(clippy::upper_case_acronyms)]
#[derive(Debug, PartialEq, Eq, Copy, Clone, Structural)]
pub enum Token {
    /// End of the buffer; always the final token of a classification.
    EOF,
    If,
    While,
    LCur,
    RCur,
    /// A contiguous lexeme that matches no pattern.
    Error,
}

/// The ways a lexeme can fail classification.
#[derive(Debug, Clone, PartialEq, Eq, Default, Structural)]
pub enum LexerError {
    #[default]
    Invalid,
}

impl LexerError {
    /// The diagnostic record for this lexical error, anchored on the
    /// offending span.
    pub fn into_diagnostic(self, span: Span) -> (d: Diagnostic)
        ensures
            d@ == error_diag("invalid token"@, span),
    {
        match self {
            LexerError::Invalid => Diagnostic::error(String::from_str("invalid token"), span),
        }
    }
}

/// The bytes of the fixed token patterns, as ASCII codes.
pub const BYTE_W: u8 = 119;

pub const BYTE_H: u8 = 104;

pub const BYTE_I: u8 = 105;

pub const BYTE_L: u8 = 108;

pub const BYTE_E: u8 = 101;

pub const BYTE_F: u8 = 102;

pub const BYTE_LCUR: u8 = 123;

pub const BYTE_RCUR: u8 = 125;

/// Longest-match classification at position `i`: the token whose pattern
/// matches there and the length of the match, or `None` if no pattern does.
pub open spec fn match_at(s: Seq<u8>, i: int) -> Option<(Token, usize)> {
    if 0 <= i && i + 5 <= s.len() && s[i] == BYTE_W && s[i + 1] == BYTE_H && s[i + 2] == BYTE_I
        && s[i + 3] == BYTE_L && s[i + 4] == BYTE_E {
        Some((Token::While, 5usize))
    } else if 0 <= i && i + 2 <= s.len() && s[i] == BYTE_I && s[i + 1] == BYTE_F {
        Some((Token::If, 2usize))
    } else if 0 <= i && i < s.len() && s[i] == BYTE_LCUR {
        Some((Token::LCur, 1usize))
    } else if 0 <= i && i < s.len() && s[i] == BYTE_RCUR {
        Some((Token::RCur, 1usize))
    } else {
        None
    }
}

/// The length of the contiguous unrecognized lexeme starting at `i`: how
/// many bytes pass before a position where some pattern matches (or the
/// buffer ends).
pub open spec fn error_run_len(s: Seq<u8>, i: int) -> nat
    decreases s.len() - i,
{
    if i < 0 || i >= s.len() || match_at(s, i) is Some {
        0
    } else {
        1 + error_run_len(s, i + 1)
    }
}

/// The token/span pairs produced from position `i` to the end of the
/// buffer, ending in the `EOF` marker with an empty span at end-of-buffer.
pub open spec fn spec_tokenize_from(s: Seq<u8>, i: int) -> Seq<(Token, Span)>
    decreases s.len() - i,
        via spec_tokenize_from_decreases
{
    if i < 0 || i >= s.len() {
        seq![(Token::EOF, Span { start: s.len() as usize, end: s.len() as usize })]
    } else {
        match match_at(s, i) {
            Some(tl) => seq![
                (tl.0, Span { start: i as usize, end: (i + tl.1) as usize }),
            ] + spec_tokenize_from(s, i + tl.1),
            None => {
                let e = error_run_len(s, i);
                seq![
                    (Token::Error, Span { start: i as usize, end: (i + e) as usize }),
                ] + spec_tokenize_from(s, i + e)
            },
        }
    }
}

#[via_fn]
proof fn spec_tokenize_from_decreases(s: Seq<u8>, i: int) {
    if 0 <= i && i < s.len() && match_at(s, i) is None {
        lemma_error_run_bound(s, i);
    }
}

/// The whole classification of a buffer, as token/span pairs.
pub open spec fn spec_tokenize(s: Seq<u8>) -> Seq<(Token, Span)> {
    spec_tokenize_from(s, 0)
}

pub open spec fn toks_of(ps: Seq<(Token, Span)>) -> Seq<Token> {
    ps.map_values(|p: (Token, Span)| p.0)
}

pub open spec fn spans_of(ps: Seq<(Token, Span)>) -> Seq<Span> {
    ps.map_values(|p: (Token, Span)| p.1)
}

/// The diagnostics a classification appends: one "invalid token" record per
/// `Error` token, in emission order.
pub open spec fn lex_diags(ps: Seq<(Token, Span)>) -> Seq<DiagnosticModel>
    decreases ps.len(),
{
    if ps.len() == 0 {
        Seq::empty()
    } else if ps[0].0 == Token::Error {
        seq![error_diag("invalid token"@, ps[0].1)] + lex_diags(ps.drop_first())
    } else {
        lex_diags(ps.drop_first())
    }
}

pub proof fn lemma_lex_diags_concat(a: Seq<(Token, Span)>, b: Seq<(Token, Span)>)
    ensures
        lex_diags(a + b) =~= lex_diags(a) + lex_diags(b),
    decreases a.len(),
{
    if a.len() == 0 {
        assert(a + b =~= b);
        assert(lex_diags(a) =~= Seq::<DiagnosticModel>::empty());
    } else {
        assert((a + b).drop_first() =~= a.drop_first() + b);
        assert((a + b)[0] == a[0]);
        lemma_lex_diags_concat(a.drop_first(), b);
    }
}

/// A well-formed classification result: the two sequences are parallel, the
/// final token is `EOF`, and `EOF` appears nowhere else.
pub open spec fn stream_wf(t: Seq<Token>, sp: Seq<Span>) -> bool {
    &&& t.len() == sp.len()
    &&& t.len() >= 1
    &&& t[t.len() - 1] == Token::EOF
    &&& forall|j: int| 0 <= j < t.len() - 1 ==> t[j] != Token::EOF
}

/// Structural facts about the classification from position `i`: it is
/// nonempty, ends in `EOF` at end-of-buffer (and only there), and its spans
/// are ordered and tile the buffer from `i` to the end without gap or
/// overlap.
pub proof fn lemma_tokens_from_wf(s: Seq<u8>, i: int)
    requires
        0 <= i <= s.len(),
        s.len() <= usize::MAX,
    ensures
        spec_tokenize_from(s, i).len() >= 1,
        spec_tokenize_from(s, i).last() == (
            Token::EOF,
            Span { start: s.len() as usize, end: s.len() as usize },
        ),
        forall|j: int|
            0 <= j < spec_tokenize_from(s, i).len() - 1 ==> spec_tokenize_from(s, i)[j].0
                != Token::EOF,
        spec_tokenize_from(s, i)[0].1.start == i,
        forall|j: int|
            0 <= j < spec_tokenize_from(s, i).len() ==> (#[trigger] spec_tokenize_from(s, i)[j]).1.start
                <= spec_tokenize_from(s, i)[j].1.end <= s.len(),
        forall|j: int|
            0 <= j < spec_tokenize_from(s, i).len() - 1 ==> spec_tokenize_from(s, i)[j].1.end
                == spec_tokenize_from(s, i)[j + 1].1.start,
    decreases s.len() - i,
{
    let ps = spec_tokenize_from(s, i);
    if i >= s.len() {
    } else {
        let l: int = match match_at(s, i) {
            Some(tl) => tl.1 as int,
            None => error_run_len(s, i) as int,
        };
        lemma_error_run_bound(s, i);
        assert(1 <= l && i + l <= s.len());
        lemma_tokens_from_wf(s, i + l);
        let rest = spec_tokenize_from(s, i + l);
        assert(ps == seq![ps[0]] + rest);
        assert(forall|j: int| 1 <= j < ps.len() ==> ps[j] == rest[j - 1]);
        assert(ps[0].1.end == i + l == rest[0].1.start);
    }
}

/// The error run starting inside the buffer is at least one byte and never
/// runs past the end.
pub proof fn lemma_error_run_bound(s: Seq<u8>, i: int)
    requires
        0 <= i <= s.len(),
    ensures
        i + error_run_len(s, i) <= s.len(),
        i < s.len() && match_at(s, i) is None ==> error_run_len(s, i) >= 1,
    decreases s.len() - i,
{
    if i < s.len() && match_at(s, i) is None {
        lemma_error_run_bound(s, i + 1);
    }
}

/// The exact length of an error run, from a scan that found its end.
proof fn lemma_error_run_val(s: Seq<u8>, i: int, j: int)
    requires
        0 <= i <= j <= s.len(),
        forall|k: int| i <= k < j ==> match_at(s, k) is None,
        j == s.len() || match_at(s, j) is Some,
    ensures
        error_run_len(s, i) == j - i,
    decreases j - i,
{
    if i < j {
        lemma_error_run_val(s, i + 1, j);
    }
}

/// Span starts are non-decreasing across any distance, not only between
/// neighbours.
pub proof fn lemma_span_chain(ps: Seq<(Token, Span)>, a: int, b: int)
    requires
        forall|j: int| 0 <= j < ps.len() ==> ps[j].1.start <= ps[j].1.end,
        forall|j: int| 0 <= j < ps.len() - 1 ==> ps[j].1.end == ps[j + 1].1.start,
        0 <= a <= b < ps.len(),
    ensures
        ps[a].1.start <= ps[b].1.start,
    decreases b - a,
{
    if a < b {
        lemma_span_chain(ps, a + 1, b);
    }
}

/// Classification is a function of the buffer alone: two classifications of
/// the same buffer agree on tokens, spans and diagnostics. No hidden state
/// affects the output.
pub proof fn lemma_tokenize_deterministic(
    s: Seq<u8>,
    t1: Seq<Token>,
    sp1: Seq<Span>,
    d1: Seq<DiagnosticModel>,
    t2: Seq<Token>,
    sp2: Seq<Span>,
    d2: Seq<DiagnosticModel>,
)
    requires
        t1 == toks_of(spec_tokenize(s)),
        sp1 == spans_of(spec_tokenize(s)),
        d1 == lex_diags(spec_tokenize(s)),
        t2 == toks_of(spec_tokenize(s)),
        sp2 == spans_of(spec_tokenize(s)),
        d2 == lex_diags(spec_tokenize(s)),
    ensures
        t1 == t2,
        sp1 == sp2,
        d1 == d2,
{
}

/// The concatenation of the byte slices named by a span sequence.
pub open spec fn concat_slices(s: Seq<u8>, spans: Seq<Span>) -> Seq<u8>
    decreases spans.len(),
{
    if spans.len() == 0 {
        Seq::empty()
    } else {
        s.subrange(spans[0].start as int, spans[0].end as int) + concat_slices(
            s,
            spans.drop_first(),
        )
    }
}

proof fn lemma_round_trip_from(s: Seq<u8>, i: int)
    requires
        0 <= i <= s.len(),
        s.len() <= usize::MAX,
    ensures
        concat_slices(s, spans_of(spec_tokenize_from(s, i))) =~= s.subrange(i, s.len() as int),
    decreases s.len() - i,
{
    let ps = spec_tokenize_from(s, i);
    let spans = spans_of(ps);
    if i >= s.len() {
        assert(spans =~= seq![Span { start: s.len() as usize, end: s.len() as usize }]);
        assert(spans.drop_first() =~= Seq::<Span>::empty());
        assert(concat_slices(s, spans.drop_first()) =~= Seq::<u8>::empty());
        assert(concat_slices(s, spans) =~= s.subrange(i, s.len() as int));
    } else {
        let l: int = match match_at(s, i) {
            Some(tl) => tl.1 as int,
            None => error_run_len(s, i) as int,
        };
        lemma_error_run_bound(s, i);
        assert(1 <= l && i + l <= s.len());
        lemma_round_trip_from(s, i + l);
        let rest = spec_tokenize_from(s, i + l);
        assert(ps == seq![ps[0]] + rest);
        assert(spans[0] == ps[0].1);
        assert(spans[0].start as int == i && spans[0].end as int == i + l);
        assert(spans.drop_first() =~= spans_of(rest));
        assert(s.subrange(i, i + l) + s.subrange(i + l, s.len() as int) =~= s.subrange(
            i,
            s.len() as int,
        ));
        assert(concat_slices(s, spans) == s.subrange(i, i + l) + concat_slices(
            s,
            spans.drop_first(),
        ));
        assert(concat_slices(s, spans) =~= s.subrange(i, s.len() as int));
    }
}

/// Round trip: the source text sliced by each token's span, concatenated in
/// order, reconstructs the original buffer. Classification neither drops
/// nor duplicates a byte.
pub proof fn lemma_round_trip(s: Seq<u8>)
    requires
        s.len() <= usize::MAX,
    ensures
        concat_slices(s, spans_of(spec_tokenize(s))) == s,
{
    lemma_round_trip_from(s, 0);
    assert(s.subrange(0, s.len() as int) =~= s);
}

/// Longest-match classification at one position.
fn match_token_at(src: &[u8], i: usize) -> (r: Option<(Token, usize)>)
    requires
        i < src@.len(),
    ensures
        r == match_at(src@, i as int),
{
    let n = src.len();
    if n - i >= 5 && src[i] == BYTE_W && src[i + 1] == BYTE_H && src[i + 2] == BYTE_I
        && src[i + 3] == BYTE_L && src[i + 4] == BYTE_E {
        Some((Token::While, 5))
    } else if n - i >= 2 && src[i] == BYTE_I && src[i + 1] == BYTE_F {
        Some((Token::If, 2))
    } else if src[i] == BYTE_LCUR {
        Some((Token::LCur, 1))
    } else if src[i] == BYTE_RCUR {
        Some((Token::RCur, 1))
    } else {
        None
    }
}

/// Finds the end of the contiguous unrecognized lexeme starting at `i`.
fn scan_error_run(src: &[u8], i: usize) -> (j: usize)
    requires
        i < src@.len(),
        match_at(src@, i as int) is None,
    ensures
        j as int == i + error_run_len(src@, i as int),
        i < j <= src@.len(),
{
    let n = src.len();
    let mut j = i + 1;
    while j < n && match_token_at(src, j).is_none()
        invariant
            n == src@.len(),
            i < j <= n,
            forall|k: int| i <= k < j ==> match_at(src@, k) is None,
        decreases n - j,
    {
        j = j + 1;
    }
    proof {
        lemma_error_run_val(src@, i as int, j as int);
    }
    j
}

/// Classifies a whole buffer.
///
/// Always terminates and always returns two parallel sequences of equal
/// length ending in `EOF`; every span is ordered (`start <= end`), spans are
/// non-decreasing in start across the sequence, and one "invalid token"
/// diagnostic is appended per `Error` token. The worst input yields a
/// sequence full of `Error` tokens, never a failure.
pub fn tokenize(src: &[u8], diags: &mut Vec<Diagnostic>) -> (r: (Vec<Token>, Vec<Span>))
    ensures
        r.0@ == toks_of(spec_tokenize(src@)),
        r.1@ == spans_of(spec_tokenize(src@)),
        diags_view(final(diags)@) == diags_view(old(diags)@) + lex_diags(spec_tokenize(src@)),
        final(diags)@.len() == old(diags)@.len() + lex_diags(spec_tokenize(src@)).len(),
        forall|k: int| 0 <= k < old(diags)@.len() ==> final(diags)@[k] == old(diags)@[k],
        stream_wf(r.0@, r.1@),
        r.0@.len() == r.1@.len(),
        forall|j: int| 0 <= j < r.1@.len() ==> r.1@[j].wf() && r.1@[j].end <= src@.len(),
        forall|a: int, b: int| 0 <= a <= b < r.1@.len() ==> r.1@[a].start <= r.1@[b].start,
        r.1@.last() == (Span { start: src@.len() as usize, end: src@.len() as usize }),
{
    let n = src.len();
    let mut tokens: Vec<Token> = Vec::new();
    let mut spans: Vec<Span> = Vec::new();
    let ghost mut emitted: Seq<(Token, Span)> = Seq::empty();
    proof {
        assert(emitted + spec_tokenize_from(src@, 0) =~= spec_tokenize(src@));
    }
    let mut i: usize = 0;
    while i < n
        invariant
            n == src@.len(),
            i <= n,
            spec_tokenize(src@) == emitted + spec_tokenize_from(src@, i as int),
            tokens@ == toks_of(emitted),
            spans@ == spans_of(emitted),
            diags_view(diags@) == diags_view(old(diags)@) + lex_diags(emitted),
            diags@.len() == old(diags)@.len() + lex_diags(emitted).len(),
            forall|k: int| 0 <= k < old(diags)@.len() ==> diags@[k] == old(diags)@[k],
        decreases n - i,
    {
        let ghost before: Seq<(Token, Span)> = emitted;
        let step = match_token_at(src, i);
        match step {
            Some(tl) => {
                let (t, l) = tl;
                proof {
                    assert(i + l <= n);
                }
                let sp = Span { start: i, end: i + l };
                tokens.push(t);
                spans.push(sp);
                proof {
                    let pair = (t, sp);
                    assert(spec_tokenize_from(src@, i as int) == seq![pair]
                        + spec_tokenize_from(src@, i + l));
                    emitted = emitted.push(pair);
                    assert(emitted =~= before + seq![pair]);
                    assert(spec_tokenize(src@) =~= emitted + spec_tokenize_from(src@, i + l));
                    assert(tokens@ =~= toks_of(emitted));
                    assert(spans@ =~= spans_of(emitted));
                    lemma_lex_diags_concat(before, seq![pair]);
                    assert(t != Token::Error);
                    assert(seq![pair].drop_first() =~= Seq::<(Token, Span)>::empty());
                    assert(lex_diags(Seq::<(Token, Span)>::empty())
                        =~= Seq::<DiagnosticModel>::empty());
                    assert(lex_diags(seq![pair]) =~= Seq::<DiagnosticModel>::empty());
                    assert(lex_diags(emitted) =~= lex_diags(before));
                    assert(diags_view(diags@) =~= diags_view(old(diags)@) + lex_diags(emitted));
                }
                i = i + l;
            },
            None => {
                let j = scan_error_run(src, i);
                let sp = Span { start: i, end: j };
                tokens.push(Token::Error);
                spans.push(sp);
                let d = LexerError::Invalid.into_diagnostic(sp);
                let ghost dbefore: Seq<Diagnostic> = diags@;
                diags.push(d);
                proof {
                    let pair = (Token::Error, sp);
                    assert(spec_tokenize_from(src@, i as int) == seq![pair]
                        + spec_tokenize_from(src@, j as int));
                    emitted = emitted.push(pair);
                    assert(emitted =~= before + seq![pair]);
                    assert(spec_tokenize(src@) =~= emitted + spec_tokenize_from(src@, j as int));
                    assert(tokens@ =~= toks_of(emitted));
                    assert(spans@ =~= spans_of(emitted));
                    lemma_lex_diags_concat(before, seq![pair]);
                    assert(seq![pair].drop_first() =~= Seq::<(Token, Span)>::empty());
                    assert(lex_diags(Seq::<(Token, Span)>::empty())
                        =~= Seq::<DiagnosticModel>::empty());
                    assert(lex_diags(seq![pair]) =~= seq![error_diag("invalid token"@, sp)]);
                    assert(lex_diags(emitted) =~= lex_diags(before).push(
                        error_diag("invalid token"@, sp),
                    ));
                    crate::diagnostics::lemma_diags_view_push(dbefore, diags@.last());
                    assert(diags@ == dbefore.push(diags@.last()));
                    assert(diags@.last()@ == error_diag("invalid token"@, sp));
                    assert(diags_view(diags@) =~= diags_view(dbefore).push(
                        error_diag("invalid token"@, sp),
                    ));
                    assert(diags_view(diags@) =~= diags_view(old(diags)@) + lex_diags(emitted));
                }
                i = j;
            },
        }
    }
    let ghost before_eof: Seq<(Token, Span)> = emitted;
    tokens.push(Token::EOF);
    spans.push(Span { start: n, end: n });
    proof {
        let pair = (Token::EOF, Span { start: n, end: n });
        assert(spec_tokenize_from(src@, i as int) == seq![pair]);
        emitted = emitted.push(pair);
        assert(emitted =~= before_eof + seq![pair]);
        assert(emitted =~= spec_tokenize(src@));
        assert(tokens@ =~= toks_of(emitted));
        assert(spans@ =~= spans_of(emitted));
        lemma_lex_diags_concat(before_eof, seq![pair]);
        assert(seq![pair].drop_first() =~= Seq::<(Token, Span)>::empty());
        assert(lex_diags(Seq::<(Token, Span)>::empty()) =~= Seq::<DiagnosticModel>::empty());
        assert(lex_diags(seq![pair]) =~= Seq::<DiagnosticModel>::empty());
        assert(lex_diags(emitted) =~= lex_diags(before_eof));
        assert(diags_view(diags@) =~= diags_view(old(diags)@) + lex_diags(emitted));
        lemma_tokens_from_wf(src@, 0);
        let ps = spec_tokenize(src@);
        assert forall|a: int, b: int|
            0 <= a <= b < spans@.len() implies spans@[a].start <= spans@[b].start by {
            lemma_span_chain(ps, a, b);
        }
        assert(stream_wf(tokens@, spans@));
    }
    (tokens, spans)
}

} // verus!
