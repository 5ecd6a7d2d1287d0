//! Diagnostic records: ordered error/warning entries with labelled spans.
//!
//! The sink for one parse session is a `Vec<Diagnostic>`: the tokenizer and
//! the parser only ever append to it, and every record is immutable once
//! created. Rendering a record (colors, source excerpts) is an external
//! collaborator's job; this module owns only the data and the wording of
//! "invalid syntax" messages.

use vstd::prelude::*;
use vstd::string::*;
use crate::span::Span;

verus! {

#[derive(Clone, Copy, Debug, PartialEq, Eq, Structural)]
pub enum Severity {
    Error,
    Warning,
}

/// Distinguishes the label pointing at the problem itself from labels that
/// only give related context.
#[derive(Clone, Copy, Debug, PartialEq, Eq, Structural)]
pub enum LabelRole {
    Primary,
    Secondary,
}

/// One labelled source location inside a diagnostic.
#[derive(Clone, Debug, PartialEq)]
pub struct Label {
    pub role: LabelRole,
    pub span: Span,
    pub note: Option<String>,
}

/// One immutable diagnostic record: a severity, a message, and an ordered
/// list of labels anchoring it in the source.
#[derive(Clone, Debug, PartialEq)]
pub struct Diagnostic {
    pub severity: Severity,
    pub message: String,
    pub labels: Vec<Label>,
}

/// Mathematical model of a `Label`.
#[verifier::ext_equal]
pub ghost struct LabelModel {
    pub role: LabelRole,
    pub span: Span,
    pub note: Option<Seq<char>>,
}

/// Mathematical model of a `Diagnostic`.
#[verifier::ext_equal]
pub ghost struct DiagnosticModel {
    pub severity: Severity,
    pub message: Seq<char>,
    pub labels: Seq<LabelModel>,
}

impl View for Label {
    type V = LabelModel;

    open spec fn view(&self) -> LabelModel {
        LabelModel {
            role: self.role,
            span: self.span,
            note: match self.note {
                Some(n) => Some(n@),
                None => None,
            },
        }
    }
}

pub open spec fn labels_view(ls: Seq<Label>) -> Seq<LabelModel> {
    ls.map_values(|l: Label| l@)
}

impl View for Diagnostic {
    type V = DiagnosticModel;

    open spec fn view(&self) -> DiagnosticModel {
        DiagnosticModel {
            severity: self.severity,
            message: self.message@,
            labels: labels_view(self.labels@),
        }
    }
}

/// The model of a whole diagnostic sink.
pub open spec fn diags_view(ds: Seq<Diagnostic>) -> Seq<DiagnosticModel> {
    ds.map_values(|d: Diagnostic| d@)
}

pub proof fn lemma_diags_view_push(ds: Seq<Diagnostic>, d: Diagnostic)
    ensures
        diags_view(ds.push(d)) =~= diags_view(ds).push(d@),
{
}

/// An error diagnostic with the given message and a single primary label.
pub open spec fn error_diag(message: Seq<char>, primary: Span) -> DiagnosticModel {
    DiagnosticModel {
        severity: Severity::Error,
        message,
        labels: seq![LabelModel { role: LabelRole::Primary, span: primary, note: None }],
    }
}

impl Diagnostic {
    /// Builds an error record with one primary label and no note.
    pub fn error(message: String, primary: Span) -> (d: Diagnostic)
        ensures
            d@ == error_diag(message@, primary),
    {
        let mut labels: Vec<Label> = Vec::new();
        labels.push(Label { role: LabelRole::Primary, span: primary, note: None });
        let d = Diagnostic { severity: Severity::Error, message, labels };
        proof {
            assert(d@.labels =~= error_diag(d.message@, primary).labels);
            assert(d@ =~= error_diag(d.message@, primary));
        }
        d
    }
}

/// How one syntactic alternative is rendered inside an "invalid syntax"
/// message: terminal spellings are quoted, while placeholder names already
/// written `<like this>` stay as they are.
pub open spec fn quoted_alt(a: Seq<char>) -> Seq<char> {
    if a.len() > 2 && a[0] == '<' && a[a.len() - 1] == '>' {
        a
    } else {
        seq!['\''] + a + seq!['\'']
    }
}

/// The rendered alternatives from index `i` on, joined by ", ".
pub open spec fn rendered_alts(alts: Seq<Seq<char>>, i: int) -> Seq<char>
    decreases alts.len() - i,
{
    if i < 0 || i >= alts.len() {
        Seq::empty()
    } else if i == alts.len() - 1 {
        quoted_alt(alts[i])
    } else {
        quoted_alt(alts[i]) + ", "@ + rendered_alts(alts, i + 1)
    }
}

/// The full wording of an "unexpected token" message for the given set of
/// syntactically acceptable alternatives.
pub open spec fn expected_message_view(alts: Seq<Seq<char>>) -> Seq<char> {
    if alts.len() == 1 {
        "invalid syntax, expected: "@ + rendered_alts(alts, 0)
    } else {
        "invalid syntax, expected one of: "@ + rendered_alts(alts, 0)
    }
}

pub open spec fn strings_view(s: Seq<String>) -> Seq<Seq<char>> {
    s.map_values(|a: String| a@)
}

/// Appends one rendered alternative to `msg`.
fn push_quoted(msg: &mut String, alt: &String)
    ensures
        final(msg)@ == old(msg)@ + quoted_alt(alt@),
{
    let n = alt.as_str().unicode_len();
    if n > 2 && alt.as_str().get_char(0) == '<' && alt.as_str().get_char(n - 1) == '>' {
        msg.append(alt.as_str());
    } else {
        proof {
            reveal_strlit("'");
            assert("'"@ =~= seq!['\'']);
        }
        msg.append("'");
        msg.append(alt.as_str());
        msg.append("'");
        proof {
            assert(msg@ =~= old(msg)@ + quoted_alt(alt@));
        }
    }
}

/// Builds the message of an "unexpected token" diagnostic: one alternative
/// gives `invalid syntax, expected: 'a'`, several give
/// `invalid syntax, expected one of: 'a', 'b'`.
pub fn expected_message(alts: &Vec<String>) -> (msg: String)
    requires
        alts@.len() >= 1,
    ensures
        msg@ == expected_message_view(strings_view(alts@)),
{
    let ghost v: Seq<Seq<char>> = strings_view(alts@);
    let mut msg = String::new();
    if alts.len() == 1 {
        msg.append("invalid syntax, expected: ");
    } else {
        msg.append("invalid syntax, expected one of: ");
    }
    proof {
        assert(msg@ + rendered_alts(v, 0) =~= expected_message_view(v));
    }
    let n = alts.len();
    let mut i: usize = 0;
    while i < n
        invariant
            n == alts@.len(),
            v == strings_view(alts@),
            i <= n,
            msg@ + rendered_alts(v, i as int) =~= expected_message_view(v),
        decreases n - i,
    {
        let ghost before: Seq<char> = msg@;
        push_quoted(&mut msg, &alts[i]);
        assert(v[i as int] == alts@[i as int]@);
        if i + 1 < n {
            msg.append(", ");
            proof {
                assert(msg@ + rendered_alts(v, i + 1) =~= before + rendered_alts(v, i as int));
            }
        } else {
            proof {
                assert(rendered_alts(v, i as int) == quoted_alt(v[i as int]));
                assert(msg@ + rendered_alts(v, i + 1) =~= before + rendered_alts(v, i as int));
            }
        }
        i = i + 1;
    }
    proof {
        assert(msg@ =~= msg@ + rendered_alts(v, n as int));
    }
    msg
}

} // verus!
