use std::ops::Range;
use vstd::prelude::*;

use crate::ast::{Type, TypeView};

verus! {

/// What a diagnostic reports.
#[derive(Debug)]
pub enum DiagnosticKind {
    /// A value of type `given` stands where `expected` is required.
    TypeMismatch { expected: Type, given: Type },
    /// An error from outside the type system (here: compile-time Lua macros).
    IoError { message: String, help: Option<String> },
    /// The lexer met bytes that form no token.
    InvalidToken,
}

/// The mathematical value of a [`DiagnosticKind`].
pub enum DiagnosticKindView {
    TypeMismatch { expected: TypeView, given: TypeView },
    IoError { message: Seq<char>, help: Option<Seq<char>> },
    InvalidToken,
}

impl View for DiagnosticKind {
    type V = DiagnosticKindView;

    open spec fn view(&self) -> DiagnosticKindView {
        match self {
            DiagnosticKind::TypeMismatch { expected, given } => DiagnosticKindView::TypeMismatch {
                expected: expected@,
                given: given@,
            },
            DiagnosticKind::IoError { message, help } => DiagnosticKindView::IoError {
                message: message@,
                help: match help {
                    Some(h) => Some(h@),
                    None => None,
                },
            },
            DiagnosticKind::InvalidToken => DiagnosticKindView::InvalidToken,
        }
    }
}

/// A diagnostic: what went wrong, and the source bytes it is about.
#[derive(Debug)]
pub struct Diagnostic {
    pub kind: DiagnosticKind,
    pub span: Range<usize>,
}

/// The mathematical value of a [`Diagnostic`].
pub struct DiagnosticView {
    pub kind: DiagnosticKindView,
    pub start: int,
    pub end: int,
}

impl View for Diagnostic {
    type V = DiagnosticView;

    open spec fn view(&self) -> DiagnosticView {
        DiagnosticView { kind: self.kind@, start: self.span.start as int, end: self.span.end as int }
    }
}

/// The views of a sequence of diagnostics.
pub open spec fn diagnostics_view(ds: Seq<Diagnostic>) -> Seq<DiagnosticView> {
    ds.map_values(|d: Diagnostic| d@)
}

pub proof fn lemma_diagnostics_view_concat(a: Seq<Diagnostic>, b: Seq<Diagnostic>)
    ensures
        diagnostics_view(a + b) == diagnostics_view(a) + diagnostics_view(b),
{
    assert(diagnostics_view(a + b) =~= diagnostics_view(a) + diagnostics_view(b));
}

/// The diagnostics of one sprite, and the text of the sprite's translation unit,
/// which spans refer to.
#[derive(Debug)]
pub struct SpriteDiagnostics {
    pub text: Vec<u8>,
    pub diagnostics: Vec<Diagnostic>,
}

impl SpriteDiagnostics {
    /// No diagnostics yet for the text.
    pub fn new(text: Vec<u8>) -> (d: Self)
        ensures
            d.text == text,
            d.diagnostics@.len() == 0,
    {
        SpriteDiagnostics { text, diagnostics: Vec::new() }
    }

    /// Records one diagnostic.
    pub fn report(&mut self, kind: DiagnosticKind, span: Range<usize>)
        ensures
            final(self).text == old(self).text,
            diagnostics_view(final(self).diagnostics@) == diagnostics_view(
                old(self).diagnostics@,
            ).push(DiagnosticView { kind: kind@, start: span.start as int, end: span.end as int }),
    {
        let d = Diagnostic { kind, span };
        self.diagnostics.push(d);
        assert(diagnostics_view(self.diagnostics@) =~= diagnostics_view(
            old(self).diagnostics@,
        ).push(d@));
    }

    /// Records diagnostics in order.
    pub fn report_all(&mut self, mut ds: Vec<Diagnostic>)
        ensures
            final(self).text == old(self).text,
            diagnostics_view(final(self).diagnostics@) == diagnostics_view(
                old(self).diagnostics@,
            ) + diagnostics_view(ds@),
    {
        let ghost added = ds@;
        self.diagnostics.append(&mut ds);
        assert(diagnostics_view(self.diagnostics@) =~= diagnostics_view(old(self).diagnostics@)
            + diagnostics_view(added));
    }
}

} // verus!
