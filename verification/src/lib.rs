//! A small compiler that turns a textual protocol description into matched
//! binary-serialization code for a native (C) module and a Typst script
//! environment that share one wire format.

pub mod types;
pub mod struct_;
pub mod protocol;
pub mod parser;
pub mod wire;
pub mod generator;

use vstd::prelude::*;

verus! {

/// The kinds of diagnostic the semantic analysis can report.
#[derive(Clone, Copy, PartialEq, Eq, Structural, Debug)]
pub enum DiagKind {
    SyntaxError,
    DuplicateStructName,
    DuplicateFieldName,
    UnknownStructReference,
    CircularDependency,
    NestingNotAllowedHere,
}

/// A source span, as character offsets into the input text.
#[derive(Clone, Copy, PartialEq, Eq, Structural, Debug)]
pub struct Span {
    pub start: usize,
    pub end: usize,
}

/// A structured diagnostic: one kind together with the source span that
/// triggered it.  Semantic errors are returned as values, never panics.
#[derive(Clone, Copy, PartialEq, Eq, Structural, Debug)]
pub struct Diag {
    pub kind: DiagKind,
    pub span: Span,
}

impl Diag {
    pub fn new(kind: DiagKind, span: Span) -> (r: Diag)
        ensures
            r.kind == kind,
            r.span == span,
    {
        Diag { kind, span }
    }
}

} // verus!
