//! The syntax-tree side of the core: the node types the external parser
//! hands to the compiler, source locations, the parse-error type, and the
//! small text-level helpers the lexer is built from. The lexer and
//! recursive-descent parser themselves are external collaborators; only
//! what the compiler and its hosts need from them lives here.

pub mod document;
pub mod error;
pub mod lexer;
pub mod loc;
pub mod node;

use vstd::prelude::*;
use crate::parser::loc::Range;

verus! {

/// Why a parse failed.
#[derive(Clone, Copy, PartialEq, Eq, Structural, Debug)]
pub enum ParseErrorKind {
    Empty,
    Unfinished,
    Unexpected(char),
    Multiple,
    Number,
    String,
}

/// A parse failure: what went wrong, and where.
pub struct ParseError {
    pub kind: ParseErrorKind,
    pub range: Range,
}

impl ParseError {
    /// A parse failure at a location.
    pub fn new(kind: ParseErrorKind, range: Range) -> (r: ParseError)
        ensures
            r.kind == kind,
            r.range == range,
    {
        ParseError { kind, range }
    }
}

/// A parse failure at a location (free-function form).
pub fn parse_error(kind: ParseErrorKind, range: Range) -> (r: ParseError)
    ensures
        r.kind == kind,
        r.range == range,
{
    ParseError { kind, range }
}

} // verus!
