//! The parse-error type the document layer reports to hosts: what went
//! wrong and where.

use vstd::prelude::*;
use vstd::string::*;
use crate::parser::loc::{spec_range_text, Range};

verus! {

/// Why a parse failed, as the document layer reports it.
#[derive(Clone, Copy, PartialEq, Eq, Structural, Debug)]
pub enum ErrorKind {
    Empty,
    Unfinished,
    Unexpected(char),
    Multiple,
    Number,
    String,
    Symbol,
}

/// A parse failure: what went wrong, and where.
pub struct Error {
    pub kind: ErrorKind,
    pub range: Range,
}

impl Error {
    /// A parse failure at a location.
    pub fn new(kind: ErrorKind, range: Range) -> (r: Error)
        ensures
            r.kind == kind,
            r.range == range,
    {
        Error { kind, range }
    }

    /// The failure as text: the kind's message, then ` at [range]`.
    pub fn message(&self) -> (r: String)
        ensures
            r@ == spec_error_kind_text(self.kind) + " at ["@ + spec_range_text(self.range)
                + "]"@,
    {
        let mut out = self.kind.message();
        out.append(" at [");
        let range = self.range.render();
        out.append(range.as_str());
        out.append("]");
        out
    }
}

/// The message of each error kind. An unexpected character is reported
/// bare, after the word `unexpected`.
pub open spec fn spec_error_kind_text(k: ErrorKind) -> Seq<char> {
    match k {
        ErrorKind::Empty => "input is empty"@,
        ErrorKind::Unfinished => "input appears unfinished"@,
        ErrorKind::Unexpected(c) => "unexpected "@.push(c),
        ErrorKind::Multiple => "multiple forms found"@,
        ErrorKind::Number => "number parse fail"@,
        ErrorKind::String => "string parse fail"@,
        ErrorKind::Symbol => "symbol parse fail"@,
    }
}

impl ErrorKind {
    /// This kind's message.
    pub fn message(&self) -> (r: String)
        ensures
            r@ == spec_error_kind_text(*self),
    {
        match self {
            ErrorKind::Empty => "input is empty".to_owned(),
            ErrorKind::Unfinished => "input appears unfinished".to_owned(),
            ErrorKind::Unexpected(c) => {
                let mut out = "unexpected ".to_owned();
                out.push(*c);
                out
            }
            ErrorKind::Multiple => "multiple forms found".to_owned(),
            ErrorKind::Number => "number parse fail".to_owned(),
            ErrorKind::String => "string parse fail".to_owned(),
            ErrorKind::Symbol => "symbol parse fail".to_owned(),
        }
    }
}

} // verus!
