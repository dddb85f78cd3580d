//! Source locations: a line/column pair and a half-open range between two
//! of them, as the located syntax tree carries them.

use vstd::prelude::*;
use crate::text::{push_decimal_u64, spec_decimal};

verus! {

/// A position in source text: line, then column, both zero-based.
#[derive(Clone, Copy, PartialEq, Eq, Structural, Debug)]
pub struct Loc(pub usize, pub usize);

/// A half-open span between two positions.
#[derive(Clone, Copy, PartialEq, Eq, Structural, Debug)]
pub struct Range(pub Loc, pub Loc);

/// The text form of a position: `line:column`.
pub open spec fn spec_loc_text(l: Loc) -> Seq<char> {
    spec_decimal(l.0 as nat) + seq![':'] + spec_decimal(l.1 as nat)
}

/// The text form of a span: `start-end`.
pub open spec fn spec_range_text(r: Range) -> Seq<char> {
    spec_loc_text(r.0) + seq!['-'] + spec_loc_text(r.1)
}

impl Loc {
    /// Render this position as `line:column`.
    pub fn render(&self) -> (r: String)
        ensures
            r@ == spec_loc_text(*self),
    {
        let mut out = String::new();
        push_decimal_u64(&mut out, self.0 as u64);
        out.push(':');
        push_decimal_u64(&mut out, self.1 as u64);
        out
    }
}

impl Range {
    /// Render this span as `start-end`.
    pub fn render(&self) -> (r: String)
        ensures
            r@ == spec_range_text(*self),
    {
        let mut out = self.0.render();
        out.push('-');
        let end = self.1.render();
        out.append(end.as_str());
        out
    }
}

impl From<(usize, usize)> for Loc {
    /// A position from a `(line, column)` pair.
    fn from(value: (usize, usize)) -> (r: Loc) {
        Loc(value.0, value.1)
    }
}

impl vstd::std_specs::convert::FromSpecImpl<(usize, usize)> for Loc {
    open spec fn obeys_from_spec() -> bool {
        true
    }

    open spec fn from_spec(value: (usize, usize)) -> Loc {
        Loc(value.0, value.1)
    }
}

impl From<(Loc, Loc)> for Range {
    /// A span from its two endpoints.
    fn from(value: (Loc, Loc)) -> (r: Range) {
        Range(value.0, value.1)
    }
}

impl vstd::std_specs::convert::FromSpecImpl<(Loc, Loc)> for Range {
    open spec fn obeys_from_spec() -> bool {
        true
    }

    open spec fn from_spec(value: (Loc, Loc)) -> Range {
        Range(value.0, value.1)
    }
}

} // verus!
