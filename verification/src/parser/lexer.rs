//! Text-level pieces of the lexer: token shapes, the helpers tokens are
//! built from, the character class of symbols, and the decoder for string
//! literals. The table-driven scanner itself is an external collaborator.

use vstd::prelude::*;
use crate::parser::loc::Range;
use crate::parser::{ParseError, ParseErrorKind};
use crate::text::string_from_utf8;
use vstd::utf8::{valid_utf8, decode_utf8};

verus! {

/// The kinds of token the scanner produces.
#[derive(Clone, Copy, PartialEq, Eq, Structural, Debug)]
pub enum TokenKind {
    Whitespace,
    Symbol,
    SymbolColon,
    Number,
    String,
    ListStart,
    ListEnd,
    VecStart,
    VecEnd,
    Quote,
}

/// One lexed token: its kind and the excerpt of input it covers. A
/// zero-length excerpt signals a scan error.
pub struct Token {
    pub kind: TokenKind,
    pub excerpt: Vec<u8>,
}

/// A token covering the first `n` bytes of `s`.
pub fn token(kind: TokenKind, s: &[u8], n: usize) -> (r: Token)
    requires
        n <= s@.len(),
    ensures
        r.kind == kind,
        r.excerpt@ == s@.subrange(0, n as int),
{
    let head = &s[0..n];
    Token { kind, excerpt: vstd::slice::slice_to_vec(head) }
}

/// A whitespace token covering the first `n` bytes of `s`.
pub fn skip(s: &[u8], n: usize) -> (r: Token)
    requires
        n <= s@.len(),
    ensures
        r.kind == TokenKind::Whitespace,
        r.excerpt@ == s@.subrange(0, n as int),
{
    token(TokenKind::Whitespace, s, n)
}

/// The error token: whitespace of length zero.
pub fn err(s: &[u8]) -> (r: Token)
    ensures
        r.kind == TokenKind::Whitespace,
        r.excerpt@ == Seq::<u8>::empty(),
{
    let r = skip(s, 0);
    proof {
        assert(s@.subrange(0, 0) =~= Seq::<u8>::empty());
    }
    r
}

/// True for the bytes that may make up a symbol (the scanner's class,
/// plus `/`, which separates a module qualifier from a name).
pub fn symbol_char(c: u8) -> (r: bool)
    ensures
        r == spec_symbol_char(c),
{
    (97 <= c && c <= 122) || (65 <= c && c <= 90) || c == 42 || c == 95 || c == 60 || c == 62
        || c == 33 || c == 61 || c == 43 || c == 45 || c == 47
}

/// The character class of symbols.
pub open spec fn spec_symbol_char(c: u8) -> bool {
    ||| (97 <= c <= 122)  // a-z
    ||| (65 <= c <= 90)  // A-Z
    ||| c == 42  // *
    ||| c == 95  // _
    ||| c == 60  // <
    ||| c == 62  // >
    ||| c == 33  // !
    ||| c == 61  // =
    ||| c == 43  // +
    ||| c == 45  // -
    ||| c == 47  // /
}

/// Decode a lexed string-literal excerpt, starting at byte `i`: the
/// opening quote at position 0 is skipped, a quote at the very end closes
/// the literal, `\\`, `\"`, `\t`, `\r` and `\n` escape, any other byte
/// stands for itself, and a missing closing quote leaves the literal
/// unfinished.
pub open spec fn spec_unescape(s: Seq<u8>, i: int) -> Result<Seq<char>, ParseErrorKind>
    decreases s.len() - i,
{
    if i < 0 || i >= s.len() {
        Err(ParseErrorKind::Unfinished)
    } else {
        let b = s[i];
        if b == 92 {
            if i + 1 >= s.len() {
                Err(ParseErrorKind::String)
            } else {
                let e = s[i + 1];
                if e == 92 || e == 34 {
                    match spec_unescape(s, i + 2) {
                        Ok(rest) => Ok(seq![e as char] + rest),
                        Err(k) => Err(k),
                    }
                } else if e == 116 {
                    match spec_unescape(s, i + 2) {
                        Ok(rest) => Ok(seq!['\t'] + rest),
                        Err(k) => Err(k),
                    }
                } else if e == 114 {
                    match spec_unescape(s, i + 2) {
                        Ok(rest) => Ok(seq!['\r'] + rest),
                        Err(k) => Err(k),
                    }
                } else if e == 110 {
                    match spec_unescape(s, i + 2) {
                        Ok(rest) => Ok(seq!['\n'] + rest),
                        Err(k) => Err(k),
                    }
                } else {
                    Err(ParseErrorKind::String)
                }
            }
        } else if b == 34 {
            if i == 0 {
                spec_unescape(s, 1)
            } else if i + 1 == s.len() {
                Ok(Seq::empty())
            } else {
                Err(ParseErrorKind::String)
            }
        } else {
            match spec_unescape(s, i + 1) {
                Ok(rest) => Ok(seq![b as char] + rest),
                Err(k) => Err(k),
            }
        }
    }
}

/// Decode a lexed string-literal excerpt into the text it denotes, exactly
/// as `spec_unescape` says; a malformed literal is rejected with the given
/// source range attached.
pub fn parse_string(s: &[u8], range: Range) -> (r: Result<String, ParseError>)
    ensures
        match r {
            Ok(t) => spec_unescape(s@, 0) == Ok::<Seq<char>, ParseErrorKind>(t@),
            Err(e) => spec_unescape(s@, 0) == Err::<Seq<char>, ParseErrorKind>(e.kind)
                && e.range == range,
        },
{
    let len = s.len();
    let mut out = String::new();
    let mut i: usize = 0;
    proof {
        assert(Seq::<char>::empty() + Seq::<char>::empty() =~= Seq::<char>::empty());
    }
    while i < len
        invariant
            len == s@.len(),
            i <= len,
            spec_unescape(s@, 0) == (match spec_unescape(s@, i as int) {
                Ok(rest) => Ok::<Seq<char>, ParseErrorKind>(out@ + rest),
                Err(k) => Err::<Seq<char>, ParseErrorKind>(k),
            }),
        decreases len - i,
    {
        let b = s[i];
        if b == 92 {
            if i + 1 == len {
                return Err(ParseError { kind: ParseErrorKind::String, range });
            }
            let e = s[i + 1];
            let c: char = if e == 92 || e == 34 {
                e as char
            } else if e == 116 {
                '\t'
            } else if e == 114 {
                '\r'
            } else if e == 110 {
                '\n'
            } else {
                return Err(ParseError { kind: ParseErrorKind::String, range });
            };
            let ghost out_pre = out@;
            out.push(c);
            proof {
                match spec_unescape(s@, i + 2) {
                    Ok(rest) => {
                        assert(out_pre + (seq![c] + rest) =~= out_pre.push(c) + rest);
                    }
                    Err(_) => {}
                }
            }
            i = i + 2;
        } else if b == 34 {
            if i == 0 {
                i = 1;
            } else if i + 1 == len {
                proof {
                    assert(out@ + Seq::<char>::empty() =~= out@);
                }
                return Ok(out);
            } else {
                return Err(ParseError { kind: ParseErrorKind::String, range });
            }
        } else {
            let ghost out_pre = out@;
            out.push(b as char);
            proof {
                match spec_unescape(s@, i + 1) {
                    Ok(rest) => {
                        assert(out_pre + (seq![b as char] + rest) =~= out_pre.push(b as char) + rest);
                    }
                    Err(_) => {}
                }
            }
            i = i + 1;
        }
    }
    Err(ParseError { kind: ParseErrorKind::Unfinished, range })
}

} // verus!
