//! Tests for the textual side: value rendering, the disassembler, string
//! literal decoding, locations, and lexer helpers.

use alia::disasm::Disassembler;
use alia::parser::document::Document;
use alia::parser::error::{Error, ErrorKind};
use alia::parser::lexer::{err, parse_string, skip, symbol_char, token, TokenKind};
use alia::parser::loc::{Loc, Range};
use alia::parser::node::{Node, NodeValue};
use alia::parser::{parse_error, ParseError, ParseErrorKind};
use alia::vm::val::{BuiltinVal, Val};
use alia::vm::Vm;

fn r0() -> Range {
    Range(Loc(0, 0), Loc(0, 0))
}

#[test]
fn format_primitives() {
    let vm = Vm::new();
    assert_eq!(Val::Integer(42).format(&vm).unwrap(), "42");
    assert_eq!(Val::Integer(-5).format(&vm).unwrap(), "-5");
    assert_eq!(Val::Integer(0).format(&vm).unwrap(), "0");
    assert_eq!(Val::Boolean(true).format(&vm).unwrap(), "true");
    assert_eq!(Val::Boolean(false).format(&vm).unwrap(), "false");
    assert_eq!(Val::String("raw text".to_string()).format(&vm).unwrap(), "raw text");
}

#[test]
fn format_extreme_integers() {
    let vm = Vm::new();
    assert_eq!(
        Val::Integer(i64::MIN).format(&vm).unwrap(),
        "-9223372036854775808"
    );
    assert_eq!(
        Val::Integer(i64::MAX).format(&vm).unwrap(),
        "9223372036854775807"
    );
}

#[test]
fn format_float_shows_bit_pattern() {
    let vm = Vm::new();
    let bits = 1.5f64.to_bits();
    assert_eq!(
        Val::Float(bits).format(&vm).unwrap(),
        format!("#<float {}>", bits)
    );
}

#[test]
fn format_collections() {
    let vm = Vm::new();
    let list = Val::List(vec![Val::Integer(1), Val::Integer(2)]);
    assert_eq!(list.format(&vm).unwrap(), "(1 2)");
    let vector = Val::Vector(vec![Val::Integer(3)]);
    assert_eq!(vector.format(&vm).unwrap(), "[3]");
    let empty = Val::List(vec![]);
    assert_eq!(empty.format(&vm).unwrap(), "()");
}

#[test]
fn format_symbols_and_builtins() {
    let mut vm = Vm::new();
    let s = vm.interns.intern(b"name");
    let m = vm.interns.intern(b"md");
    assert_eq!(Val::Symbol(None, s).format(&vm).unwrap(), "name");
    assert_eq!(Val::Symbol(Some(m), s).format(&vm).unwrap(), "md/name");
    let b = Val::Builtin(BuiltinVal {
        name: "builtins/print".to_string(),
        code: alia::vm::val::Builtin::Print,
    });
    assert_eq!(b.format(&vm).unwrap(), "<builtin builtins/print>");
    assert_eq!(Val::Module(0).format(&vm).unwrap(), "<module builtins>");
    assert!(Val::Module(99).format(&vm).is_none());
}

#[test]
fn disassembles_a_compiled_program() {
    let doc = Document {
        toplevels: vec![Node::new(
            NodeValue::Symbol(None, "true".to_string()),
            r0(),
        )],
        range: r0(),
    };
    let code = doc.compile().unwrap();
    let mut d = Disassembler::new(code);
    assert_eq!(d.disasm().unwrap(), "ImmediateBooleanTrue\nDrop\n");
}

#[test]
fn disassembles_operands() {
    let doc = Document {
        toplevels: vec![Node::new(NodeValue::Integer(42), r0())],
        range: r0(),
    };
    let code = doc.compile().unwrap();
    let mut d = Disassembler::new(code);
    assert_eq!(d.disasm().unwrap(), "ImmediateInteger 42\nDrop\n");
}

#[test]
fn disassembles_symbols_quoted() {
    let doc = Document {
        toplevels: vec![Node::new(
            NodeValue::Symbol(None, "hello".to_string()),
            r0(),
        )],
        range: r0(),
    };
    let code = doc.compile().unwrap();
    let mut d = Disassembler::new(code);
    assert_eq!(
        d.disasm().unwrap(),
        "ImmediateSymbolBare \"hello\"\nEval\nDrop\n"
    );
}

#[test]
fn disassembler_rejects_garbage() {
    let mut d = Disassembler::new(vec![255u8]);
    assert!(d.disasm().is_none());
}

#[test]
fn parse_string_decodes_escapes() {
    let ok = |s: &str| parse_string(s.as_bytes(), r0()).map_err(|e| e.kind);
    assert_eq!(ok("\"abc\""), Ok("abc".to_string()));
    assert_eq!(ok("\"\""), Ok(String::new()));
    assert_eq!(ok("\"a\\nb\""), Ok("a\nb".to_string()));
    assert_eq!(ok("\"a\\tb\""), Ok("a\tb".to_string()));
    assert_eq!(ok("\"a\\rb\""), Ok("a\rb".to_string()));
    assert_eq!(ok("\"say \\\"hi\\\"\""), Ok("say \"hi\"".to_string()));
    assert_eq!(ok("\"back\\\\slash\""), Ok("back\\slash".to_string()));
}

#[test]
fn parse_string_rejects_malformed_literals() {
    let kind = |s: &str| parse_string(s.as_bytes(), r0()).unwrap_err().kind;
    assert_eq!(kind("\"unfinished"), ParseErrorKind::Unfinished);
    assert_eq!(kind("\"bad\\q\""), ParseErrorKind::String);
    assert_eq!(kind("\"trail\\"), ParseErrorKind::String);
    assert_eq!(kind("\"a\"b\""), ParseErrorKind::String);
}

#[test]
fn lexer_token_helpers_cover_prefixes() {
    let input = b"abc def";
    let t = token(TokenKind::Symbol, input, 3);
    assert_eq!(t.kind, TokenKind::Symbol);
    assert_eq!(t.excerpt, b"abc".to_vec());
    let w = skip(input, 1);
    assert_eq!(w.kind, TokenKind::Whitespace);
    assert_eq!(w.excerpt.len(), 1);
    let e = err(input);
    assert_eq!(e.kind, TokenKind::Whitespace);
    assert!(e.excerpt.is_empty());
}

#[test]
fn symbol_characters() {
    for c in b"azAZ*_<>!=+-/".iter() {
        assert!(symbol_char(*c));
    }
    for c in b" ()[]\"'0129;".iter() {
        assert!(!symbol_char(*c));
    }
}

#[test]
fn locations_render() {
    assert_eq!(Loc(1, 2).render(), "1:2");
    assert_eq!(Range(Loc(1, 2), Loc(3, 4)).render(), "1:2-3:4");
}

#[test]
fn parse_errors_carry_kind_and_range() {
    let range = Range(Loc(0, 1), Loc(0, 2));
    let e = ParseError::new(ParseErrorKind::Multiple, range);
    assert_eq!(e.kind, ParseErrorKind::Multiple);
    assert_eq!(e.range, range);
    let e2 = parse_error(ParseErrorKind::Number, range);
    assert_eq!(e2.kind, ParseErrorKind::Number);
    let e3 = Error::new(ErrorKind::Unfinished, range);
    assert_eq!(e3.kind, ErrorKind::Unfinished);
    assert_eq!(e3.message(), "input appears unfinished at [0:1-0:2]");
}

#[test]
fn resolve_rejects_foreign_handles() {
    let vm = Vm::new();
    assert!(vm.resolve(alia::vm::interns::InternedSymbol(0)).is_none());
    assert!(vm.resolve(alia::vm::interns::InternedSymbol(999)).is_none());
    assert_eq!(vm.resolve(alia::vm::interns::InternedSymbol(1)).unwrap(), "true");
}

#[test]
fn val_from_conversions() {
    let mut vm = Vm::new();
    let s = vm.interns.intern(b"name");
    let m = vm.interns.intern(b"md");
    assert!(matches!(Val::from(5i64), Val::Integer(5)));
    assert!(matches!(Val::from("x".to_string()), Val::String(_)));
    assert!(matches!(Val::from(s), Val::Symbol(None, _)));
    assert!(matches!(Val::from((m, s)), Val::Symbol(Some(_), _)));
    assert!(matches!(Val::from((None, s)), Val::Symbol(None, _)));
}
