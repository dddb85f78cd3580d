//! Compiler tests: byte-exact output checks against hand-assembled
//! expectations.

use alia::compiler::{assert_compiles, AsmState, Compiler};
use alia::parser::document::Document;
use alia::parser::loc::{Loc, Range};
use alia::parser::node::{Node, NodeValue};
use alia::vm::ops::Op;

fn r0() -> Range {
    Range(Loc(0, 0), Loc(0, 0))
}

fn doc_of(toplevels: Vec<Node>) -> Document {
    Document { toplevels, range: r0() }
}

fn sym(name: &str) -> Node {
    Node::new(NodeValue::Symbol(None, name.to_string()), r0())
}

#[test]
fn boolean_shortcut() {
    let mut state = AsmState::new();
    state.out.push(Op::ImmediateBooleanTrue.code());
    state.out.push(Op::Drop.code());
    let doc = doc_of(vec![sym("true")]);
    assert!(assert_compiles(&doc, &state.out));

    let mut state = AsmState::new();
    state.out.push(Op::ImmediateBooleanFalse.code());
    state.out.push(Op::Drop.code());
    let doc = doc_of(vec![sym("false")]);
    assert!(assert_compiles(&doc, &state.out));
}

#[test]
fn integer_literal_encoding() {
    let mut state = AsmState::new();
    state.out.push(Op::ImmediateInteger.code());
    state.out.extend_from_slice(&(42u64).to_le_bytes());
    state.out.push(Op::Drop.code());
    let doc = doc_of(vec![Node::new(NodeValue::Integer(42), r0())]);
    assert!(assert_compiles(&doc, &state.out));
}

#[test]
fn negative_integer_encoding() {
    let mut state = AsmState::new();
    state.out.push(Op::ImmediateInteger.code());
    state.out.extend_from_slice(&(-7i64).to_le_bytes());
    state.out.push(Op::Drop.code());
    let doc = doc_of(vec![Node::new(NodeValue::Integer(-7), r0())]);
    assert!(assert_compiles(&doc, &state.out));
}

#[test]
fn string_literal_encoding() {
    let mut state = AsmState::new();
    state.out.push(Op::ImmediateString.code());
    state.out.extend_from_slice(&(2u64).to_le_bytes());
    state.out.extend_from_slice(b"hi");
    state.out.push(Op::Drop.code());
    let doc = doc_of(vec![Node::new(NodeValue::String("hi".to_string()), r0())]);
    assert!(assert_compiles(&doc, &state.out));
}

#[test]
fn bare_symbol_loads_and_evaluates() {
    let mut state = AsmState::new();
    state.out.push(Op::ImmediateSymbolBare.code());
    state.out.extend_from_slice(&(5u64).to_le_bytes());
    state.out.extend_from_slice(b"hello");
    state.out.push(Op::Eval.code());
    state.out.push(Op::Drop.code());
    let doc = doc_of(vec![sym("hello")]);
    assert!(assert_compiles(&doc, &state.out));
}

#[test]
fn qualified_symbol_loads_both_names() {
    let mut state = AsmState::new();
    state.out.push(Op::ImmediateSymbolWithModule.code());
    state.out.extend_from_slice(&(3u64).to_le_bytes());
    state.out.extend_from_slice(b"abc");
    state.out.extend_from_slice(&(3u64).to_le_bytes());
    state.out.extend_from_slice(b"def");
    state.out.push(Op::Eval.code());
    state.out.push(Op::Drop.code());
    let doc = doc_of(vec![Node::new(
        NodeValue::Symbol(Some("abc".to_string()), "def".to_string()),
        r0(),
    )]);
    assert!(assert_compiles(&doc, &state.out));
}

#[test]
fn call_counts_callee_and_arguments() {
    // (print 1) compiles the head, the argument, then Call 2
    let mut state = AsmState::new();
    state.out.push(Op::ImmediateSymbolBare.code());
    state.out.extend_from_slice(&(5u64).to_le_bytes());
    state.out.extend_from_slice(b"print");
    state.out.push(Op::Eval.code());
    state.out.push(Op::ImmediateInteger.code());
    state.out.extend_from_slice(&(1u64).to_le_bytes());
    state.out.push(Op::Call.code());
    state.out.extend_from_slice(&(2u64).to_le_bytes());
    state.out.push(Op::Drop.code());
    let call = Node::new(
        NodeValue::List(vec![sym("print"), Node::new(NodeValue::Integer(1), r0())]),
        r0(),
    );
    let doc = doc_of(vec![call]);
    assert!(assert_compiles(&doc, &state.out));
}

#[test]
fn vector_literal_conses() {
    let mut state = AsmState::new();
    state.out.push(Op::ImmediateInteger.code());
    state.out.extend_from_slice(&(1u64).to_le_bytes());
    state.out.push(Op::ImmediateInteger.code());
    state.out.extend_from_slice(&(2u64).to_le_bytes());
    state.out.push(Op::ConsVec.code());
    state.out.extend_from_slice(&(2u64).to_le_bytes());
    state.out.push(Op::Drop.code());
    let vec_node = Node::new(
        NodeValue::Vector(vec![
            Node::new(NodeValue::Integer(1), r0()),
            Node::new(NodeValue::Integer(2), r0()),
        ]),
        r0(),
    );
    let doc = doc_of(vec![vec_node]);
    assert!(assert_compiles(&doc, &state.out));
}

#[test]
fn empty_call_list_is_rejected() {
    let doc = doc_of(vec![Node::new(NodeValue::List(vec![]), r0())]);
    assert!(doc.compile().is_err());
    assert!(!doc.well_formed());
}

#[test]
fn compiler_piecewise_matches_document_compile() {
    let doc = doc_of(vec![Node::new(NodeValue::Integer(9), r0()), sym("true")]);
    let whole = doc.compile().unwrap();
    let mut c = Compiler::new();
    c.doc(&doc);
    assert_eq!(whole, c.finish());
}

#[test]
fn asm_markers_measure_distance() {
    let mut state = AsmState::new();
    state.marker("begin");
    state.out.push(Op::Nop.code());
    state.out.push(Op::Nop.code());
    state.marker("mid");
    state.out.push(Op::Nop.code());
    assert_eq!(state.since("begin"), 3);
    assert_eq!(state.since("mid"), 1);
}

#[test]
fn op_codes_round_trip() {
    let ops = [
        Op::Nop,
        Op::ImmediateSymbolBare,
        Op::ImmediateSymbolWithModule,
        Op::ImmediateBooleanTrue,
        Op::ImmediateBooleanFalse,
        Op::ImmediateInteger,
        Op::ImmediateFloat,
        Op::ImmediateString,
        Op::ConsList,
        Op::ConsVec,
        Op::Drop,
        Op::Eval,
        Op::Call,
        Op::JumpRelative,
    ];
    for op in ops {
        assert_eq!(Op::from_u8(op.code()), Some(op));
    }
    assert_eq!(Op::from_u8(13), None);
    assert_eq!(Op::from_u8(255), None);
}

#[test]
fn float_literal_carries_bits() {
    let bits = 3.5f64.to_bits();
    let mut state = AsmState::new();
    state.out.push(Op::ImmediateFloat.code());
    state.out.extend_from_slice(&bits.to_le_bytes());
    state.out.push(Op::Drop.code());
    let doc = doc_of(vec![Node::new(NodeValue::Float(bits), r0())]);
    assert!(assert_compiles(&doc, &state.out));
}

#[test]
fn compiler_primitives_emit_exact_bytes() {
    let mut c = Compiler::new();
    c.op(Op::Nop);
    c.n(7);
    c.bytes("ab");
    let out = c.finish();
    let mut expected = vec![Op::Nop.code()];
    expected.extend_from_slice(&7u64.to_le_bytes());
    expected.extend_from_slice(&2u64.to_le_bytes());
    expected.extend_from_slice(b"ab");
    assert_eq!(out, expected);
}
