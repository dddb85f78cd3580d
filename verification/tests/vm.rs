//! Interpreter tests: the concrete end-to-end scenarios, the resolution
//! order, self-evaluation, and the failure taxonomy.

use alia::parser::document::Document;
use alia::parser::loc::{Loc, Range};
use alia::parser::node::{Node, NodeValue};
use alia::vm::module::Module;
use alia::vm::ops::Op;
use alia::vm::val::Val;
use alia::vm::{Vm, VmError};

fn r0() -> Range {
    Range(Loc(0, 0), Loc(0, 0))
}

fn doc_of(toplevels: Vec<Node>) -> Document {
    Document { toplevels, range: r0() }
}

fn sym(name: &str) -> Node {
    Node::new(NodeValue::Symbol(None, name.to_string()), r0())
}

fn num(i: i64) -> Node {
    Node::new(NodeValue::Integer(i), r0())
}

fn run(vm: &mut Vm, module: usize, doc: &Document) -> Result<Val, VmError> {
    let code = doc.compile().expect("tree should compile");
    vm.run_to_completion(module, code)
}

#[test]
fn integer_program_yields_integer() {
    let mut vm = Vm::new();
    let m = vm.anonymous_module("*scratch*");
    let r = run(&mut vm, m, &doc_of(vec![num(42)]));
    assert!(matches!(r, Ok(Val::Integer(42))));
}

#[test]
fn true_program_yields_boolean() {
    let mut vm = Vm::new();
    let m = vm.anonymous_module("*scratch*");
    let doc = doc_of(vec![sym("true")]);
    // the literal shortcut: the program is the boolean opcode, no lookup
    let code = doc.compile().unwrap();
    assert_eq!(code, vec![Op::ImmediateBooleanTrue.code(), Op::Drop.code()]);
    let r = vm.run_to_completion(m, code);
    assert!(matches!(r, Ok(Val::Boolean(true))));
}

#[test]
fn print_emits_and_returns_empty_list() {
    let mut vm = Vm::new();
    let m = vm.anonymous_module("*scratch*");
    let call = Node::new(
        NodeValue::List(vec![
            sym("print"),
            Node::new(NodeValue::String("hi".to_string()), r0()),
        ]),
        r0(),
    );
    let r = run(&mut vm, m, &doc_of(vec![call]));
    match r {
        Ok(Val::List(items)) => assert!(items.is_empty()),
        other => panic!("expected empty list, got {:?}", other.is_ok()),
    }
    assert_eq!(vm.output.len(), 1);
    match &vm.output[0] {
        Val::String(s) => assert_eq!(s, "hi"),
        _ => panic!("expected a string in the output"),
    }
}

#[test]
fn last_toplevel_wins() {
    let mut vm = Vm::new();
    let m = vm.anonymous_module("*scratch*");
    let r = run(&mut vm, m, &doc_of(vec![num(1), num(2)]));
    assert!(matches!(r, Ok(Val::Integer(2))));
}

#[test]
fn vector_literal_evaluates_elementwise() {
    let mut vm = Vm::new();
    let m = vm.anonymous_module("*scratch*");
    let vec_node = Node::new(NodeValue::Vector(vec![num(1), num(2), num(3)]), r0());
    let r = run(&mut vm, m, &doc_of(vec![vec_node]));
    match r {
        Ok(Val::Vector(items)) => {
            assert_eq!(items.len(), 3);
            assert!(matches!(items[0], Val::Integer(1)));
            assert!(matches!(items[1], Val::Integer(2)));
            assert!(matches!(items[2], Val::Integer(3)));
        }
        _ => panic!("expected a vector"),
    }
}

#[test]
fn calling_a_non_builtin_names_the_callee() {
    let mut vm = Vm::new();
    let m = vm.anonymous_module("*scratch*");
    let call = Node::new(NodeValue::List(vec![num(1), num(2)]), r0());
    let r = run(&mut vm, m, &doc_of(vec![call]));
    match r {
        Err(VmError::CallTarget(callee)) => {
            assert!(matches!(callee, Val::Integer(1)));
            assert_eq!(callee.format(&vm).unwrap(), "1");
        }
        _ => panic!("expected a call-target failure"),
    }
}

#[test]
fn own_binds_win_over_registry_and_refers() {
    // module M with x = 1, referred module R with x = 2, and a global
    // module registered under the name x: M's own bind wins
    let mut vm = Vm::new();
    let r_id = vm.anonymous_module("R");
    vm.set(r_id, "x", Val::Integer(2));
    let global = vm.anonymous_module("x");
    let x = vm.interns.intern(b"x");
    vm.registry.push((x, global));
    let m_id = vm.anonymous_module("M");
    vm.modules[m_id].refer(r_id);
    vm.set(m_id, "x", Val::Integer(1));
    let r = vm.modules[m_id].lookup(&vm, x);
    assert!(matches!(r, Some(Val::Integer(1))));
}

#[test]
fn registry_wins_over_refers() {
    let mut vm = Vm::new();
    let r_id = vm.anonymous_module("R");
    vm.set(r_id, "x", Val::Integer(2));
    let global = vm.anonymous_module("x");
    let x = vm.interns.intern(b"x");
    vm.registry.push((x, global));
    let m_id = vm.anonymous_module("M");
    vm.modules[m_id].refer(r_id);
    let r = vm.modules[m_id].lookup(&vm, x);
    match r {
        Some(Val::Module(id)) => assert_eq!(id, global),
        _ => panic!("expected the registered module"),
    }
}

#[test]
fn refers_consulted_in_order() {
    let mut vm = Vm::new();
    let a = vm.anonymous_module("A");
    vm.set(a, "y", Val::Integer(10));
    let b = vm.anonymous_module("B");
    vm.set(b, "y", Val::Integer(20));
    let m_id = vm.anonymous_module("M");
    vm.modules[m_id].refer(a);
    vm.modules[m_id].refer(b);
    let y = vm.interns.intern(b"y");
    let r = vm.modules[m_id].lookup(&vm, y);
    assert!(matches!(r, Some(Val::Integer(10))));
}

#[test]
fn qualified_lookup_bypasses_refers() {
    // M refers R; R refers S, which binds y. R/y must not see S's y.
    let mut vm = Vm::new();
    let s_id = vm.anonymous_module("S");
    vm.set(s_id, "y", Val::Integer(7));
    let r_id = vm.anonymous_module("R");
    vm.modules[r_id].refer(s_id);
    let r_name = vm.interns.intern(b"R");
    vm.registry.push((r_name, r_id));
    let m_id = vm.anonymous_module("M");
    vm.modules[m_id].refer(r_id);

    // sanity: the unqualified lookup in R does see S's y through the refer
    let y = vm.interns.intern(b"y");
    assert!(matches!(vm.modules[r_id].lookup(&vm, y), Some(Val::Integer(7))));

    // but the qualified reference R/y resolves to the placeholder
    let qualified = Node::new(
        NodeValue::Symbol(Some("R".to_string()), "y".to_string()),
        r0(),
    );
    let res = run(&mut vm, m_id, &doc_of(vec![qualified]));
    match res {
        Ok(Val::Symbol(None, s)) => {
            assert_eq!(vm.resolve(s).unwrap(), "unbound!");
        }
        _ => panic!("expected the unresolved placeholder"),
    }
}

#[test]
fn literals_self_evaluate() {
    let mut vm = Vm::new();
    let m = vm.anonymous_module("*scratch*");
    assert!(matches!(run(&mut vm, m, &doc_of(vec![sym("true")])), Ok(Val::Boolean(true))));
    assert!(matches!(run(&mut vm, m, &doc_of(vec![sym("false")])), Ok(Val::Boolean(false))));
    assert!(matches!(run(&mut vm, m, &doc_of(vec![num(-3)])), Ok(Val::Integer(-3))));
    let bits = 2.25f64.to_bits();
    let float_doc = doc_of(vec![Node::new(NodeValue::Float(bits), r0())]);
    match run(&mut vm, m, &float_doc) {
        Ok(Val::Float(b)) => assert_eq!(f64::from_bits(b), 2.25),
        _ => panic!("expected the float back"),
    }
    let text_doc = doc_of(vec![Node::new(NodeValue::String("s".to_string()), r0())]);
    match run(&mut vm, m, &text_doc) {
        Ok(Val::String(s)) => assert_eq!(s, "s"),
        _ => panic!("expected the string back"),
    }
}

#[test]
fn quote_sees_eagerly_evaluated_arguments() {
    // arguments are evaluated before Call runs, including quote's: with
    // x bound to 7, (quote x) hands back 7, not the symbol x
    let mut vm = Vm::new();
    let m = vm.anonymous_module("*scratch*");
    vm.set(m, "x", Val::Integer(7));
    let call = Node::new(NodeValue::List(vec![sym("quote"), sym("x")]), r0());
    let r = run(&mut vm, m, &doc_of(vec![call]));
    assert!(matches!(r, Ok(Val::Integer(7))));
}

#[test]
fn quote_rejects_other_arities() {
    let mut vm = Vm::new();
    let m = vm.anonymous_module("*scratch*");
    let call = Node::new(NodeValue::List(vec![sym("quote"), num(1), num(2)]), r0());
    let r = run(&mut vm, m, &doc_of(vec![call]));
    assert!(matches!(r, Err(VmError::BuiltinArity)));
}

#[test]
fn unresolved_symbol_becomes_placeholder() {
    let mut vm = Vm::new();
    let m = vm.anonymous_module("*scratch*");
    let r = run(&mut vm, m, &doc_of(vec![sym("nowhere")]));
    match r {
        Ok(Val::Symbol(None, s)) => assert_eq!(vm.resolve(s).unwrap(), "unbound!"),
        _ => panic!("expected the placeholder symbol"),
    }
}

#[test]
fn garbage_bytecode_is_a_decode_failure() {
    let mut vm = Vm::new();
    let m = vm.anonymous_module("*scratch*");
    let r = vm.run_to_completion(m, vec![255u8]);
    assert!(matches!(r, Err(VmError::Decode)));
}

#[test]
fn leftover_stack_is_an_imbalance() {
    let mut vm = Vm::new();
    let m = vm.anonymous_module("*scratch*");
    let mut code = vec![Op::ImmediateInteger.code()];
    code.extend_from_slice(&(1u64).to_le_bytes());
    let r = vm.run_to_completion(m, code);
    assert!(matches!(r, Err(VmError::StackImbalance)));
}

#[test]
fn program_without_drop_has_no_result() {
    let mut vm = Vm::new();
    let m = vm.anonymous_module("*scratch*");
    let r = vm.run_to_completion(m, vec![Op::Nop.code()]);
    assert!(matches!(r, Err(VmError::NoResult)));
}

#[test]
fn duplicate_bind_is_rejected() {
    let mut m = Module::new("test".to_string());
    let mut vm = Vm::new();
    let k = vm.interns.intern(b"k");
    assert!(m.add_bind(k, Val::Integer(1)).is_ok());
    assert!(matches!(m.add_bind(k, Val::Integer(2)), Err(VmError::DuplicateBind)));
}

#[test]
fn set_overwrites_and_survives_runs() {
    let mut vm = Vm::new();
    let m = vm.anonymous_module("*scratch*");
    vm.set(m, "flag", Val::Boolean(false));
    vm.set(m, "flag", Val::Boolean(true));
    let r = run(&mut vm, m, &doc_of(vec![sym("flag")]));
    assert!(matches!(r, Ok(Val::Boolean(true))));
}

#[test]
fn interner_is_idempotent() {
    let mut vm = Vm::new();
    let a = vm.interns.intern(b"alpha");
    let b = vm.interns.intern(b"beta");
    let a2 = vm.interns.intern(b"alpha");
    assert_eq!(a, a2);
    assert_ne!(a, b);
    assert_eq!(vm.interns.resolve(a).as_slice(), b"alpha");
    assert_eq!(vm.interns.resolve(b).as_slice(), b"beta");
}

#[test]
fn wellknown_handles_start_at_one() {
    let mut vm = Vm::new();
    let t = vm.interns.intern(b"true");
    let f = vm.interns.intern(b"false");
    assert_eq!(t.0, 1);
    assert_eq!(f.0, 2);
}

#[test]
fn builtins_module_is_registered() {
    let mut vm = Vm::new();
    let b = vm.interns.intern(b"builtins");
    let id = vm.lookup_module(b).expect("builtins should be registered");
    let p = vm.interns.intern(b"print");
    match vm.modules[id].get_bind(p) {
        Some(Val::Builtin(bv)) => assert_eq!(bv.name, "builtins/print"),
        _ => panic!("print should be bound to a builtin"),
    }
}

#[test]
fn print_evaluates_all_arguments_in_order() {
    let mut vm = Vm::new();
    let m = vm.anonymous_module("*scratch*");
    let call = Node::new(NodeValue::List(vec![sym("print"), num(1), num(2)]), r0());
    let r = run(&mut vm, m, &doc_of(vec![call]));
    assert!(matches!(r, Ok(Val::List(_))));
    assert_eq!(vm.output.len(), 2);
    assert!(matches!(vm.output[0], Val::Integer(1)));
    assert!(matches!(vm.output[1], Val::Integer(2)));
}
