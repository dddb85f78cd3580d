//! The properties this core promises, stated and proved over the spec
//! semantics: literal round-trips through the compiler and interpreter,
//! stack balance of compiled programs, call arity, the resolution order,
//! and self-evaluation.

use vstd::prelude::*;
use vstd::utf8::{encode_utf8, decode_utf8, encode_utf8_valid_utf8, encode_utf8_decode_utf8};

use crate::compiler::{
    instrs_of_doc, instrs_of_expr, instrs_of_exprs, instrs_of_toplevel, lemma_encode_prog_concat,
    node_fits, nodes_fit, spec_compile_doc,
};
use crate::parser::node::{
    lemma_nodes_size_bounds, lemma_nodes_size_drop_first, node_size, nodes_size, spec_node_wf,
    spec_nodes_wf, NodeS, NodeValueS,
};
use crate::vm::interns::{spec_intern, InternedSymbol};
use crate::vm::module::{assoc_has, assoc_lookup, spec_lookup, ModuleS};
use crate::vm::ops::{
    lemma_decode_encode_instr, spec_decode_instr, spec_encode_instr, spec_encode_prog, instr_wf,
    Instr,
};
use crate::vm::proc::{
    spec_call, spec_eval, spec_eval_seq, spec_instr_effect, spec_placeholder, spec_run, ProcS,
};
use crate::vm::val::{val_size, vals_size, lemma_vals_size_bounds, ValS};
use crate::vm::{VmErrorS, VmS};

verus! {

/// A failure that one program run can raise at evaluation time: a
/// call-target failure or a builtin arity failure. Everything else the
/// machine can report is an internal-consistency violation that evaluation
/// itself never produces.
pub open spec fn is_eval_error(e: VmErrorS) -> bool {
    e matches VmErrorS::CallTarget(_) || e == VmErrorS::BuiltinArity
}

/// Evaluation only fails with an evaluation-time failure.
pub proof fn lemma_eval_errors(vm: VmS, module: usize, form: ValS)
    ensures
        spec_eval(vm, module, form) matches Err(e) ==> is_eval_error(e),
    decreases val_size(form), 0int,
{
    match form {
        ValS::List(ns) => {
            if ns.len() > 0 {
                lemma_vals_size_bounds(ns, 0);
                lemma_eval_errors(vm, module, ns[0]);
                match spec_eval(vm, module, ns[0]) {
                    Ok((vm2, callee)) => {
                        lemma_vals_size_bounds(ns, 0);
                        lemma_call_errors(vm2, module, callee, ns.drop_first());
                    }
                    Err(_) => {}
                }
            }
        }
        ValS::Vector(ns) => {
            lemma_eval_seq_errors(vm, module, ns);
        }
        _ => {}
    }
}

/// Evaluating a sequence only fails with an evaluation-time failure.
pub proof fn lemma_eval_seq_errors(vm: VmS, module: usize, items: Seq<ValS>)
    ensures
        spec_eval_seq(vm, module, items) matches Err(e) ==> is_eval_error(e),
    decreases vals_size(items), 1int,
{
    if items.len() > 0 {
        lemma_vals_size_bounds(items, 0);
        lemma_eval_errors(vm, module, items[0]);
        match spec_eval(vm, module, items[0]) {
            Ok((vm2, _)) => {
                lemma_vals_size_drop_first_items(items);
                lemma_eval_seq_errors(vm2, module, items.drop_first());
            }
            Err(_) => {}
        }
    }
}

/// Dropping the head strictly shrinks the size of a non-empty sequence.
proof fn lemma_vals_size_drop_first_items(items: Seq<ValS>)
    requires
        items.len() > 0,
    ensures
        vals_size(items.drop_first()) < vals_size(items),
{
    lemma_vals_size_bounds(items, 0);
}

/// Dispatch only fails with an evaluation-time failure.
pub proof fn lemma_call_errors(vm: VmS, module: usize, callee: ValS, args: Seq<ValS>)
    ensures
        spec_call(vm, module, callee, args) matches Err(e) ==> is_eval_error(e),
    decreases vals_size(args), 2int,
{
    match callee {
        ValS::Builtin(name, code) => match code {
            crate::vm::val::Builtin::Print => {
                lemma_eval_seq_errors(vm, module, args);
            }
            crate::vm::val::Builtin::Quote => {}
        },
        _ => {}
    }
}

/// The effect of one instruction away from the byte stream: how it
/// transforms the machine, the `last` slot and the operand stack. This is
/// `spec_instr_effect` with the instruction pointer abstracted away;
/// `Jump` has no meaning without one.
pub open spec fn instr_effect_list(
    vm: VmS,
    module: usize,
    last: Option<ValS>,
    stack: Seq<ValS>,
    i: Instr,
) -> Result<(VmS, Option<ValS>, Seq<ValS>), VmErrorS> {
    match i {
        Instr::Nop => Ok((vm, last, stack)),
        Instr::ImmSymBare(b) => {
            let r = spec_intern(vm.interns, b);
            Ok(
                ((VmS { interns: r.0, ..vm }), last, stack.push(
                    ValS::Symbol(None, InternedSymbol(r.1 as usize)),
                )),
            )
        },
        Instr::ImmSymMod(mb, sb) => {
            let r1 = spec_intern(vm.interns, mb);
            let r2 = spec_intern(r1.0, sb);
            Ok(
                ((VmS { interns: r2.0, ..vm }), last, stack.push(
                    ValS::Symbol(
                        Some(InternedSymbol(r1.1 as usize)),
                        InternedSymbol(r2.1 as usize),
                    ),
                )),
            )
        },
        Instr::ImmTrue => Ok((vm, last, stack.push(ValS::Boolean(true)))),
        Instr::ImmFalse => Ok((vm, last, stack.push(ValS::Boolean(false)))),
        Instr::ImmInt(x) => Ok((vm, last, stack.push(ValS::Integer(x)))),
        Instr::ImmFloat(bits) => Ok((vm, last, stack.push(ValS::Float(bits)))),
        Instr::ImmStr(b) => if vstd::utf8::valid_utf8(b) {
            Ok((vm, last, stack.push(ValS::String(decode_utf8(b)))))
        } else {
            Err(VmErrorS::Decode)
        },
        Instr::ConsList(n) => if stack.len() < n {
            Err(VmErrorS::StackImbalance)
        } else {
            let k = stack.len() - n;
            Ok(
                (vm, last, stack.subrange(0, k as int).push(
                    ValS::List(stack.subrange(k as int, stack.len() as int)),
                )),
            )
        },
        Instr::ConsVec(n) => if stack.len() < n {
            Err(VmErrorS::StackImbalance)
        } else {
            let k = stack.len() - n;
            Ok(
                (vm, last, stack.subrange(0, k as int).push(
                    ValS::Vector(stack.subrange(k as int, stack.len() as int)),
                )),
            )
        },
        Instr::Drop => if stack.len() == 0 {
            Err(VmErrorS::StackImbalance)
        } else {
            Ok((vm, Some(stack.last()), stack.drop_last()))
        },
        Instr::Eval => if stack.len() == 0 {
            Err(VmErrorS::StackImbalance)
        } else {
            match spec_eval(vm, module, stack.last()) {
                Err(e) => Err(e),
                Ok((vm2, v)) => Ok((vm2, last, stack.drop_last().push(v))),
            }
        },
        Instr::Call(n) => if n < 1 {
            Err(VmErrorS::Decode)
        } else if stack.len() < n {
            Err(VmErrorS::StackImbalance)
        } else {
            let k = stack.len() - n;
            let operands = stack.subrange(k as int, stack.len() as int);
            match spec_call(vm, module, operands[0], operands.drop_first()) {
                Err(e) => Err(e),
                Ok((vm2, v)) => Ok((vm2, last, stack.subrange(0, k as int).push(v))),
            }
        },
        Instr::Jump(_) => Err(VmErrorS::Decode),
    }
}

/// Run a list of instructions in order, threading the machine, the `last`
/// slot and the stack.
pub open spec fn run_instrs(
    vm: VmS,
    module: usize,
    last: Option<ValS>,
    stack: Seq<ValS>,
    is: Seq<Instr>,
) -> Result<(VmS, Option<ValS>, Seq<ValS>), VmErrorS>
    decreases is,
{
    if is.len() == 0 {
        Ok((vm, last, stack))
    } else {
        match instr_effect_list(vm, module, last, stack, is[0]) {
            Err(e) => Err(e),
            Ok((vm2, last2, stack2)) => run_instrs(vm2, module, last2, stack2, is.drop_first()),
        }
    }
}

/// Running a concatenation runs the parts in order.
pub proof fn lemma_run_instrs_concat(
    vm: VmS,
    module: usize,
    last: Option<ValS>,
    stack: Seq<ValS>,
    a: Seq<Instr>,
    b: Seq<Instr>,
)
    ensures
        run_instrs(vm, module, last, stack, a + b) == (match run_instrs(
            vm,
            module,
            last,
            stack,
            a,
        ) {
            Ok(p) => run_instrs(p.0, module, p.1, p.2, b),
            Err(e) => Err(e),
        }),
    decreases a,
{
    if a.len() == 0 {
        assert(a + b =~= b);
    } else {
        assert((a + b)[0] == a[0]);
        assert((a + b).drop_first() =~= a.drop_first() + b);
        match instr_effect_list(vm, module, last, stack, a[0]) {
            Err(_) => {}
            Ok((vm2, last2, stack2)) => {
                lemma_run_instrs_concat(vm2, module, last2, stack2, a.drop_first(), b);
            }
        }
    }
}

/// One expression's instructions, from any machine and stack, either push
/// exactly one value on top of the untouched stack — leaving the `last`
/// slot alone — or stop with an evaluation-time failure. This is the heart
/// of the compiler's stack discipline.
#[verifier::rlimit(100)]
#[verifier::spinoff_prover]
pub proof fn lemma_expr_balanced(
    vm: VmS,
    module: usize,
    last: Option<ValS>,
    stack: Seq<ValS>,
    n: NodeS,
)
    requires
        spec_node_wf(n),
        node_fits(n),
    ensures
        match run_instrs(vm, module, last, stack, instrs_of_expr(n)) {
            Ok(p) => p.1 == last && p.2.len() == stack.len() + 1 && p.2.drop_last() == stack,
            Err(e) => is_eval_error(e),
        },
    decreases node_size(n), 0int,
{
    let is = instrs_of_expr(n);
    match n.value {
        NodeValueS::Symbol(m_opt, s) => {
            match m_opt {
                None => {
                    if s == "true"@ || s == "false"@ {
                        lemma_run_one(vm, module, last, stack, is[0]);
                    } else {
                        lemma_symbol_eval_balanced(vm, module, last, stack, is);
                    }
                }
                Some(_) => {
                    lemma_symbol_eval_balanced(vm, module, last, stack, is);
                }
            }
        }
        NodeValueS::Integer(_) => {
            lemma_run_one(vm, module, last, stack, is[0]);
        }
        NodeValueS::Float(_) => {
            lemma_run_one(vm, module, last, stack, is[0]);
        }
        NodeValueS::String(s) => {
            encode_utf8_valid_utf8(s);
            lemma_run_one(vm, module, last, stack, is[0]);
        }
        NodeValueS::List(ns) => {
            lemma_nodes_size_bounds(ns, 0);
            assert(spec_node_wf(ns[0]));
            assert(node_fits(ns[0]));
            assert(nodes_fit(ns.drop_first())) by {
                assert(forall|i: int| 0 <= i < ns.len() - 1
                    ==> ns.drop_first()[i] == ns[i + 1]);
            }
            lemma_expr_balanced(vm, module, last, stack, ns[0]);
            let head = instrs_of_expr(ns[0]);
            let args = instrs_of_exprs(ns.drop_first());
            let tail = seq![Instr::Call(ns.len() as u64)];
            assert(is =~= head + args + tail);
            lemma_run_instrs_concat(vm, module, last, stack, head + args, tail);
            lemma_run_instrs_concat(vm, module, last, stack, head, args);
            assert((head + args) + tail =~= is);
            match run_instrs(vm, module, last, stack, head) {
                Err(_) => {}
                Ok(p1) => {
                    lemma_nodes_size_drop_first(ns);
                    lemma_exprs_balanced(p1.0, module, p1.1, p1.2, ns.drop_first());
                    match run_instrs(p1.0, module, p1.1, p1.2, args) {
                        Err(_) => {}
                        Ok(p2) => {
                            // the stack now holds the callee and the
                            // arguments above the original stack
                            let count = ns.len() as u64;
                            assert(count == ns.len() && count >= 1);
                            assert(p2.2.len() == stack.len() + ns.len());
                            lemma_run_one(p2.0, module, p2.1, p2.2, Instr::Call(count));
                            lemma_stack_prefix(stack, p1.2, p2.2, ns.len() as int);
                            let k = p2.2.len() - count;
                            assert(k == stack.len());
                            match instr_effect_list(p2.0, module, p2.1, p2.2, Instr::Call(count)) {
                                Err(e) => {
                                    let operands = p2.2.subrange(k as int, p2.2.len() as int);
                                    lemma_call_errors(
                                        p2.0,
                                        module,
                                        operands[0],
                                        operands.drop_first(),
                                    );
                                }
                                Ok(p3) => {
                                    assert(p3.2.drop_last()
                                        =~= p2.2.subrange(0, stack.len() as int));
                                    assert(p3.2.drop_last() == stack);
                                }
                            }
                        }
                    }
                }
            }
        }
        NodeValueS::Vector(ns) => {
            let body = instrs_of_exprs(ns);
            let tail = seq![Instr::ConsVec(ns.len() as u64)];
            assert(is =~= body + tail);
            lemma_run_instrs_concat(vm, module, last, stack, body, tail);
            lemma_exprs_balanced(vm, module, last, stack, ns);
            match run_instrs(vm, module, last, stack, body) {
                Err(_) => {}
                Ok(p2) => {
                    let count = ns.len() as u64;
                    assert(count == ns.len());
                    lemma_run_one(p2.0, module, p2.1, p2.2, Instr::ConsVec(count));
                    assert(p2.2.subrange(0, stack.len() as int) == stack);
                    let k = p2.2.len() - count;
                    assert(k == stack.len());
                    match instr_effect_list(p2.0, module, p2.1, p2.2, Instr::ConsVec(count)) {
                        Err(_) => {}
                        Ok(p3) => {
                            assert(p3.2.drop_last()
                                =~= p2.2.subrange(0, stack.len() as int));
                            assert(p3.2.drop_last() == stack);
                        }
                    }
                }
            }
        }
    }
}

/// A run of expressions pushes exactly one value per expression, in
/// order, on top of the untouched stack, or stops with an evaluation-time
/// failure.
#[verifier::rlimit(100)]
#[verifier::spinoff_prover]
pub proof fn lemma_exprs_balanced(
    vm: VmS,
    module: usize,
    last: Option<ValS>,
    stack: Seq<ValS>,
    ns: Seq<NodeS>,
)
    requires
        spec_nodes_wf(ns),
        nodes_fit(ns),
    ensures
        match run_instrs(vm, module, last, stack, instrs_of_exprs(ns)) {
            Ok(p) => p.1 == last && p.2.len() == stack.len() + ns.len()
                && p.2.subrange(0, stack.len() as int) == stack,
            Err(e) => is_eval_error(e),
        },
    decreases nodes_size(ns), 1int,
{
    if ns.len() == 0 {
        assert(instrs_of_exprs(ns).len() == 0);
        assert(stack.subrange(0, stack.len() as int) =~= stack);
    } else {
        let a = instrs_of_exprs(ns.drop_last());
        let b = instrs_of_expr(ns.last());
        lemma_run_instrs_concat(vm, module, last, stack, a, b);
        assert(a + b =~= instrs_of_exprs(ns));
        assert(spec_nodes_wf(ns.drop_last()) && nodes_fit(ns.drop_last())) by {
            assert(forall|i: int| 0 <= i < ns.len() - 1
                ==> ns.drop_last()[i] == ns[i]);
        }
        assert(node_fits(ns.last()));
        lemma_nodes_size_of_drop_last(ns);
        lemma_exprs_balanced(vm, module, last, stack, ns.drop_last());
        match run_instrs(vm, module, last, stack, a) {
            Err(_) => {}
            Ok(p1) => {
                assert(spec_node_wf(ns.last()));
                lemma_nodes_size_bounds(ns, ns.len() - 1);
                lemma_expr_balanced(p1.0, module, p1.1, p1.2, ns.last());
                match run_instrs(p1.0, module, p1.1, p1.2, b) {
                    Err(_) => {}
                    Ok(p2) => {
                        assert(p2.2.subrange(0, stack.len() as int) =~= stack) by {
                            assert(p2.2.drop_last() == p1.2);
                            assert(forall|j: int| 0 <= j < stack.len()
                                ==> p2.2[j] == p1.2[j]);
                        }
                    }
                }
            }
        }
    }
}

/// The size of a sequence without its last element stays within the
/// whole.
proof fn lemma_nodes_size_of_drop_last(ns: Seq<NodeS>)
    requires
        ns.len() > 0,
    ensures
        nodes_size(ns.drop_last()) < nodes_size(ns),
        nodes_size(ns.drop_last()) + node_size(ns.last()) <= nodes_size(ns),
    decreases ns,
{
    if ns.len() == 1 {
        assert(ns.drop_last() =~= Seq::<NodeS>::empty());
        lemma_nodes_size_bounds(ns, 0);
    } else {
        assert(ns.drop_last()[0] == ns[0]);
        assert(ns.drop_last().drop_first() =~= ns.drop_first().drop_last());
        assert(ns.drop_first().last() == ns.last());
        lemma_nodes_size_of_drop_last(ns.drop_first());
        lemma_nodes_size_bounds(ns, 0);
    }
}

/// Running a single instruction is its effect.
pub proof fn lemma_run_one(
    vm: VmS,
    module: usize,
    last: Option<ValS>,
    stack: Seq<ValS>,
    i: Instr,
)
    ensures
        run_instrs(vm, module, last, stack, seq![i]) == (match instr_effect_list(
            vm,
            module,
            last,
            stack,
            i,
        ) {
            Ok(p) => Ok::<(VmS, Option<ValS>, Seq<ValS>), VmErrorS>(p),
            Err(e) => Err::<(VmS, Option<ValS>, Seq<ValS>), VmErrorS>(e),
        }),
{
    assert(seq![i].len() == 1);
    assert(seq![i][0] == i);
    assert(seq![i].drop_first() =~= Seq::<Instr>::empty());
    match instr_effect_list(vm, module, last, stack, i) {
        Ok(p) => {
            assert(run_instrs(p.0, module, p.1, p.2, Seq::<Instr>::empty())
                == Ok::<(VmS, Option<ValS>, Seq<ValS>), VmErrorS>(p));
        }
        Err(_) => {}
    }
}

/// Pushing then dropping the last element leaves a sequence unchanged.
proof fn lemma_push_drop_last(s: Seq<ValS>, v: ValS)
    ensures
        s.push(v).drop_last() == s,
        s.push(v).len() == s.len() + 1,
{
    assert(s.push(v).drop_last() =~= s);
}

/// A symbol load followed by `Eval` pushes exactly the evaluated value, or
/// fails as evaluation does.
proof fn lemma_symbol_eval_balanced(
    vm: VmS,
    module: usize,
    last: Option<ValS>,
    stack: Seq<ValS>,
    is: Seq<Instr>,
)
    requires
        is.len() == 2,
        is[1] == Instr::Eval,
        is[0] matches Instr::ImmSymBare(_) || is[0] matches Instr::ImmSymMod(_, _),
    ensures
        match run_instrs(vm, module, last, stack, is) {
            Ok(p) => p.1 == last && p.2.len() == stack.len() + 1 && p.2.drop_last() == stack,
            Err(e) => is_eval_error(e),
        },
{
    assert(is =~= seq![is[0]] + seq![is[1]]);
    lemma_run_instrs_concat(vm, module, last, stack, seq![is[0]], seq![is[1]]);
    lemma_run_one(vm, module, last, stack, is[0]);
    match instr_effect_list(vm, module, last, stack, is[0]) {
        Err(_) => {}
        Ok(p1) => {
            lemma_run_one(p1.0, module, p1.1, p1.2, Instr::Eval);
            lemma_eval_errors(p1.0, module, p1.2.last());
            match instr_effect_list(p1.0, module, p1.1, p1.2, Instr::Eval) {
                Err(_) => {}
                Ok(p2) => {
                    assert(p1.2.drop_last() =~= stack);
                    assert(p2.2.drop_last() =~= stack);
                }
            }
        }
    }
}

/// The prefix below freshly pushed operands is the original stack.
proof fn lemma_stack_prefix(stack: Seq<ValS>, s1: Seq<ValS>, s2: Seq<ValS>, count: int)
    requires
        s1.len() == stack.len() + 1,
        s1.drop_last() == stack,
        s2.len() == s1.len() + count - 1,
        s2.subrange(0, s1.len() as int) == s1,
        count >= 1,
    ensures
        s2.subrange(0, stack.len() as int) == stack,
{
    assert forall|j: int| 0 <= j < stack.len() implies s2[j] == stack[j] by {
        assert(s2.subrange(0, s1.len() as int)[j] == s2[j]);
        assert(s1.drop_last()[j] == s1[j]);
    }
    assert(s2.subrange(0, stack.len() as int) =~= stack);
}

/// One top-level form runs its expression and drops the result into the
/// `last` slot, returning the stack to exactly where it started.
pub proof fn lemma_toplevel_balanced(
    vm: VmS,
    module: usize,
    last: Option<ValS>,
    stack: Seq<ValS>,
    n: NodeS,
)
    requires
        spec_node_wf(n),
        node_fits(n),
    ensures
        match run_instrs(vm, module, last, stack, instrs_of_toplevel(n)) {
            Ok(p) => p.1 is Some && p.2 == stack,
            Err(e) => is_eval_error(e),
        },
{
    lemma_run_instrs_concat(vm, module, last, stack, instrs_of_expr(n), seq![Instr::Drop]);
    lemma_expr_balanced(vm, module, last, stack, n);
    match run_instrs(vm, module, last, stack, instrs_of_expr(n)) {
        Err(_) => {}
        Ok(p1) => {
            lemma_run_one(p1.0, module, p1.1, p1.2, Instr::Drop);
        }
    }
}

/// A whole program keeps the operand stack balanced: each top-level form
/// leaves it exactly as it found it, so it ends where it began — empty,
/// when the program started with an empty stack.
pub proof fn lemma_doc_balanced(
    vm: VmS,
    module: usize,
    last: Option<ValS>,
    stack: Seq<ValS>,
    doc: Seq<NodeS>,
)
    requires
        spec_nodes_wf(doc),
        nodes_fit(doc),
    ensures
        match run_instrs(vm, module, last, stack, instrs_of_doc(doc)) {
            Ok(p) => p.2 == stack && (doc.len() > 0 ==> p.1 is Some)
                && (doc.len() == 0 ==> p.1 == last),
            Err(e) => is_eval_error(e),
        },
    decreases doc,
{
    if doc.len() == 0 {
        assert(instrs_of_doc(doc).len() == 0);
    } else {
        let a = instrs_of_doc(doc.drop_last());
        let b = instrs_of_toplevel(doc.last());
        lemma_run_instrs_concat(vm, module, last, stack, a, b);
        assert(a + b =~= instrs_of_doc(doc));
        assert(spec_nodes_wf(doc.drop_last()) && nodes_fit(doc.drop_last())) by {
            assert(forall|i: int| 0 <= i < doc.len() - 1 ==> doc.drop_last()[i] == doc[i]);
        }
        assert(node_fits(doc.last()));
        lemma_doc_balanced(vm, module, last, stack, doc.drop_last());
        match run_instrs(vm, module, last, stack, a) {
            Err(_) => {}
            Ok(p1) => {
                assert(spec_node_wf(doc.last()));
                lemma_toplevel_balanced(p1.0, module, p1.1, p1.2, doc.last());
            }
        }
    }
}

/// One decode-and-execute step, without the end-of-program bookkeeping.
pub open spec fn seg_step(vm: VmS, p: ProcS) -> Result<(VmS, ProcS), VmErrorS> {
    match spec_decode_instr(p.code, p.ip) {
        None => Err(VmErrorS::Decode),
        Some((i, ip2)) => spec_instr_effect(vm, ProcS { ip: ip2, ..p }, i, p.ip),
    }
}

/// Step until the instruction pointer reaches `end`.
pub open spec fn seg_run(vm: VmS, p: ProcS, end: int) -> Result<(VmS, ProcS), VmErrorS>
    decreases p.code.len() - p.ip,
{
    if p.ip >= end {
        Ok((vm, p))
    } else {
        match seg_step(vm, p) {
            Err(e) => Err(e),
            Ok((vm2, p2)) => if p.ip < p2.ip && p2.ip <= p.code.len() && p2.code == p.code {
                seg_run(vm2, p2, end)
            } else {
                Err(VmErrorS::Decode)
            },
        }
    }
}

/// Away from `Jump`, the byte-level effect is the list-level effect: the
/// instruction pointer is not consulted.
pub proof fn lemma_effect_list_agree(vm: VmS, p: ProcS, i: Instr, ip0: int)
    requires
        !(i matches Instr::Jump(_)),
    ensures
        spec_instr_effect(vm, p, i, ip0) == (match instr_effect_list(
            vm,
            p.module,
            p.last,
            p.stack,
            i,
        ) {
            Ok(t) => Ok::<(VmS, ProcS), VmErrorS>((t.0, ProcS { last: t.1, stack: t.2, ..p })),
            Err(e) => Err::<(VmS, ProcS), VmErrorS>(e),
        }),
{
}

/// Instructions fit for encoded execution: well formed for the wire
/// format, and free of jumps.
pub open spec fn instrs_ok(is: Seq<Instr>) -> bool {
    forall|i: int| 0 <= i < is.len()
        ==> instr_wf(#[trigger] is[i]) && !(is[i] matches Instr::Jump(_))
}

/// Every instruction encoding starts with its tag byte.
pub proof fn lemma_encode_instr_len(i: Instr)
    ensures
        spec_encode_instr(i).len() >= 1,
{
}

/// The compiler only emits well-formed, jump-free instructions.
pub proof fn lemma_instrs_of_expr_ok(n: NodeS)
    requires
        node_fits(n),
    ensures
        instrs_ok(instrs_of_expr(n)),
    decreases node_size(n), 0int,
{
    let is = instrs_of_expr(n);
    match n.value {
        NodeValueS::List(ns) => {
            if ns.len() > 0 {
                lemma_nodes_size_bounds(ns, 0);
                assert(node_fits(ns[0]));
                assert(nodes_fit(ns.drop_first())) by {
                    assert(forall|i: int| 0 <= i < ns.len() - 1
                        ==> ns.drop_first()[i] == ns[i + 1]);
                }
                lemma_instrs_of_expr_ok(ns[0]);
                lemma_nodes_size_drop_first(ns);
                lemma_instrs_of_exprs_ok(ns.drop_first());
                let head = instrs_of_expr(ns[0]);
                let args = instrs_of_exprs(ns.drop_first());
                assert forall|i: int| 0 <= i < is.len()
                    implies instr_wf(#[trigger] is[i]) && !(is[i] matches Instr::Jump(_)) by {
                    if i < head.len() {
                        assert(is[i] == head[i]);
                    } else if i < head.len() + args.len() {
                        assert(is[i] == args[i - head.len()]);
                    } else {
                        assert(is[i] == Instr::Call(ns.len() as u64));
                    }
                }
            }
        }
        NodeValueS::Vector(ns) => {
            lemma_instrs_of_exprs_ok(ns);
            let body = instrs_of_exprs(ns);
            assert forall|i: int| 0 <= i < is.len()
                implies instr_wf(#[trigger] is[i]) && !(is[i] matches Instr::Jump(_)) by {
                if i < body.len() {
                    assert(is[i] == body[i]);
                } else {
                    assert(is[i] == Instr::ConsVec(ns.len() as u64));
                }
            }
        }
        _ => {}
    }
}

/// A run of expressions compiles to well-formed, jump-free instructions.
pub proof fn lemma_instrs_of_exprs_ok(ns: Seq<NodeS>)
    requires
        nodes_fit(ns),
    ensures
        instrs_ok(instrs_of_exprs(ns)),
    decreases nodes_size(ns), 1int,
{
    if ns.len() > 0 {
        assert(nodes_fit(ns.drop_last())) by {
            assert(forall|i: int| 0 <= i < ns.len() - 1 ==> ns.drop_last()[i] == ns[i]);
        }
        lemma_nodes_size_of_drop_last(ns);
        lemma_instrs_of_exprs_ok(ns.drop_last());
        assert(node_fits(ns.last()));
        lemma_nodes_size_bounds(ns, ns.len() - 1);
        lemma_instrs_of_expr_ok(ns.last());
        let a = instrs_of_exprs(ns.drop_last());
        let b = instrs_of_expr(ns.last());
        assert forall|i: int| 0 <= i < a.len() + b.len()
            implies instr_wf(#[trigger] instrs_of_exprs(ns)[i])
                && !(instrs_of_exprs(ns)[i] matches Instr::Jump(_)) by {
            if i < a.len() {
                assert(instrs_of_exprs(ns)[i] == a[i]);
            } else {
                assert(instrs_of_exprs(ns)[i] == b[i - a.len()]);
            }
        }
    }
}

/// A whole program compiles to well-formed, jump-free instructions.
pub proof fn lemma_instrs_of_doc_ok(doc: Seq<NodeS>)
    requires
        nodes_fit(doc),
    ensures
        instrs_ok(instrs_of_doc(doc)),
    decreases doc,
{
    if doc.len() > 0 {
        assert(nodes_fit(doc.drop_last())) by {
            assert(forall|i: int| 0 <= i < doc.len() - 1 ==> doc.drop_last()[i] == doc[i]);
        }
        lemma_instrs_of_doc_ok(doc.drop_last());
        assert(node_fits(doc.last()));
        lemma_instrs_of_expr_ok(doc.last());
        let a = instrs_of_doc(doc.drop_last());
        let b = instrs_of_toplevel(doc.last());
        let e = instrs_of_expr(doc.last());
        assert forall|i: int| 0 <= i < a.len() + b.len()
            implies instr_wf(#[trigger] instrs_of_doc(doc)[i])
                && !(instrs_of_doc(doc)[i] matches Instr::Jump(_)) by {
            if i < a.len() {
                assert(instrs_of_doc(doc)[i] == a[i]);
            } else if i < a.len() + e.len() {
                assert(instrs_of_doc(doc)[i] == e[i - a.len()]);
            } else {
                assert(instrs_of_doc(doc)[i] == Instr::Drop);
            }
        }
    }
}

/// Executing the encoding of a jump-free instruction list, byte by byte,
/// is executing the list: the machine, `last` slot and stack come out the
/// same, and the instruction pointer lands just past the segment.
pub proof fn lemma_seg_encoded(vm: VmS, p: ProcS, is: Seq<Instr>, pre: Seq<u8>, post: Seq<u8>)
    requires
        p.code == pre + spec_encode_prog(is) + post,
        p.ip == pre.len(),
        instrs_ok(is),
    ensures
        seg_run(vm, p, (pre.len() + spec_encode_prog(is).len()) as int) == (match run_instrs(
            vm,
            p.module,
            p.last,
            p.stack,
            is,
        ) {
            Ok(t) => Ok::<(VmS, ProcS), VmErrorS>(
                (t.0, ProcS {
                    last: t.1,
                    stack: t.2,
                    ip: (pre.len() + spec_encode_prog(is).len()) as int,
                    ..p
                }),
            ),
            Err(e) => Err::<(VmS, ProcS), VmErrorS>(e),
        }),
    decreases is.len(),
{
    if is.len() == 0 {
        assert(spec_encode_prog(is).len() == 0);
        assert(p == ProcS { last: p.last, stack: p.stack, ip: pre.len() as int, ..p });
    } else {
        let i0 = is[0];
        let rest = is.drop_first();
        let enc0 = spec_encode_instr(i0);
        let encr = spec_encode_prog(rest);
        assert(seq![i0] + rest =~= is);
        lemma_encode_prog_concat(seq![i0], rest);
        assert(spec_encode_prog(seq![i0]) == enc0) by {
            crate::compiler::lemma_encode_prog_singleton(i0);
        }
        assert(spec_encode_prog(is) == enc0 + encr);
        assert(p.code =~= pre + enc0 + (encr + post));
        assert(instr_wf(i0));
        lemma_decode_encode_instr(pre, i0, encr + post);
        assert(spec_decode_instr(p.code, p.ip) == Some((i0, (pre.len() + enc0.len()) as int)));
        lemma_encode_instr_len(i0);
        let ip2 = pre.len() + enc0.len();
        let pmid = ProcS { ip: ip2 as int, ..p };
        lemma_effect_list_agree(vm, pmid, i0, p.ip);
        match instr_effect_list(vm, p.module, p.last, p.stack, i0) {
            Err(e) => {}
            Ok(t) => {
                let p2 = ProcS { last: t.1, stack: t.2, ..pmid };
                assert(p2.code == p.code && p2.ip == ip2);
                assert(instrs_ok(rest)) by {
                    assert(forall|j: int| 0 <= j < rest.len() ==> rest[j] == is[j + 1]);
                }
                assert(p2.code == (pre + enc0) + encr + post) by {
                    assert(pre + enc0 + (encr + post) =~= (pre + enc0) + encr + post);
                }
                lemma_seg_encoded(t.0, p2, rest, pre + enc0, post);
                assert(pre.len() + spec_encode_prog(is).len() == (pre + enc0).len() + encr.len());
            }
        }
    }
}

/// When a segment run reaches the end of the buffer, the machine's own
/// run agrees with it: success with an empty stack hands out the `last`
/// value, success with a value still on the stack is a stack imbalance,
/// and a failing segment fails the run the same way.
pub proof fn lemma_spec_run_from_seg(vm: VmS, p: ProcS)
    requires
        p.ip < p.code.len(),
    ensures
        match seg_run(vm, p, p.code.len() as int) {
            Ok((vm2, p2)) => {
                &&& (p2.stack.len() == 0 ==> (match p2.last {
                    Some(v) => spec_run(vm, p) == Ok::<(VmS, ValS), VmErrorS>((vm2, v)),
                    None => spec_run(vm, p) == Err::<(VmS, ValS), VmErrorS>(VmErrorS::NoResult),
                }))
                &&& (p2.stack.len() != 0 ==> spec_run(vm, p) == Err::<(VmS, ValS), VmErrorS>(
                    VmErrorS::StackImbalance,
                ))
            },
            Err(e) => spec_run(vm, p) == Err::<(VmS, ValS), VmErrorS>(e),
        },
    decreases p.code.len() - p.ip,
{
    match seg_step(vm, p) {
        Err(e) => {}
        Ok((vmA, pA)) => {
            lemma_seg_step_bounds(vm, p);
            if p.ip < pA.ip && pA.ip <= p.code.len() && pA.code == p.code {
                if pA.ip >= p.code.len() {
                    assert(seg_run(vmA, pA, p.code.len() as int) == Ok::<(VmS, ProcS), VmErrorS>(
                        (vmA, pA),
                    ));
                } else {
                    lemma_spec_run_from_seg(vmA, pA);
                }
            }
        }
    }
}

/// A successful step keeps the buffer, the module, and lands the
/// instruction pointer inside it.
pub proof fn lemma_seg_step_bounds(vm: VmS, p: ProcS)
    ensures
        match seg_step(vm, p) {
            Ok((vm2, p2)) => p2.code == p.code && p2.module == p.module
                && p2.ip <= p.code.len(),
            Err(_) => true,
        },
{
    match spec_decode_instr(p.code, p.ip) {
        None => {}
        Some((i, ip2)) => {
            crate::vm::ops::lemma_decode_instr_advances(p.code, p.ip);
        }
    }
}

/// Which trees are single literals: an integer, float or string literal,
/// or one of the boolean names that compile to boolean immediates.
pub open spec fn is_literal(n: NodeS) -> bool {
    match n.value {
        NodeValueS::Integer(_) => true,
        NodeValueS::Float(_) => true,
        NodeValueS::String(_) => true,
        NodeValueS::Symbol(m, s) => m is None && (s == "true"@ || s == "false"@),
        _ => false,
    }
}

/// The value a literal denotes.
pub open spec fn literal_value(n: NodeS) -> ValS {
    match n.value {
        NodeValueS::Integer(i) => ValS::Integer(i),
        NodeValueS::Float(bits) => ValS::Float(bits),
        NodeValueS::String(s) => ValS::String(s),
        NodeValueS::Symbol(m, s) => ValS::Boolean(s == "true"@),
        _ => ValS::Boolean(false),
    }
}

/// Round-trip: compiling a single literal form and interpreting the
/// result reproduces the literal value — integer, float bit pattern,
/// string text, or boolean — and leaves the machine untouched.
pub proof fn lemma_literal_round_trip(vm: VmS, pid: int, module: usize, n: NodeS)
    requires
        is_literal(n),
        node_fits(n),
    ensures
        spec_run(
            vm,
            ProcS {
                pid,
                module,
                last: None,
                code: spec_compile_doc(seq![n]),
                ip: 0,
                stack: Seq::empty(),
            },
        ) == Ok::<(VmS, ValS), VmErrorS>((vm, literal_value(n))),
{
    let is = instrs_of_doc(seq![n]);
    assert(seq![n].drop_last() =~= Seq::<NodeS>::empty());
    assert(seq![n].last() == n);
    assert(instrs_of_doc(Seq::<NodeS>::empty()) == Seq::<Instr>::empty());
    assert(Seq::<Instr>::empty() + instrs_of_toplevel(n) =~= instrs_of_toplevel(n));
    assert(is == instrs_of_expr(n) + seq![Instr::Drop]);
    let lit = instrs_of_expr(n);
    assert(lit.len() == 1);
    let p0 = ProcS {
        pid,
        module,
        last: None,
        code: spec_compile_doc(seq![n]),
        ip: 0,
        stack: Seq::empty(),
    };
    assert(spec_node_wf(n));
    lemma_instrs_of_expr_ok(n);
    assert(instrs_ok(is)) by {
        assert(forall|j: int| 0 <= j < lit.len() ==> is[j] == lit[j]);
        assert(is[is.len() - 1] == Instr::Drop);
    }
    assert(p0.code =~= Seq::<u8>::empty() + spec_encode_prog(is) + Seq::<u8>::empty());
    lemma_seg_encoded(vm, p0, is, Seq::empty(), Seq::empty());
    // the two instructions: push the literal, then drop it into `last`
    lemma_run_instrs_concat(vm, module, None, Seq::empty(), lit, seq![Instr::Drop]);
    assert(lit + seq![Instr::Drop] =~= is);
    lemma_run_one(vm, module, None, Seq::empty(), lit[0]);
    match n.value {
        NodeValueS::String(s) => {
            encode_utf8_valid_utf8(s);
            encode_utf8_decode_utf8(s);
        }
        _ => {}
    }
    match instr_effect_list(vm, module, None, Seq::empty(), lit[0]) {
        Err(_) => {
            assert(false);
        }
        Ok(t1) => {
            assert(t1.0 == vm && t1.2 =~= seq![literal_value(n)]);
            lemma_run_one(t1.0, module, t1.1, t1.2, Instr::Drop);
            match instr_effect_list(t1.0, module, t1.1, t1.2, Instr::Drop) {
                Err(_) => {
                    assert(false);
                }
                Ok(t2) => {
                    assert(t2.1 == Some(literal_value(n)));
                    assert(t2.2 =~= Seq::<ValS>::empty());
                }
            }
        }
    }
    lemma_encode_instr_len(is[0]);
    assert(spec_encode_prog(is).len() >= 1) by {
        assert(seq![lit[0]] + seq![Instr::Drop] =~= is);
        lemma_encode_prog_concat(seq![lit[0]], seq![Instr::Drop]);
        crate::compiler::lemma_encode_prog_singleton(lit[0]);
        crate::compiler::lemma_encode_prog_singleton(Instr::Drop);
        lemma_encode_instr_len(lit[0]);
    }
    lemma_spec_run_from_seg(vm, p0);
}

/// Stack balance: a program compiled from a valid tree can never leave
/// the operand stack unbalanced — the run never reports a stack
/// imbalance, and for a non-empty program it either succeeds or stops
/// with an evaluation-time failure.
pub proof fn lemma_compiled_stack_balance(vm: VmS, pid: int, module: usize, doc: Seq<NodeS>)
    requires
        spec_nodes_wf(doc),
        nodes_fit(doc),
    ensures
        ({
            let p0 = ProcS {
                pid,
                module,
                last: None,
                code: spec_compile_doc(doc),
                ip: 0,
                stack: Seq::empty(),
            };
            &&& spec_run(vm, p0) != Err::<(VmS, ValS), VmErrorS>(VmErrorS::StackImbalance)
            &&& (doc.len() > 0 ==> match spec_run(vm, p0) {
                Ok(_) => true,
                Err(e) => is_eval_error(e),
            })
        }),
{
    let is = instrs_of_doc(doc);
    let p0 = ProcS {
        pid,
        module,
        last: None,
        code: spec_compile_doc(doc),
        ip: 0,
        stack: Seq::empty(),
    };
    if doc.len() == 0 {
        assert(spec_encode_prog(is).len() == 0);
        assert(spec_decode_instr(p0.code, 0) is None);
        assert(spec_run(vm, p0) == Err::<(VmS, ValS), VmErrorS>(VmErrorS::Decode));
    } else {
        lemma_instrs_of_doc_ok(doc);
        assert(p0.code =~= Seq::<u8>::empty() + spec_encode_prog(is) + Seq::<u8>::empty());
        lemma_seg_encoded(vm, p0, is, Seq::empty(), Seq::empty());
        lemma_doc_balanced(vm, module, None, Seq::empty(), doc);
        assert(is.len() > 0) by {
            assert(is == instrs_of_doc(doc.drop_last()) + instrs_of_toplevel(doc.last()));
            assert(instrs_of_toplevel(doc.last()).len() >= 1);
        }
        assert(spec_encode_prog(is).len() >= 1) by {
            lemma_encode_prog_nonempty(is);
        }
        lemma_spec_run_from_seg(vm, p0);
    }
}

/// A non-empty instruction list has a non-empty encoding.
pub proof fn lemma_encode_prog_nonempty(is: Seq<Instr>)
    requires
        is.len() > 0,
    ensures
        spec_encode_prog(is).len() >= 1,
{
    lemma_encode_instr_len(is.last());
}

/// Call arity: executing `Call(n)` pops exactly `n` values — the callee
/// and its arguments — and pushes exactly one result, for any `n ≥ 1`;
/// everything below the popped operands is untouched. When dispatch
/// fails instead, it is an evaluation-time failure.
pub proof fn lemma_call_arity(vm: VmS, p: ProcS, n: u64, ip0: int)
    requires
        n >= 1,
        p.stack.len() >= n,
    ensures
        match spec_instr_effect(vm, p, Instr::Call(n), ip0) {
            Ok((vm2, p2)) => p2.stack.len() == p.stack.len() - n + 1
                && p2.stack.drop_last() == p.stack.subrange(0, (p.stack.len() - n) as int),
            Err(e) => is_eval_error(e),
        },
{
    let k = p.stack.len() - n;
    let operands = p.stack.subrange(k as int, p.stack.len() as int);
    lemma_call_errors(vm, p.module, operands[0], operands.drop_first());
    match spec_call(vm, p.module, operands[0], operands.drop_first()) {
        Err(_) => {}
        Ok((vm2, v)) => {
            assert(p.stack.subrange(0, k as int).push(v).drop_last()
                =~= p.stack.subrange(0, k as int));
        }
    }
}

/// Resolution precedence: a module's own binds win over the global
/// registry and over every referred module; the registry wins over the
/// refers.
pub proof fn lemma_resolution_precedence(m: ModuleS, vm: VmS, s: InternedSymbol)
    ensures
        assoc_has(m.binds, s) ==> spec_lookup(m, vm, s) == assoc_lookup(m.binds, s),
        !assoc_has(m.binds, s) ==> (assoc_lookup(vm.registry, s) matches Some(r)
            ==> spec_lookup(m, vm, s) == Some(ValS::Module(r as int))),
{
}

/// Qualified bypass: a module-qualified reference checks only the named
/// module's own binds. When the name is not bound there, resolution
/// substitutes the placeholder — bindings visible only through the named
/// module's refers are never consulted.
pub proof fn lemma_qualified_bypass(
    vm: VmS,
    module: usize,
    mname: InternedSymbol,
    y: InternedSymbol,
)
    requires
        assoc_lookup(vm.registry, mname) matches Some(rid)
            && !assoc_has(vm.modules[rid as int].binds, y),
    ensures
        spec_eval(vm, module, ValS::Symbol(Some(mname), y)) == Ok::<(VmS, ValS), VmErrorS>(
            spec_placeholder(vm),
        ),
{
}

/// Self-evaluation: booleans, integers, floats, strings and the empty
/// list evaluate to themselves, without touching the machine.
pub proof fn lemma_self_evaluation(vm: VmS, module: usize, v: ValS)
    requires
        v matches ValS::Boolean(_) || v matches ValS::Integer(_) || v matches ValS::Float(_)
            || v matches ValS::String(_) || v == ValS::List(Seq::<ValS>::empty()),
    ensures
        spec_eval(vm, module, v) == Ok::<(VmS, ValS), VmErrorS>((vm, v)),
{
}

} // verus!
