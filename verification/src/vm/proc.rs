//! The bytecode interpreter: one `Proc` owns a bytecode buffer, an
//! instruction pointer, and an operand stack, and executes one instruction
//! at a time against a module, performing symbol resolution and native
//! dispatch as side effects. The small-step semantics is written out as
//! spec functions; the executable interpreter is proved to follow them
//! exactly.

use vstd::prelude::*;
use vstd::string::*;
use vstd::utf8::{valid_utf8, decode_utf8};

use crate::text::string_from_utf8;
use crate::vm::interns::{spec_intern, InternedSymbol};
use crate::vm::module::{assoc_lookup, spec_lookup};
use crate::vm::ops::{
    spec_decode_instr, spec_read_u64, spec_read_bytes, Instr, Op,
};
use crate::vm::val::{
    val_size, vals_size, views_of, view_of, lemma_views_of_index, lemma_views_of_len,
    lemma_views_of_push, lemma_views_of_subrange, lemma_vals_size_bounds,
    lemma_vals_size_drop_first, Builtin, Val, ValS,
};
use crate::vm::{
    lemma_assoc_in_range, lemma_modules_view_index, lemma_modules_view_len, Vm, VmError, VmErrorS,
    VmS,
};

verus! {

/// Identity of one interpreter run; fresh for each scheduled program.
#[derive(Clone, Copy, PartialEq, Eq, Structural, Hash, Debug)]
pub struct Pid(pub usize);

/// What one `step` reports: the program either has more instructions or
/// has run off the end of its buffer.
#[derive(Clone, Copy, PartialEq, Eq, Structural, Debug)]
pub enum Step {
    Running,
    Finished,
}

/// The mathematical shape of one interpreter instance.
pub ghost struct ProcS {
    pub pid: int,
    pub module: usize,
    pub last: Option<ValS>,
    pub code: Seq<u8>,
    pub ip: int,
    pub stack: Seq<ValS>,
}

/// One interpreter instance: its bytecode, instruction pointer (a byte
/// offset), operand stack, a `last` slot holding the most recent dropped
/// value, and the arena index of the module it executes against. It lives
/// for exactly one `run_to_completion`.
pub struct Proc {
    pub pid: Pid,
    pub module: usize,
    pub last: Option<Val>,
    pub code: Vec<u8>,
    pub ip: usize,
    pub stack: Vec<Val>,
}

/// The view of an optional value.
pub open spec fn opt_view(v: Option<Val>) -> Option<ValS> {
    match v {
        None => None,
        Some(x) => Some(view_of(x)),
    }
}

impl View for Proc {
    type V = ProcS;

    open spec fn view(&self) -> ProcS {
        ProcS {
            pid: self.pid.0 as int,
            module: self.module,
            last: opt_view(self.last),
            code: self.code@,
            ip: self.ip as int,
            stack: views_of(self.stack@),
        }
    }
}

/// The machine state and placeholder value that an unresolved symbol
/// produces: the placeholder name is interned and substituted, rather than
/// failing the run (a deliberately open point of the resolution design).
pub open spec fn spec_placeholder(vm: VmS) -> (VmS, ValS) {
    let r = spec_intern(vm.interns, "unbound!".spec_bytes());
    (
        VmS { interns: r.0, ..vm },
        ValS::Symbol(None, InternedSymbol(r.1 as usize)),
    )
}

/// Evaluate one value against the module at index `module`:
/// - a bare symbol resolves through the layered lookup, an unresolved one
///   becomes the placeholder symbol;
/// - a qualified symbol resolves its module in the global registry and then
///   checks only that module's own binds (no refer fallback);
/// - booleans, integers, floats, strings, the empty list, builtins and
///   modules evaluate to themselves;
/// - a non-empty list evaluates its head and dispatches it as a callee on
///   the remaining elements;
/// - a vector evaluates element-wise.
pub open spec fn spec_eval(vm: VmS, module: usize, form: ValS) -> Result<(VmS, ValS), VmErrorS>
    decreases val_size(form), 0int,
{
    match form {
        ValS::Symbol(None, s) => match spec_lookup(vm.modules[module as int], vm, s) {
            Some(v) => Ok((vm, v)),
            None => Ok(spec_placeholder(vm)),
        },
        ValS::Symbol(Some(m), s) => match assoc_lookup(vm.registry, m) {
            None => Ok(spec_placeholder(vm)),
            Some(rid) => match assoc_lookup(vm.modules[rid as int].binds, s) {
                Some(v) => Ok((vm, v)),
                None => Ok(spec_placeholder(vm)),
            },
        },
        ValS::Boolean(_) => Ok((vm, form)),
        ValS::Integer(_) => Ok((vm, form)),
        ValS::Float(_) => Ok((vm, form)),
        ValS::String(_) => Ok((vm, form)),
        ValS::List(ns) => if ns.len() == 0 {
            Ok((vm, form))
        } else {
            match spec_eval(vm, module, ns[0]) {
                Err(e) => Err(e),
                Ok((vm2, callee)) => spec_call(vm2, module, callee, ns.drop_first()),
            }
        },
        ValS::Vector(ns) => match spec_eval_seq(vm, module, ns) {
            Err(e) => Err(e),
            Ok((vm2, rs)) => Ok((vm2, ValS::Vector(rs))),
        },
        ValS::Builtin(..) => Ok((vm, form)),
        ValS::Module(..) => Ok((vm, form)),
    }
}

/// Evaluate a sequence of values left to right, threading the machine
/// state through.
pub open spec fn spec_eval_seq(vm: VmS, module: usize, items: Seq<ValS>) -> Result<
    (VmS, Seq<ValS>),
    VmErrorS,
>
    decreases vals_size(items), 1int,
    via spec_eval_seq_decreases
{
    if items.len() == 0 {
        Ok((vm, Seq::empty()))
    } else {
        match spec_eval(vm, module, items[0]) {
            Err(e) => Err(e),
            Ok((vm2, v)) => match spec_eval_seq(vm2, module, items.drop_first()) {
                Err(e) => Err(e),
                Ok((vm3, rest)) => Ok((vm3, seq![v] + rest)),
            },
        }
    }
}

/// A value's size is positive, so evaluating the tail of a non-empty
/// sequence works on a strictly smaller measure.
#[via_fn]
proof fn spec_eval_seq_decreases(vm: VmS, module: usize, items: Seq<ValS>) {
    if items.len() > 0 {
        lemma_vals_size_bounds(items, 0);
    }
}

/// Dispatch a callee on its arguments. Only a `Builtin` value is callable:
/// `print` evaluates every argument, appends the results to the machine's
/// output, and returns the empty list; `quote` hands its single argument
/// back unevaluated. Anything else is a call-target failure carrying the
/// attempted callee.
pub open spec fn spec_call(vm: VmS, module: usize, callee: ValS, args: Seq<ValS>) -> Result<
    (VmS, ValS),
    VmErrorS,
>
    decreases vals_size(args), 2int,
{
    match callee {
        ValS::Builtin(name, code) => match code {
            Builtin::Print => match spec_eval_seq(vm, module, args) {
                Err(e) => Err(e),
                Ok((vm2, vs)) => Ok(
                    ((VmS { output: vm2.output + vs, ..vm2 }), ValS::List(Seq::empty())),
                ),
            },
            Builtin::Quote => if args.len() == 1 {
                Ok((vm, args[0]))
            } else {
                Err(VmErrorS::BuiltinArity)
            },
        },
        _ => Err(VmErrorS::CallTarget(callee)),
    }
}

/// The effect of one decoded instruction. `p.ip` already sits just past
/// the instruction; `ip0` is where its opcode byte was (the relative jump
/// is taken backward from the position after the opcode).
pub open spec fn spec_instr_effect(vm: VmS, p: ProcS, i: Instr, ip0: int) -> Result<
    (VmS, ProcS),
    VmErrorS,
> {
    match i {
        Instr::Nop => Ok((vm, p)),
        Instr::ImmSymBare(b) => {
            let r = spec_intern(vm.interns, b);
            Ok(
                ((VmS { interns: r.0, ..vm }), ProcS {
                    stack: p.stack.push(ValS::Symbol(None, InternedSymbol(r.1 as usize))),
                    ..p
                }),
            )
        },
        Instr::ImmSymMod(mb, sb) => {
            let r1 = spec_intern(vm.interns, mb);
            let r2 = spec_intern(r1.0, sb);
            Ok(
                ((VmS { interns: r2.0, ..vm }), ProcS {
                    stack: p.stack.push(
                        ValS::Symbol(
                            Some(InternedSymbol(r1.1 as usize)),
                            InternedSymbol(r2.1 as usize),
                        ),
                    ),
                    ..p
                }),
            )
        },
        Instr::ImmTrue => Ok((vm, ProcS { stack: p.stack.push(ValS::Boolean(true)), ..p })),
        Instr::ImmFalse => Ok((vm, ProcS { stack: p.stack.push(ValS::Boolean(false)), ..p })),
        Instr::ImmInt(x) => Ok((vm, ProcS { stack: p.stack.push(ValS::Integer(x)), ..p })),
        Instr::ImmFloat(bits) => Ok((vm, ProcS { stack: p.stack.push(ValS::Float(bits)), ..p })),
        Instr::ImmStr(b) => if valid_utf8(b) {
            Ok((vm, ProcS { stack: p.stack.push(ValS::String(decode_utf8(b))), ..p }))
        } else {
            Err(VmErrorS::Decode)
        },
        Instr::ConsList(n) => if p.stack.len() < n {
            Err(VmErrorS::StackImbalance)
        } else {
            let k = p.stack.len() - n;
            Ok(
                (vm, ProcS {
                    stack: p.stack.subrange(0, k as int).push(
                        ValS::List(p.stack.subrange(k as int, p.stack.len() as int)),
                    ),
                    ..p
                }),
            )
        },
        Instr::ConsVec(n) => if p.stack.len() < n {
            Err(VmErrorS::StackImbalance)
        } else {
            let k = p.stack.len() - n;
            Ok(
                (vm, ProcS {
                    stack: p.stack.subrange(0, k as int).push(
                        ValS::Vector(p.stack.subrange(k as int, p.stack.len() as int)),
                    ),
                    ..p
                }),
            )
        },
        Instr::Drop => if p.stack.len() == 0 {
            Err(VmErrorS::StackImbalance)
        } else {
            Ok(
                (vm, ProcS { last: Some(p.stack.last()), stack: p.stack.drop_last(), ..p }),
            )
        },
        Instr::Eval => if p.stack.len() == 0 {
            Err(VmErrorS::StackImbalance)
        } else {
            match spec_eval(vm, p.module, p.stack.last()) {
                Err(e) => Err(e),
                Ok((vm2, v)) => Ok((vm2, ProcS { stack: p.stack.drop_last().push(v), ..p })),
            }
        },
        Instr::Call(n) => if n < 1 {
            Err(VmErrorS::Decode)
        } else if p.stack.len() < n {
            Err(VmErrorS::StackImbalance)
        } else {
            let k = p.stack.len() - n;
            let operands = p.stack.subrange(k as int, p.stack.len() as int);
            match spec_call(vm, p.module, operands[0], operands.drop_first()) {
                Err(e) => Err(e),
                Ok((vm2, v)) => Ok(
                    (vm2, ProcS { stack: p.stack.subrange(0, k as int).push(v), ..p }),
                ),
            }
        },
        Instr::Jump(n) => if n > ip0 + 1 {
            Err(VmErrorS::Decode)
        } else {
            Ok((vm, ProcS { ip: ip0 + 1 - n, ..p }))
        },
    }
}

/// One small step of the machine: decode the instruction at the
/// instruction pointer, apply its effect, and report whether the program
/// has reached the end of its buffer. At normal completion the operand
/// stack must be empty; anything left on it is a stack-imbalance failure.
pub open spec fn spec_step(vm: VmS, p: ProcS) -> Result<(VmS, ProcS, bool), VmErrorS> {
    match spec_decode_instr(p.code, p.ip) {
        None => Err(VmErrorS::Decode),
        Some((i, ip2)) => match spec_instr_effect(vm, ProcS { ip: ip2, ..p }, i, p.ip) {
            Err(e) => Err(e),
            Ok((vm2, p2)) => if p2.ip < p2.code.len() {
                Ok((vm2, p2, false))
            } else if p2.stack.len() == 0 {
                Ok((vm2, p2, true))
            } else {
                Err(VmErrorS::StackImbalance)
            },
        },
    }
}

/// Step the machine to completion and return the value in the `last`
/// slot. A program that never dropped a value has no result; a buffer
/// whose instruction pointer fails to advance (a backward jump) is
/// rejected as a decode failure rather than looped forever — the compiler
/// never emits one.
pub open spec fn spec_run(vm: VmS, p: ProcS) -> Result<(VmS, ValS), VmErrorS>
    decreases p.code.len() - p.ip,
{
    match spec_step(vm, p) {
        Err(e) => Err(e),
        Ok((vm2, p2, finished)) => if finished {
            match p2.last {
                Some(v) => Ok((vm2, v)),
                None => Err(VmErrorS::NoResult),
            }
        } else if p.ip < p2.ip && p2.code == p.code {
            spec_run(vm2, p2)
        } else {
            Err(VmErrorS::Decode)
        },
    }
}

impl Proc {
    /// A fresh interpreter for one program, with an empty stack and no
    /// result yet.
    pub fn new(pid: Pid, module: usize, code: Vec<u8>) -> (r: Proc)
        ensures
            r@ == (ProcS {
                pid: pid.0 as int,
                module: module,
                last: None,
                code: code@,
                ip: 0,
                stack: Seq::empty(),
            }),
    {
        let r = Proc { pid, module, last: None, code, ip: 0, stack: Vec::new() };
        proof {
            assert(r@.stack =~= Seq::<ValS>::empty());
        }
        r
    }

    /// Read one 8-byte little-endian operand at the instruction pointer,
    /// advancing past it; a truncated read is a decode failure.
    fn n(&mut self) -> (r: Result<u64, VmError>)
        ensures
            final(self).pid == old(self).pid,
            final(self).module == old(self).module,
            final(self).last == old(self).last,
            final(self).code == old(self).code,
            final(self).stack == old(self).stack,
            match r {
                Ok(x) => spec_read_u64(old(self)@.code, old(self)@.ip)
                    == Some((x, final(self)@.ip)),
                Err(e) => spec_read_u64(old(self)@.code, old(self)@.ip) is None
                    && e == VmError::Decode && final(self).ip == old(self).ip,
            },
    {
        if self.ip > self.code.len() || self.code.len() - self.ip < 8 {
            return Err(VmError::Decode);
        }
        let s = &self.code.as_slice()[self.ip..self.ip + 8];
        let x = vstd::bytes::u64_from_le_bytes(s);
        self.ip = self.ip + 8;
        Ok(x)
    }

    /// Evaluate one value against this interpreter's module, following
    /// `spec_eval` exactly. Evaluation can grow the interner (placeholder
    /// symbols) and the output (nested `print`), but never the module
    /// arena or the registry.
    pub fn eval(&mut self, vm: &mut Vm, form: &Val) -> (r: Result<Val, VmError>)
        requires
            old(vm).wf(),
            old(self)@.module < old(vm)@.modules.len(),
        ensures
            *final(self) == *old(self),
            final(vm).wf(),
            final(vm)@.modules == old(vm)@.modules,
            final(vm)@.registry == old(vm)@.registry,
            match r {
                Ok(v) => spec_eval(old(vm)@, old(self)@.module, form@)
                    == Ok::<(VmS, ValS), VmErrorS>((final(vm)@, v@)),
                Err(e) => spec_eval(old(vm)@, old(self)@.module, form@)
                    == Err::<(VmS, ValS), VmErrorS>(e@),
            },
        decreases val_size(form@), 0int,
    {
        match form {
            Val::Symbol(modname, s) => match modname {
                None => {
                    proof {
                        lemma_modules_view_len(vm.modules@);
                        lemma_modules_view_index(vm.modules@, self.module as int);
                    }
                    let m = &vm.modules[self.module];
                    match m.lookup(vm, *s) {
                        Some(v) => Ok(v),
                        None => {
                            let sym = vm.interns.intern("unbound!".as_bytes());
                            Ok(Val::Symbol(None, sym))
                        }
                    }
                }
                Some(mn) => match vm.lookup_module(*mn) {
                    None => {
                        let sym = vm.interns.intern("unbound!".as_bytes());
                        Ok(Val::Symbol(None, sym))
                    }
                    Some(rid) => {
                        proof {
                            lemma_assoc_in_range(vm@.registry, *mn, vm@.modules.len() as int);
                            lemma_modules_view_len(vm.modules@);
                            lemma_modules_view_index(vm.modules@, rid as int);
                        }
                        let target = &vm.modules[rid];
                        match target.get_bind(*s) {
                            Some(v) => Ok(v),
                            None => {
                                let sym = vm.interns.intern("unbound!".as_bytes());
                                Ok(Val::Symbol(None, sym))
                            }
                        }
                    }
                },
            },
            Val::Boolean(_) => Ok(form.clone()),
            Val::Integer(_) => Ok(form.clone()),
            Val::Float(_) => Ok(form.clone()),
            Val::String(_) => Ok(form.clone()),
            Val::List(ns) => {
                if ns.len() == 0 {
                    let r = form.clone();
                    proof {
                        assert(views_of(ns@) =~= Seq::<ValS>::empty());
                    }
                    Ok(r)
                } else {
                    proof {
                        lemma_views_of_len(ns@);
                        lemma_views_of_index(ns@, 0);
                        lemma_vals_size_bounds(views_of(ns@), 0);
                    }
                    let callee = match self.eval(vm, &ns[0]) {
                        Ok(v) => v,
                        Err(e) => {
                            return Err(e);
                        }
                    };
                    let rest = &ns.as_slice()[1..ns.len()];
                    proof {
                        lemma_views_of_subrange(ns@, 1, ns@.len() as int);
                        assert(views_of(ns@).subrange(1, views_of(ns@).len() as int)
                            =~= views_of(ns@).drop_first());
                        lemma_vals_size_drop_first(views_of(ns@));
                    }
                    self.call(vm, &callee, rest)
                }
            }
            Val::Vector(ns) => {
                proof {
                    lemma_views_of_len(ns@);
                }
                match crate::vm::builtins::eval_args(vm, self, ns.as_slice()) {
                    Ok(vs) => Ok(Val::Vector(vs)),
                    Err(e) => Err(e),
                }
            }
            Val::Builtin(_) => Ok(form.clone()),
            Val::Module(_) => Ok(form.clone()),
        }
    }

    /// Dispatch a callee on its arguments, following `spec_call` exactly:
    /// only a `Builtin` value is callable.
    pub fn call(&mut self, vm: &mut Vm, callee: &Val, args: &[Val]) -> (r: Result<Val, VmError>)
        requires
            old(vm).wf(),
            old(self)@.module < old(vm)@.modules.len(),
        ensures
            *final(self) == *old(self),
            final(vm).wf(),
            final(vm)@.modules == old(vm)@.modules,
            final(vm)@.registry == old(vm)@.registry,
            match r {
                Ok(v) => spec_call(old(vm)@, old(self)@.module, callee@, views_of(args@))
                    == Ok::<(VmS, ValS), VmErrorS>((final(vm)@, v@)),
                Err(e) => spec_call(old(vm)@, old(self)@.module, callee@, views_of(args@))
                    == Err::<(VmS, ValS), VmErrorS>(e@),
            },
        decreases vals_size(views_of(args@)), 3int,
    {
        match callee {
            Val::Builtin(b) => match b.code {
                Builtin::Print => crate::vm::builtins::print(vm, self, args),
                Builtin::Quote => {
                    proof {
                        lemma_views_of_len(args@);
                    }
                    crate::vm::builtins::quote(vm, self, args)
                }
            },
            _ => Err(VmError::CallTarget(callee.clone())),
        }
    }

    /// Decode and execute the single instruction at the instruction
    /// pointer, following `spec_step` exactly: apply its effect, then
    /// report `Running` while instructions remain, `Finished` at the end
    /// of the buffer with an empty operand stack, and a stack-imbalance
    /// failure at the end of the buffer otherwise.
    #[verifier::rlimit(100)]
    #[verifier::spinoff_prover]
    pub fn step(&mut self, vm: &mut Vm) -> (r: Result<Step, VmError>)
        requires
            old(vm).wf(),
            old(self)@.module < old(vm)@.modules.len(),
        ensures
            final(vm).wf(),
            final(vm)@.modules == old(vm)@.modules,
            final(vm)@.registry == old(vm)@.registry,
            final(self).module == old(self).module,
            final(self).pid == old(self).pid,
            final(self).code == old(self).code,
            match r {
                Ok(s) => spec_step(old(vm)@, old(self)@) == Ok::<(VmS, ProcS, bool), VmErrorS>(
                    (final(vm)@, final(self)@, s == Step::Finished),
                ),
                Err(e) => spec_step(old(vm)@, old(self)@) == Err::<(VmS, ProcS, bool), VmErrorS>(
                    e@,
                ),
            },
    {
        let ghost p0 = old(self)@;
        if self.ip >= self.code.len() {
            return Err(VmError::Decode);
        }
        let tag = self.code[self.ip];
        let op = match Op::from_u8(tag) {
            Some(op) => op,
            None => {
                return Err(VmError::Decode);
            }
        };
        self.ip = self.ip + 1;
        match op {
            Op::Nop => {}
            Op::ImmediateSymbolBare => {
                let b = match self.read_bytes_operand() {
                    Ok(b) => b,
                    Err(e) => {
                        return Err(e);
                    }
                };
                let s = vm.interns.intern(b.as_slice());
                let ghost stack0 = self.stack@;
                self.stack.push(Val::Symbol(None, s));
                proof {
                    lemma_views_of_push(stack0, Val::Symbol(None, s));
                }
            }
            Op::ImmediateSymbolWithModule => {
                let mb = match self.read_bytes_operand() {
                    Ok(b) => b,
                    Err(e) => {
                        return Err(e);
                    }
                };
                let sb = match self.read_bytes_operand() {
                    Ok(b) => b,
                    Err(e) => {
                        return Err(e);
                    }
                };
                let m = vm.interns.intern(mb.as_slice());
                let s = vm.interns.intern(sb.as_slice());
                let ghost stack0 = self.stack@;
                self.stack.push(Val::Symbol(Some(m), s));
                proof {
                    lemma_views_of_push(stack0, Val::Symbol(Some(m), s));
                }
            }
            Op::ImmediateBooleanTrue => {
                let ghost stack0 = self.stack@;
                self.stack.push(Val::Boolean(true));
                proof {
                    lemma_views_of_push(stack0, Val::Boolean(true));
                }
            }
            Op::ImmediateBooleanFalse => {
                let ghost stack0 = self.stack@;
                self.stack.push(Val::Boolean(false));
                proof {
                    lemma_views_of_push(stack0, Val::Boolean(false));
                }
            }
            Op::ImmediateInteger => {
                let x = match self.n() {
                    Ok(x) => x,
                    Err(e) => {
                        return Err(e);
                    }
                };
                let ghost stack0 = self.stack@;
                self.stack.push(Val::Integer(x as i64));
                proof {
                    lemma_views_of_push(stack0, Val::Integer(x as i64));
                }
            }
            Op::ImmediateFloat => {
                let x = match self.n() {
                    Ok(x) => x,
                    Err(e) => {
                        return Err(e);
                    }
                };
                let ghost stack0 = self.stack@;
                self.stack.push(Val::Float(x));
                proof {
                    lemma_views_of_push(stack0, Val::Float(x));
                }
            }
            Op::ImmediateString => {
                let b = match self.read_bytes_operand() {
                    Ok(b) => b,
                    Err(e) => {
                        return Err(e);
                    }
                };
                let text = match string_from_utf8(b) {
                    Some(t) => t,
                    None => {
                        return Err(VmError::Decode);
                    }
                };
                let ghost stack0 = self.stack@;
                self.stack.push(Val::String(text));
                proof {
                    lemma_views_of_push(stack0, Val::String(text));
                }
            }
            Op::ConsList => {
                let n = match self.n() {
                    Ok(x) => x,
                    Err(e) => {
                        return Err(e);
                    }
                };
                proof {
                    lemma_views_of_len(self.stack@);
                }
                if (self.stack.len() as u64) < n {
                    return Err(VmError::StackImbalance);
                }
                let k = self.stack.len() - (n as usize);
                let ghost stack0 = self.stack@;
                let items = self.stack.split_off(k);
                proof {
                    lemma_views_of_subrange(stack0, 0, k as int);
                    lemma_views_of_subrange(stack0, k as int, stack0.len() as int);
                }
                let ghost stack1 = self.stack@;
                self.stack.push(Val::List(items));
                proof {
                    lemma_views_of_push(stack1, Val::List(items));
                }
            }
            Op::ConsVec => {
                let n = match self.n() {
                    Ok(x) => x,
                    Err(e) => {
                        return Err(e);
                    }
                };
                proof {
                    lemma_views_of_len(self.stack@);
                }
                if (self.stack.len() as u64) < n {
                    return Err(VmError::StackImbalance);
                }
                let k = self.stack.len() - (n as usize);
                let ghost stack0 = self.stack@;
                let items = self.stack.split_off(k);
                proof {
                    lemma_views_of_subrange(stack0, 0, k as int);
                    lemma_views_of_subrange(stack0, k as int, stack0.len() as int);
                }
                let ghost stack1 = self.stack@;
                self.stack.push(Val::Vector(items));
                proof {
                    lemma_views_of_push(stack1, Val::Vector(items));
                }
            }
            Op::Drop => {
                let ghost stack0 = self.stack@;
                match self.stack.pop() {
                    Some(v) => {
                        self.last = Some(v);
                        proof {
                            lemma_views_of_len(stack0);
                            lemma_views_of_index(stack0, stack0.len() - 1);
                            lemma_views_of_subrange(stack0, 0, stack0.len() - 1);
                            assert(stack0.drop_last() =~= stack0.subrange(0, stack0.len() - 1));
                        }
                    }
                    None => {
                        proof {
                            lemma_views_of_len(stack0);
                            assert(spec_decode_instr(p0.code, p0.ip)
                                == Some((Instr::Drop, p0.ip + 1)));
                            assert(spec_instr_effect(
                                old(vm)@,
                                ProcS { ip: p0.ip + 1, ..p0 },
                                Instr::Drop,
                                p0.ip,
                            ) == Err::<(VmS, ProcS), VmErrorS>(VmErrorS::StackImbalance));
                        }
                        return Err(VmError::StackImbalance);
                    }
                }
            }
            Op::Eval => {
                let ghost stack0 = self.stack@;
                let form = match self.stack.pop() {
                    Some(v) => v,
                    None => {
                        proof {
                            lemma_views_of_len(stack0);
                            assert(spec_decode_instr(p0.code, p0.ip)
                                == Some((Instr::Eval, p0.ip + 1)));
                            assert(spec_instr_effect(
                                old(vm)@,
                                ProcS { ip: p0.ip + 1, ..p0 },
                                Instr::Eval,
                                p0.ip,
                            ) == Err::<(VmS, ProcS), VmErrorS>(VmErrorS::StackImbalance));
                        }
                        return Err(VmError::StackImbalance);
                    }
                };
                proof {
                    lemma_views_of_len(stack0);
                    lemma_views_of_index(stack0, stack0.len() - 1);
                }
                let v = match self.eval(vm, &form) {
                    Ok(v) => v,
                    Err(e) => {
                        return Err(e);
                    }
                };
                proof {
                    lemma_views_of_subrange(stack0, 0, stack0.len() - 1);
                    assert(stack0.drop_last() =~= stack0.subrange(0, stack0.len() - 1));
                }
                let ghost stack1 = self.stack@;
                self.stack.push(v);
                proof {
                    lemma_views_of_push(stack1, v);
                }
            }
            Op::Call => {
                let n = match self.n() {
                    Ok(x) => x,
                    Err(e) => {
                        return Err(e);
                    }
                };
                if n < 1 {
                    return Err(VmError::Decode);
                }
                proof {
                    lemma_views_of_len(self.stack@);
                }
                if (self.stack.len() as u64) < n {
                    return Err(VmError::StackImbalance);
                }
                let k = self.stack.len() - (n as usize);
                let ghost stack0 = self.stack@;
                let mut operands = self.stack.split_off(k);
                proof {
                    lemma_views_of_subrange(stack0, 0, k as int);
                    lemma_views_of_subrange(stack0, k as int, stack0.len() as int);
                    lemma_views_of_len(operands@);
                }
                let ghost ops0 = operands@;
                let callee = operands.remove(0);
                proof {
                    assert(ops0.remove(0) =~= ops0.subrange(1, ops0.len() as int));
                    lemma_views_of_subrange(ops0, 1, ops0.len() as int);
                    lemma_views_of_index(ops0, 0);
                    assert(views_of(ops0).drop_first()
                        =~= views_of(ops0).subrange(1, views_of(ops0).len() as int));
                }
                let v = match self.call(vm, &callee, operands.as_slice()) {
                    Ok(v) => v,
                    Err(e) => {
                        return Err(e);
                    }
                };
                let ghost stack1 = self.stack@;
                self.stack.push(v);
                proof {
                    lemma_views_of_push(stack1, v);
                }
            }
            Op::JumpRelative => {
                let sip = self.ip;
                let n = match self.n() {
                    Ok(x) => x,
                    Err(e) => {
                        return Err(e);
                    }
                };
                if n > (sip as u64) {
                    return Err(VmError::Decode);
                }
                self.ip = sip - (n as usize);
            }
        }
        if self.ip < self.code.len() {
            Ok(Step::Running)
        } else if self.stack.len() == 0 {
            proof {
                lemma_views_of_len(self.stack@);
            }
            Ok(Step::Finished)
        } else {
            proof {
                lemma_views_of_len(self.stack@);
            }
            Err(VmError::StackImbalance)
        }
    }

    /// Read one length-prefixed byte-string operand at the instruction
    /// pointer, advancing past it.
    fn read_bytes_operand(&mut self) -> (r: Result<Vec<u8>, VmError>)
        ensures
            final(self).pid == old(self).pid,
            final(self).module == old(self).module,
            final(self).last == old(self).last,
            final(self).code == old(self).code,
            final(self).stack == old(self).stack,
            match r {
                Ok(b) => spec_read_bytes(old(self)@.code, old(self)@.ip)
                    == Some((b@, final(self)@.ip)),
                Err(e) => spec_read_bytes(old(self)@.code, old(self)@.ip) is None
                    && e == VmError::Decode,
            },
    {
        let n = match self.n() {
            Ok(n) => n,
            Err(e) => {
                return Err(e);
            }
        };
        if n > (self.code.len() - self.ip) as u64 {
            return Err(VmError::Decode);
        }
        let len = n as usize;
        let s = &self.code.as_slice()[self.ip..self.ip + len];
        let b = vstd::slice::slice_to_vec(s);
        self.ip = self.ip + len;
        Ok(b)
    }
}

} // verus!
