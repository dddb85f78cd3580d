//! The virtual machine: the process-wide registry that holds the symbol
//! interner, the arena of modules with the always-present `builtins` module,
//! and the entry point that drives one interpreter to completion.

pub mod builtins;
pub mod interns;
pub mod module;
pub mod ops;
pub mod proc;
pub mod val;

use vstd::prelude::*;
use vstd::string::*;
use vstd::utf8::{valid_utf8, decode_utf8};

use crate::text::string_from_utf8;
use crate::vm::interns::{spec_intern, InternedSymbol, Interns};
use crate::vm::module::{assoc_lookup, assoc_has, assoc_unique, Module, ModuleS};
use crate::vm::val::{views_of, Val, ValS, view_of};

verus! {

/// A failure that aborts the enclosing program run. Decode, stack-imbalance
/// and duplicate-bind failures are internal-consistency violations; a
/// call-target failure carries the attempted callee so the host can report
/// its rendered form.
pub enum VmError {
    /// A non-callable value stood in call position.
    CallTarget(Val),
    /// An unrecognized opcode tag, a truncated operand read, or a malformed
    /// inline string.
    Decode,
    /// The operand stack was non-empty at end of program.
    StackImbalance,
    /// A bind was inserted twice during module construction.
    DuplicateBind,
    /// The program finished without ever producing a value to drop.
    NoResult,
    /// A builtin received an argument list it cannot accept.
    BuiltinArity,
}

/// The mathematical shape of a `VmError`.
pub ghost enum VmErrorS {
    CallTarget(ValS),
    Decode,
    StackImbalance,
    DuplicateBind,
    NoResult,
    BuiltinArity,
}

impl View for VmError {
    type V = VmErrorS;

    open spec fn view(&self) -> VmErrorS {
        match self {
            VmError::CallTarget(v) => VmErrorS::CallTarget(view_of(*v)),
            VmError::Decode => VmErrorS::Decode,
            VmError::StackImbalance => VmErrorS::StackImbalance,
            VmError::DuplicateBind => VmErrorS::DuplicateBind,
            VmError::NoResult => VmErrorS::NoResult,
            VmError::BuiltinArity => VmErrorS::BuiltinArity,
        }
    }
}

/// The mathematical shape of the whole machine.
pub ghost struct VmS {
    pub interns: Seq<Seq<u8>>,
    pub modules: Seq<ModuleS>,
    pub registry: Seq<(InternedSymbol, usize)>,
    pub output: Seq<ValS>,
    pub last_pid: int,
}

impl VmS {
    /// The machine's invariant: the interner is duplicate-free, every module
    /// is well formed and points only inside the arena, and the registry is
    /// duplicate-free and points only inside the arena.
    pub open spec fn wf(self) -> bool {
        &&& crate::vm::interns::syms_unique(self.interns)
        &&& forall|i: int| 0 <= i < self.modules.len()
            ==> (#[trigger] self.modules[i]).wf()
                && self.modules[i].ids_below(self.modules.len() as int)
        &&& forall|i: int| 0 <= i < self.registry.len()
            ==> (#[trigger] self.registry[i]).1 < self.modules.len()
        &&& assoc_unique(self.registry)
    }
}

/// The view of the module arena.
pub open spec fn modules_view(ms: Seq<Module>) -> Seq<ModuleS>
    decreases ms,
{
    if ms.len() == 0 {
        Seq::empty()
    } else {
        modules_view(ms.drop_last()).push(ms.last()@)
    }
}

/// The arena and its view have the same length.
pub proof fn lemma_modules_view_len(ms: Seq<Module>)
    ensures
        modules_view(ms).len() == ms.len(),
    decreases ms,
{
    if ms.len() > 0 {
        lemma_modules_view_len(ms.drop_last());
    }
}

/// The view of the arena views each module.
pub proof fn lemma_modules_view_index(ms: Seq<Module>, i: int)
    requires
        0 <= i < ms.len(),
    ensures
        modules_view(ms)[i] == ms[i]@,
    decreases ms,
{
    lemma_modules_view_len(ms);
    if i < ms.len() - 1 {
        lemma_modules_view_index(ms.drop_last(), i);
    }
}

/// Viewing the arena commutes with appending a module.
pub proof fn lemma_modules_view_push(ms: Seq<Module>, m: Module)
    ensures
        modules_view(ms.push(m)) == modules_view(ms).push(m@),
{
    assert(ms.push(m).drop_last() =~= ms);
}

/// Viewing the arena commutes with updating a module.
pub proof fn lemma_modules_view_update(ms: Seq<Module>, i: int, m: Module)
    requires
        0 <= i < ms.len(),
    ensures
        modules_view(ms.update(i, m)) == modules_view(ms).update(i, m@),
    decreases ms,
{
    lemma_modules_view_len(ms);
    lemma_modules_view_len(ms.update(i, m));
    assert forall|j: int| 0 <= j < ms.len()
        implies modules_view(ms.update(i, m))[j] == modules_view(ms).update(i, m@)[j] by {
        lemma_modules_view_index(ms.update(i, m), j);
        lemma_modules_view_index(ms, j);
    }
    assert(modules_view(ms.update(i, m)) =~= modules_view(ms).update(i, m@));
}

/// The process-wide machine state. The arena owns every module ever
/// created; the registry names the top-level ones. `output` collects the
/// values that the `print` builtin emits, in order; the host renders and
/// prints them.
pub struct Vm {
    pub modules: Vec<Module>,
    pub registry: Vec<(InternedSymbol, usize)>,
    pub interns: Interns,
    pub output: Vec<Val>,
    pub last_pid: usize,
}

impl View for Vm {
    type V = VmS;

    open spec fn view(&self) -> VmS {
        VmS {
            interns: self.interns@,
            modules: modules_view(self.modules@),
            registry: self.registry@,
            output: views_of(self.output@),
            last_pid: self.last_pid as int,
        }
    }
}

/// The machine state that `Vm::new` builds: the interner pre-seeded with
/// `true` and `false`, the arena holding exactly the `builtins` module, and
/// the registry naming it.
pub open spec fn spec_vm_new() -> VmS {
    let t0 = seq!["true".spec_bytes(), "false".spec_bytes()];
    let t4 = crate::vm::module::spec_builtins_steps(t0).0;
    let bm = crate::vm::module::spec_builtins_steps(t0).1;
    let t5 = spec_intern(t4, "builtins".spec_bytes()).0;
    let bsym = spec_intern(t4, "builtins".spec_bytes()).1;
    VmS {
        interns: t5,
        modules: seq![bm],
        registry: seq![(InternedSymbol(bsym as usize), 0usize)],
        output: Seq::empty(),
        last_pid: 0,
    }
}

impl Vm {
    /// The machine's invariant, established by `new` and kept by every
    /// operation.
    pub open spec fn wf(&self) -> bool {
        self@.wf()
    }

    /// A machine with the always-present `builtins` module registered under
    /// that name.
    pub fn new() -> (r: Vm)
        ensures
            r.wf(),
            r@ == spec_vm_new(),
    {
        let mut vm = Vm {
            modules: Vec::new(),
            registry: Vec::new(),
            interns: Interns::new(),
            output: Vec::new(),
            last_pid: 0,
        };
        proof {
            assert(vm@.interns =~= seq!["true".spec_bytes(), "false".spec_bytes()]);
            assert(vm@.modules =~= Seq::<ModuleS>::empty());
            assert(vm@.output =~= Seq::<ValS>::empty());
            assert(vm@.registry =~= Seq::<(InternedSymbol, usize)>::empty());
            assert(vm.wf());
        }
        let builtins = Module::builtins(&mut vm);
        let ghost pre_modules = vm.modules@;
        vm.modules.push(builtins);
        let s = vm.interns.intern("builtins".as_bytes());
        vm.registry.push((s, 0));
        proof {
            lemma_modules_view_push(pre_modules, builtins);
            assert(vm@.modules =~= seq![builtins@]);
            assert(vm@.registry =~= seq![(s, 0usize)]);
            assert(s == InternedSymbol(spec_vm_new().registry[0].0.0));
            assert(vm@ == spec_vm_new());
            assert(vm@.wf());
        }
        vm
    }

    /// Intern a name given as text.
    pub fn intern(&mut self, name: &str) -> (r: InternedSymbol)
        requires
            old(self).wf(),
        ensures
            final(self).wf(),
            final(self)@ == (VmS { interns: spec_intern(old(self)@.interns, name.spec_bytes()).0, ..old(self)@ }),
            r.id() == spec_intern(old(self)@.interns, name.spec_bytes()).1,
            1 <= r.id() <= final(self)@.interns.len(),
            final(self)@.interns[r.id() - 1] == name.spec_bytes(),
    {
        self.interns.intern(name.as_bytes())
    }

    /// The text behind a handle: `None` for a handle this interner never
    /// issued, or for interned bytes that are not valid UTF-8.
    pub fn resolve(&self, s: InternedSymbol) -> (r: Option<String>)
        ensures
            match r {
                Some(t) => 1 <= s.id() <= self@.interns.len()
                    && valid_utf8(self@.interns[s.id() - 1])
                    && t@ == decode_utf8(self@.interns[s.id() - 1]),
                None => !(1 <= s.id() <= self@.interns.len())
                    || !valid_utf8(self@.interns[s.id() - 1]),
            },
    {
        if 1 <= s.0 && s.0 <= self.interns.count() {
            let bytes = self.interns.resolve(s);
            string_from_utf8(vstd::slice::slice_to_vec(bytes.as_slice()))
        } else {
            None
        }
    }

    /// The arena index registered under a top-level module name, if any.
    pub fn lookup_module(&self, s: InternedSymbol) -> (r: Option<usize>)
        ensures
            r == assoc_lookup(self@.registry, s),
    {
        let n = self.registry.len();
        let mut i: usize = 0;
        proof {
            assert(self.registry@.skip(0) =~= self.registry@);
        }
        while i < n
            invariant
                n == self.registry@.len(),
                i <= n,
                forall|j: int| 0 <= j < i ==> self.registry@[j].0 != s,
                assoc_lookup(self.registry@.skip(i as int), s) == assoc_lookup(self.registry@, s),
            decreases n - i,
        {
            proof {
                assert(self.registry@.skip(i as int)[0] == self.registry@[i as int]);
            }
            if self.registry[i].0 == s {
                return Some(self.registry[i].1);
            }
            proof {
                assert(self.registry@.skip(i as int).drop_first() =~= self.registry@.skip(i as int + 1));
            }
            i += 1;
        }
        proof {
            assert(self.registry@.skip(n as int) =~= Seq::<(InternedSymbol, usize)>::empty());
        }
        None
    }

    /// How many modules the arena holds; every valid module index is below
    /// this.
    pub fn module_count(&self) -> (r: usize)
        ensures
            r == self@.modules.len(),
    {
        proof {
            lemma_modules_view_len(self.modules@);
        }
        self.modules.len()
    }

    /// Bind `name` to `target` in the module at `module`, interning the
    /// name first: the always-succeeding runtime assignment path. Afterwards
    /// the name resolves to `target` in that module and everything else is
    /// as before.
    pub fn set(&mut self, module: usize, name: &str, target: Val)
        requires
            old(self).wf(),
            module < old(self)@.modules.len(),
        ensures
            final(self).wf(),
            final(self)@.interns == spec_intern(old(self)@.interns, name.spec_bytes()).0,
            final(self)@.registry == old(self)@.registry,
            final(self)@.output == old(self)@.output,
            final(self)@.modules.len() == old(self)@.modules.len(),
            forall|i: int| 0 <= i < old(self)@.modules.len() && i != module
                ==> final(self)@.modules[i] == old(self)@.modules[i],
            ({
                let s = spec_intern(old(self)@.interns, name.spec_bytes()).1;
                let m_old = old(self)@.modules[module as int];
                let m_new = final(self)@.modules[module as int];
                &&& m_new.name == m_old.name
                &&& m_new.refers == m_old.refers
                &&& m_new.submodules == m_old.submodules
                &&& forall|x: InternedSymbol| assoc_lookup(m_new.binds, x)
                    == if x.id() == s { Some(target@) } else { assoc_lookup(m_old.binds, x) }
            }),
    {
        proof {
            lemma_modules_view_len(self.modules@);
        }
        let s = self.interns.intern(name.as_bytes());
        let ghost mid_modules = self.modules@;
        proof {
            lemma_modules_view_index(self.modules@, module as int);
        }
        let m = &mut self.modules[module];
        m.sets(s, target);
        proof {
            lemma_modules_view_update(mid_modules, module as int, *final(m));
            assert(self.modules@ == mid_modules.update(module as int, *final(m)));
            assert forall|i: int| 0 <= i < old(self)@.modules.len() && i != module
                implies final(self)@.modules[i] == old(self)@.modules[i] by {
                lemma_modules_view_index(mid_modules, i);
            }
        }
    }

    /// A fresh, unregistered module that refers to `builtins` (when the
    /// registry knows it, which `new` guarantees), added to the arena; its
    /// index is returned.
    pub fn anonymous_module(&mut self, name: &str) -> (r: usize)
        requires
            old(self).wf(),
        ensures
            final(self).wf(),
            r == old(self)@.modules.len(),
            final(self)@.modules.len() == old(self)@.modules.len() + 1,
            forall|i: int| 0 <= i < old(self)@.modules.len()
                ==> final(self)@.modules[i] == old(self)@.modules[i],
            final(self)@.registry == old(self)@.registry,
            final(self)@.output == old(self)@.output,
            final(self)@.interns == spec_intern(old(self)@.interns, "builtins".spec_bytes()).0,
            ({
                let m = final(self)@.modules[r as int];
                &&& m.name == name@
                &&& m.binds == Seq::<(InternedSymbol, ValS)>::empty()
                &&& m.refers == match assoc_lookup(
                    old(self)@.registry,
                    InternedSymbol(spec_intern(old(self)@.interns, "builtins".spec_bytes()).1 as usize),
                ) {
                    Some(b) => seq![b],
                    None => Seq::<usize>::empty(),
                }
            }),
    {
        let mut m = Module::new(name.to_owned());
        let s = self.interns.intern("builtins".as_bytes());
        proof {
            assert(s.id() == s.0 as int);
        }
        match self.lookup_module(s) {
            Some(b) => {
                proof {
                    lemma_assoc_in_range(self@.registry, s, self@.modules.len() as int);
                }
                m.refer(b);
                proof {
                    assert(m@.refers =~= seq![b]);
                }
            }
            None => {}
        }
        let r = self.modules.len();
        let ghost pre_modules = self.modules@;
        self.modules.push(m);
        proof {
            lemma_modules_view_push(pre_modules, m);
            lemma_modules_view_len(pre_modules);
            assert forall|i: int| 0 <= i < final(self)@.modules.len()
                implies (#[trigger] final(self)@.modules[i]).wf()
                    && final(self)@.modules[i].ids_below(final(self)@.modules.len() as int) by {
                if i < old(self)@.modules.len() {
                    assert(final(self)@.modules[i] == old(self)@.modules[i]);
                }
            }
        }
        r
    }
}

impl Vm {
    /// A fresh interpreter for one compiled program, under the next
    /// process id (process ids wrap around at the machine's word size).
    fn schedule(&mut self, module: usize, code: Vec<u8>) -> (r: crate::vm::proc::Proc)
        ensures
            final(self)@ == (VmS {
                last_pid: (if old(self).last_pid == usize::MAX {
                    0int
                } else {
                    old(self).last_pid + 1
                }),
                ..old(self)@
            }),
            r@ == (crate::vm::proc::ProcS {
                pid: final(self)@.last_pid,
                module: module,
                last: None,
                code: code@,
                ip: 0,
                stack: Seq::empty(),
            }),
    {
        let next: usize = if self.last_pid == usize::MAX {
            0
        } else {
            self.last_pid + 1
        };
        self.last_pid = next;
        crate::vm::proc::Proc::new(crate::vm::proc::Pid(next), module, code)
    }

    /// Drive one interpreter's step loop to exhaustion and return the value
    /// its final `Drop` left behind, exactly as `spec_run` says.
    fn step_to_end(&mut self, proc: crate::vm::proc::Proc) -> (r: Result<Val, VmError>)
        requires
            old(self).wf(),
            proc@.module < old(self)@.modules.len(),
        ensures
            final(self).wf(),
            final(self)@.modules == old(self)@.modules,
            final(self)@.registry == old(self)@.registry,
            match r {
                Ok(v) => crate::vm::proc::spec_run(old(self)@, proc@) matches Ok(p)
                    && p.0 == final(self)@ && p.1 == v@,
                Err(e) => crate::vm::proc::spec_run(old(self)@, proc@)
                    == Err::<(VmS, ValS), crate::vm::VmErrorS>(e@),
            },
    {
        let ghost vm0 = old(self)@;
        let ghost p0 = proc@;
        let mut proc = proc;
        #[verifier::loop_isolation(false)]
        loop
            invariant
                self.wf(),
                proc@.module < self@.modules.len(),
                self@.modules == vm0.modules,
                self@.registry == vm0.registry,
                vm0.modules == old(self)@.modules,
                vm0.registry == old(self)@.registry,
                crate::vm::proc::spec_run(vm0, p0) == crate::vm::proc::spec_run(self@, proc@),
            decreases proc@.code.len() - proc@.ip,
        {
            let ghost vm_pre = self@;
            let ghost proc_pre = proc@;
            let ip0 = proc.ip;
            match proc.step(self) {
                Ok(crate::vm::proc::Step::Running) => {
                    if proc.ip <= ip0 {
                        proof {
                            assert(crate::vm::proc::spec_run(vm_pre, proc_pre)
                                == Err::<(VmS, ValS), VmErrorS>(VmErrorS::Decode));
                        }
                        return Err(VmError::Decode);
                    }
                    proof {
                        assert(crate::vm::proc::spec_run(vm_pre, proc_pre)
                            == crate::vm::proc::spec_run(self@, proc@));
                    }
                }
                Ok(crate::vm::proc::Step::Finished) => {
                    match proc.last {
                        Some(v) => {
                            proof {
                                assert(crate::vm::proc::spec_run(vm_pre, proc_pre)
                                    matches Ok(p) && p.0 == self@ && p.1 == v@);
                            }
                            return Ok(v);
                        }
                        None => {
                            proof {
                                assert(crate::vm::proc::spec_run(vm_pre, proc_pre)
                                    == Err::<(VmS, ValS), VmErrorS>(VmErrorS::NoResult));
                            }
                            return Err(VmError::NoResult);
                        }
                    }
                }
                Err(e) => {
                    proof {
                        assert(crate::vm::proc::spec_run(vm_pre, proc_pre)
                            == Err::<(VmS, ValS), VmErrorS>(e@));
                    }
                    return Err(e);
                }
            }
        }
    }

    /// Compile-free entry point for a program that is already bytecode:
    /// schedule it against `module` and step it to completion. Resolution
    /// state (modules, registry) survives the run unchanged, whether it
    /// succeeds or fails; the interner and the output may grow.
    pub fn run_to_completion(&mut self, module: usize, code: Vec<u8>) -> (r: Result<Val, VmError>)
        requires
            old(self).wf(),
            module < old(self)@.modules.len(),
        ensures
            final(self).wf(),
            final(self)@.modules == old(self)@.modules,
            final(self)@.registry == old(self)@.registry,
            ({
                let vm1 = VmS {
                    last_pid: (if old(self).last_pid == usize::MAX {
                        0int
                    } else {
                        old(self).last_pid + 1
                    }),
                    ..old(self)@
                };
                let pr = crate::vm::proc::ProcS {
                    pid: vm1.last_pid,
                    module: module,
                    last: None,
                    code: code@,
                    ip: 0,
                    stack: Seq::empty(),
                };
                match r {
                    Ok(v) => crate::vm::proc::spec_run(vm1, pr) matches Ok(p)
                        && p.0 == final(self)@ && p.1 == v@,
                    Err(e) => crate::vm::proc::spec_run(vm1, pr)
                        == Err::<(VmS, ValS), crate::vm::VmErrorS>(e@),
                }
            }),
    {
        let proc = self.schedule(module, code);
        self.step_to_end(proc)
    }
}

/// Registry hits point inside the arena, when the machine is well formed.
pub proof fn lemma_assoc_in_range(
    rs: Seq<(InternedSymbol, usize)>,
    s: InternedSymbol,
    n: int,
)
    requires
        forall|i: int| 0 <= i < rs.len() ==> (#[trigger] rs[i]).1 < n,
        assoc_has(rs, s),
    ensures
        match assoc_lookup(rs, s) {
            Some(r) => r < n,
            None => false,
        },
    decreases rs,
{
    if rs[0].0 != s {
        lemma_assoc_in_range(rs.drop_first(), s, n);
    }
}

} // verus!
