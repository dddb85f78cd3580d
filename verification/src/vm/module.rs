//! Modules: a namespace with a bind table, a submodule table, and an ordered
//! list of referred modules, together with the layered name-resolution
//! algorithm. Modules live in the VM's arena and point at one another by
//! index, so a cycle of refers is representable and harmless: lookup only
//! inspects one level of each referred module's own binds.

use vstd::prelude::*;
use vstd::string::*;
use vstd::utf8::{encode_utf8, decode_utf8, encode_utf8_decode_utf8};
use crate::vm::interns::{spec_intern, InternedSymbol};
use crate::vm::val::{Builtin, BuiltinVal, Val, ValS, view_of};
use crate::vm::{lemma_modules_view_index, lemma_modules_view_len, Vm, VmS, VmError};

verus! {

/// First-match lookup in an ordered association list keyed by symbol.
pub open spec fn assoc_lookup<V>(ps: Seq<(InternedSymbol, V)>, s: InternedSymbol) -> Option<V>
    decreases ps,
{
    if ps.len() == 0 {
        None
    } else if ps[0].0 == s {
        Some(ps[0].1)
    } else {
        assoc_lookup(ps.drop_first(), s)
    }
}

/// True when the key is present.
pub open spec fn assoc_has<V>(ps: Seq<(InternedSymbol, V)>, s: InternedSymbol) -> bool {
    assoc_lookup(ps, s) is Some
}

/// No key occurs twice.
pub open spec fn assoc_unique<V>(ps: Seq<(InternedSymbol, V)>) -> bool {
    forall|i: int, j: int| 0 <= i < j < ps.len() ==> ps[i].0 != ps[j].0
}

/// A present key's first match is the entry at some index whose earlier
/// entries have other keys; looking up any other key ignores an update there.
pub proof fn lemma_assoc_lookup_update<V>(
    ps: Seq<(InternedSymbol, V)>,
    i: int,
    s: InternedSymbol,
    v: V,
    x: InternedSymbol,
)
    requires
        0 <= i < ps.len(),
        ps[i].0 == s,
        forall|j: int| 0 <= j < i ==> ps[j].0 != s,
    ensures
        assoc_lookup(ps.update(i, (s, v)), x) == if x == s {
            Some(v)
        } else {
            assoc_lookup(ps, x)
        },
    decreases ps,
{
    let ps2 = ps.update(i, (s, v));
    if i == 0 {
        if x != s {
            assert(ps2.drop_first() =~= ps.drop_first());
        }
    } else {
        assert(ps2.drop_first() =~= ps.drop_first().update(i - 1, (s, v)));
        lemma_assoc_lookup_update(ps.drop_first(), i - 1, s, v, x);
    }
}

/// Appending a fresh key leaves every other lookup alone and makes the new
/// key resolve to the appended value.
pub proof fn lemma_assoc_lookup_push<V>(
    ps: Seq<(InternedSymbol, V)>,
    s: InternedSymbol,
    v: V,
    x: InternedSymbol,
)
    requires
        !assoc_has(ps, s),
    ensures
        assoc_lookup(ps.push((s, v)), x) == if x == s {
            Some(v)
        } else {
            assoc_lookup(ps, x)
        },
    decreases ps,
{
    if ps.len() == 0 {
        assert(ps.push((s, v)).drop_first() =~= Seq::<(InternedSymbol, V)>::empty());
    } else {
        assert(ps.push((s, v)).drop_first() =~= ps.drop_first().push((s, v)));
        lemma_assoc_lookup_push(ps.drop_first(), s, v, x);
    }
}

/// The mathematical shape of a module.
pub ghost struct ModuleS {
    pub name: Seq<char>,
    pub binds: Seq<(InternedSymbol, ValS)>,
    pub submodules: Seq<(InternedSymbol, usize)>,
    pub refers: Seq<usize>,
}

impl ModuleS {
    /// Bind keys are never duplicated (they are write-once via `add_bind`,
    /// and `sets` replaces in place).
    pub open spec fn wf(self) -> bool {
        assoc_unique(self.binds)
    }

    /// Every arena index this module holds stays below `n`.
    pub open spec fn ids_below(self, n: int) -> bool {
        &&& forall|i: int| 0 <= i < self.refers.len() ==> #[trigger] self.refers[i] < n
        &&& forall|i: int|
            0 <= i < self.submodules.len() ==> (#[trigger] self.submodules[i]).1 < n
    }
}

/// A namespace. `binds` is one flat table shared by constants, functions and
/// macros; `submodules` is not reachable through ordinary symbol lookup;
/// `refers` is consulted, in order, as a lookup fallback. Entries point into
/// the VM's module arena by index.
pub struct Module {
    pub name: String,
    pub binds: Vec<(InternedSymbol, Val)>,
    pub submodules: Vec<(InternedSymbol, usize)>,
    pub refers: Vec<usize>,
}

/// The view of a bind table.
pub open spec fn binds_view(bs: Seq<(InternedSymbol, Val)>) -> Seq<(InternedSymbol, ValS)>
    decreases bs,
{
    if bs.len() == 0 {
        Seq::empty()
    } else {
        binds_view(bs.drop_last()).push((bs.last().0, view_of(bs.last().1)))
    }
}

/// A bind table and its view have the same length.
pub proof fn lemma_binds_view_len(bs: Seq<(InternedSymbol, Val)>)
    ensures
        binds_view(bs).len() == bs.len(),
    decreases bs,
{
    if bs.len() > 0 {
        lemma_binds_view_len(bs.drop_last());
    }
}

/// The view of a bind table views each entry.
pub proof fn lemma_binds_view_index(bs: Seq<(InternedSymbol, Val)>, i: int)
    requires
        0 <= i < bs.len(),
    ensures
        binds_view(bs)[i] == (bs[i].0, view_of(bs[i].1)),
    decreases bs,
{
    lemma_binds_view_len(bs);
    if i < bs.len() - 1 {
        lemma_binds_view_index(bs.drop_last(), i);
    }
}

impl View for Module {
    type V = ModuleS;

    open spec fn view(&self) -> ModuleS {
        ModuleS {
            name: self.name@,
            binds: binds_view(self.binds@),
            submodules: self.submodules@,
            refers: self.refers@,
        }
    }
}

/// Lookup through the refers list: the first referred module whose own binds
/// hold the name wins; referring does not chain transitively.
pub open spec fn spec_refers_lookup(
    refers: Seq<usize>,
    modules: Seq<ModuleS>,
    s: InternedSymbol,
) -> Option<ValS>
    decreases refers,
{
    if refers.len() == 0 {
        None
    } else {
        let r = refers[0] as int;
        if r < modules.len() && assoc_has(modules[r].binds, s) {
            assoc_lookup(modules[r].binds, s)
        } else {
            spec_refers_lookup(refers.drop_first(), modules, s)
        }
    }
}

/// The layered name-resolution order, first match wins: this module's own
/// binds; the VM's global registry of top-level modules (a hit produces a
/// `Module` value); each referred module's own binds, in registration order.
pub open spec fn spec_lookup(m: ModuleS, vm: VmS, s: InternedSymbol) -> Option<ValS> {
    if assoc_has(m.binds, s) {
        assoc_lookup(m.binds, s)
    } else {
        match assoc_lookup(vm.registry, s) {
            Some(r) => Some(ValS::Module(r as int)),
            None => spec_refers_lookup(m.refers, vm.modules, s),
        }
    }
}

impl Module {
    /// Bind keys are never duplicated (they are write-once via `add_bind`,
    /// and `sets` replaces in place).
    pub open spec fn wf(&self) -> bool {
        self@.wf()
    }

    /// Every arena index this module holds stays below `n`.
    pub open spec fn ids_below(&self, n: int) -> bool {
        self@.ids_below(n)
    }

    /// An empty namespace with a diagnostic name.
    pub fn new(name: String) -> (r: Module)
        ensures
            r@.name == name@,
            r@.binds == Seq::<(InternedSymbol, ValS)>::empty(),
            r@.submodules == Seq::<(InternedSymbol, usize)>::empty(),
            r@.refers == Seq::<usize>::empty(),
            r.wf(),
    {
        Module { name, binds: Vec::new(), submodules: Vec::new(), refers: Vec::new() }
    }

    /// Register another module as a lookup fallback.
    pub fn refer(&mut self, module: usize)
        ensures
            final(self)@ == (ModuleS { refers: old(self)@.refers.push(module), ..old(self)@ }),
            final(self).wf() == old(self).wf(),
    {
        self.refers.push(module);
    }

    /// Index of the first bind entry for `s`, with no earlier match.
    fn find_bind(&self, s: InternedSymbol) -> (r: Option<usize>)
        ensures
            self@.binds.len() == self.binds@.len(),
            match r {
                Some(i) => i < self@.binds.len() && self@.binds[i as int].0 == s
                    && forall|j: int| 0 <= j < i ==> self@.binds[j].0 != s,
                None => !assoc_has(self@.binds, s),
            },
    {
        let n = self.binds.len();
        let mut i: usize = 0;
        proof {
            lemma_binds_view_len(self.binds@);
        }
        while i < n
            invariant
                n == self.binds@.len(),
                i <= n,
                self@.binds.len() == n,
                forall|j: int| 0 <= j < i ==> self@.binds[j].0 != s,
            decreases n - i,
        {
            proof {
                lemma_binds_view_index(self.binds@, i as int);
            }
            if self.binds[i].0 == s {
                return Some(i);
            }
            i += 1;
        }
        proof {
            lemma_assoc_not_has(self@.binds, s);
        }
        None
    }

    /// The value bound to `s` in this module's own table, if any.
    pub fn get_bind(&self, s: InternedSymbol) -> (r: Option<Val>)
        ensures
            match r {
                Some(v) => assoc_lookup(self@.binds, s) == Some(v@),
                None => !assoc_has(self@.binds, s),
            },
    {
        match self.find_bind(s) {
            Some(i) => {
                proof {
                    lemma_binds_view_index(self.binds@, i as int);
                    lemma_assoc_first_match(self@.binds, i as int, s);
                }
                Some(self.binds[i].1.clone())
            }
            None => None,
        }
    }

    /// Insert a fresh bind; a name already present is rejected (the bind
    /// table is write-once per name within its creation phase).
    pub fn add_bind(&mut self, name: InternedSymbol, target: Val) -> (r: Result<(), VmError>)
        ensures
            match r {
                Ok(()) => !assoc_has(old(self)@.binds, name)
                    && final(self)@ == (ModuleS {
                        binds: old(self)@.binds.push((name, target@)),
                        ..old(self)@
                    })
                    && (old(self).wf() ==> final(self).wf()),
                Err(e) => assoc_has(old(self)@.binds, name)
                    && e == VmError::DuplicateBind
                    && *final(self) == *old(self),
            },
    {
        match self.find_bind(name) {
            Some(i) => {
                proof {
                    lemma_assoc_first_match_exists(self@.binds, i as int, name);
                }
                Err(VmError::DuplicateBind)
            }
            None => {
                let ghost old_binds = self.binds@;
                self.binds.push((name, target));
                proof {
                    assert(self.binds@.drop_last() =~= old_binds);
                    assert(final(self)@.binds =~= binds_view(old_binds).push((name, view_of(target))));
                    lemma_binds_view_len(old_binds);
                    if assoc_unique(binds_view(old_binds)) {
                        lemma_unique_push(binds_view(old_binds), name, view_of(target));
                    }
                }
                Ok(())
            }
        }
    }

    /// Runtime assignment: bind `s` to `target`, replacing any existing bind.
    /// Always succeeds; afterwards `s` resolves to `target` and every other
    /// name resolves as before.
    pub fn sets(&mut self, s: InternedSymbol, target: Val)
        requires
            old(self).wf(),
        ensures
            final(self).wf(),
            final(self)@.name == old(self)@.name,
            final(self)@.submodules == old(self)@.submodules,
            final(self)@.refers == old(self)@.refers,
            forall|x: InternedSymbol| assoc_lookup(final(self)@.binds, x)
                == if x == s { Some(target@) } else { assoc_lookup(old(self)@.binds, x) },
    {
        let ghost old_binds_v = self@.binds;
        match self.find_bind(s) {
            Some(i) => {
                self.binds[i] = (s, target);
                proof {
                    lemma_binds_view_len(old(self).binds@);
                    lemma_binds_view_update(old(self).binds@, i as int, s, target);
                    assert forall|x: InternedSymbol| assoc_lookup(final(self)@.binds, x)
                        == (if x == s { Some(target@) } else { assoc_lookup(old_binds_v, x) }) by {
                        lemma_assoc_lookup_update(old_binds_v, i as int, s, target@, x);
                    }
                    lemma_unique_update(old_binds_v, i as int, s, target@);
                }
            }
            None => {
                let ghost old_binds = self.binds@;
                self.binds.push((s, target));
                proof {
                    assert(self.binds@.drop_last() =~= old_binds);
                    assert(final(self)@.binds =~= binds_view(old_binds).push((s, view_of(target))));
                    lemma_binds_view_len(old_binds);
                    assert forall|x: InternedSymbol| assoc_lookup(final(self)@.binds, x)
                        == (if x == s { Some(target@) } else { assoc_lookup(old_binds_v, x) }) by {
                        lemma_assoc_lookup_push(old_binds_v, s, target@, x);
                    }
                    lemma_unique_push(old_binds_v, s, target@);
                }
            }
        }
    }
}

/// The interner table and module shape that `Module::builtins` leaves
/// behind, starting from interner table `t0`: the well-known names are
/// interned in order, `true` and `false` are bound to themselves as
/// symbols, and `print` and `quote` to their native functions.
pub open spec fn spec_builtins_steps(t0: Seq<Seq<u8>>) -> (Seq<Seq<u8>>, ModuleS) {
    let (t1, ts) = spec_intern(t0, "true".spec_bytes());
    let (t2, fs) = spec_intern(t1, "false".spec_bytes());
    let (t3, ps) = spec_intern(t2, "print".spec_bytes());
    let (t4, qs) = spec_intern(t3, "quote".spec_bytes());
    (t4, ModuleS {
        name: "builtins"@,
        binds: seq![
            (InternedSymbol(ts as usize), ValS::Symbol(None, InternedSymbol(ts as usize))),
            (InternedSymbol(fs as usize), ValS::Symbol(None, InternedSymbol(fs as usize))),
            (InternedSymbol(ps as usize), ValS::Builtin("builtins/print"@, Builtin::Print)),
            (InternedSymbol(qs as usize), ValS::Builtin("builtins/quote"@, Builtin::Quote)),
        ],
        submodules: Seq::empty(),
        refers: Seq::empty(),
    })
}

impl Module {
    /// Resolve `s` against this module: own binds first, then the global
    /// registry, then each referred module's own binds in order; first
    /// match wins, and no tier is consulted once an earlier one hits.
    pub fn lookup(&self, vm: &Vm, s: InternedSymbol) -> (r: Option<Val>)
        requires
            self@.ids_below(vm@.modules.len() as int),
        ensures
            match r {
                Some(v) => spec_lookup(self@, vm@, s) == Some(v@),
                None => spec_lookup(self@, vm@, s) is None,
            },
    {
        if let Some(v) = self.get_bind(s) {
            return Some(v);
        }
        if let Some(mid) = vm.lookup_module(s) {
            return Some(Val::Module(mid));
        }
        let n = self.refers.len();
        let mut i: usize = 0;
        proof {
            assert(self.refers@.skip(0) =~= self.refers@);
        }
        while i < n
            invariant
                n == self.refers@.len(),
                i <= n,
                self@.refers == self.refers@,
                self@.ids_below(vm@.modules.len() as int),
                !assoc_has(self@.binds, s),
                assoc_lookup(vm@.registry, s) is None,
                spec_refers_lookup(self@.refers.skip(i as int), vm@.modules, s)
                    == spec_refers_lookup(self@.refers, vm@.modules, s),
            decreases n - i,
        {
            let rid = self.refers[i];
            proof {
                assert(self@.refers[i as int] == rid);
                lemma_modules_view_len(vm.modules@);
                lemma_modules_view_index(vm.modules@, rid as int);
                assert(self@.refers.skip(i as int)[0] == rid);
            }
            let rm = &vm.modules[rid];
            let hit = rm.get_bind(s);
            if hit.is_some() {
                return hit;
            }
            proof {
                assert(self@.refers.skip(i as int).drop_first() =~= self@.refers.skip(i as int + 1));
            }
            i += 1;
        }
        proof {
            assert(self@.refers.skip(n as int) =~= Seq::<usize>::empty());
        }
        None
    }

    /// Append a native builtin: bind `name` (interned) to a `Builtin` value
    /// displayed as `builtins/<name>`.
    pub fn add_bind_builtin(&mut self, vm: &mut Vm, name: &str, target: Builtin) -> (r: Result<
        (),
        VmError,
    >)
        requires
            old(vm).wf(),
        ensures
            final(vm).wf(),
            final(vm)@ == (VmS {
                interns: spec_intern(old(vm)@.interns, name.spec_bytes()).0,
                ..old(vm)@
            }),
            1 <= spec_intern(old(vm)@.interns, name.spec_bytes()).1 <= usize::MAX,
            ({
                let k = InternedSymbol(
                    spec_intern(old(vm)@.interns, name.spec_bytes()).1 as usize,
                );
                let b = ValS::Builtin("builtins/"@ + name@, target);
                match r {
                    Ok(()) => !assoc_has(old(self)@.binds, k)
                        && final(self)@ == (ModuleS {
                            binds: old(self)@.binds.push((k, b)),
                            ..old(self)@
                        })
                        && (old(self).wf() ==> final(self).wf()),
                    Err(e) => assoc_has(old(self)@.binds, k)
                        && e == VmError::DuplicateBind
                        && *final(self) == *old(self),
                }
            }),
    {
        let s = vm.interns.intern(name.as_bytes());
        let mut display = "builtins/".to_owned();
        display.append(name);
        self.add_bind(s, Val::Builtin(BuiltinVal { name: display, code: target }))
    }

    /// The module of native builtins: `true` and `false` bound to
    /// themselves, plus the native functions `print` and `quote`.
    pub fn builtins(vm: &mut Vm) -> (r: Module)
        requires
            old(vm).wf(),
        ensures
            final(vm).wf(),
            final(vm)@ == (VmS {
                interns: spec_builtins_steps(old(vm)@.interns).0,
                ..old(vm)@
            }),
            r@ == spec_builtins_steps(old(vm)@.interns).1,
            r.wf(),
    {
        proof {
            lemma_wellknown_names_distinct();
            lemma_builtins_display_names();
        }
        let ghost t0 = old(vm)@.interns;
        let ghost ts = spec_intern(t0, "true".spec_bytes()).1;
        let ghost t1 = spec_intern(t0, "true".spec_bytes()).0;
        let ghost fs = spec_intern(t1, "false".spec_bytes()).1;
        let ghost t2 = spec_intern(t1, "false".spec_bytes()).0;
        let ghost ps = spec_intern(t2, "print".spec_bytes()).1;
        let ghost t3 = spec_intern(t2, "print".spec_bytes()).0;
        let ghost qs = spec_intern(t3, "quote".spec_bytes()).1;
        let ghost t4 = spec_intern(t3, "quote".spec_bytes()).0;
        proof {
            lemma_spec_intern_props(t0, "true".spec_bytes());
            lemma_spec_intern_props(t1, "false".spec_bytes());
            lemma_spec_intern_props(t2, "print".spec_bytes());
            lemma_spec_intern_props(t3, "quote".spec_bytes());
            assert(t4[ts - 1] == "true".spec_bytes());
            assert(t4[fs - 1] == "false".spec_bytes());
            assert(t4[ps - 1] == "print".spec_bytes());
            assert(t4[qs - 1] == "quote".spec_bytes());
            assert(ts != fs && ts != ps && ts != qs && fs != ps && fs != qs && ps != qs);
        }
        let mut m = Module::new("builtins".to_owned());
        let t = vm.interns.intern("true".as_bytes());
        match m.add_bind(t, Val::Symbol(None, t)) {
            Ok(()) => {}
            Err(_) => {
                proof {
                    assert(false);
                }
            }
        }
        let f = vm.interns.intern("false".as_bytes());
        proof {
            assert(t.id() == ts && f.id() == fs);
            assert(m@.binds.len() == 1 && m@.binds[0].0 == t);
            assert(t != f);
            lemma_assoc_not_has(m@.binds, f);
        }
        match m.add_bind(f, Val::Symbol(None, f)) {
            Ok(()) => {}
            Err(_) => {
                proof {
                    assert(false);
                }
            }
        }
        match m.add_bind_builtin(vm, "print", Builtin::Print) {
            Ok(()) => {}
            Err(_) => {
                proof {
                    let k = InternedSymbol(ps as usize);
                    assert(k.id() == ps);
                    assert(k != t && k != f);
                    lemma_assoc_not_has(m@.binds, k);
                    assert(false);
                }
            }
        }
        match m.add_bind_builtin(vm, "quote", Builtin::Quote) {
            Ok(()) => {}
            Err(_) => {
                proof {
                    let k = InternedSymbol(qs as usize);
                    let kp = InternedSymbol(ps as usize);
                    assert(k.id() == qs && kp.id() == ps);
                    assert(k != t && k != f && k != kp);
                    lemma_assoc_not_has(m@.binds, k);
                    assert(false);
                }
            }
        }
        proof {
            assert(m@.binds =~= spec_builtins_steps(t0).1.binds);
        }
        m
    }
}

/// Interning returns a handle that points at the interned bytes, grows the
/// table by at most one entry, and preserves every existing entry.
pub proof fn lemma_spec_intern_props(t: Seq<Seq<u8>>, s: Seq<u8>)
    ensures
        ({
            let r = spec_intern(t, s);
            &&& t.len() <= r.0.len()
            &&& 1 <= r.1 <= r.0.len()
            &&& r.0[r.1 - 1] == s
            &&& forall|i: int| 0 <= i < t.len() ==> r.0[i] == t[i]
        }),
{
    if crate::vm::interns::has_sym(t, s) {
        let j = choose|j: int| 0 <= j < t.len() && t[j] == s;
        assert(t[j] == s);
    }
}

/// The display names of the builtins are the name behind a `builtins/`
/// prefix.
pub proof fn lemma_builtins_display_names()
    ensures
        "builtins/"@ + "print"@ == "builtins/print"@,
        "builtins/"@ + "quote"@ == "builtins/quote"@,
{
    reveal_strlit("builtins/");
    reveal_strlit("print");
    reveal_strlit("quote");
    reveal_strlit("builtins/print");
    reveal_strlit("builtins/quote");
    assert("builtins/"@ + "print"@ =~= "builtins/print"@);
    assert("builtins/"@ + "quote"@ =~= "builtins/quote"@);
}

/// Two texts with equal UTF-8 encodings are equal.
pub proof fn lemma_encode_utf8_injective(a: Seq<char>, b: Seq<char>)
    requires
        encode_utf8(a) == encode_utf8(b),
    ensures
        a == b,
{
    encode_utf8_decode_utf8(a);
    encode_utf8_decode_utf8(b);
}

/// The well-known names bound or interned at construction are pairwise
/// distinct byte strings.
pub proof fn lemma_wellknown_names_distinct()
    ensures
        "true".spec_bytes() != "false".spec_bytes(),
        "true".spec_bytes() != "print".spec_bytes(),
        "true".spec_bytes() != "quote".spec_bytes(),
        "true".spec_bytes() != "builtins".spec_bytes(),
        "false".spec_bytes() != "print".spec_bytes(),
        "false".spec_bytes() != "quote".spec_bytes(),
        "false".spec_bytes() != "builtins".spec_bytes(),
        "print".spec_bytes() != "quote".spec_bytes(),
        "print".spec_bytes() != "builtins".spec_bytes(),
        "quote".spec_bytes() != "builtins".spec_bytes(),
{
    reveal_strlit("true");
    reveal_strlit("false");
    reveal_strlit("print");
    reveal_strlit("quote");
    reveal_strlit("builtins");
    if "true".spec_bytes() == "false".spec_bytes() {
        lemma_encode_utf8_injective("true"@, "false"@);
    }
    if "true".spec_bytes() == "print".spec_bytes() {
        lemma_encode_utf8_injective("true"@, "print"@);
    }
    if "true".spec_bytes() == "quote".spec_bytes() {
        lemma_encode_utf8_injective("true"@, "quote"@);
    }
    if "true".spec_bytes() == "builtins".spec_bytes() {
        lemma_encode_utf8_injective("true"@, "builtins"@);
    }
    if "false".spec_bytes() == "print".spec_bytes() {
        lemma_encode_utf8_injective("false"@, "print"@);
        assert("false"@[0] == 'f' && "print"@[0] == 'p');
    }
    if "false".spec_bytes() == "quote".spec_bytes() {
        lemma_encode_utf8_injective("false"@, "quote"@);
        assert("false"@[0] == 'f' && "quote"@[0] == 'q');
    }
    if "false".spec_bytes() == "builtins".spec_bytes() {
        lemma_encode_utf8_injective("false"@, "builtins"@);
    }
    if "print".spec_bytes() == "quote".spec_bytes() {
        lemma_encode_utf8_injective("print"@, "quote"@);
        assert("print"@[0] == 'p' && "quote"@[0] == 'q');
    }
    if "print".spec_bytes() == "builtins".spec_bytes() {
        lemma_encode_utf8_injective("print"@, "builtins"@);
    }
    if "quote".spec_bytes() == "builtins".spec_bytes() {
        lemma_encode_utf8_injective("quote"@, "builtins"@);
    }
}

/// If every entry misses `s`, the lookup misses.
pub proof fn lemma_assoc_not_has<V>(ps: Seq<(InternedSymbol, V)>, s: InternedSymbol)
    requires
        forall|j: int| 0 <= j < ps.len() ==> ps[j].0 != s,
    ensures
        !assoc_has(ps, s),
    decreases ps,
{
    if ps.len() > 0 {
        lemma_assoc_not_has(ps.drop_first(), s);
    }
}

/// A first match at index `i` is what the lookup returns.
pub proof fn lemma_assoc_first_match<V>(ps: Seq<(InternedSymbol, V)>, i: int, s: InternedSymbol)
    requires
        0 <= i < ps.len(),
        ps[i].0 == s,
        forall|j: int| 0 <= j < i ==> ps[j].0 != s,
    ensures
        assoc_lookup(ps, s) == Some(ps[i].1),
    decreases ps,
{
    if i > 0 {
        lemma_assoc_first_match(ps.drop_first(), i - 1, s);
    }
}

/// Appending a fresh key preserves key uniqueness.
pub proof fn lemma_unique_push<V>(ps: Seq<(InternedSymbol, V)>, s: InternedSymbol, v: V)
    requires
        assoc_unique(ps),
        !assoc_has(ps, s),
    ensures
        assoc_unique(ps.push((s, v))),
{
    assert forall|i: int, j: int| 0 <= i < j < ps.push((s, v)).len()
        implies ps.push((s, v))[i].0 != ps.push((s, v))[j].0 by {
        if j == ps.len() {
            if ps[i].0 == s {
                lemma_assoc_first_match_exists(ps, i, s);
            }
        }
    }
}

/// An entry with key `s` makes the lookup hit.
pub proof fn lemma_assoc_first_match_exists<V>(
    ps: Seq<(InternedSymbol, V)>,
    i: int,
    s: InternedSymbol,
)
    requires
        0 <= i < ps.len(),
        ps[i].0 == s,
    ensures
        assoc_has(ps, s),
    decreases ps,
{
    if i > 0 && ps[0].0 != s {
        lemma_assoc_first_match_exists(ps.drop_first(), i - 1, s);
    }
}

/// Updating the value at an index preserves key uniqueness.
pub proof fn lemma_unique_update<V>(ps: Seq<(InternedSymbol, V)>, i: int, s: InternedSymbol, v: V)
    requires
        assoc_unique(ps),
        0 <= i < ps.len(),
        ps[i].0 == s,
    ensures
        assoc_unique(ps.update(i, (s, v))),
{
}

/// Updating an exec bind entry updates the view in place.
pub proof fn lemma_binds_view_update(bs: Seq<(InternedSymbol, Val)>, i: int, s: InternedSymbol, v: Val)
    requires
        0 <= i < bs.len(),
    ensures
        binds_view(bs.update(i, (s, v))) == binds_view(bs).update(i, (s, view_of(v))),
    decreases bs,
{
    lemma_binds_view_len(bs);
    lemma_binds_view_len(bs.update(i, (s, v)));
    assert forall|j: int| 0 <= j < bs.len()
        implies binds_view(bs.update(i, (s, v)))[j] == binds_view(bs).update(i, (s, view_of(v)))[j] by {
        lemma_binds_view_index(bs.update(i, (s, v)), j);
        lemma_binds_view_index(bs, j);
    }
    assert(binds_view(bs.update(i, (s, v))) =~= binds_view(bs).update(i, (s, view_of(v))));
}

} // verus!
