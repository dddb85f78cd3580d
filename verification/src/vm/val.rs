//! The runtime value model: a tagged union of the values programs compute,
//! together with its mathematical view.

use vstd::prelude::*;
use vstd::string::*;
use vstd::utf8::{valid_utf8, decode_utf8};
use crate::text::{push_decimal_i64, push_decimal_u64, spec_decimal, spec_decimal_signed};
use crate::vm::interns::InternedSymbol;
use crate::vm::{Vm, VmS};

verus! {

/// Identity of a native built-in function. The set is closed, so dispatch is
/// a single match over these tags rather than a raw function pointer.
#[derive(Clone, Copy, PartialEq, Eq, Structural, Debug)]
pub enum Builtin {
    Print,
    Quote,
}

/// A native callable: the function's identity plus a display name.
pub struct BuiltinVal {
    pub name: String,
    pub code: Builtin,
}

impl View for BuiltinVal {
    type V = (Seq<char>, Builtin);

    open spec fn view(&self) -> (Seq<char>, Builtin) {
        (self.name@, self.code)
    }
}

impl Clone for BuiltinVal {
    fn clone(&self) -> (r: Self)
        ensures
            r@ == self@,
    {
        BuiltinVal { name: self.name.clone(), code: self.code }
    }
}

/// A runtime value. Floats are carried as their IEEE-754 bit pattern: this
/// core never computes with them, it only moves them between the bytecode
/// and the operand stack. A `Module` value holds the index of a module in
/// the VM's arena of modules.
pub enum Val {
    Symbol(Option<InternedSymbol>, InternedSymbol),
    Boolean(bool),
    Integer(i64),
    Float(u64),
    String(String),
    List(Vec<Val>),
    Vector(Vec<Val>),
    Builtin(BuiltinVal),
    Module(usize),
}

/// The mathematical shape of a `Val`: strings become character sequences,
/// lists and vectors become sequences of shapes.
pub ghost enum ValS {
    Symbol(Option<InternedSymbol>, InternedSymbol),
    Boolean(bool),
    Integer(i64),
    Float(u64),
    String(Seq<char>),
    List(Seq<ValS>),
    Vector(Seq<ValS>),
    Builtin(Seq<char>, Builtin),
    Module(int),
}

/// The view of a value, element by element.
pub open spec fn view_of(v: Val) -> ValS
    decreases v,
{
    match v {
        Val::Symbol(m, s) => ValS::Symbol(m, s),
        Val::Boolean(b) => ValS::Boolean(b),
        Val::Integer(i) => ValS::Integer(i),
        Val::Float(bits) => ValS::Float(bits),
        Val::String(s) => ValS::String(s@),
        Val::List(ns) => ValS::List(views_of(ns@)),
        Val::Vector(ns) => ValS::Vector(views_of(ns@)),
        Val::Builtin(b) => ValS::Builtin(b.name@, b.code),
        Val::Module(m) => ValS::Module(m as int),
    }
}

/// The view of a sequence of values.
pub open spec fn views_of(ns: Seq<Val>) -> Seq<ValS>
    decreases ns,
{
    if ns.len() == 0 {
        Seq::empty()
    } else {
        views_of(ns.drop_last()).push(view_of(ns.last()))
    }
}

/// A sequence and its view have the same length.
pub broadcast proof fn lemma_views_of_len(ns: Seq<Val>)
    ensures
        (#[trigger] views_of(ns)).len() == ns.len(),
    decreases ns,
{
    if ns.len() > 0 {
        lemma_views_of_len(ns.drop_last());
    }
}

/// The view of a sequence views each element.
pub broadcast proof fn lemma_views_of_index(ns: Seq<Val>, i: int)
    requires
        0 <= i < ns.len(),
    ensures
        #[trigger] views_of(ns)[i] == view_of(ns[i]),
    decreases ns,
{
    lemma_views_of_len(ns);
    if ns.len() > 0 && i < ns.len() - 1 {
        lemma_views_of_index(ns.drop_last(), i);
    }
}

/// Viewing commutes with appending one element.
pub broadcast proof fn lemma_views_of_push(ns: Seq<Val>, v: Val)
    ensures
        #[trigger] views_of(ns.push(v)) == views_of(ns).push(view_of(v)),
{
    assert(ns.push(v).drop_last() =~= ns);
    assert(ns.push(v).last() == v);
}

impl View for Val {
    type V = ValS;

    open spec fn view(&self) -> ValS {
        view_of(*self)
    }
}

/// Structural size of a value shape, for termination measures: a value is
/// strictly larger than each of its elements.
pub open spec fn val_size(v: ValS) -> nat
    decreases v,
{
    match v {
        ValS::List(ns) => 1 + vals_size(ns),
        ValS::Vector(ns) => 1 + vals_size(ns),
        _ => 1,
    }
}

/// Total size of a sequence of value shapes.
pub open spec fn vals_size(s: Seq<ValS>) -> nat
    decreases s,
{
    if s.len() == 0 {
        0
    } else {
        val_size(s[0]) + vals_size(s.drop_first())
    }
}

/// Every element weighs at least one, and no element outweighs the sequence.
pub proof fn lemma_vals_size_bounds(s: Seq<ValS>, i: int)
    requires
        0 <= i < s.len(),
    ensures
        val_size(s[i]) <= vals_size(s),
        val_size(s[i]) >= 1,
    decreases s.len(),
{
    if i == 0 {
    } else {
        lemma_vals_size_bounds(s.drop_first(), i - 1);
        assert(s.drop_first()[i - 1] == s[i]);
    }
}

/// Dropping the head of a non-empty sequence strictly shrinks its size.
pub proof fn lemma_vals_size_drop_first(s: Seq<ValS>)
    requires
        s.len() > 0,
    ensures
        vals_size(s.drop_first()) < vals_size(s),
{
    lemma_vals_size_bounds(s, 0);
}

/// Viewing commutes with taking a subrange.
pub proof fn lemma_views_of_subrange(ns: Seq<Val>, a: int, b: int)
    requires
        0 <= a <= b <= ns.len(),
    ensures
        views_of(ns.subrange(a, b)) == views_of(ns).subrange(a, b),
{
    lemma_views_of_len(ns);
    lemma_views_of_len(ns.subrange(a, b));
    assert forall|j: int| 0 <= j < b - a
        implies views_of(ns.subrange(a, b))[j] == views_of(ns).subrange(a, b)[j] by {
        lemma_views_of_index(ns.subrange(a, b), j);
        lemma_views_of_index(ns, a + j);
    }
    assert(views_of(ns.subrange(a, b)) =~= views_of(ns).subrange(a, b));
}

/// Viewing commutes with concatenation.
pub proof fn lemma_views_of_concat(a: Seq<Val>, b: Seq<Val>)
    ensures
        views_of(a + b) == views_of(a) + views_of(b),
{
    lemma_views_of_len(a);
    lemma_views_of_len(b);
    lemma_views_of_len(a + b);
    assert forall|j: int| 0 <= j < a.len() + b.len()
        implies views_of(a + b)[j] == (views_of(a) + views_of(b))[j] by {
        lemma_views_of_index(a + b, j);
        if j < a.len() {
            lemma_views_of_index(a, j);
            assert((a + b)[j] == a[j]);
        } else {
            lemma_views_of_index(b, j - a.len());
            assert((a + b)[j] == b[j - a.len()]);
        }
    }
    assert(views_of(a + b) =~= views_of(a) + views_of(b));
}

/// Clone a vector of values; the views agree pointwise.
pub fn clone_vals(ns: &Vec<Val>) -> (r: Vec<Val>)
    ensures
        r@.len() == ns@.len(),
        views_of(r@) == views_of(ns@),
    decreases vals_size(views_of(ns@)), 1int,
{
    let mut r: Vec<Val> = Vec::new();
    let n = ns.len();
    let mut i: usize = 0;
    while i < n
        invariant
            n == ns@.len(),
            i <= n,
            r@.len() == i,
            forall|j: int| 0 <= j < i ==> #[trigger] r@[j]@ == ns@[j]@,
        decreases n - i,
    {
        proof {
            lemma_views_of_len(ns@);
            lemma_views_of_index(ns@, i as int);
            lemma_vals_size_bounds(views_of(ns@), i as int);
        }
        let c = ns[i].clone();
        r.push(c);
        i += 1;
    }
    proof {
        lemma_views_of_len(ns@);
        lemma_views_of_len(r@);
        assert forall|j: int| 0 <= j < views_of(r@).len()
            implies views_of(r@)[j] == views_of(ns@)[j] by {
            lemma_views_of_index(ns@, j);
            lemma_views_of_index(r@, j);
            assert(r@[j]@ == ns@[j]@);
        }
        assert(views_of(r@) =~= views_of(ns@));
    }
    r
}

/// The text of an interned name: the handle must have been issued and the
/// interned bytes must decode as UTF-8.
pub open spec fn spec_sym_text(vm: VmS, s: InternedSymbol) -> Option<Seq<char>> {
    if 1 <= s.id() <= vm.interns.len() && valid_utf8(vm.interns[s.id() - 1]) {
        Some(decode_utf8(vm.interns[s.id() - 1]))
    } else {
        None
    }
}

/// The textual rendering of a value: symbols by their (possibly
/// qualified) names, booleans and numbers in their literal forms, strings
/// as their raw text, lists and vectors parenthesized and bracketed with
/// single spaces between elements, builtins and modules in angle-bracket
/// forms. A float renders as its raw bit pattern — precise float
/// formatting is left to unverified display layers. Rendering fails only
/// on a fabricated symbol handle, non-UTF-8 symbol bytes, or a module
/// index outside the arena.
pub open spec fn spec_format(vm: VmS, v: ValS) -> Option<Seq<char>>
    decreases val_size(v), 1int,
{
    match v {
        ValS::Symbol(None, s) => spec_sym_text(vm, s),
        ValS::Symbol(Some(m), s) => match (spec_sym_text(vm, m), spec_sym_text(vm, s)) {
            (Some(a), Some(b)) => Some(a + "/"@ + b),
            _ => None,
        },
        ValS::Boolean(b) => Some(if b { "true"@ } else { "false"@ }),
        ValS::Integer(i) => Some(spec_decimal_signed(i as int)),
        ValS::Float(bits) => Some("#<float "@ + spec_decimal(bits as nat) + ">"@),
        ValS::String(s) => Some(s),
        ValS::List(ns) => match spec_format_items(vm, ns) {
            Some(t) => Some("("@ + t + ")"@),
            None => None,
        },
        ValS::Vector(ns) => match spec_format_items(vm, ns) {
            Some(t) => Some("["@ + t + "]"@),
            None => None,
        },
        ValS::Builtin(name, _) => Some("<builtin "@ + name + ">"@),
        ValS::Module(m) => if 0 <= m < vm.modules.len() {
            Some("<module "@ + vm.modules[m].name + ">"@)
        } else {
            None
        },
    }
}

/// The space-separated renderings of a sequence of values.
pub open spec fn spec_format_items(vm: VmS, ns: Seq<ValS>) -> Option<Seq<char>>
    decreases vals_size(ns), 2int,
    via spec_format_items_decreases
{
    if ns.len() == 0 {
        Some(Seq::empty())
    } else {
        match spec_format(vm, ns[0]) {
            None => None,
            Some(h) => match spec_format_rest(vm, ns.drop_first()) {
                None => None,
                Some(t) => Some(h + t),
            },
        }
    }
}

/// Renderings of the values after the first, each preceded by one space.
pub open spec fn spec_format_rest(vm: VmS, ns: Seq<ValS>) -> Option<Seq<char>>
    decreases vals_size(ns), 3int,
    via spec_format_rest_decreases
{
    if ns.len() == 0 {
        Some(Seq::empty())
    } else {
        match spec_format(vm, ns[0]) {
            None => None,
            Some(h) => match spec_format_rest(vm, ns.drop_first()) {
                None => None,
                Some(t) => Some(" "@ + h + t),
            },
        }
    }
}

/// The tail of a non-empty sequence is strictly smaller.
#[via_fn]
proof fn spec_format_rest_decreases(vm: VmS, ns: Seq<ValS>) {
    if ns.len() > 0 {
        lemma_vals_size_bounds(ns, 0);
    }
}

/// The tail of a non-empty sequence is strictly smaller.
#[via_fn]
proof fn spec_format_items_decreases(vm: VmS, ns: Seq<ValS>) {
    if ns.len() > 0 {
        lemma_vals_size_bounds(ns, 0);
    }
}

impl Val {
    /// Render this value as text against the machine that owns its
    /// symbols, exactly as `spec_format` says; `None` only for a
    /// fabricated handle, non-UTF-8 symbol bytes, or a module index
    /// outside the arena.
    pub fn format(&self, vm: &Vm) -> (r: Option<String>)
        ensures
            match r {
                Some(t) => spec_format(vm@, self@) == Some(t@),
                None => spec_format(vm@, self@) is None,
            },
        decreases val_size(self@), 1int,
    {
        match self {
            Val::Symbol(m_opt, s) => match m_opt {
                None => vm.resolve(*s),
                Some(m) => match vm.resolve(*m) {
                    None => None,
                    Some(a) => match vm.resolve(*s) {
                        None => None,
                        Some(b) => {
                            let mut out = a;
                            out.append("/");
                            out.append(b.as_str());
                            proof {
                                assert(out@ =~= spec_sym_text(vm@, *m).unwrap() + "/"@
                                    + spec_sym_text(vm@, *s).unwrap());
                            }
                            Some(out)
                        }
                    },
                },
            },
            Val::Boolean(b) => if *b {
                Some("true".to_owned())
            } else {
                Some("false".to_owned())
            },
            Val::Integer(i) => {
                let mut out = String::new();
                push_decimal_i64(&mut out, *i);
                proof {
                    assert(Seq::<char>::empty() + spec_decimal_signed(*i as int)
                        =~= spec_decimal_signed(*i as int));
                }
                Some(out)
            }
            Val::Float(bits) => {
                let mut out = "#<float ".to_owned();
                push_decimal_u64(&mut out, *bits);
                out.append(">");
                Some(out)
            }
            Val::String(s) => Some(s.clone()),
            Val::List(ns) => match format_items(vm, ns) {
                None => None,
                Some(t) => {
                    let mut out = "(".to_owned();
                    out.append(t.as_str());
                    out.append(")");
                    Some(out)
                }
            },
            Val::Vector(ns) => match format_items(vm, ns) {
                None => None,
                Some(t) => {
                    let mut out = "[".to_owned();
                    out.append(t.as_str());
                    out.append("]");
                    Some(out)
                }
            },
            Val::Builtin(b) => {
                let mut out = "<builtin ".to_owned();
                out.append(b.name.as_str());
                out.append(">");
                Some(out)
            }
            Val::Module(m) => {
                proof {
                    crate::vm::lemma_modules_view_len(vm.modules@);
                }
                if *m < vm.modules.len() {
                    proof {
                        crate::vm::lemma_modules_view_index(vm.modules@, *m as int);
                    }
                    let mut out = "<module ".to_owned();
                    out.append(vm.modules[*m].name.as_str());
                    out.append(">");
                    Some(out)
                } else {
                    None
                }
            }
        }
    }
}

/// Render a run of values with single spaces between them, exactly as
/// `spec_format_items` says.
pub fn format_items(vm: &Vm, ns: &Vec<Val>) -> (r: Option<String>)
    ensures
        match r {
            Some(t) => spec_format_items(vm@, views_of(ns@)) == Some(t@),
            None => spec_format_items(vm@, views_of(ns@)) is None,
        },
    decreases vals_size(views_of(ns@)), 2int,
{
    let ghost views = views_of(ns@);
    proof {
        lemma_views_of_len(ns@);
    }
    if ns.len() == 0 {
        let out = String::new();
        proof {
            assert(out@ =~= Seq::<char>::empty());
        }
        return Some(out);
    }
    proof {
        lemma_views_of_index(ns@, 0);
        lemma_vals_size_bounds(views, 0);
    }
    let mut out = match ns[0].format(vm) {
        None => {
            return None;
        }
        Some(t) => t,
    };
    let n = ns.len();
    let mut i: usize = 1;
    proof {
        assert(views.skip(1) =~= views.drop_first());
    }
    while i < n
        invariant
            1 <= i <= n,
            n == ns@.len(),
            views == views_of(ns@),
            views.len() == n,
            spec_format_items(vm@, views) == (match spec_format_rest(vm@, views.skip(i as int)) {
                Some(t) => Some::<Seq<char>>(out@ + t),
                None => None::<Seq<char>>,
            }),
        decreases n - i,
    {
        proof {
            lemma_views_of_index(ns@, i as int);
            lemma_vals_size_bounds(views, i as int);
            assert(views.skip(i as int)[0] == views[i as int]);
        }
        let t = match ns[i].format(vm) {
            None => {
                return None;
            }
            Some(t) => t,
        };
        let ghost out_pre = out@;
        out.append(" ");
        out.append(t.as_str());
        proof {
            assert(views.skip(i as int).drop_first() =~= views.skip(i as int + 1));
            match spec_format_rest(vm@, views.skip(i as int + 1)) {
                Some(rest) => {
                    assert(out_pre + (" "@ + t@ + rest) =~= out_pre + " "@ + t@ + rest);
                }
                None => {}
            }
        }
        i += 1;
    }
    proof {
        assert(views.skip(n as int) =~= Seq::<ValS>::empty());
        assert(out@ + Seq::<char>::empty() =~= out@);
    }
    Some(out)
}

impl Clone for Val {
    /// Values are cheap to clone; the clone has the same view.
    fn clone(&self) -> (r: Self)
        ensures
            r@ == self@,
        decreases val_size(self@), 0int,
    {
        match self {
            Val::Symbol(m, s) => Val::Symbol(*m, *s),
            Val::Boolean(b) => Val::Boolean(*b),
            Val::Integer(i) => Val::Integer(*i),
            Val::Float(bits) => Val::Float(*bits),
            Val::String(s) => Val::String(s.clone()),
            Val::List(ns) => {
                proof {
                    assert(val_size(self@) == 1 + vals_size(views_of(ns@)));
                }
                let r = Val::List(clone_vals(ns));
                proof {
                    assert(r@ == self@);
                }
                r
            }
            Val::Vector(ns) => {
                proof {
                    assert(val_size(self@) == 1 + vals_size(views_of(ns@)));
                }
                let r = Val::Vector(clone_vals(ns));
                proof {
                    assert(r@ == self@);
                }
                r
            }
            Val::Builtin(b) => Val::Builtin(b.clone()),
            Val::Module(m) => Val::Module(*m),
        }
    }
}

impl From<InternedSymbol> for Val {
    /// A bare symbol value.
    fn from(value: InternedSymbol) -> (r: Val) {
        Val::Symbol(None, value)
    }
}

impl vstd::std_specs::convert::FromSpecImpl<InternedSymbol> for Val {
    open spec fn obeys_from_spec() -> bool {
        true
    }

    open spec fn from_spec(value: InternedSymbol) -> Val {
        Val::Symbol(None, value)
    }
}

impl From<(InternedSymbol, InternedSymbol)> for Val {
    /// A module-qualified symbol value.
    fn from(value: (InternedSymbol, InternedSymbol)) -> (r: Val) {
        Val::Symbol(Some(value.0), value.1)
    }
}

impl vstd::std_specs::convert::FromSpecImpl<(InternedSymbol, InternedSymbol)> for Val {
    open spec fn obeys_from_spec() -> bool {
        true
    }

    open spec fn from_spec(value: (InternedSymbol, InternedSymbol)) -> Val {
        Val::Symbol(Some(value.0), value.1)
    }
}

impl From<(Option<InternedSymbol>, InternedSymbol)> for Val {
    /// A symbol value with an optional module qualifier.
    fn from(value: (Option<InternedSymbol>, InternedSymbol)) -> (r: Val) {
        Val::Symbol(value.0, value.1)
    }
}

impl vstd::std_specs::convert::FromSpecImpl<(Option<InternedSymbol>, InternedSymbol)> for Val {
    open spec fn obeys_from_spec() -> bool {
        true
    }

    open spec fn from_spec(value: (Option<InternedSymbol>, InternedSymbol)) -> Val {
        Val::Symbol(value.0, value.1)
    }
}

impl From<i64> for Val {
    /// An integer value.
    fn from(value: i64) -> (r: Val) {
        Val::Integer(value)
    }
}

impl vstd::std_specs::convert::FromSpecImpl<i64> for Val {
    open spec fn obeys_from_spec() -> bool {
        true
    }

    open spec fn from_spec(value: i64) -> Val {
        Val::Integer(value)
    }
}

impl From<String> for Val {
    /// A string value.
    fn from(value: String) -> (r: Val) {
        Val::String(value)
    }
}

impl vstd::std_specs::convert::FromSpecImpl<String> for Val {
    open spec fn obeys_from_spec() -> bool {
        true
    }

    open spec fn from_spec(value: String) -> Val {
        Val::String(value)
    }
}

} // verus!
