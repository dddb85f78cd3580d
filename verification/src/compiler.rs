//! The bytecode compiler: walks a syntax tree and emits a linear byte
//! sequence of tagged instructions plus length-prefixed operands. The
//! instruction sequence each node compiles to is written out as spec
//! functions, and the emitted bytes are exactly their encoding.
//!
//! Arguments of a call form compile as ordinary expressions, so they are
//! evaluated before the `Call` instruction runs — including the arguments
//! of special forms such as `quote`. That eager order is the current,
//! deliberate behavior of this compiler.

use vstd::prelude::*;
use vstd::string::*;
use vstd::bytes::spec_u64_to_le_bytes;
use vstd::utf8::encode_utf8;

use crate::parser::document::Document;
use crate::parser::node::{
    lemma_node_views_index, lemma_node_views_len, lemma_nodes_size_bounds, node_size, node_view,
    node_views, nodes_size, nodes_well_formed, spec_node_wf, spec_nodes_wf, Node, NodeS,
    NodeValue, NodeValueS,
};
use crate::vm::interns::bytes_eq;
use crate::vm::module::lemma_encode_utf8_injective;
use crate::vm::ops::{spec_encode_instr, spec_encode_prog, spec_len_prefixed, spec_op_code, Instr, Op};

verus! {

/// A compiler-internal failure: a malformed tree (an empty call list)
/// reached the call-compiling branch.
#[derive(Clone, Copy, PartialEq, Eq, Structural, Debug)]
pub struct Error {}

/// The instructions one expression compiles to:
/// - the bare symbols `true` and `false` become the boolean-immediate
///   opcodes directly (a compile-time shortcut that bypasses lookup);
/// - any other bare symbol loads itself and evaluates;
/// - a qualified symbol loads both names and evaluates;
/// - integer, float and string literals become their immediate opcodes;
/// - a non-empty list compiles its head, then each argument, then `Call`
///   counting every operand including the callee;
/// - a vector literal compiles each element, then `ConsVec`.
pub open spec fn instrs_of_expr(n: NodeS) -> Seq<Instr>
    decreases n,
{
    match n.value {
        NodeValueS::Symbol(None, s) => if s == "true"@ {
            seq![Instr::ImmTrue]
        } else if s == "false"@ {
            seq![Instr::ImmFalse]
        } else {
            seq![Instr::ImmSymBare(encode_utf8(s)), Instr::Eval]
        },
        NodeValueS::Symbol(Some(m), s) => seq![
            Instr::ImmSymMod(encode_utf8(m), encode_utf8(s)),
            Instr::Eval,
        ],
        NodeValueS::Integer(i) => seq![Instr::ImmInt(i)],
        NodeValueS::Float(bits) => seq![Instr::ImmFloat(bits)],
        NodeValueS::String(s) => seq![Instr::ImmStr(encode_utf8(s))],
        NodeValueS::List(ns) => if ns.len() == 0 {
            Seq::empty()
        } else {
            instrs_of_expr(ns[0]) + instrs_of_exprs(ns.drop_first())
                + seq![Instr::Call(ns.len() as u64)]
        },
        NodeValueS::Vector(ns) => instrs_of_exprs(ns) + seq![Instr::ConsVec(ns.len() as u64)],
    }
}

/// The instructions a run of expressions compiles to, in order.
pub open spec fn instrs_of_exprs(ns: Seq<NodeS>) -> Seq<Instr>
    decreases ns,
{
    if ns.len() == 0 {
        Seq::empty()
    } else {
        instrs_of_exprs(ns.drop_last()) + instrs_of_expr(ns.last())
    }
}

/// One top-level form: its expression, then `Drop`, which moves the result
/// into the interpreter's `last` slot. Earlier top-level results are thus
/// discarded; only the last survives as the program's result.
pub open spec fn instrs_of_toplevel(n: NodeS) -> Seq<Instr> {
    instrs_of_expr(n) + seq![Instr::Drop]
}

/// A whole program: each top-level form in order.
pub open spec fn instrs_of_doc(ns: Seq<NodeS>) -> Seq<Instr>
    decreases ns,
{
    if ns.len() == 0 {
        Seq::empty()
    } else {
        instrs_of_doc(ns.drop_last()) + instrs_of_toplevel(ns.last())
    }
}

/// The bytes a whole program compiles to.
pub open spec fn spec_compile_doc(ns: Seq<NodeS>) -> Seq<u8> {
    spec_encode_prog(instrs_of_doc(ns))
}

/// Every call and vector in the tree fits the format's 8-byte counts, and
/// every name and string fits its length prefix. Any tree built from real
/// vectors and strings does.
pub open spec fn node_fits(n: NodeS) -> bool
    decreases n,
{
    match n.value {
        NodeValueS::Symbol(None, s) => encode_utf8(s).len() <= u64::MAX,
        NodeValueS::Symbol(Some(m), s) => encode_utf8(m).len() <= u64::MAX
            && encode_utf8(s).len() <= u64::MAX,
        NodeValueS::String(s) => encode_utf8(s).len() <= u64::MAX,
        NodeValueS::List(ns) => ns.len() <= u64::MAX && nodes_fit(ns),
        NodeValueS::Vector(ns) => ns.len() <= u64::MAX && nodes_fit(ns),
        _ => true,
    }
}

/// Every node in the sequence fits the format's limits.
pub open spec fn nodes_fit(ns: Seq<NodeS>) -> bool
    decreases ns,
{
    forall|i: int| 0 <= i < ns.len() ==> node_fits(#[trigger] ns[i])
}

/// A single instruction encodes to its own encoding.
pub proof fn lemma_encode_prog_singleton(i: Instr)
    ensures
        spec_encode_prog(seq![i]) == spec_encode_instr(i),
{
    assert(seq![i].drop_last() =~= Seq::<Instr>::empty());
    assert(seq![i].last() == i);
    assert(spec_encode_prog(Seq::<Instr>::empty()) == Seq::<u8>::empty());
    assert(Seq::<u8>::empty() + spec_encode_instr(i) =~= spec_encode_instr(i));
}

/// Encoding distributes over concatenation.
pub proof fn lemma_encode_prog_concat(a: Seq<Instr>, b: Seq<Instr>)
    ensures
        spec_encode_prog(a + b) == spec_encode_prog(a) + spec_encode_prog(b),
    decreases b,
{
    if b.len() == 0 {
        assert(a + b =~= a);
        assert(spec_encode_prog(a) + spec_encode_prog(b) =~= spec_encode_prog(a));
    } else {
        assert((a + b).drop_last() =~= a + b.drop_last());
        assert((a + b).last() == b.last());
        lemma_encode_prog_concat(a, b.drop_last());
        assert(spec_encode_prog(a) + spec_encode_prog(b.drop_last())
            + spec_encode_instr(b.last())
            =~= spec_encode_prog(a) + (spec_encode_prog(b.drop_last())
                + spec_encode_instr(b.last())));
    }
}

/// The compiler: an output buffer that instruction encodings are appended
/// to, one expression at a time.
pub struct Compiler {
    pub out: Vec<u8>,
}

impl Compiler {
    /// A compiler with an empty output buffer.
    pub fn new() -> (r: Compiler)
        ensures
            r.out@ == Seq::<u8>::empty(),
    {
        let r = Compiler { out: Vec::new() };
        proof {
            assert(r.out@ =~= Seq::<u8>::empty());
        }
        r
    }

    /// Hand the compiled bytes out, leaving the buffer empty.
    pub fn finish(&mut self) -> (r: Vec<u8>)
        ensures
            r@ == old(self).out@,
            final(self).out@ == Seq::<u8>::empty(),
    {
        let mut r: Vec<u8> = Vec::new();
        std::mem::swap(&mut r, &mut self.out);
        r
    }

    /// Emit one opcode tag.
    pub fn op(&mut self, op: Op)
        ensures
            final(self).out@ == old(self).out@ + seq![spec_op_code(op)],
    {
        let c = op.code();
        self.out.push(c);
        proof {
            assert(old(self).out@.push(spec_op_code(op))
                =~= old(self).out@ + seq![spec_op_code(op)]);
        }
    }

    /// Emit one 8-byte little-endian integer operand.
    pub fn n(&mut self, u: u64)
        ensures
            final(self).out@ == old(self).out@ + spec_u64_to_le_bytes(u),
    {
        let mut bytes = vstd::bytes::u64_to_le_bytes(u);
        self.out.append(&mut bytes);
    }

    /// Emit one length-prefixed byte-string operand: the text's UTF-8
    /// length, then its bytes.
    pub fn bytes(&mut self, s: &str)
        ensures
            final(self).out@ == old(self).out@ + spec_len_prefixed(s.spec_bytes()),
    {
        let mut bytes = s.as_bytes_vec();
        let len = bytes.len();
        self.n(len as u64);
        self.out.append(&mut bytes);
        proof {
            assert(old(self).out@ + spec_u64_to_le_bytes(s.spec_bytes().len() as u64)
                + s.spec_bytes()
                =~= old(self).out@ + spec_len_prefixed(s.spec_bytes()));
        }
    }

    /// Compile one expression: append exactly the encoding of the
    /// instructions it denotes.
    pub fn expr(&mut self, n: &Node)
        requires
            spec_node_wf(n@),
        ensures
            final(self).out@ == old(self).out@ + spec_encode_prog(instrs_of_expr(n@)),
        decreases node_size(n@),
    {
        let ghost base = self.out@;
        match &n.value {
            NodeValue::Symbol(modname, s) => match modname {
                None => {
                    if bytes_eq(s.as_str().as_bytes(), "true".as_bytes()) {
                        proof {
                            lemma_encode_utf8_injective(s@, "true"@);
                            lemma_encode_prog_singleton(Instr::ImmTrue);
                        }
                        self.op(Op::ImmediateBooleanTrue);
                    } else if bytes_eq(s.as_str().as_bytes(), "false".as_bytes()) {
                        proof {
                            lemma_encode_utf8_injective(s@, "false"@);
                            lemma_encode_prog_singleton(Instr::ImmFalse);
                        }
                        self.op(Op::ImmediateBooleanFalse);
                    } else {
                        proof {
                            assert(s@ != "true"@ && s@ != "false"@);
                        }
                        self.op(Op::ImmediateSymbolBare);
                        self.bytes(s.as_str());
                        self.op(Op::Eval);
                        proof {
                            lemma_symbol_encoding(base, s@, n@);
                        }
                    }
                }
                Some(m) => {
                    self.op(Op::ImmediateSymbolWithModule);
                    self.bytes(m.as_str());
                    self.bytes(s.as_str());
                    self.op(Op::Eval);
                    proof {
                        lemma_qualified_encoding(base, m@, s@, n@);
                    }
                }
            },
            NodeValue::Integer(i) => {
                self.op(Op::ImmediateInteger);
                self.n(*i as u64);
                proof {
                    lemma_encode_prog_singleton(Instr::ImmInt(*i));
                    assert(base + seq![spec_op_code(Op::ImmediateInteger)]
                        + spec_u64_to_le_bytes(*i as u64)
                        =~= base + spec_encode_instr(Instr::ImmInt(*i)));
                }
            }
            NodeValue::Float(bits) => {
                self.op(Op::ImmediateFloat);
                self.n(*bits);
                proof {
                    lemma_encode_prog_singleton(Instr::ImmFloat(*bits));
                    assert(base + seq![spec_op_code(Op::ImmediateFloat)]
                        + spec_u64_to_le_bytes(*bits)
                        =~= base + spec_encode_instr(Instr::ImmFloat(*bits)));
                }
            }
            NodeValue::String(s) => {
                self.op(Op::ImmediateString);
                self.bytes(s.as_str());
                proof {
                    lemma_encode_prog_singleton(Instr::ImmStr(encode_utf8(s@)));
                    assert(base + seq![spec_op_code(Op::ImmediateString)]
                        + spec_len_prefixed(encode_utf8(s@))
                        =~= base + spec_encode_instr(Instr::ImmStr(encode_utf8(s@))));
                }
            }
            NodeValue::List(ns) => {
                let ghost views = node_views(ns@);
                proof {
                    lemma_node_views_len(ns@);
                    lemma_node_views_index(ns@, 0);
                    lemma_nodes_size_bounds(views, 0);
                    assert(spec_nodes_wf(views));
                    assert(spec_node_wf(views[0]));
                }
                self.expr(&ns[0]);
                let count = ns.len();
                let mut i: usize = 1;
                proof {
                    assert(views.drop_first().take(0) =~= Seq::<NodeS>::empty());
                    assert(spec_encode_prog(instrs_of_expr(views[0]))
                        + spec_encode_prog(instrs_of_exprs(views.drop_first().take(0)))
                        =~= spec_encode_prog(instrs_of_expr(views[0])));
                }
                while i < count
                    invariant
                        1 <= i <= count,
                        count == ns@.len(),
                        views == node_views(ns@),
                        views.len() == count,
                        spec_nodes_wf(views),
                        nodes_size(views) < node_size(n@),
                        self.out@ == base + spec_encode_prog(instrs_of_expr(views[0]))
                            + spec_encode_prog(
                            instrs_of_exprs(views.drop_first().take(i - 1)),
                        ),
                    decreases count - i,
                {
                    proof {
                        lemma_node_views_index(ns@, i as int);
                        lemma_nodes_size_bounds(views, i as int);
                        assert(spec_node_wf(views[i as int]));
                    }
                    let ghost done = views.drop_first().take(i - 1);
                    self.expr(&ns[i]);
                    proof {
                        assert(views.drop_first().take(i as int).drop_last() =~= done);
                        assert(views.drop_first().take(i as int).last() == views[i as int]);
                        assert(base + spec_encode_prog(instrs_of_expr(views[0]))
                            + spec_encode_prog(instrs_of_exprs(done))
                            + spec_encode_prog(instrs_of_expr(views[i as int]))
                            =~= base + spec_encode_prog(instrs_of_expr(views[0]))
                            + (spec_encode_prog(instrs_of_exprs(done))
                                + spec_encode_prog(instrs_of_expr(views[i as int]))));
                        lemma_encode_prog_concat(
                            instrs_of_exprs(done),
                            instrs_of_expr(views[i as int]),
                        );
                    }
                    i += 1;
                }
                self.op(Op::Call);
                self.n(count as u64);
                proof {
                    assert(views.drop_first().take(count - 1) =~= views.drop_first());
                    lemma_encode_prog_singleton(Instr::Call(count as u64));
                    lemma_encode_prog_concat(
                        instrs_of_expr(views[0]),
                        instrs_of_exprs(views.drop_first()),
                    );
                    lemma_encode_prog_concat(
                        instrs_of_expr(views[0]) + instrs_of_exprs(views.drop_first()),
                        seq![Instr::Call(count as u64)],
                    );
                    assert(instrs_of_expr(n@) == instrs_of_expr(views[0])
                        + instrs_of_exprs(views.drop_first()) + seq![Instr::Call(count as u64)]);
                    assert(base + spec_encode_prog(instrs_of_expr(views[0]))
                        + spec_encode_prog(instrs_of_exprs(views.drop_first()))
                        + (seq![spec_op_code(Op::Call)] + spec_u64_to_le_bytes(count as u64))
                        =~= base + spec_encode_prog(instrs_of_expr(n@)));
                }
            }
            NodeValue::Vector(ns) => {
                let ghost views = node_views(ns@);
                proof {
                    lemma_node_views_len(ns@);
                    assert(spec_nodes_wf(views));
                }
                let count = ns.len();
                let mut i: usize = 0;
                proof {
                    assert(views.take(0) =~= Seq::<NodeS>::empty());
                    assert(base + spec_encode_prog(instrs_of_exprs(views.take(0))) =~= base);
                }
                while i < count
                    invariant
                        i <= count,
                        count == ns@.len(),
                        views == node_views(ns@),
                        views.len() == count,
                        spec_nodes_wf(views),
                        nodes_size(views) < node_size(n@),
                        self.out@ == base + spec_encode_prog(instrs_of_exprs(views.take(i as int))),
                    decreases count - i,
                {
                    proof {
                        lemma_node_views_index(ns@, i as int);
                        lemma_nodes_size_bounds(views, i as int);
                        assert(spec_node_wf(views[i as int]));
                    }
                    let ghost done = views.take(i as int);
                    self.expr(&ns[i]);
                    proof {
                        assert(views.take(i + 1).drop_last() =~= done);
                        assert(views.take(i + 1).last() == views[i as int]);
                        lemma_encode_prog_concat(
                            instrs_of_exprs(done),
                            instrs_of_expr(views[i as int]),
                        );
                        assert(base + spec_encode_prog(instrs_of_exprs(done))
                            + spec_encode_prog(instrs_of_expr(views[i as int]))
                            =~= base + spec_encode_prog(instrs_of_exprs(views.take(i + 1))));
                    }
                    i += 1;
                }
                self.op(Op::ConsVec);
                self.n(count as u64);
                proof {
                    assert(views.take(count as int) =~= views);
                    lemma_encode_prog_singleton(Instr::ConsVec(count as u64));
                    lemma_encode_prog_concat(
                        instrs_of_exprs(views),
                        seq![Instr::ConsVec(count as u64)],
                    );
                    assert(base + spec_encode_prog(instrs_of_exprs(views))
                        + (seq![spec_op_code(Op::ConsVec)] + spec_u64_to_le_bytes(count as u64))
                        =~= base + spec_encode_prog(instrs_of_expr(n@)));
                }
            }
        }
    }

    /// Compile one top-level form: its expression, then `Drop`.
    pub fn toplevel(&mut self, n: &Node)
        requires
            spec_node_wf(n@),
        ensures
            final(self).out@ == old(self).out@ + spec_encode_prog(instrs_of_toplevel(n@)),
    {
        self.expr(n);
        self.op(Op::Drop);
        proof {
            lemma_encode_prog_concat(instrs_of_expr(n@), seq![Instr::Drop]);
            lemma_encode_prog_singleton(Instr::Drop);
            assert(old(self).out@ + spec_encode_prog(instrs_of_expr(n@))
                + seq![spec_op_code(Op::Drop)]
                =~= old(self).out@ + spec_encode_prog(instrs_of_toplevel(n@)));
        }
    }

    /// Compile a whole document, top-level form by top-level form.
    pub fn doc(&mut self, d: &Document)
        requires
            spec_nodes_wf(node_views(d.toplevels@)),
        ensures
            final(self).out@ == old(self).out@ + spec_compile_doc(node_views(d.toplevels@)),
    {
        let ghost base = self.out@;
        let ghost views = node_views(d.toplevels@);
        let count = d.toplevels.len();
        let mut i: usize = 0;
        proof {
            lemma_node_views_len(d.toplevels@);
            assert(views.take(0) =~= Seq::<NodeS>::empty());
            assert(base + spec_encode_prog(instrs_of_doc(views.take(0))) =~= base);
        }
        while i < count
            invariant
                i <= count,
                count == d.toplevels@.len(),
                views == node_views(d.toplevels@),
                views.len() == count,
                spec_nodes_wf(views),
                self.out@ == base + spec_encode_prog(instrs_of_doc(views.take(i as int))),
            decreases count - i,
        {
            proof {
                lemma_node_views_index(d.toplevels@, i as int);
                assert(spec_node_wf(views[i as int]));
            }
            let ghost done = views.take(i as int);
            self.toplevel(&d.toplevels[i]);
            proof {
                assert(views.take(i + 1).drop_last() =~= done);
                assert(views.take(i + 1).last() == views[i as int]);
                lemma_encode_prog_concat(
                    instrs_of_doc(done),
                    instrs_of_toplevel(views[i as int]),
                );
                assert(base + spec_encode_prog(instrs_of_doc(done))
                    + spec_encode_prog(instrs_of_toplevel(views[i as int]))
                    =~= base + spec_encode_prog(instrs_of_doc(views.take(i + 1))));
            }
            i += 1;
        }
        proof {
            assert(views.take(count as int) =~= views);
        }
    }
}

/// The bytes of a bare-symbol load followed by `Eval`.
proof fn lemma_symbol_encoding(base: Seq<u8>, s: Seq<char>, n: NodeS)
    requires
        n.value == NodeValueS::Symbol(None, s),
        s != "true"@,
        s != "false"@,
    ensures
        base + seq![spec_op_code(Op::ImmediateSymbolBare)] + spec_len_prefixed(encode_utf8(s))
            + seq![spec_op_code(Op::Eval)]
            == base + spec_encode_prog(instrs_of_expr(n)),
{
    let is = instrs_of_expr(n);
    assert(is == seq![Instr::ImmSymBare(encode_utf8(s)), Instr::Eval]);
    lemma_encode_prog_concat(seq![Instr::ImmSymBare(encode_utf8(s))], seq![Instr::Eval]);
    assert(seq![Instr::ImmSymBare(encode_utf8(s))] + seq![Instr::Eval] =~= is);
    lemma_encode_prog_singleton(Instr::ImmSymBare(encode_utf8(s)));
    lemma_encode_prog_singleton(Instr::Eval);
    assert(base + seq![spec_op_code(Op::ImmediateSymbolBare)] + spec_len_prefixed(encode_utf8(s))
        + seq![spec_op_code(Op::Eval)]
        =~= base + spec_encode_prog(is));
}

/// The bytes of a qualified-symbol load followed by `Eval`.
proof fn lemma_qualified_encoding(base: Seq<u8>, m: Seq<char>, s: Seq<char>, n: NodeS)
    requires
        n.value == NodeValueS::Symbol(Some(m), s),
    ensures
        base + seq![spec_op_code(Op::ImmediateSymbolWithModule)]
            + spec_len_prefixed(encode_utf8(m)) + spec_len_prefixed(encode_utf8(s))
            + seq![spec_op_code(Op::Eval)]
            == base + spec_encode_prog(instrs_of_expr(n)),
{
    let head = Instr::ImmSymMod(encode_utf8(m), encode_utf8(s));
    let is = instrs_of_expr(n);
    assert(is == seq![head, Instr::Eval]);
    lemma_encode_prog_concat(seq![head], seq![Instr::Eval]);
    assert(seq![head] + seq![Instr::Eval] =~= is);
    lemma_encode_prog_singleton(head);
    lemma_encode_prog_singleton(Instr::Eval);
    assert(base + seq![spec_op_code(Op::ImmediateSymbolWithModule)]
        + spec_len_prefixed(encode_utf8(m)) + spec_len_prefixed(encode_utf8(s))
        + seq![spec_op_code(Op::Eval)]
        =~= base + spec_encode_prog(is));
}

/// Assembler support for checking compiled output byte for byte: an
/// output buffer with named position markers.
pub struct AsmState {
    pub out: Vec<u8>,
    pub markers: Vec<(String, usize)>,
}

/// First-match lookup of a marker position by label text.
pub open spec fn marker_lookup(ms: Seq<(String, usize)>, label: Seq<char>) -> Option<usize>
    decreases ms,
{
    if ms.len() == 0 {
        None
    } else if ms[0].0@ == label {
        Some(ms[0].1)
    } else {
        marker_lookup(ms.drop_first(), label)
    }
}

/// Appending a fresh label leaves other lookups alone and makes the new
/// label resolve to the appended position.
pub proof fn lemma_marker_lookup_push(
    ms: Seq<(String, usize)>,
    label: String,
    pos: usize,
    x: Seq<char>,
)
    requires
        marker_lookup(ms, label@) is None,
    ensures
        marker_lookup(ms.push((label, pos)), x) == if x == label@ {
            Some(pos)
        } else {
            marker_lookup(ms, x)
        },
    decreases ms,
{
    if ms.len() == 0 {
        assert(ms.push((label, pos)).drop_first() =~= Seq::<(String, usize)>::empty());
    } else {
        assert(ms.push((label, pos)).drop_first() =~= ms.drop_first().push((label, pos)));
        lemma_marker_lookup_push(ms.drop_first(), label, pos, x);
    }
}

impl AsmState {
    /// An empty buffer with no markers.
    pub fn new() -> (r: AsmState)
        ensures
            r.out@ == Seq::<u8>::empty(),
            r.markers@ == Seq::<(String, usize)>::empty(),
    {
        let r = AsmState { out: Vec::new(), markers: Vec::new() };
        proof {
            assert(r.out@ =~= Seq::<u8>::empty());
            assert(r.markers@ =~= Seq::<(String, usize)>::empty());
        }
        r
    }

    /// Index of the first marker entry for `label`.
    fn find_marker(&self, label: &str) -> (r: Option<usize>)
        ensures
            match r {
                Some(i) => i < self.markers@.len() && self.markers@[i as int].0@ == label@
                    && forall|j: int| 0 <= j < i ==> self.markers@[j].0@ != label@,
                None => marker_lookup(self.markers@, label@) is None,
            },
    {
        let n = self.markers.len();
        let mut i: usize = 0;
        while i < n
            invariant
                n == self.markers@.len(),
                i <= n,
                forall|j: int| 0 <= j < i ==> self.markers@[j].0@ != label@,
            decreases n - i,
        {
            if bytes_eq(self.markers[i].0.as_str().as_bytes(), label.as_bytes()) {
                proof {
                    lemma_encode_utf8_injective(self.markers@[i as int].0@, label@);
                }
                return Some(i);
            }
            i += 1;
        }
        proof {
            lemma_marker_none(self.markers@, label@);
        }
        None
    }

    /// Record the current output position under a fresh label; recording
    /// a duplicate label is a programming error, ruled out here.
    pub fn marker(&mut self, label: &str)
        requires
            marker_lookup(old(self).markers@, label@) is None,
        ensures
            final(self).out == old(self).out,
            forall|x: Seq<char>| marker_lookup(final(self).markers@, x) == if x == label@ {
                Some(old(self).out@.len() as usize)
            } else {
                marker_lookup(old(self).markers@, x)
            },
    {
        let pos = self.out.len();
        let owned = label.to_owned();
        let ghost ms0 = self.markers@;
        self.markers.push((owned, pos));
        proof {
            assert forall|x: Seq<char>| marker_lookup(final(self).markers@, x) == (if x == label@ {
                Some(old(self).out@.len() as usize)
            } else {
                marker_lookup(ms0, x)
            }) by {
                lemma_marker_lookup_push(ms0, owned, pos, x);
            }
        }
    }

    /// How many bytes were emitted since the marker was recorded.
    pub fn since(&self, label: &str) -> (r: u64)
        requires
            marker_lookup(self.markers@, label@) matches Some(p) && p <= self.out@.len(),
        ensures
            marker_lookup(self.markers@, label@) matches Some(p)
                && r == self.out@.len() - p,
    {
        match self.find_marker(label) {
            Some(i) => {
                proof {
                    lemma_marker_first_match(self.markers@, i as int, label@);
                }
                (self.out.len() - self.markers[i].1) as u64
            }
            None => {
                proof {
                    assert(false);
                }
                0
            }
        }
    }
}

/// If every marker has another label, the lookup misses.
proof fn lemma_marker_none(ms: Seq<(String, usize)>, label: Seq<char>)
    requires
        forall|j: int| 0 <= j < ms.len() ==> ms[j].0@ != label,
    ensures
        marker_lookup(ms, label) is None,
    decreases ms,
{
    if ms.len() > 0 {
        lemma_marker_none(ms.drop_first(), label);
    }
}

/// A first match at index `i` is what the lookup returns.
proof fn lemma_marker_first_match(ms: Seq<(String, usize)>, i: int, label: Seq<char>)
    requires
        0 <= i < ms.len(),
        ms[i].0@ == label,
        forall|j: int| 0 <= j < i ==> ms[j].0@ != label,
    ensures
        marker_lookup(ms, label) == Some(ms[i].1),
    decreases ms,
{
    if i > 0 {
        lemma_marker_first_match(ms.drop_first(), i - 1, label);
    }
}

/// True exactly when the document is well formed and compiles to the
/// expected bytes.
pub fn assert_compiles(doc: &Document, expected: &[u8]) -> (r: bool)
    ensures
        r == (spec_nodes_wf(node_views(doc.toplevels@))
            && spec_compile_doc(node_views(doc.toplevels@)) == expected@),
{
    match doc.compile() {
        Ok(code) => bytes_eq(code.as_slice(), expected),
        Err(_) => false,
    }
}

} // verus!
