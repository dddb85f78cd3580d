//! The bytecode instruction set: one tag byte per opcode, with the binary
//! encoding of each tag.

use vstd::prelude::*;
use vstd::bytes::{spec_u64_to_le_bytes, spec_u64_from_le_bytes, lemma_auto_spec_u64_to_from_le_bytes};

verus! {

/// The opcode tags of the bytecode format. `JumpRelative` is defined in the
/// format but never emitted by the current compiler; it is reserved for a
/// future loop construct.
#[derive(Clone, Copy, PartialEq, Eq, Structural, Debug)]
pub enum Op {
    Nop,
    ImmediateSymbolBare,
    ImmediateSymbolWithModule,
    ImmediateBooleanTrue,
    ImmediateBooleanFalse,
    ImmediateInteger,
    ImmediateFloat,
    ImmediateString,
    ConsList,
    ConsVec,
    Drop,
    Eval,
    Call,
    JumpRelative,
}

/// The tag byte of each opcode.
pub open spec fn spec_op_code(op: Op) -> u8 {
    match op {
        Op::Nop => 0,
        Op::ImmediateSymbolBare => 1,
        Op::ImmediateSymbolWithModule => 2,
        Op::ImmediateBooleanTrue => 3,
        Op::ImmediateBooleanFalse => 4,
        Op::ImmediateInteger => 5,
        Op::ImmediateFloat => 6,
        Op::ImmediateString => 7,
        Op::ConsList => 8,
        Op::ConsVec => 9,
        Op::Drop => 10,
        Op::Eval => 11,
        Op::Call => 12,
        Op::JumpRelative => 20,
    }
}

/// The opcode of a tag byte, if the byte is one.
pub open spec fn spec_op_from_u8(b: u8) -> Option<Op> {
    if b == 0 {
        Some(Op::Nop)
    } else if b == 1 {
        Some(Op::ImmediateSymbolBare)
    } else if b == 2 {
        Some(Op::ImmediateSymbolWithModule)
    } else if b == 3 {
        Some(Op::ImmediateBooleanTrue)
    } else if b == 4 {
        Some(Op::ImmediateBooleanFalse)
    } else if b == 5 {
        Some(Op::ImmediateInteger)
    } else if b == 6 {
        Some(Op::ImmediateFloat)
    } else if b == 7 {
        Some(Op::ImmediateString)
    } else if b == 8 {
        Some(Op::ConsList)
    } else if b == 9 {
        Some(Op::ConsVec)
    } else if b == 10 {
        Some(Op::Drop)
    } else if b == 11 {
        Some(Op::Eval)
    } else if b == 12 {
        Some(Op::Call)
    } else if b == 20 {
        Some(Op::JumpRelative)
    } else {
        None
    }
}

impl Op {
    /// The tag byte this opcode is written as.
    pub fn code(&self) -> (r: u8)
        ensures
            r == spec_op_code(*self),
    {
        match self {
            Op::Nop => 0,
            Op::ImmediateSymbolBare => 1,
            Op::ImmediateSymbolWithModule => 2,
            Op::ImmediateBooleanTrue => 3,
            Op::ImmediateBooleanFalse => 4,
            Op::ImmediateInteger => 5,
            Op::ImmediateFloat => 6,
            Op::ImmediateString => 7,
            Op::ConsList => 8,
            Op::ConsVec => 9,
            Op::Drop => 10,
            Op::Eval => 11,
            Op::Call => 12,
            Op::JumpRelative => 20,
        }
    }

    /// Decode a tag byte; unrecognized tags are a decode failure for the
    /// interpreter, so they come back as `None` rather than a panic.
    pub fn from_u8(b: u8) -> (r: Option<Op>)
        ensures
            r == spec_op_from_u8(b),
    {
        match b {
            0 => Some(Op::Nop),
            1 => Some(Op::ImmediateSymbolBare),
            2 => Some(Op::ImmediateSymbolWithModule),
            3 => Some(Op::ImmediateBooleanTrue),
            4 => Some(Op::ImmediateBooleanFalse),
            5 => Some(Op::ImmediateInteger),
            6 => Some(Op::ImmediateFloat),
            7 => Some(Op::ImmediateString),
            8 => Some(Op::ConsList),
            9 => Some(Op::ConsVec),
            10 => Some(Op::Drop),
            11 => Some(Op::Eval),
            12 => Some(Op::Call),
            20 => Some(Op::JumpRelative),
            _ => None,
        }
    }

    /// The display name of this opcode.
    pub fn name(&self) -> (r: &'static str)
        ensures
            r@ == spec_op_name(*self),
    {
        match self {
            Op::Nop => "Nop",
            Op::ImmediateSymbolBare => "ImmediateSymbolBare",
            Op::ImmediateSymbolWithModule => "ImmediateSymbolWithModule",
            Op::ImmediateBooleanTrue => "ImmediateBooleanTrue",
            Op::ImmediateBooleanFalse => "ImmediateBooleanFalse",
            Op::ImmediateInteger => "ImmediateInteger",
            Op::ImmediateFloat => "ImmediateFloat",
            Op::ImmediateString => "ImmediateString",
            Op::ConsList => "ConsList",
            Op::ConsVec => "ConsVec",
            Op::Drop => "Drop",
            Op::Eval => "Eval",
            Op::Call => "Call",
            Op::JumpRelative => "JumpRelative",
        }
    }
}

/// The display name of each opcode, as characters.
pub open spec fn spec_op_name(op: Op) -> Seq<char> {
    match op {
        Op::Nop => "Nop"@,
        Op::ImmediateSymbolBare => "ImmediateSymbolBare"@,
        Op::ImmediateSymbolWithModule => "ImmediateSymbolWithModule"@,
        Op::ImmediateBooleanTrue => "ImmediateBooleanTrue"@,
        Op::ImmediateBooleanFalse => "ImmediateBooleanFalse"@,
        Op::ImmediateInteger => "ImmediateInteger"@,
        Op::ImmediateFloat => "ImmediateFloat"@,
        Op::ImmediateString => "ImmediateString"@,
        Op::ConsList => "ConsList"@,
        Op::ConsVec => "ConsVec"@,
        Op::Drop => "Drop"@,
        Op::Eval => "Eval"@,
        Op::Call => "Call"@,
        Op::JumpRelative => "JumpRelative"@,
    }
}

/// Encoding then decoding a tag byte gives the opcode back.
pub proof fn lemma_op_code_round_trip(op: Op)
    ensures
        spec_op_from_u8(spec_op_code(op)) == Some(op),
{
}

/// One decoded instruction: an opcode together with its operands. This is
/// the unit the wire format carries; multi-byte integers are 8-byte
/// little-endian, length-prefixed byte strings carry their length first.
pub ghost enum Instr {
    Nop,
    ImmSymBare(Seq<u8>),
    ImmSymMod(Seq<u8>, Seq<u8>),
    ImmTrue,
    ImmFalse,
    ImmInt(i64),
    ImmFloat(u64),
    ImmStr(Seq<u8>),
    ConsList(u64),
    ConsVec(u64),
    Drop,
    Eval,
    Call(u64),
    Jump(u64),
}

/// Every inline byte string's length fits its 8-byte length prefix.
pub open spec fn instr_wf(i: Instr) -> bool {
    match i {
        Instr::ImmSymBare(b) => b.len() <= u64::MAX,
        Instr::ImmSymMod(m, s) => m.len() <= u64::MAX && s.len() <= u64::MAX,
        Instr::ImmStr(b) => b.len() <= u64::MAX,
        _ => true,
    }
}

/// A length-prefixed byte string: 8-byte little-endian length, then the
/// raw bytes.
pub open spec fn spec_len_prefixed(b: Seq<u8>) -> Seq<u8> {
    spec_u64_to_le_bytes(b.len() as u64) + b
}

/// The binary encoding of one instruction: its tag byte, then its operands.
pub open spec fn spec_encode_instr(i: Instr) -> Seq<u8> {
    match i {
        Instr::Nop => seq![spec_op_code(Op::Nop)],
        Instr::ImmSymBare(b) => seq![spec_op_code(Op::ImmediateSymbolBare)] + spec_len_prefixed(b),
        Instr::ImmSymMod(m, s) => seq![spec_op_code(Op::ImmediateSymbolWithModule)]
            + spec_len_prefixed(m) + spec_len_prefixed(s),
        Instr::ImmTrue => seq![spec_op_code(Op::ImmediateBooleanTrue)],
        Instr::ImmFalse => seq![spec_op_code(Op::ImmediateBooleanFalse)],
        Instr::ImmInt(x) => seq![spec_op_code(Op::ImmediateInteger)]
            + spec_u64_to_le_bytes(x as u64),
        Instr::ImmFloat(bits) => seq![spec_op_code(Op::ImmediateFloat)]
            + spec_u64_to_le_bytes(bits),
        Instr::ImmStr(b) => seq![spec_op_code(Op::ImmediateString)] + spec_len_prefixed(b),
        Instr::ConsList(n) => seq![spec_op_code(Op::ConsList)] + spec_u64_to_le_bytes(n),
        Instr::ConsVec(n) => seq![spec_op_code(Op::ConsVec)] + spec_u64_to_le_bytes(n),
        Instr::Drop => seq![spec_op_code(Op::Drop)],
        Instr::Eval => seq![spec_op_code(Op::Eval)],
        Instr::Call(n) => seq![spec_op_code(Op::Call)] + spec_u64_to_le_bytes(n),
        Instr::Jump(n) => seq![spec_op_code(Op::JumpRelative)] + spec_u64_to_le_bytes(n),
    }
}

/// The binary encoding of an instruction sequence.
pub open spec fn spec_encode_prog(is: Seq<Instr>) -> Seq<u8>
    decreases is,
{
    if is.len() == 0 {
        Seq::empty()
    } else {
        spec_encode_prog(is.drop_last()) + spec_encode_instr(is.last())
    }
}

/// Read one 8-byte little-endian integer: the value and the position after
/// it, or nothing on a truncated read.
pub open spec fn spec_read_u64(code: Seq<u8>, p: int) -> Option<(u64, int)> {
    if 0 <= p && p + 8 <= code.len() {
        Some((spec_u64_from_le_bytes(code.subrange(p, p + 8)), p + 8))
    } else {
        None
    }
}

/// Read one length-prefixed byte string.
pub open spec fn spec_read_bytes(code: Seq<u8>, p: int) -> Option<(Seq<u8>, int)> {
    match spec_read_u64(code, p) {
        None => None,
        Some((n, p2)) => if p2 + n <= code.len() {
            Some((code.subrange(p2, p2 + n), p2 + n))
        } else {
            None
        },
    }
}

/// Decode the instruction whose tag byte sits at `ip`: the instruction and
/// the position just past it. An unrecognized tag or a truncated operand
/// decodes to nothing.
pub open spec fn spec_decode_instr(code: Seq<u8>, ip: int) -> Option<(Instr, int)> {
    if !(0 <= ip < code.len()) {
        None
    } else {
        let p = ip + 1;
        match spec_op_from_u8(code[ip]) {
            None => None,
            Some(op) => match op {
                Op::Nop => Some((Instr::Nop, p)),
                Op::ImmediateSymbolBare => match spec_read_bytes(code, p) {
                    Some((b, p2)) => Some((Instr::ImmSymBare(b), p2)),
                    None => None,
                },
                Op::ImmediateSymbolWithModule => match spec_read_bytes(code, p) {
                    Some((m, p2)) => match spec_read_bytes(code, p2) {
                        Some((s, p3)) => Some((Instr::ImmSymMod(m, s), p3)),
                        None => None,
                    },
                    None => None,
                },
                Op::ImmediateBooleanTrue => Some((Instr::ImmTrue, p)),
                Op::ImmediateBooleanFalse => Some((Instr::ImmFalse, p)),
                Op::ImmediateInteger => match spec_read_u64(code, p) {
                    Some((x, p2)) => Some((Instr::ImmInt(x as i64), p2)),
                    None => None,
                },
                Op::ImmediateFloat => match spec_read_u64(code, p) {
                    Some((x, p2)) => Some((Instr::ImmFloat(x), p2)),
                    None => None,
                },
                Op::ImmediateString => match spec_read_bytes(code, p) {
                    Some((b, p2)) => Some((Instr::ImmStr(b), p2)),
                    None => None,
                },
                Op::ConsList => match spec_read_u64(code, p) {
                    Some((n, p2)) => Some((Instr::ConsList(n), p2)),
                    None => None,
                },
                Op::ConsVec => match spec_read_u64(code, p) {
                    Some((n, p2)) => Some((Instr::ConsVec(n), p2)),
                    None => None,
                },
                Op::Drop => Some((Instr::Drop, p)),
                Op::Eval => Some((Instr::Eval, p)),
                Op::Call => match spec_read_u64(code, p) {
                    Some((n, p2)) => Some((Instr::Call(n), p2)),
                    None => None,
                },
                Op::JumpRelative => match spec_read_u64(code, p) {
                    Some((n, p2)) => Some((Instr::Jump(n), p2)),
                    None => None,
                },
            },
        }
    }
}

/// Decode a whole byte stream from `ip` to the end as an instruction list.
pub open spec fn spec_decode_prog(code: Seq<u8>, ip: int) -> Option<Seq<Instr>>
    decreases code.len() - ip,
{
    if ip >= code.len() {
        if ip == code.len() {
            Some(Seq::empty())
        } else {
            None
        }
    } else {
        match spec_decode_instr(code, ip) {
            None => None,
            Some((i, ip2)) => if ip < ip2 <= code.len() {
                match spec_decode_prog(code, ip2) {
                    None => None,
                    Some(rest) => Some(seq![i] + rest),
                }
            } else {
                None
            },
        }
    }
}

/// Decoding always moves forward and stays inside the buffer.
pub proof fn lemma_decode_instr_advances(code: Seq<u8>, ip: int)
    requires
        spec_decode_instr(code, ip) is Some,
    ensures
        ({
            let (i, ip2) = spec_decode_instr(code, ip).unwrap();
            ip < ip2 <= code.len()
        }),
{
}

/// Decoding reads back exactly the instruction that was encoded, wherever
/// it sits in a longer stream.
pub proof fn lemma_decode_encode_instr(pre: Seq<u8>, i: Instr, post: Seq<u8>)
    requires
        instr_wf(i),
    ensures
        spec_decode_instr(pre + spec_encode_instr(i) + post, pre.len() as int)
            == Some((i, (pre.len() + spec_encode_instr(i).len()) as int)),
{
    lemma_auto_spec_u64_to_from_le_bytes();
    let code = pre + spec_encode_instr(i) + post;
    let ip = pre.len() as int;
    let enc = spec_encode_instr(i);
    assert(code[ip] == enc[0]);
    let p = ip + 1;
    match i {
        Instr::Nop => {}
        Instr::ImmTrue => {}
        Instr::ImmFalse => {}
        Instr::Drop => {}
        Instr::Eval => {}
        Instr::ImmSymBare(b) => {
            lemma_read_len_prefixed(pre + seq![spec_op_code(Op::ImmediateSymbolBare)], b, post);
            assert(pre + seq![spec_op_code(Op::ImmediateSymbolBare)] + spec_len_prefixed(b) + post
                =~= code);
        }
        Instr::ImmStr(b) => {
            lemma_read_len_prefixed(pre + seq![spec_op_code(Op::ImmediateString)], b, post);
            assert(pre + seq![spec_op_code(Op::ImmediateString)] + spec_len_prefixed(b) + post
                =~= code);
        }
        Instr::ImmSymMod(m, s) => {
            lemma_read_len_prefixed(
                pre + seq![spec_op_code(Op::ImmediateSymbolWithModule)],
                m,
                spec_len_prefixed(s) + post,
            );
            assert(pre + seq![spec_op_code(Op::ImmediateSymbolWithModule)] + spec_len_prefixed(m)
                + (spec_len_prefixed(s) + post) =~= code);
            lemma_read_len_prefixed(
                pre + seq![spec_op_code(Op::ImmediateSymbolWithModule)] + spec_len_prefixed(m),
                s,
                post,
            );
            assert(pre + seq![spec_op_code(Op::ImmediateSymbolWithModule)] + spec_len_prefixed(m)
                + spec_len_prefixed(s) + post =~= code);
        }
        Instr::ImmInt(x) => {
            lemma_read_u64_exact(pre + seq![spec_op_code(Op::ImmediateInteger)], x as u64, post);
            assert(pre + seq![spec_op_code(Op::ImmediateInteger)] + spec_u64_to_le_bytes(x as u64)
                + post =~= code);
            assert((x as u64) as i64 == x) by (bit_vector);
        }
        Instr::ImmFloat(bits) => {
            lemma_read_u64_exact(pre + seq![spec_op_code(Op::ImmediateFloat)], bits, post);
            assert(pre + seq![spec_op_code(Op::ImmediateFloat)] + spec_u64_to_le_bytes(bits)
                + post =~= code);
        }
        Instr::ConsList(n) => {
            lemma_read_u64_exact(pre + seq![spec_op_code(Op::ConsList)], n, post);
            assert(pre + seq![spec_op_code(Op::ConsList)] + spec_u64_to_le_bytes(n) + post
                =~= code);
        }
        Instr::ConsVec(n) => {
            lemma_read_u64_exact(pre + seq![spec_op_code(Op::ConsVec)], n, post);
            assert(pre + seq![spec_op_code(Op::ConsVec)] + spec_u64_to_le_bytes(n) + post
                =~= code);
        }
        Instr::Call(n) => {
            lemma_read_u64_exact(pre + seq![spec_op_code(Op::Call)], n, post);
            assert(pre + seq![spec_op_code(Op::Call)] + spec_u64_to_le_bytes(n) + post =~= code);
        }
        Instr::Jump(n) => {
            lemma_read_u64_exact(pre + seq![spec_op_code(Op::JumpRelative)], n, post);
            assert(pre + seq![spec_op_code(Op::JumpRelative)] + spec_u64_to_le_bytes(n) + post
                =~= code);
        }
    }
}

/// Reading an 8-byte integer where one was written gives it back.
pub proof fn lemma_read_u64_exact(pre: Seq<u8>, x: u64, post: Seq<u8>)
    ensures
        spec_read_u64(pre + spec_u64_to_le_bytes(x) + post, pre.len() as int)
            == Some((x, pre.len() + 8int)),
{
    lemma_auto_spec_u64_to_from_le_bytes();
    let code = pre + spec_u64_to_le_bytes(x) + post;
    let p = pre.len() as int;
    assert(code.subrange(p, p + 8) =~= spec_u64_to_le_bytes(x));
}

/// Reading a length-prefixed byte string where one was written gives it
/// back.
pub proof fn lemma_read_len_prefixed(pre: Seq<u8>, b: Seq<u8>, post: Seq<u8>)
    requires
        b.len() <= u64::MAX,
    ensures
        spec_read_bytes(pre + spec_len_prefixed(b) + post, pre.len() as int)
            == Some((b, (pre.len() + 8 + b.len()) as int)),
{
    lemma_auto_spec_u64_to_from_le_bytes();
    let code = pre + spec_len_prefixed(b) + post;
    let p = pre.len() as int;
    assert(pre + spec_len_prefixed(b) + post
        =~= pre + spec_u64_to_le_bytes(b.len() as u64) + (b + post));
    lemma_read_u64_exact(pre, b.len() as u64, b + post);
    assert(code.subrange(p + 8, p + 8 + b.len()) =~= b);
}

} // verus!
