//! The disassembler: a read-only consumer of the bytecode format that
//! renders a buffer as one text line per instruction. Numeric operands
//! render in decimal (a float operand as its raw bit pattern), byte-string
//! operands between plain double quotes.

use vstd::prelude::*;
use vstd::string::*;
use vstd::utf8::{valid_utf8, decode_utf8};

use crate::text::{push_decimal_i64, push_decimal_u64, spec_decimal, spec_decimal_signed, string_from_utf8};
use crate::vm::ops::{
    spec_decode_instr, spec_op_name, spec_read_bytes, spec_read_u64, Instr, Op,
};

verus! {

/// The text of one instruction: the opcode's name, then its operands.
/// A byte-string operand must decode as UTF-8 to render.
pub open spec fn spec_render_instr(i: Instr) -> Option<Seq<char>> {
    match i {
        Instr::Nop => Some(spec_op_name(Op::Nop)),
        Instr::ImmTrue => Some(spec_op_name(Op::ImmediateBooleanTrue)),
        Instr::ImmFalse => Some(spec_op_name(Op::ImmediateBooleanFalse)),
        Instr::Drop => Some(spec_op_name(Op::Drop)),
        Instr::Eval => Some(spec_op_name(Op::Eval)),
        Instr::ImmSymBare(b) => if valid_utf8(b) {
            Some(spec_op_name(Op::ImmediateSymbolBare) + " \""@ + decode_utf8(b) + "\""@)
        } else {
            None
        },
        Instr::ImmSymMod(m, s) => if valid_utf8(m) && valid_utf8(s) {
            Some(
                spec_op_name(Op::ImmediateSymbolWithModule) + " \""@ + decode_utf8(m) + "\" \""@
                    + decode_utf8(s) + "\""@,
            )
        } else {
            None
        },
        Instr::ImmStr(b) => if valid_utf8(b) {
            Some(spec_op_name(Op::ImmediateString) + " \""@ + decode_utf8(b) + "\""@)
        } else {
            None
        },
        Instr::ImmInt(x) => Some(spec_op_name(Op::ImmediateInteger) + " "@
            + spec_decimal_signed(x as int)),
        Instr::ImmFloat(bits) => Some(spec_op_name(Op::ImmediateFloat) + " "@
            + spec_decimal(bits as nat)),
        Instr::ConsList(n) => Some(spec_op_name(Op::ConsList) + " "@ + spec_decimal(n as nat)),
        Instr::ConsVec(n) => Some(spec_op_name(Op::ConsVec) + " "@ + spec_decimal(n as nat)),
        Instr::Call(n) => Some(spec_op_name(Op::Call) + " "@ + spec_decimal(n as nat)),
        Instr::Jump(n) => Some(spec_op_name(Op::JumpRelative) + " "@ + spec_decimal(n as nat)),
    }
}

/// The text of a whole buffer from `ip` to its end: each instruction's
/// line, newline-terminated. Nothing, if the buffer does not decode or an
/// operand does not render.
pub open spec fn spec_disasm_at(code: Seq<u8>, ip: int) -> Option<Seq<char>>
    decreases code.len() - ip,
{
    if ip >= code.len() {
        if ip == code.len() {
            Some(Seq::empty())
        } else {
            None
        }
    } else {
        match spec_decode_instr(code, ip) {
            None => None,
            Some((i, ip2)) => if ip < ip2 <= code.len() {
                match spec_render_instr(i) {
                    None => None,
                    Some(line) => match spec_disasm_at(code, ip2) {
                        None => None,
                        Some(rest) => Some(line + "\n"@ + rest),
                    },
                }
            } else {
                None
            },
        }
    }
}

/// A disassembler: the buffer it reads and its position in it.
pub struct Disassembler {
    pub code: Vec<u8>,
    pub ip: usize,
}

impl Disassembler {
    /// A disassembler at the start of a buffer.
    pub fn new(code: Vec<u8>) -> (r: Disassembler)
        ensures
            r.code@ == code@,
            r.ip == 0,
    {
        Disassembler { code, ip: 0 }
    }

    /// Read one 8-byte little-endian operand, advancing past it.
    pub fn n(&mut self) -> (r: Option<u64>)
        ensures
            final(self).code == old(self).code,
            match r {
                Some(x) => spec_read_u64(old(self).code@, old(self).ip as int)
                    == Some((x, final(self).ip as int)),
                None => spec_read_u64(old(self).code@, old(self).ip as int) is None,
            },
    {
        if self.ip > self.code.len() || self.code.len() - self.ip < 8 {
            return None;
        }
        let s = &self.code.as_slice()[self.ip..self.ip + 8];
        let x = vstd::bytes::u64_from_le_bytes(s);
        self.ip = self.ip + 8;
        Some(x)
    }

    /// Read one length-prefixed byte-string operand as text, advancing
    /// past it; the bytes must decode as UTF-8.
    pub fn bytes(&mut self) -> (r: Option<String>)
        ensures
            final(self).code == old(self).code,
            match r {
                Some(t) => spec_read_bytes(old(self).code@, old(self).ip as int)
                    matches Some(b) && b.1 == final(self).ip && valid_utf8(b.0)
                    && t@ == decode_utf8(b.0),
                None => spec_read_bytes(old(self).code@, old(self).ip as int) matches Some(b)
                    ==> !valid_utf8(b.0),
            },
    {
        let n = match self.n() {
            Some(n) => n,
            None => {
                return None;
            }
        };
        if n > (self.code.len() - self.ip) as u64 {
            return None;
        }
        let len = n as usize;
        let s = &self.code.as_slice()[self.ip..self.ip + len];
        let b = vstd::slice::slice_to_vec(s);
        self.ip = self.ip + len;
        string_from_utf8(b)
    }

    /// Decode and render the single instruction at the position,
    /// appending its line and a newline to `out` and advancing past it.
    /// `false` means the rest of the buffer has no rendering.
    #[verifier::rlimit(100)]
    #[verifier::spinoff_prover]
    fn disasm_one(&mut self, out: &mut String) -> (r: bool)
        requires
            old(self).ip < old(self).code.len(),
        ensures
            final(self).code == old(self).code,
            r ==> (spec_decode_instr(old(self).code@, old(self).ip as int) matches Some(d)
                && d.1 == final(self).ip as int
                && old(self).ip < final(self).ip
                && final(self).ip <= final(self).code@.len()
                && (spec_render_instr(d.0) matches Some(line)
                    && final(out)@ == old(out)@ + line + "\n"@)),
            !r ==> spec_disasm_at(old(self).code@, old(self).ip as int) is None,
    {
        let ghost code0 = self.code@;
        let ghost ip_at = self.ip as int;
        let tag = self.code[self.ip];
        let op = match Op::from_u8(tag) {
            Some(op) => op,
            None => {
                return false;
            }
        };
        self.ip = self.ip + 1;
        let ghost out0 = out@;
        let name = op.name();
        out.append(name);
        match op {
            Op::Nop => {}
            Op::ImmediateBooleanTrue => {}
            Op::ImmediateBooleanFalse => {}
            Op::Drop => {}
            Op::Eval => {}
            Op::ImmediateSymbolBare => {
                let t = match self.bytes() {
                    Some(t) => t,
                    None => {
                        return false;
                    }
                };
                out.append(" \"");
                out.append(t.as_str());
                out.append("\"");
            }
            Op::ImmediateSymbolWithModule => {
                let m = match self.bytes() {
                    Some(t) => t,
                    None => {
                        return false;
                    }
                };
                let s = match self.bytes() {
                    Some(t) => t,
                    None => {
                        return false;
                    }
                };
                out.append(" \"");
                out.append(m.as_str());
                out.append("\" \"");
                out.append(s.as_str());
                out.append("\"");
            }
            Op::ImmediateString => {
                let t = match self.bytes() {
                    Some(t) => t,
                    None => {
                        return false;
                    }
                };
                out.append(" \"");
                out.append(t.as_str());
                out.append("\"");
            }
            Op::ImmediateInteger => {
                let x = match self.n() {
                    Some(x) => x,
                    None => {
                        return false;
                    }
                };
                out.append(" ");
                push_decimal_i64(out, #[verifier::truncate] (x as i64));
            }
            Op::ImmediateFloat => {
                let x = match self.n() {
                    Some(x) => x,
                    None => {
                        return false;
                    }
                };
                out.append(" ");
                push_decimal_u64(out, x);
            }
            Op::ConsList => {
                let x = match self.n() {
                    Some(x) => x,
                    None => {
                        return false;
                    }
                };
                out.append(" ");
                push_decimal_u64(out, x);
            }
            Op::ConsVec => {
                let x = match self.n() {
                    Some(x) => x,
                    None => {
                        return false;
                    }
                };
                out.append(" ");
                push_decimal_u64(out, x);
            }
            Op::Call => {
                let x = match self.n() {
                    Some(x) => x,
                    None => {
                        return false;
                    }
                };
                out.append(" ");
                push_decimal_u64(out, x);
            }
            Op::JumpRelative => {
                let x = match self.n() {
                    Some(x) => x,
                    None => {
                        return false;
                    }
                };
                out.append(" ");
                push_decimal_u64(out, x);
            }
        }
        out.append("\n");
        true
    }

    /// Render the rest of the buffer, one line per instruction, exactly
    /// as `spec_disasm_at` says of the starting position.
    pub fn disasm(&mut self) -> (r: Option<String>)
        ensures
            final(self).code == old(self).code,
            match r {
                Some(t) => spec_disasm_at(old(self).code@, old(self).ip as int) == Some(t@),
                None => spec_disasm_at(old(self).code@, old(self).ip as int) is None,
            },
    {
        let ghost code0 = self.code@;
        let ghost ip0 = self.ip as int;
        if self.ip > self.code.len() {
            return None;
        }
        let mut out = String::new();
        proof {
            assert(out@ =~= Seq::<char>::empty());
            match spec_disasm_at(code0, ip0) {
                Some(rest) => {
                    assert(Seq::<char>::empty() + rest =~= rest);
                }
                None => {}
            }
        }
        #[verifier::loop_isolation(false)]
        while self.ip < self.code.len()
            invariant
                self.code == old(self).code,
                self.code@ == code0,
                self.ip <= self.code.len(),
                spec_disasm_at(code0, ip0) == (match spec_disasm_at(code0, self.ip as int) {
                    Some(rest) => Some::<Seq<char>>(out@ + rest),
                    None => None::<Seq<char>>,
                }),
            decreases self.code@.len() - self.ip,
        {
            let ghost ip_at = self.ip as int;
            let ghost out_pre = out@;
            if !self.disasm_one(&mut out) {
                return None;
            }
            proof {
                match spec_decode_instr(code0, ip_at) {
                    None => {
                        assert(false);
                    }
                    Some((ins, ip2)) => {
                        match spec_render_instr(ins) {
                            None => {
                                assert(false);
                            }
                            Some(line) => {
                                match spec_disasm_at(code0, self.ip as int) {
                                    Some(rest) => {
                                        assert(out_pre + (line + "\n"@ + rest)
                                            =~= out_pre + line + "\n"@ + rest);
                                    }
                                    None => {}
                                }
                            }
                        }
                    }
                }
            }
        }
        proof {
            match spec_disasm_at(code0, ip0) {
                Some(_) => {
                    assert(out@ + Seq::<char>::empty() =~= out@);
                }
                None => {}
            }
        }
        Some(out)
    }
}

} // verus!
