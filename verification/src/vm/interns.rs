//! The symbol interner: a bidirectional mapping between byte strings and
//! small dense integer handles. Every other component identifies names by
//! handle, never by string, after this stage.

use vstd::prelude::*;
use vstd::string::*;
use vstd::utf8::{encode_utf8, decode_utf8, encode_utf8_decode_utf8};

verus! {

/// A stable integer handle for an interned byte string. Handles start at 1,
/// so 0 stays free as an "absent" sentinel; two handles issued by the same
/// interner are equal iff the underlying byte strings were equal.
#[derive(Clone, Copy, PartialEq, Eq, Structural, Hash, Debug)]
pub struct InternedSymbol(pub usize);

impl InternedSymbol {
    /// The handle as a mathematical integer.
    pub open spec fn id(self) -> int {
        self.0 as int
    }
}

/// True when no byte string occurs twice in the table.
pub open spec fn syms_unique(syms: Seq<Seq<u8>>) -> bool {
    forall|i: int, j: int| 0 <= i < j < syms.len() ==> syms[i] != syms[j]
}

/// True when `s` is present in the table.
pub open spec fn has_sym(syms: Seq<Seq<u8>>, s: Seq<u8>) -> bool {
    exists|i: int| 0 <= i < syms.len() && syms[i] == s
}

/// The handle of `s` in the table: one more than its index. Meaningful only
/// when `has_sym(syms, s)` holds and the table is duplicate-free.
pub open spec fn sym_id(syms: Seq<Seq<u8>>, s: Seq<u8>) -> int {
    (choose|i: int| 0 <= i < syms.len() && syms[i] == s) + 1
}

/// The table that interning `s` leaves behind, and the handle it returns:
/// the existing handle when `s` is already present, a fresh one otherwise.
pub open spec fn spec_intern(syms: Seq<Seq<u8>>, s: Seq<u8>) -> (Seq<Seq<u8>>, int) {
    if has_sym(syms, s) {
        (syms, sym_id(syms, s))
    } else {
        (syms.push(s), syms.len() as int + 1)
    }
}

/// Byte-slice equality.
pub fn bytes_eq(a: &[u8], b: &[u8]) -> (r: bool)
    ensures
        r == (a@ == b@),
{
    if a.len() != b.len() {
        proof {
            assert(a@.len() != b@.len());
        }
        return false;
    }
    let n = a.len();
    let mut i: usize = 0;
    while i < n
        invariant
            n == a@.len() == b@.len(),
            i <= n,
            forall|j: int| 0 <= j < i ==> a@[j] == b@[j],
        decreases n - i,
    {
        if a[i] != b[i] {
            return false;
        }
        i += 1;
    }
    proof {
        assert(a@ =~= b@);
    }
    true
}

/// Owner of the canonical byte string for every handle it has issued
/// (indexed by handle − 1). It only grows; no removal operation exists.
pub struct Interns {
    syms: Vec<Vec<u8>>,
}

impl View for Interns {
    type V = Seq<Seq<u8>>;

    closed spec fn view(&self) -> Seq<Seq<u8>> {
        Seq::new(self.syms@.len(), |i: int| self.syms@[i]@)
    }
}

impl Interns {
    /// No byte string was ever issued two handles.
    pub open spec fn wf(&self) -> bool {
        syms_unique(self@)
    }

    /// An interner with the two well-known names `true` and `false`
    /// pre-interned, at handles 1 and 2, so later stages can compare them
    /// by handle without re-interning.
    pub fn new() -> (r: Interns)
        ensures
            r.wf(),
            r@.len() == 2,
            r@[0] == "true".spec_bytes(),
            r@[1] == "false".spec_bytes(),
    {
        let mut i = Interns { syms: Vec::new() };
        proof {
            assert(i@ =~= Seq::<Seq<u8>>::empty());
            lemma_true_false_bytes_differ();
        }
        let _t = i.intern("true".as_bytes());
        let _f = i.intern("false".as_bytes());
        i
    }

    /// Look `s` up in the table; `Some` holds the index of an entry equal
    /// to `s` (given `wf`, the only one).
    fn find(&self, s: &[u8]) -> (r: Option<usize>)
        ensures
            match r {
                Some(i) => i < self@.len() && self@[i as int] == s@,
                None => !has_sym(self@, s@),
            },
    {
        let n = self.syms.len();
        let mut i: usize = 0;
        while i < n
            invariant
                n == self.syms.len(),
                self@.len() == n,
                i <= n,
                forall|j: int| 0 <= j < i ==> self@[j] != s@,
            decreases n - i,
        {
            proof {
                assert(self@[i as int] == self.syms@[i as int]@);
            }
            if bytes_eq(self.syms[i].as_slice(), s) {
                return Some(i);
            }
            i += 1;
        }
        None
    }

    /// Intern `s`: idempotent (repeated interning of equal bytes returns the
    /// same handle); the handle is stable for the lifetime of this interner.
    pub fn intern(&mut self, s: &[u8]) -> (r: InternedSymbol)
        requires
            old(self).wf(),
        ensures
            final(self).wf(),
            final(self)@ == spec_intern(old(self)@, s@).0,
            r.id() == spec_intern(old(self)@, s@).1,
            1 <= r.id() <= final(self)@.len(),
            final(self)@[r.id() - 1] == s@,
            has_sym(old(self)@, s@) ==> final(self)@ == old(self)@,
            !has_sym(old(self)@, s@) ==> final(self)@ == old(self)@.push(s@)
                && r.id() == old(self)@.len() + 1,
    {
        let n_before = self.syms.len();
        proof {
            assert(self@.len() == n_before);
        }
        match self.find(s) {
            Some(i) => {
                proof {
                    let j = choose|j: int| 0 <= j < self@.len() && self@[j] == s@;
                    if (i as int) < j {
                        assert(self@[i as int] != self@[j]);
                    } else if j < (i as int) {
                        assert(self@[j] != self@[i as int]);
                    }
                }
                InternedSymbol(i + 1)
            }
            None => {
                let ghost old_view = self@;
                self.syms.push(vstd::slice::slice_to_vec(s));
                let n = self.syms.len();
                proof {
                    assert forall|k: int| 0 <= k < self@.len()
                        implies self@[k] == old_view.push(s@)[k] by {
                        assert(self@[k] == self.syms@[k]@);
                        if k < old_view.len() {
                            assert(old_view[k] == old(self).syms@[k]@);
                        }
                    }
                    assert(self@ =~= old_view.push(s@));
                    assert forall|a: int, b: int| 0 <= a < b < self@.len()
                        implies self@[a] != self@[b] by {
                        if b == self@.len() - 1 {
                            assert(!has_sym(old_view, s@));
                            assert(old_view[a] != s@);
                        }
                    }
                }
                InternedSymbol(n)
            }
        }
    }

    /// The byte string behind a handle issued by this interner. Resolving a
    /// fabricated or foreign handle is a programming error, ruled out here
    /// rather than recovered from.
    pub fn resolve(&self, s: InternedSymbol) -> (r: &Vec<u8>)
        requires
            1 <= s.id() <= self@.len(),
        ensures
            r@ == self@[s.id() - 1],
    {
        &self.syms[s.0 - 1]
    }

    /// How many handles have been issued.
    pub fn count(&self) -> (r: usize)
        ensures
            r == self@.len(),
    {
        self.syms.len()
    }
}

/// The UTF-8 bytes of `true` and of `false` differ (their decodings do).
proof fn lemma_true_false_bytes_differ()
    ensures
        "true".spec_bytes() != "false".spec_bytes(),
{
    reveal_strlit("true");
    reveal_strlit("false");
    if "true".spec_bytes() == "false".spec_bytes() {
        encode_utf8_decode_utf8("true"@);
        encode_utf8_decode_utf8("false"@);
        assert(decode_utf8(encode_utf8("true"@)) == "true"@);
        assert("true"@.len() == 4);
        assert("false"@.len() == 5);
    }
}

} // verus!
