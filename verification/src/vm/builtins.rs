//! The native built-in functions. `print` evaluates its arguments and
//! emits them, in order, to the machine's output; `quote` hands its single
//! argument back. Each is proved to follow the call semantics in
//! `spec_call`.

use vstd::prelude::*;

use crate::vm::proc::{spec_eval, spec_eval_seq, Proc};
use crate::vm::val::{
    lemma_vals_size_bounds, lemma_views_of_index, lemma_views_of_len, lemma_views_of_push,
    lemma_views_of_concat, vals_size, views_of, view_of, Val, ValS,
};
use crate::vm::{Vm, VmError, VmErrorS, VmS};

verus! {

/// Evaluate every argument, left to right, threading the machine state.
pub fn eval_args(vm: &mut Vm, proc: &mut Proc, args: &[Val]) -> (r: Result<Vec<Val>, VmError>)
    requires
        old(vm).wf(),
        old(proc)@.module < old(vm)@.modules.len(),
    ensures
        *final(proc) == *old(proc),
        final(vm).wf(),
        final(vm)@.modules == old(vm)@.modules,
        final(vm)@.registry == old(vm)@.registry,
        match r {
            Ok(vs) => spec_eval_seq(old(vm)@, old(proc)@.module, views_of(args@))
                == Ok::<(VmS, Seq<ValS>), VmErrorS>((final(vm)@, views_of(vs@))),
            Err(e) => spec_eval_seq(old(vm)@, old(proc)@.module, views_of(args@))
                == Err::<(VmS, Seq<ValS>), VmErrorS>(e@),
        },
    decreases vals_size(views_of(args@)), 1int,
{
    let ghost m = old(proc)@.module;
    let ghost full = views_of(args@);
    let mut out: Vec<Val> = Vec::new();
    let n = args.len();
    let mut i: usize = 0;
    proof {
        lemma_views_of_len(args@);
        assert(full.skip(0) =~= full);
        assert(views_of(out@) =~= Seq::<ValS>::empty());
        assert(views_of(out@) + full =~= full);
    }
    while i < n
        invariant
            n == args@.len(),
            i <= n,
            full == views_of(args@),
            full.len() == n,
            m == old(proc)@.module,
            *proc == *old(proc),
            vm.wf(),
            proc@.module < vm@.modules.len(),
            vm@.modules == old(vm)@.modules,
            vm@.registry == old(vm)@.registry,
            out@.len() == i,
            spec_eval_seq(old(vm)@, m, full) == (match spec_eval_seq(vm@, m, full.skip(i as int)) {
                Ok(p) => Ok::<(VmS, Seq<ValS>), VmErrorS>((p.0, views_of(out@) + p.1)),
                Err(e) => Err::<(VmS, Seq<ValS>), VmErrorS>(e),
            }),
        decreases n - i,
    {
        let ghost vm_pre = vm@;
        let ghost rem = full.skip(i as int);
        proof {
            lemma_views_of_index(args@, i as int);
            assert(rem[0] == view_of(args@[i as int]));
            lemma_vals_size_bounds(full, i as int);
        }
        let v = match proc.eval(vm, &args[i]) {
            Ok(v) => v,
            Err(e) => {
                proof {
                    assert(spec_eval_seq(vm_pre, m, rem) == Err::<(VmS, Seq<ValS>), VmErrorS>(e@));
                }
                return Err(e);
            }
        };
        let ghost out_pre = out@;
        out.push(v);
        proof {
            lemma_views_of_push(out_pre, v);
            assert(rem.drop_first() =~= full.skip(i as int + 1));
            match spec_eval_seq(vm@, m, full.skip(i as int + 1)) {
                Ok(p) => {
                    assert(views_of(out_pre) + (seq![view_of(v)] + p.1)
                        =~= views_of(out_pre).push(view_of(v)) + p.1);
                }
                Err(_) => {}
            }
        }
        i += 1;
    }
    proof {
        assert(full.skip(n as int) =~= Seq::<ValS>::empty());
        assert(views_of(out@) + Seq::<ValS>::empty() =~= views_of(out@));
    }
    Ok(out)
}

/// `(print a b …)` evaluates each argument, emits every result to the
/// machine's output in order, and returns the empty list.
pub fn print(vm: &mut Vm, proc: &mut Proc, args: &[Val]) -> (r: Result<Val, VmError>)
    requires
        old(vm).wf(),
        old(proc)@.module < old(vm)@.modules.len(),
    ensures
        *final(proc) == *old(proc),
        final(vm).wf(),
        final(vm)@.modules == old(vm)@.modules,
        final(vm)@.registry == old(vm)@.registry,
        match r {
            Ok(v) => spec_eval_seq(old(vm)@, old(proc)@.module, views_of(args@)) matches Ok(p)
                && final(vm)@ == (VmS { output: p.0.output + p.1, ..p.0 })
                && v@ == ValS::List(Seq::<ValS>::empty()),
            Err(e) => spec_eval_seq(old(vm)@, old(proc)@.module, views_of(args@))
                == Err::<(VmS, Seq<ValS>), VmErrorS>(e@),
        },
    decreases vals_size(views_of(args@)), 2int,
{
    let mut vs = match eval_args(vm, proc, args) {
        Ok(vs) => vs,
        Err(e) => {
            return Err(e);
        }
    };
    let ghost vs_pre = vs@;
    let ghost out_pre = vm.output@;
    vm.output.append(&mut vs);
    proof {
        lemma_views_of_concat(out_pre, vs_pre);
    }
    let r = Val::List(Vec::new());
    proof {
        assert(r@ == ValS::List(views_of(Seq::<Val>::empty())));
        assert(views_of(Seq::<Val>::empty()) =~= Seq::<ValS>::empty());
    }
    Ok(r)
}

/// `(quote x)` returns its operand; any other argument count is rejected.
pub fn quote(vm: &mut Vm, proc: &mut Proc, args: &[Val]) -> (r: Result<Val, VmError>)
    ensures
        *final(vm) == *old(vm),
        *final(proc) == *old(proc),
        match r {
            Ok(v) => args@.len() == 1 && v@ == views_of(args@)[0],
            Err(e) => args@.len() != 1 && e == VmError::BuiltinArity,
        },
{
    if args.len() == 1 {
        proof {
            lemma_views_of_index(args@, 0);
        }
        Ok(args[0].clone())
    } else {
        Err(VmError::BuiltinArity)
    }
}

} // verus!
