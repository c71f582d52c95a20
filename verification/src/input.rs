//! A fuzzing input: an ordered program of calls, with the edits the
//! program-level mutators need — splice, insert, and removal with
//! reference rewiring.

use vstd::prelude::*;

use crate::call::{lemma_view_calls_props, lemma_view_seq_props, Arg, ArgV, Call, CallV};
use crate::metadata::{metadata_wf, spec_find_number, SyscallMetadata, SyscallV};
use crate::wf::{call_wf, lemma_replace_ref_args_props, program_wf, replace_ref_arg,
    replace_ref_args, replace_ref_call, spec_default};

verus! {

/// The tail of a program with every reference to the identifier replaced.
pub open spec fn rewrite_tail(s: Seq<CallV>, id: u64, d: ArgV) -> Seq<CallV> {
    Seq::new(s.len(), |i: int| replace_ref_call(s[i], id, d))
}

/// What removing the call at `idx` leaves: the call disappears; if it
/// produced a resource, every later reference to that resource becomes the
/// default argument of the resource's type.
pub open spec fn removed_program(p: Seq<CallV>, idx: int, meta: Seq<SyscallV>) -> Seq<CallV> {
    match p[idx].result {
        None => p.remove(idx),
        Some(rid) => {
            let d = match spec_find_number(meta, p[idx].nr) {
                Some(s) => match s.ret {
                    Some(t) => spec_default(t),
                    None => ArgV::ResultLiteral(0),
                },
                None => ArgV::ResultLiteral(0),
            };
            p.take(idx) + rewrite_tail(p.skip(idx + 1), rid, d)
        },
    }
}

/// Removing a call from a program in which no call produces a resource
/// only deletes that call: every remaining call, and every reference
/// inside it, is untouched.
pub proof fn lemma_remove_without_resources(p: Seq<CallV>, idx: int, meta: Seq<SyscallV>)
    requires
        0 <= idx < p.len(),
        forall|i: int| 0 <= i < p.len() ==> (#[trigger] p[i]).result is None,
    ensures
        removed_program(p, idx, meta) == p.remove(idx),
{
}

/// The argument with every reference to the identifier replaced by a copy
/// of the default.
fn replace_ref_in_arg(a: &Arg, id: u64, d: &Arg) -> (r: Arg)
    ensures
        r@ == replace_ref_arg(a@, id, d@),
    decreases a,
{
    match a {
        Arg::Result(crate::call::ResultArg::Ref(rid)) => {
            if *rid == id {
                d.deep_clone()
            } else {
                a.deep_clone()
            }
        },
        Arg::Pointer(crate::call::PointerArg::Data(b)) => {
            let inner = replace_ref_in_arg(&**b, id, d);
            Arg::Pointer(crate::call::PointerArg::Data(Box::new(inner)))
        },
        Arg::Group(g) => Arg::Group(crate::call::GroupArg(replace_ref_in_vec(&g.0, id, d))),
        other => other.deep_clone(),
    }
}

/// The replacement applied to each argument of a vector.
fn replace_ref_in_vec(v: &Vec<Arg>, id: u64, d: &Arg) -> (r: Vec<Arg>)
    ensures
        Arg::view_seq(r@) == replace_ref_args(Arg::view_seq(v@), id, d@),
    decreases v@,
{
    let mut out: Vec<Arg> = Vec::new();
    let mut i: usize = 0;
    while i < v.len()
        invariant
            i <= v@.len(),
            out@.len() == i,
            forall|k: int| 0 <= k < i ==> out@[k]@ == replace_ref_arg(#[trigger] v@[k]@, id, d@),
        decreases v@.len() - i,
    {
        let e = replace_ref_in_arg(&v[i], id, d);
        out.push(e);
        i = i + 1;
    }
    proof {
        lemma_view_seq_props(out@);
        lemma_view_seq_props(v@);
        lemma_replace_ref_args_props(Arg::view_seq(v@), id, d@);
        assert(Arg::view_seq(out@) =~= replace_ref_args(Arg::view_seq(v@), id, d@));
    }
    out
}

/// The call with every reference to the identifier replaced by a copy of
/// the default.
fn call_replace_refs(c: &Call, id: u64, d: &Arg) -> (r: Call)
    ensures
        r@ == replace_ref_call(c@, id, d@),
{
    let args = c.args();
    let mut out: Vec<Arg> = Vec::new();
    let mut i: usize = 0;
    proof {
        lemma_view_seq_props(args@);
    }
    while i < args.len()
        invariant
            i <= args@.len(),
            Arg::view_seq(args@) == c@.args,
            args@.len() == c@.args.len(),
            forall|k: int| 0 <= k < args@.len() ==> args@[k]@ == c@.args[k],
            out@.len() == i,
            forall|k: int| 0 <= k < i ==> out@[k]@ == replace_ref_arg(#[trigger] args@[k]@, id, d@),
        decreases args@.len() - i,
    {
        let e = replace_ref_in_arg(&args[i], id, d);
        out.push(e);
        i = i + 1;
    }
    proof {
        lemma_view_seq_props(out@);
        lemma_replace_ref_args_props(c@.args, id, d@);
        assert(Arg::view_seq(out@) =~= replace_ref_args(c@.args, id, d@));
    }
    Call::new(c.number(), out, c.result())
}

/// One fuzz test case: an ordered sequence of calls.
#[derive(Debug)]
pub struct SyscallInput {
    calls: Vec<Call>,
}

impl View for SyscallInput {
    type V = Seq<CallV>;

    closed spec fn view(&self) -> Seq<CallV> {
        Call::view_calls(self.calls@)
    }
}

impl SyscallInput {
    /// Executable programs always fit the encoding's length words.
    pub proof fn lemma_sizes_ok(self)
        ensures
            crate::call::program_sizes_ok(self@),
    {
        broadcast use vstd::std_specs::vec::axiom_spec_len;

        lemma_view_calls_props(self.calls@);
        assert(vstd::std_specs::vec::spec_vec_len(&self.calls) == self.calls@.len());
        assert(self.calls@.len() <= usize::MAX);
        assert forall|i: int| 0 <= i < self@.len() implies crate::call::call_sizes_ok(
            #[trigger] self@[i],
        ) by {
            crate::call::lemma_call_sizes_ok(self.calls@[i]);
        }
    }

    pub fn new(calls: Vec<Call>) -> (r: Self)
        ensures
            r@ == Call::view_calls(calls@),
    {
        SyscallInput { calls }
    }

    /// The calls of the program, in order.
    pub fn calls(&self) -> (r: &Vec<Call>)
        ensures
            Call::view_calls(r@) == self@,
            r@.len() == self@.len(),
            forall|i: int| 0 <= i < r@.len() ==> r@[i]@ == self@[i],
    {
        proof {
            lemma_view_calls_props(self.calls@);
        }
        &self.calls
    }

    /// How many calls the program holds.
    pub fn len(&self) -> (r: usize)
        ensures
            r == self@.len(),
    {
        proof {
            lemma_view_calls_props(self.calls@);
        }
        self.calls.len()
    }

    /// The call at the given position.
    pub fn get(&self, idx: usize) -> (r: &Call)
        requires
            idx < self@.len(),
        ensures
            r@ == self@[idx as int],
    {
        proof {
            lemma_view_calls_props(self.calls@);
        }
        &self.calls[idx]
    }

    /// Takes the calls out of the input.
    pub fn take(self) -> (r: Vec<Call>)
        ensures
            Call::view_calls(r@) == self@,
    {
        self.calls
    }

    /// Replaces one argument of one call.
    pub fn set_call_arg(&mut self, idx: usize, arg_idx: usize, arg: Arg)
        requires
            idx < old(self)@.len(),
            arg_idx < old(self)@[idx as int].args.len(),
        ensures
            final(self)@ == old(self)@.update(
                idx as int,
                CallV {
                    nr: old(self)@[idx as int].nr,
                    args: old(self)@[idx as int].args.update(arg_idx as int, arg@),
                    result: old(self)@[idx as int].result,
                },
            ),
    {
        proof {
            lemma_view_calls_props(self.calls@);
        }
        let ghost prev = self.calls@;
        let mut c = self.calls.remove(idx);
        c.set_arg(arg_idx, arg);
        self.calls.insert(idx, c);
        proof {
            assert(self.calls@ =~= prev.update(idx as int, self.calls@[idx as int]));
            lemma_view_calls_props(self.calls@);
            assert(Call::view_calls(self.calls@) =~= Call::view_calls(prev).update(
                idx as int,
                self.calls@[idx as int]@,
            ));
        }
    }

    /// Cuts the program to at most the given length.
    pub fn truncate(&mut self, n: usize)
        ensures
            final(self)@ == if n <= old(self)@.len() {
                old(self)@.take(n as int)
            } else {
                old(self)@
            },
    {
        proof {
            lemma_view_calls_props(self.calls@);
        }
        let ghost prev = self.calls@;
        self.calls.truncate(n);
        proof {
            lemma_view_calls_props(self.calls@);
            if n <= prev.len() {
                assert(self.calls@ =~= prev.take(n as int));
                assert(Call::view_calls(self.calls@) =~= Call::view_calls(prev).take(n as int));
            }
        }
    }

    /// Cuts the program at the position and appends the given calls after
    /// it; everything that stood beyond the position is dropped.
    pub fn splice(&mut self, idx: usize, calls: Vec<Call>)
        ensures
            final(self)@ == old(self)@.take(
                if idx <= old(self)@.len() {
                    idx as int
                } else {
                    old(self)@.len() as int
                },
            ) + Call::view_calls(calls@),
    {
        proof {
            lemma_view_calls_props(self.calls@);
        }
        let ghost prev = self.calls@;
        self.calls.truncate(idx);
        let mut rest = calls;
        let ghost kept = self.calls@;
        let ghost rest0 = rest@;
        self.calls.append(&mut rest);
        proof {
            assert(self.calls@ == kept + rest0);
            let cut = if idx <= prev.len() {
                idx as int
            } else {
                prev.len() as int
            };
            assert(kept =~= prev.take(cut));
            crate::call::lemma_view_calls_concat(kept, rest0);
            lemma_view_calls_props(prev);
            lemma_view_calls_props(kept);
            assert(Call::view_calls(kept) =~= Call::view_calls(prev).take(cut));
        }
    }

    /// Inserts the given calls at the position, keeping what follows.
    pub fn insert(&mut self, idx: usize, calls: Vec<Call>)
        requires
            idx <= old(self)@.len(),
        ensures
            final(self)@ == old(self)@.take(idx as int) + Call::view_calls(calls@) + old(
                self,
            )@.skip(idx as int),
    {
        proof {
            lemma_view_calls_props(self.calls@);
        }
        let ghost prev = self.calls@;
        let tail = self.calls.split_off(idx);
        let mut mid = calls;
        let ghost mid0 = mid@;
        let ghost tail0 = tail@;
        self.calls.append(&mut mid);
        let mut tail = tail;
        self.calls.append(&mut tail);
        proof {
            assert(tail0 =~= prev.skip(idx as int));
            assert(self.calls@ =~= prev.take(idx as int) + mid0 + prev.skip(idx as int));
            crate::call::lemma_view_calls_concat(prev.take(idx as int), mid0);
            crate::call::lemma_view_calls_concat(prev.take(idx as int) + mid0, prev.skip(idx as int));
            lemma_view_calls_props(prev);
            lemma_view_calls_props(prev.take(idx as int));
            lemma_view_calls_props(prev.skip(idx as int));
            assert(Call::view_calls(prev.take(idx as int)) =~= Call::view_calls(prev).take(
                idx as int,
            ));
            assert(Call::view_calls(prev.skip(idx as int)) =~= Call::view_calls(prev).skip(
                idx as int,
            ));
            assert((prev.take(idx as int) + mid0) + prev.skip(idx as int) =~= self.calls@);
            assert(Call::view_calls(self.calls@) =~= Call::view_calls(prev).take(idx as int)
                + Call::view_calls(mid0) + Call::view_calls(prev).skip(idx as int));
        }
    }

    /// Removes the call at the position. If it produced a resource, every
    /// later reference to that resource is replaced, at any depth, by the
    /// default argument of the resource's type.
    pub fn remove(&mut self, idx: usize, metadata: &SyscallMetadata)
        requires
            idx < old(self)@.len(),
            program_wf(old(self)@, metadata@),
            metadata_wf(metadata@),
        ensures
            final(self)@ == removed_program(old(self)@, idx as int, metadata@),
            final(self)@.len() == old(self)@.len() - 1,
    {
        proof {
            lemma_view_calls_props(self.calls@);
            assert(call_wf(old(self)@[idx as int], metadata@));
        }
        let ghost prev = self.calls@;
        let ghost pv = self@;
        let call = self.calls.remove(idx);
        proof {
            lemma_view_calls_props(self.calls@);
            assert(self.calls@ =~= prev.remove(idx as int));
            assert(Call::view_calls(self.calls@) =~= pv.remove(idx as int));
        }
        match call.result() {
            None => {
                proof {
                    assert(self@ =~= removed_program(pv, idx as int, metadata@));
                }
            },
            Some(rid) => {
                let default_arg: Arg = match metadata.find_number(call.number()) {
                    Some(sc) => {
                        proof {
                            crate::metadata::lemma_find_number_props(metadata@, call@.nr);
                            let s = spec_find_number(metadata@, call@.nr)->Some_0;
                            let k = choose|k: int|
                                0 <= k < metadata@.len() && #[trigger] metadata@[k] == s;
                            assert(crate::metadata::syscall_wf(metadata@[k]));
                        }
                        match sc.return_type() {
                            Some(t) => t.default_arg(),
                            None => {
                                proof {
                                    assert(false);
                                }
                                Arg::Result(crate::call::ResultArg::Literal(0))
                            },
                        }
                    },
                    None => {
                        proof {
                            assert(false);
                        }
                        Arg::Result(crate::call::ResultArg::Literal(0))
                    },
                };
                let ghost dv = default_arg@;
                // Rewire the calls after the removed one
                let mut i: usize = idx;
                while i < self.calls.len()
                    invariant
                        idx <= i <= self.calls@.len(),
                        dv == default_arg@,
                        self.calls@.len() == prev.len() - 1,
                        forall|k: int|
                            0 <= k < idx ==> #[trigger] self.calls@[k]@ == pv[k],
                        forall|k: int|
                            idx <= k < i ==> #[trigger] self.calls@[k]@ == replace_ref_call(
                                pv[k + 1],
                                rid,
                                dv,
                            ),
                        forall|k: int|
                            i <= k < self.calls@.len() ==> #[trigger] self.calls@[k]@ == pv[k + 1],
                    decreases self.calls@.len() - i,
                {
                    let ghost mid = self.calls@;
                    let c = self.calls.remove(i);
                    let replaced = call_replace_refs(&c, rid, &default_arg);
                    self.calls.insert(i, replaced);
                    proof {
                        assert(self.calls@ =~= mid.update(i as int, self.calls@[i as int]));
                        assert(c@ == mid[i as int]@);
                        assert(c@ == pv[i + 1]);
                        assert(self.calls@[i as int] == replaced);
                        assert(replaced@ == replace_ref_call(c@, rid, dv));
                        assert(self.calls@[i as int]@ == replace_ref_call(pv[i + 1], rid, dv));
                        assert(forall|k: int|
                            0 <= k < self.calls@.len() && k != i ==> self.calls@[k] == #[trigger] mid[k]);
                    }
                    i = i + 1;
                }
                proof {
                    lemma_view_calls_props(self.calls@);
                    assert(self@ =~= pv.take(idx as int) + rewrite_tail(
                        pv.skip(idx + 1),
                        rid,
                        dv,
                    ));
                    assert(self@ =~= removed_program(pv, idx as int, metadata@));
                }
            },
        }
    }
}

} // verus!
