//! The execution wire form consumed by the in-VM harness: little-endian,
//! fixed-width numbers; a one-word discriminant before pointers and
//! resource arguments; length-prefixed input buffers; a leading 32-bit
//! call count.

use vstd::prelude::*;

use vstd::bytes::{spec_u32_to_le_bytes, spec_u64_to_le_bytes, u32_to_le_bytes, u64_to_le_bytes};

use crate::call::{lemma_view_calls_props, lemma_view_seq_props, Arg, ArgV, Call, CallV};
use crate::input::SyscallInput;
use crate::types::clone_bytes;

verus! {

/// The wire bytes of one argument.
pub open spec fn wire_arg(a: ArgV) -> Seq<u8>
    decreases a,
{
    match a {
        ArgV::Const(v) => spec_u64_to_le_bytes(v),
        ArgV::Addr(x) => spec_u32_to_le_bytes(0) + spec_u64_to_le_bytes(x),
        ArgV::PointerData(b) => spec_u32_to_le_bytes(1) + wire_arg(*b),
        ArgV::DataIn(d) => spec_u64_to_le_bytes(d.len() as u64) + d,
        ArgV::DataOut(n) => spec_u64_to_le_bytes(n),
        ArgV::Group(args) => wire_args(args),
        ArgV::ResultRef(id) => spec_u32_to_le_bytes(0) + spec_u64_to_le_bytes(id),
        ArgV::ResultLiteral(v) => spec_u32_to_le_bytes(1) + spec_u64_to_le_bytes(v),
    }
}

/// The wire bytes of a sequence of arguments, concatenated in order.
pub open spec fn wire_args(s: Seq<ArgV>) -> Seq<u8>
    decreases s,
{
    if s.len() == 0 {
        Seq::empty()
    } else {
        wire_args(s.drop_last()) + wire_arg(s.last())
    }
}

/// The wire bytes of one call: its number, its arguments, and its result
/// identifier if it has one.
pub open spec fn wire_call(c: CallV) -> Seq<u8> {
    spec_u32_to_le_bytes(c.nr) + wire_args(c.args) + match c.result {
        Some(id) => spec_u64_to_le_bytes(id),
        None => Seq::empty(),
    }
}

/// The wire bytes of a sequence of calls, concatenated in order.
pub open spec fn wire_calls(p: Seq<CallV>) -> Seq<u8>
    decreases p,
{
    if p.len() == 0 {
        Seq::empty()
    } else {
        wire_calls(p.drop_last()) + wire_call(p.last())
    }
}

/// The wire bytes of a whole program: the call count as a 32-bit word,
/// then each call.
pub open spec fn wire_program(p: Seq<CallV>) -> Seq<u8> {
    spec_u32_to_le_bytes(p.len() as u32) + wire_calls(p)
}

/// Serialization to the byte form executed on the target.
pub trait ToExecBytes {
    /// The wire-form bytes of this value.
    fn to_exec_bytes(&self) -> Vec<u8>;
}

/// The wire bytes of one argument.
pub fn wire_arg_bytes(a: &Arg) -> (r: Vec<u8>)
    ensures
        r@ == wire_arg(a@),
    decreases a,
{
    match a {
        Arg::Const(c) => u64_to_le_bytes(c.0),
        Arg::Pointer(crate::call::PointerArg::Addr(x)) => {
            let mut r = u32_to_le_bytes(0);
            let mut tail = u64_to_le_bytes(*x);
            r.append(&mut tail);
            r
        },
        Arg::Pointer(crate::call::PointerArg::Data(b)) => {
            let mut r = u32_to_le_bytes(1);
            let mut tail = wire_arg_bytes(&**b);
            r.append(&mut tail);
            r
        },
        Arg::Data(crate::call::DataArg::In(d)) => {
            let mut r = u64_to_le_bytes(d.len() as u64);
            let mut tail = clone_bytes(d);
            r.append(&mut tail);
            r
        },
        Arg::Data(crate::call::DataArg::Out(n)) => u64_to_le_bytes(*n),
        Arg::Group(g) => wire_args_bytes(&g.0),
        Arg::Result(crate::call::ResultArg::Ref(id)) => {
            let mut r = u32_to_le_bytes(0);
            let mut tail = u64_to_le_bytes(*id);
            r.append(&mut tail);
            r
        },
        Arg::Result(crate::call::ResultArg::Literal(v)) => {
            let mut r = u32_to_le_bytes(1);
            let mut tail = u64_to_le_bytes(*v);
            r.append(&mut tail);
            r
        },
    }
}

/// The wire bytes of a vector of arguments.
pub fn wire_args_bytes(v: &Vec<Arg>) -> (r: Vec<u8>)
    ensures
        r@ == wire_args(Arg::view_seq(v@)),
    decreases v@,
{
    let mut r: Vec<u8> = Vec::new();
    let mut i: usize = 0;
    proof {
        lemma_view_seq_props(v@);
        assert(Arg::view_seq(v@).subrange(0, 0) =~= Seq::<ArgV>::empty());
        assert(r@ =~= wire_args(Arg::view_seq(v@).subrange(0, 0)));
    }
    while i < v.len()
        invariant
            i <= v@.len(),
            Arg::view_seq(v@).len() == v@.len(),
            forall|k: int| 0 <= k < v@.len() ==> Arg::view_seq(v@)[k] == v@[k]@,
            r@ == wire_args(Arg::view_seq(v@).subrange(0, i as int)),
        decreases v@.len() - i,
    {
        let mut piece = wire_arg_bytes(&v[i]);
        r.append(&mut piece);
        proof {
            let s = Arg::view_seq(v@);
            assert(s.subrange(0, i + 1 as int).drop_last() =~= s.subrange(0, i as int));
            assert(s.subrange(0, i + 1 as int).last() == s[i as int]);
        }
        i = i + 1;
    }
    proof {
        assert(Arg::view_seq(v@).subrange(0, v@.len() as int) =~= Arg::view_seq(v@));
    }
    r
}

impl ToExecBytes for Arg {
    fn to_exec_bytes(&self) -> Vec<u8> {
        wire_arg_bytes(self)
    }
}

/// The wire bytes of one call.
pub fn wire_call_bytes(c: &Call) -> (r: Vec<u8>)
    ensures
        r@ == wire_call(c@),
{
    let mut r = u32_to_le_bytes(c.number());
    let mut args = wire_args_bytes(c.args());
    r.append(&mut args);
    match c.result() {
        Some(id) => {
            let mut tail = u64_to_le_bytes(id);
            r.append(&mut tail);
        },
        None => {
            proof {
                assert(r@ =~= r@ + Seq::<u8>::empty());
            }
        },
    }
    r
}

impl ToExecBytes for Call {
    fn to_exec_bytes(&self) -> Vec<u8> {
        wire_call_bytes(self)
    }
}

impl SyscallInput {
    /// The wire bytes of the whole program, handed to the harness.
    pub fn target_bytes(&self) -> (r: Vec<u8>)
        requires
            self@.len() <= u32::MAX,
        ensures
            r@ == wire_program(self@),
    {
        let calls = self.calls();
        let n: u32 = calls.len() as u32;
        let mut r = u32_to_le_bytes(n);
        let mut i: usize = 0;
        proof {
            lemma_view_calls_props(calls@);
            assert(self@.subrange(0, 0) =~= Seq::<CallV>::empty());
            assert(r@ =~= spec_u32_to_le_bytes(n) + wire_calls(self@.subrange(0, 0)));
        }
        while i < calls.len()
            invariant
                i <= calls@.len(),
                calls@.len() == self@.len(),
                self@.len() <= u32::MAX,
                n == self@.len() as u32,
                forall|k: int| 0 <= k < calls@.len() ==> calls@[k]@ == self@[k],
                r@ == spec_u32_to_le_bytes(n) + wire_calls(self@.subrange(0, i as int)),
            decreases calls@.len() - i,
        {
            let mut piece = wire_call_bytes(&calls[i]);
            r.append(&mut piece);
            proof {
                assert(self@.subrange(0, i + 1 as int).drop_last() =~= self@.subrange(0, i as int));
                assert(self@.subrange(0, i + 1 as int).last() == self@[i as int]);
            }
            i = i + 1;
        }
        proof {
            assert(self@.subrange(0, self@.len() as int) =~= self@);
        }
        r
    }
}

impl ToExecBytes for SyscallInput {
    fn to_exec_bytes(&self) -> Vec<u8> {
        if self.len() > u32::MAX as usize {
            // Programs are bounded far below this; an oversized one
            // serializes as empty rather than mis-counting.
            return Vec::new();
        }
        self.target_bytes()
    }
}

} // verus!
