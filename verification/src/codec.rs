//! The canonical on-disk form of a program: a self-describing, deterministic
//! little-endian encoding that round-trips — decoding an encoded program
//! yields the program unchanged.

use vstd::prelude::*;

use vstd::bytes::{lemma_auto_spec_u32_to_from_le_bytes, lemma_auto_spec_u64_to_from_le_bytes,
    spec_u32_from_le_bytes, spec_u32_to_le_bytes, spec_u64_from_le_bytes, spec_u64_to_le_bytes,
    u32_to_le_bytes, u64_to_le_bytes};

use crate::call::{arg_sizes_ok, lemma_view_calls_props, lemma_view_seq_props, program_sizes_ok,
    Arg, ArgV, Call, CallV, ConstArg, DataArg, GroupArg, PointerArg, ResultArg};
use crate::input::SyscallInput;

verus! {

/// Tags of the canonical argument encoding.
pub const TAG_CONST: u8 = 0;

pub const TAG_ADDR: u8 = 1;

pub const TAG_POINTER_DATA: u8 = 2;

pub const TAG_DATA_IN: u8 = 3;

pub const TAG_DATA_OUT: u8 = 4;

pub const TAG_GROUP: u8 = 5;

pub const TAG_RESULT_REF: u8 = 6;

pub const TAG_RESULT_LITERAL: u8 = 7;

/// The canonical bytes of one argument: a tag, then the payload.
pub open spec fn enc_arg(a: ArgV) -> Seq<u8>
    decreases a,
{
    match a {
        ArgV::Const(v) => seq![TAG_CONST] + spec_u64_to_le_bytes(v),
        ArgV::Addr(x) => seq![TAG_ADDR] + spec_u64_to_le_bytes(x),
        ArgV::PointerData(b) => seq![TAG_POINTER_DATA] + enc_arg(*b),
        ArgV::DataIn(d) => seq![TAG_DATA_IN] + spec_u64_to_le_bytes(d.len() as u64) + d,
        ArgV::DataOut(n) => seq![TAG_DATA_OUT] + spec_u64_to_le_bytes(n),
        ArgV::Group(args) => seq![TAG_GROUP] + spec_u64_to_le_bytes(args.len() as u64) + enc_args(
            args,
        ),
        ArgV::ResultRef(id) => seq![TAG_RESULT_REF] + spec_u64_to_le_bytes(id),
        ArgV::ResultLiteral(v) => seq![TAG_RESULT_LITERAL] + spec_u64_to_le_bytes(v),
    }
}

/// The canonical bytes of a sequence of arguments, front to back.
pub open spec fn enc_args(s: Seq<ArgV>) -> Seq<u8>
    decreases s,
{
    if s.len() == 0 {
        Seq::empty()
    } else {
        enc_arg(s.first()) + enc_args(s.drop_first())
    }
}

/// The canonical bytes of one call: number, argument count, arguments,
/// and the optional result identifier behind a presence byte.
pub open spec fn enc_call(c: CallV) -> Seq<u8> {
    spec_u32_to_le_bytes(c.nr) + spec_u64_to_le_bytes(c.args.len() as u64) + enc_args(c.args)
        + match c.result {
        Some(id) => seq![1u8] + spec_u64_to_le_bytes(id),
        None => seq![0u8],
    }
}

/// The canonical bytes of a sequence of calls, front to back.
pub open spec fn enc_calls(p: Seq<CallV>) -> Seq<u8>
    decreases p,
{
    if p.len() == 0 {
        Seq::empty()
    } else {
        enc_call(p.first()) + enc_calls(p.drop_first())
    }
}

/// The canonical bytes of a whole program: the call count, then the calls.
pub open spec fn spec_encode(p: Seq<CallV>) -> Seq<u8> {
    spec_u64_to_le_bytes(p.len() as u64) + enc_calls(p)
}

/// Reads a 64-bit little-endian word.
pub open spec fn dec_u64(s: Seq<u8>) -> Option<(u64, Seq<u8>)> {
    if s.len() >= 8 {
        Some((spec_u64_from_le_bytes(s.take(8)), s.skip(8)))
    } else {
        None
    }
}

/// Reads a 32-bit little-endian word.
pub open spec fn dec_u32(s: Seq<u8>) -> Option<(u32, Seq<u8>)> {
    if s.len() >= 4 {
        Some((spec_u32_from_le_bytes(s.take(4)), s.skip(4)))
    } else {
        None
    }
}

/// Reads one argument.
pub open spec fn dec_arg(s: Seq<u8>) -> Option<(ArgV, Seq<u8>)>
    decreases s.len(), 0int,
{
    if s.len() < 1 {
        None
    } else {
        let tag = s.first();
        let t = s.drop_first();
        if tag == TAG_CONST {
            match dec_u64(t) {
                Some((v, r)) => Some((ArgV::Const(v), r)),
                None => None,
            }
        } else if tag == TAG_ADDR {
            match dec_u64(t) {
                Some((v, r)) => Some((ArgV::Addr(v), r)),
                None => None,
            }
        } else if tag == TAG_POINTER_DATA {
            match dec_arg(t) {
                Some((b, r)) => Some((ArgV::PointerData(Box::new(b)), r)),
                None => None,
            }
        } else if tag == TAG_DATA_IN {
            match dec_u64(t) {
                Some((n, r)) => if r.len() >= n {
                    Some((ArgV::DataIn(r.take(n as int)), r.skip(n as int)))
                } else {
                    None
                },
                None => None,
            }
        } else if tag == TAG_DATA_OUT {
            match dec_u64(t) {
                Some((v, r)) => Some((ArgV::DataOut(v), r)),
                None => None,
            }
        } else if tag == TAG_GROUP {
            match dec_u64(t) {
                Some((n, r)) => if r.len() < t.len() {
                    match dec_args(n as nat, r, t.len()) {
                        Some((args, r2)) => Some((ArgV::Group(args), r2)),
                        None => None,
                    }
                } else {
                    None
                },
                None => None,
            }
        } else if tag == TAG_RESULT_REF {
            match dec_u64(t) {
                Some((v, r)) => Some((ArgV::ResultRef(v), r)),
                None => None,
            }
        } else if tag == TAG_RESULT_LITERAL {
            match dec_u64(t) {
                Some((v, r)) => Some((ArgV::ResultLiteral(v), r)),
                None => None,
            }
        } else {
            None
        }
    }
}

/// Reads `n` arguments. `bound` is a strict upper bound on the bytes left,
/// carried only for termination.
pub open spec fn dec_args(n: nat, s: Seq<u8>, bound: nat) -> Option<(Seq<ArgV>, Seq<u8>)>
    decreases bound, n,
{
    if s.len() >= bound {
        None
    } else if n == 0 {
        Some((Seq::empty(), s))
    } else {
        match dec_arg(s) {
            Some((a, r)) => if r.len() < s.len() {
                match dec_args((n - 1) as nat, r, s.len()) {
                    Some((rest, r2)) => Some((seq![a] + rest, r2)),
                    None => None,
                }
            } else {
                None
            },
            None => None,
        }
    }
}

/// Reads one call.
pub open spec fn dec_call(s: Seq<u8>) -> Option<(CallV, Seq<u8>)> {
    match dec_u32(s) {
        Some((nr, r)) => match dec_u64(r) {
            Some((n, r2)) => match dec_args(n as nat, r2, r2.len() + 1) {
                Some((args, r3)) => if r3.len() >= 1 {
                    let flag = r3.first();
                    let r4 = r3.drop_first();
                    if flag == 0 {
                        Some((CallV { nr, args, result: None }, r4))
                    } else if flag == 1 {
                        match dec_u64(r4) {
                            Some((id, r5)) => Some((CallV { nr, args, result: Some(id) }, r5)),
                            None => None,
                        }
                    } else {
                        None
                    }
                } else {
                    None
                },
                None => None,
            },
            None => None,
        },
        None => None,
    }
}

/// Reads `n` calls. `bound` is a strict upper bound on the bytes left,
/// carried only for termination.
pub open spec fn dec_calls(n: nat, s: Seq<u8>, bound: nat) -> Option<(Seq<CallV>, Seq<u8>)>
    decreases bound, n,
{
    if s.len() >= bound {
        None
    } else if n == 0 {
        Some((Seq::empty(), s))
    } else {
        match dec_call(s) {
            Some((c, r)) => if r.len() < s.len() {
                match dec_calls((n - 1) as nat, r, s.len()) {
                    Some((rest, r2)) => Some((seq![c] + rest, r2)),
                    None => None,
                }
            } else {
                None
            },
            None => None,
        }
    }
}

/// Decodes a whole program; every byte must be consumed.
pub open spec fn spec_decode(s: Seq<u8>) -> Option<Seq<CallV>> {
    match dec_u64(s) {
        Some((n, r)) => match dec_calls(n as nat, r, r.len() + 1) {
            Some((p, r2)) => if r2.len() == 0 {
                Some(p)
            } else {
                None
            },
            None => None,
        },
        None => None,
    }
}

/// Reading a written 64-bit word gives the word back and leaves the rest.
proof fn lemma_dec_u64_enc(v: u64, rest: Seq<u8>)
    ensures
        dec_u64(spec_u64_to_le_bytes(v) + rest) == Some((v, rest)),
{
    lemma_auto_spec_u64_to_from_le_bytes();
    let s = spec_u64_to_le_bytes(v) + rest;
    assert(s.take(8) =~= spec_u64_to_le_bytes(v));
    assert(s.skip(8) =~= rest);
}

/// Reading a written 32-bit word gives the word back and leaves the rest.
proof fn lemma_dec_u32_enc(v: u32, rest: Seq<u8>)
    ensures
        dec_u32(spec_u32_to_le_bytes(v) + rest) == Some((v, rest)),
{
    lemma_auto_spec_u32_to_from_le_bytes();
    let s = spec_u32_to_le_bytes(v) + rest;
    assert(s.take(4) =~= spec_u32_to_le_bytes(v));
    assert(s.skip(4) =~= rest);
}

/// Every argument encoding starts with its tag, so it is never empty.
proof fn lemma_enc_arg_len(a: ArgV)
    ensures
        enc_arg(a).len() >= 1,
{
    lemma_auto_spec_u64_to_from_le_bytes();
}

/// Reading a written argument gives the argument back and leaves the rest.
proof fn lemma_dec_enc_arg(a: ArgV, rest: Seq<u8>)
    requires
        arg_sizes_ok(a),
    ensures
        dec_arg(enc_arg(a) + rest) == Some((a, rest)),
    decreases a,
{
    lemma_auto_spec_u64_to_from_le_bytes();
    let s = enc_arg(a) + rest;
    match a {
        ArgV::Const(v) => {
            assert(s.first() == TAG_CONST);
            assert(s.drop_first() =~= spec_u64_to_le_bytes(v) + rest);
            lemma_dec_u64_enc(v, rest);
        },
        ArgV::Addr(v) => {
            assert(s.first() == TAG_ADDR);
            assert(s.drop_first() =~= spec_u64_to_le_bytes(v) + rest);
            lemma_dec_u64_enc(v, rest);
        },
        ArgV::PointerData(b) => {
            assert(s.first() == TAG_POINTER_DATA);
            assert(s.drop_first() =~= enc_arg(*b) + rest);
            lemma_dec_enc_arg(*b, rest);
        },
        ArgV::DataIn(d) => {
            assert(s.first() == TAG_DATA_IN);
            let n = d.len() as u64;
            assert(s.drop_first() =~= spec_u64_to_le_bytes(n) + (d + rest));
            lemma_dec_u64_enc(n, d + rest);
            assert((d + rest).len() >= n);
            assert((d + rest).take(n as int) =~= d);
            assert((d + rest).skip(n as int) =~= rest);
        },
        ArgV::DataOut(v) => {
            assert(s.first() == TAG_DATA_OUT);
            assert(s.drop_first() =~= spec_u64_to_le_bytes(v) + rest);
            lemma_dec_u64_enc(v, rest);
        },
        ArgV::Group(args) => {
            assert(s.first() == TAG_GROUP);
            let n = args.len() as u64;
            let t = s.drop_first();
            assert(t =~= spec_u64_to_le_bytes(n) + (enc_args(args) + rest));
            lemma_dec_u64_enc(n, enc_args(args) + rest);
            let r = enc_args(args) + rest;
            assert(r.len() < t.len());
            lemma_dec_enc_args(args, rest, t.len());
        },
        ArgV::ResultRef(v) => {
            assert(s.first() == TAG_RESULT_REF);
            assert(s.drop_first() =~= spec_u64_to_le_bytes(v) + rest);
            lemma_dec_u64_enc(v, rest);
        },
        ArgV::ResultLiteral(v) => {
            assert(s.first() == TAG_RESULT_LITERAL);
            assert(s.drop_first() =~= spec_u64_to_le_bytes(v) + rest);
            lemma_dec_u64_enc(v, rest);
        },
    }
}

/// Reading written arguments gives them back in order and leaves the rest.
proof fn lemma_dec_enc_args(args: Seq<ArgV>, rest: Seq<u8>, bound: nat)
    requires
        forall|i: int| 0 <= i < args.len() ==> arg_sizes_ok(#[trigger] args[i]),
        enc_args(args).len() + rest.len() < bound,
    ensures
        dec_args(args.len(), enc_args(args) + rest, bound) == Some((args, rest)),
    decreases args,
{
    let s = enc_args(args) + rest;
    if args.len() == 0 {
        assert(s =~= rest);
        assert(dec_args(0, rest, bound) == Some((Seq::<ArgV>::empty(), rest)));
        assert(args =~= Seq::<ArgV>::empty());
    } else {
        let a0 = args.first();
        let tail = args.drop_first();
        assert(forall|i: int| 0 <= i < tail.len() ==> tail[i] == args[i + 1]);
        assert(s =~= enc_arg(a0) + (enc_args(tail) + rest));
        lemma_dec_enc_arg(a0, enc_args(tail) + rest);
        let r = enc_args(tail) + rest;
        lemma_enc_arg_len(a0);
        assert(r.len() < s.len());
        lemma_dec_enc_args(tail, rest, s.len());
        assert(seq![a0] + tail =~= args);
    }
}

/// Reading a written call gives it back and leaves the rest.
proof fn lemma_dec_enc_call(c: CallV, rest: Seq<u8>)
    requires
        c.args.len() <= u64::MAX,
        forall|j: int| 0 <= j < c.args.len() ==> arg_sizes_ok(#[trigger] c.args[j]),
    ensures
        dec_call(enc_call(c) + rest) == Some((c, rest)),
        enc_call(c).len() >= 1,
{
    lemma_auto_spec_u64_to_from_le_bytes();
    lemma_auto_spec_u32_to_from_le_bytes();
    let s = enc_call(c) + rest;
    let resbytes: Seq<u8> = match c.result {
        Some(id) => seq![1u8] + spec_u64_to_le_bytes(id),
        None => seq![0u8],
    };
    let n = c.args.len() as u64;
    assert(s =~= spec_u32_to_le_bytes(c.nr) + (spec_u64_to_le_bytes(n) + (enc_args(c.args) + (
    resbytes + rest))));
    lemma_dec_u32_enc(c.nr, spec_u64_to_le_bytes(n) + (enc_args(c.args) + (resbytes + rest)));
    lemma_dec_u64_enc(n, enc_args(c.args) + (resbytes + rest));
    let r2 = enc_args(c.args) + (resbytes + rest);
    lemma_dec_enc_args(c.args, resbytes + rest, r2.len() + 1);
    let r3 = resbytes + rest;
    assert(r3.len() >= 1);
    match c.result {
        Some(id) => {
            assert(r3.first() == 1u8);
            assert(r3.drop_first() =~= spec_u64_to_le_bytes(id) + rest);
            lemma_dec_u64_enc(id, rest);
        },
        None => {
            assert(r3.first() == 0u8);
            assert(r3.drop_first() =~= rest);
        },
    }
}

/// Reading written calls gives them back in order and leaves the rest.
proof fn lemma_dec_enc_calls(p: Seq<CallV>, rest: Seq<u8>, bound: nat)
    requires
        forall|i: int|
            0 <= i < p.len() ==> (#[trigger] p[i]).args.len() <= u64::MAX && (forall|j: int|
                0 <= j < p[i].args.len() ==> arg_sizes_ok(#[trigger] p[i].args[j])),
        enc_calls(p).len() + rest.len() < bound,
    ensures
        dec_calls(p.len(), enc_calls(p) + rest, bound) == Some((p, rest)),
    decreases p,
{
    let s = enc_calls(p) + rest;
    if p.len() == 0 {
        assert(s =~= rest);
        assert(p =~= Seq::<CallV>::empty());
    } else {
        let c0 = p.first();
        let tail = p.drop_first();
        assert(forall|i: int| 0 <= i < tail.len() ==> tail[i] == p[i + 1]);
        assert(s =~= enc_call(c0) + (enc_calls(tail) + rest));
        lemma_dec_enc_call(c0, enc_calls(tail) + rest);
        let r = enc_calls(tail) + rest;
        assert(r.len() < s.len());
        lemma_dec_enc_calls(tail, rest, s.len());
        assert(seq![c0] + tail =~= p);
    }
}

/// Round trip: decoding the canonical encoding of a program yields the
/// program unchanged.
pub proof fn lemma_canonical_round_trip(p: Seq<CallV>)
    requires
        program_sizes_ok(p),
    ensures
        spec_decode(spec_encode(p)) == Some(p),
{
    lemma_auto_spec_u64_to_from_le_bytes();
    let n = p.len() as u64;
    let s = spec_encode(p);
    assert(s =~= spec_u64_to_le_bytes(n) + enc_calls(p));
    assert(enc_calls(p) =~= enc_calls(p) + Seq::<u8>::empty());
    lemma_dec_u64_enc(n, enc_calls(p));
    lemma_dec_enc_calls(p, Seq::empty(), enc_calls(p).len() + 1);
    assert(enc_calls(p) + Seq::<u8>::empty() =~= enc_calls(p));
}

/// The result of reading a bounded sequence does not depend on the bound.
proof fn lemma_dec_args_bound(n: nat, s: Seq<u8>, b1: nat, b2: nat)
    requires
        s.len() < b1,
        s.len() < b2,
    ensures
        dec_args(n, s, b1) == dec_args(n, s, b2),
    decreases b1 + b2, n,
{
    if n != 0 {
        match dec_arg(s) {
            Some((a, r)) => {
                if r.len() < s.len() {
                    lemma_dec_args_bound((n - 1) as nat, r, s.len(), s.len());
                }
            },
            None => {},
        }
    }
}

/// The result of reading a bounded call sequence does not depend on the
/// bound.
proof fn lemma_dec_calls_bound(n: nat, s: Seq<u8>, b1: nat, b2: nat)
    requires
        s.len() < b1,
        s.len() < b2,
    ensures
        dec_calls(n, s, b1) == dec_calls(n, s, b2),
    decreases b1 + b2, n,
{
    if n != 0 {
        match dec_call(s) {
            Some((c, r)) => {
                if r.len() < s.len() {
                    lemma_dec_calls_bound((n - 1) as nat, r, s.len(), s.len());
                }
            },
            None => {},
        }
    }
}

/// Appends the canonical bytes of one argument.
fn encode_arg_into(out: &mut Vec<u8>, a: &Arg)
    ensures
        final(out)@ == old(out)@ + enc_arg(a@),
    decreases a,
{
    match a {
        Arg::Const(c) => {
            out.push(TAG_CONST);
            let mut w = u64_to_le_bytes(c.0);
            out.append(&mut w);
            proof {
                assert(out@ =~= old(out)@ + enc_arg(a@));
            }
        },
        Arg::Pointer(PointerArg::Addr(x)) => {
            out.push(TAG_ADDR);
            let mut w = u64_to_le_bytes(*x);
            out.append(&mut w);
            proof {
                assert(out@ =~= old(out)@ + enc_arg(a@));
            }
        },
        Arg::Pointer(PointerArg::Data(b)) => {
            out.push(TAG_POINTER_DATA);
            encode_arg_into(out, &**b);
            proof {
                assert(out@ =~= old(out)@ + enc_arg(a@));
            }
        },
        Arg::Data(DataArg::In(d)) => {
            out.push(TAG_DATA_IN);
            let mut w = u64_to_le_bytes(d.len() as u64);
            out.append(&mut w);
            let mut payload = crate::types::clone_bytes(d);
            out.append(&mut payload);
            proof {
                assert(out@ =~= old(out)@ + enc_arg(a@));
            }
        },
        Arg::Data(DataArg::Out(n)) => {
            out.push(TAG_DATA_OUT);
            let mut w = u64_to_le_bytes(*n);
            out.append(&mut w);
            proof {
                assert(out@ =~= old(out)@ + enc_arg(a@));
            }
        },
        Arg::Group(g) => {
            out.push(TAG_GROUP);
            let mut w = u64_to_le_bytes(g.0.len() as u64);
            out.append(&mut w);
            encode_args_into(out, &g.0);
            proof {
                lemma_view_seq_props(g.0@);
                assert(out@ =~= old(out)@ + enc_arg(a@));
            }
        },
        Arg::Result(ResultArg::Ref(id)) => {
            out.push(TAG_RESULT_REF);
            let mut w = u64_to_le_bytes(*id);
            out.append(&mut w);
            proof {
                assert(out@ =~= old(out)@ + enc_arg(a@));
            }
        },
        Arg::Result(ResultArg::Literal(v)) => {
            out.push(TAG_RESULT_LITERAL);
            let mut w = u64_to_le_bytes(*v);
            out.append(&mut w);
            proof {
                assert(out@ =~= old(out)@ + enc_arg(a@));
            }
        },
    }
}

/// Appends the canonical bytes of a vector of arguments.
fn encode_args_into(out: &mut Vec<u8>, v: &Vec<Arg>)
    ensures
        final(out)@ == old(out)@ + enc_args(Arg::view_seq(v@)),
    decreases v@,
{
    let ghost s = Arg::view_seq(v@);
    proof {
        lemma_view_seq_props(v@);
    }
    let mut i: usize = 0;
    proof {
        assert(s.skip(0) =~= s);
    }
    while i < v.len()
        invariant
            i <= v@.len(),
            s == Arg::view_seq(v@),
            s.len() == v@.len(),
            forall|k: int| 0 <= k < v@.len() ==> s[k] == v@[k]@,
            out@ + enc_args(s.skip(i as int)) == old(out)@ + enc_args(s),
        decreases v@.len() - i,
    {
        proof {
            assert(s.skip(i as int).first() == s[i as int]);
            assert(s.skip(i as int).drop_first() =~= s.skip(i + 1));
            assert(enc_args(s.skip(i as int)) == enc_arg(s[i as int]) + enc_args(s.skip(i + 1)));
        }
        let ghost before = out@;
        encode_arg_into(out, &v[i]);
        proof {
            assert(out@ + enc_args(s.skip(i + 1)) =~= before + enc_args(s.skip(i as int)));
            assert(out@ + enc_args(s.skip(i + 1)) =~= old(out)@ + enc_args(s));
        }
        i = i + 1;
    }
    proof {
        assert(s.skip(s.len() as int) =~= Seq::<ArgV>::empty());
        assert(out@ + Seq::<u8>::empty() =~= out@);
        assert(out@ =~= old(out)@ + enc_args(s));
    }
}

/// Appends the canonical bytes of one call.
fn encode_call_into(out: &mut Vec<u8>, c: &Call)
    ensures
        final(out)@ == old(out)@ + enc_call(c@),
{
    let mut w = u32_to_le_bytes(c.number());
    out.append(&mut w);
    let args = c.args();
    proof {
        lemma_view_seq_props(args@);
    }
    let mut n = u64_to_le_bytes(args.len() as u64);
    out.append(&mut n);
    encode_args_into(out, args);
    match c.result() {
        Some(id) => {
            out.push(1u8);
            let mut w2 = u64_to_le_bytes(id);
            out.append(&mut w2);
        },
        None => {
            out.push(0u8);
        },
    }
    proof {
        assert(out@ =~= old(out)@ + enc_call(c@));
    }
}

impl SyscallInput {
    /// The canonical bytes of this program.
    pub fn encode(&self) -> (r: Vec<u8>)
        ensures
            r@ == spec_encode(self@),
    {
        let calls = self.calls();
        let mut out = u64_to_le_bytes(calls.len() as u64);
        let ghost header = out@;
        let ghost p = self@;
        let mut i: usize = 0;
        proof {
            crate::call::lemma_view_calls_props(calls@);
        }
        proof {
            assert(p.skip(0) =~= p);
        }
        while i < calls.len()
            invariant
                i <= calls@.len(),
                p == Call::view_calls(calls@),
                p.len() == calls@.len(),
                forall|k: int| 0 <= k < calls@.len() ==> calls@[k]@ == p[k],
                out@ + enc_calls(p.skip(i as int)) == header + enc_calls(p),
            decreases calls@.len() - i,
        {
            proof {
                assert(p.skip(i as int).first() == p[i as int]);
                assert(p.skip(i as int).drop_first() =~= p.skip(i + 1));
                assert(enc_calls(p.skip(i as int)) == enc_call(p[i as int]) + enc_calls(
                    p.skip(i + 1),
                ));
            }
            let ghost before = out@;
            encode_call_into(&mut out, &calls[i]);
            proof {
                assert(out@ + enc_calls(p.skip(i + 1)) =~= before + enc_calls(p.skip(i as int)));
                assert(out@ + enc_calls(p.skip(i + 1)) =~= header + enc_calls(p));
            }
            i = i + 1;
        }
        proof {
            assert(p.skip(p.len() as int) =~= Seq::<CallV>::empty());
            assert(out@ + Seq::<u8>::empty() =~= out@);
            assert(out@ =~= spec_encode(p));
        }
        out
    }
}

/// Reads a 64-bit word at the cursor.
fn read_u64(bytes: &Vec<u8>, pos: usize) -> (r: Option<(u64, usize)>)
    requires
        pos <= bytes@.len(),
    ensures
        match r {
            Some((v, p2)) => pos <= p2 <= bytes@.len() && dec_u64(bytes@.skip(pos as int)) == Some(
                (v, bytes@.skip(p2 as int)),
            ),
            None => dec_u64(bytes@.skip(pos as int)) is None,
        },
{
    if bytes.len() - pos >= 8 {
        let word = vstd::slice::slice_subrange(bytes.as_slice(), pos, pos + 8);
        let v = vstd::bytes::u64_from_le_bytes(word);
        proof {
            assert(word@ =~= bytes@.skip(pos as int).take(8));
            assert(bytes@.skip(pos as int).skip(8) =~= bytes@.skip(pos + 8));
        }
        Some((v, pos + 8))
    } else {
        None
    }
}

/// Reads a 32-bit word at the cursor.
fn read_u32(bytes: &Vec<u8>, pos: usize) -> (r: Option<(u32, usize)>)
    requires
        pos <= bytes@.len(),
    ensures
        match r {
            Some((v, p2)) => pos <= p2 <= bytes@.len() && dec_u32(bytes@.skip(pos as int)) == Some(
                (v, bytes@.skip(p2 as int)),
            ),
            None => dec_u32(bytes@.skip(pos as int)) is None,
        },
{
    if bytes.len() - pos >= 4 {
        let word = vstd::slice::slice_subrange(bytes.as_slice(), pos, pos + 4);
        let v = vstd::bytes::u32_from_le_bytes(word);
        proof {
            assert(word@ =~= bytes@.skip(pos as int).take(4));
            assert(bytes@.skip(pos as int).skip(4) =~= bytes@.skip(pos + 4));
        }
        Some((v, pos + 4))
    } else {
        None
    }
}

/// Reads one argument at the cursor.
fn decode_arg(bytes: &Vec<u8>, pos: usize) -> (r: Option<(Arg, usize)>)
    requires
        pos <= bytes@.len(),
    ensures
        match r {
            Some((a, p2)) => pos < p2 <= bytes@.len() && dec_arg(bytes@.skip(pos as int)) == Some(
                (a@, bytes@.skip(p2 as int)),
            ),
            None => dec_arg(bytes@.skip(pos as int)) is None,
        },
    decreases bytes@.len() - pos, 0int, 0int,
{
    if pos >= bytes.len() {
        return None;
    }
    let ghost s = bytes@.skip(pos as int);
    let tag = bytes[pos];
    let tpos = pos + 1;
    proof {
        assert(s.first() == tag);
        assert(s.drop_first() =~= bytes@.skip(tpos as int));
    }
    if tag == TAG_CONST {
        match read_u64(bytes, tpos) {
            Some((v, p2)) => Some((Arg::Const(ConstArg(v)), p2)),
            None => None,
        }
    } else if tag == TAG_ADDR {
        match read_u64(bytes, tpos) {
            Some((v, p2)) => Some((Arg::Pointer(PointerArg::Addr(v)), p2)),
            None => None,
        }
    } else if tag == TAG_POINTER_DATA {
        match decode_arg(bytes, tpos) {
            Some((b, p2)) => Some((Arg::Pointer(PointerArg::Data(Box::new(b))), p2)),
            None => None,
        }
    } else if tag == TAG_DATA_IN {
        match read_u64(bytes, tpos) {
            Some((n, p2)) => {
                if (bytes.len() - p2) as u64 >= n {
                    let end = p2 + n as usize;
                    let payload = vstd::slice::slice_to_vec(
                        vstd::slice::slice_subrange(bytes.as_slice(), p2, end),
                    );
                    proof {
                        assert(payload@ =~= bytes@.skip(p2 as int).take(n as int));
                        assert(bytes@.skip(p2 as int).skip(n as int) =~= bytes@.skip(end as int));
                    }
                    Some((Arg::Data(DataArg::In(payload)), end))
                } else {
                    None
                }
            },
            None => None,
        }
    } else if tag == TAG_DATA_OUT {
        match read_u64(bytes, tpos) {
            Some((v, p2)) => Some((Arg::Data(DataArg::Out(v)), p2)),
            None => None,
        }
    } else if tag == TAG_GROUP {
        match read_u64(bytes, tpos) {
            Some((n, p2)) => {
                proof {
                    assert(bytes@.skip(tpos as int).len() >= 8);
                    assert(bytes@.skip(p2 as int).len() < bytes@.skip(tpos as int).len());
                }
                match decode_args(bytes, p2, n) {
                    Some((args, p3)) => {
                        let ghost t = bytes@.skip(tpos as int);
                        let ghost r2 = bytes@.skip(p2 as int);
                        proof {
                            lemma_dec_args_bound(n as nat, r2, r2.len() + 1, t.len());
                            lemma_view_seq_props(args@);
                        }
                        Some((Arg::Group(GroupArg(args)), p3))
                    },
                    None => {
                        let ghost t = bytes@.skip(tpos as int);
                        let ghost r2 = bytes@.skip(p2 as int);
                        proof {
                            lemma_dec_args_bound(n as nat, r2, r2.len() + 1, t.len());
                        }
                        None
                    },
                }
            },
            None => None,
        }
    } else if tag == TAG_RESULT_REF {
        match read_u64(bytes, tpos) {
            Some((v, p2)) => Some((Arg::Result(ResultArg::Ref(v)), p2)),
            None => None,
        }
    } else if tag == TAG_RESULT_LITERAL {
        match read_u64(bytes, tpos) {
            Some((v, p2)) => Some((Arg::Result(ResultArg::Literal(v)), p2)),
            None => None,
        }
    } else {
        None
    }
}

/// Reads `n` arguments at the cursor.
fn decode_args(bytes: &Vec<u8>, pos: usize, n: u64) -> (r: Option<(Vec<Arg>, usize)>)
    requires
        pos <= bytes@.len(),
    ensures
        match r {
            Some((args, p2)) => pos <= p2 <= bytes@.len() && dec_args(
                n as nat,
                bytes@.skip(pos as int),
                bytes@.skip(pos as int).len() + 1,
            ) == Some((Arg::view_seq(args@), bytes@.skip(p2 as int))),
            None => dec_args(
                n as nat,
                bytes@.skip(pos as int),
                bytes@.skip(pos as int).len() + 1,
            ) is None,
        },
    decreases bytes@.len() - pos, 1int, n,
{
    let ghost s = bytes@.skip(pos as int);
    if n == 0 {
        let args: Vec<Arg> = Vec::new();
        proof {
            assert(Arg::view_seq(args@) =~= Seq::<ArgV>::empty());
        }
        return Some((args, pos));
    }
    match decode_arg(bytes, pos) {
        Some((a, p2)) => {
            let ghost r = bytes@.skip(p2 as int);
            proof {
                assert(r.len() < s.len());
            }
            match decode_args(bytes, p2, n - 1) {
                Some((rest, p3)) => {
                    let mut args: Vec<Arg> = Vec::new();
                    args.push(a);
                    let mut rest = rest;
                    let ghost rest0 = rest@;
                    args.append(&mut rest);
                    proof {
                        lemma_view_seq_props(args@);
                        lemma_view_seq_props(rest0);
                        assert(args@ =~= seq![a] + rest0);
                        assert(Arg::view_seq(args@) =~= seq![a@] + Arg::view_seq(rest0));
                        lemma_dec_args_bound((n - 1) as nat, r, r.len() + 1, s.len());
                    }
                    Some((args, p3))
                },
                None => {
                    proof {
                        lemma_dec_args_bound((n - 1) as nat, r, r.len() + 1, s.len());
                    }
                    None
                },
            }
        },
        None => None,
    }
}

/// Reads one call at the cursor.
fn decode_call(bytes: &Vec<u8>, pos: usize) -> (r: Option<(Call, usize)>)
    requires
        pos <= bytes@.len(),
    ensures
        match r {
            Some((c, p2)) => pos < p2 <= bytes@.len() && dec_call(bytes@.skip(pos as int)) == Some(
                (c@, bytes@.skip(p2 as int)),
            ),
            None => dec_call(bytes@.skip(pos as int)) is None,
        },
{
    let nr = match read_u32(bytes, pos) {
        Some((nr, p1)) => (nr, p1),
        None => {
            return None;
        },
    };
    let (nr, p1) = nr;
    let n = match read_u64(bytes, p1) {
        Some((n, p2)) => (n, p2),
        None => {
            return None;
        },
    };
    let (n, p2) = n;
    let args = match decode_args(bytes, p2, n) {
        Some((args, p3)) => (args, p3),
        None => {
            return None;
        },
    };
    let (args, p3) = args;
    if p3 >= bytes.len() {
        proof {
            assert(bytes@.skip(p3 as int).len() == 0);
        }
        return None;
    }
    let ghost r3 = bytes@.skip(p3 as int);
    let flag = bytes[p3];
    let p4 = p3 + 1;
    proof {
        assert(r3.first() == flag);
        assert(r3.drop_first() =~= bytes@.skip(p4 as int));
        lemma_view_seq_props(args@);
    }
    if flag == 0 {
        Some((Call::new(nr, args, None), p4))
    } else if flag == 1 {
        match read_u64(bytes, p4) {
            Some((id, p5)) => Some((Call::new(nr, args, Some(id)), p5)),
            None => None,
        }
    } else {
        None
    }
}

impl SyscallInput {
    /// Decodes a canonical encoding; every byte must belong to it.
    pub fn decode(bytes: &Vec<u8>) -> (r: Option<SyscallInput>)
        ensures
            match r {
                Some(input) => spec_decode(bytes@) == Some(input@),
                None => spec_decode(bytes@) is None,
            },
    {
        proof {
            assert(bytes@.skip(0) =~= bytes@);
        }
        let (n, p1) = match read_u64(bytes, 0) {
            Some(x) => x,
            None => {
                return None;
            },
        };
        let mut calls: Vec<Call> = Vec::new();
        let mut pos = p1;
        let mut remaining = n;
        let ghost r1 = bytes@.skip(p1 as int);
        proof {
            assert(Call::view_calls(calls@) =~= Seq::<CallV>::empty());
        }
        while remaining > 0
            invariant
                pos <= bytes@.len(),
                r1 == bytes@.skip(p1 as int),
                dec_u64(bytes@) == Some((n, r1)),
                remaining <= n,
                dec_calls(n as nat, r1, r1.len() + 1) == (match dec_calls(
                    remaining as nat,
                    bytes@.skip(pos as int),
                    bytes@.skip(pos as int).len() + 1,
                ) {
                    Some((rest, r2)) => Some(
                        (Call::view_calls(calls@) + rest, r2),
                    ),
                    None => None::<(Seq<CallV>, Seq<u8>)>,
                }),
            decreases remaining,
        {
            let ghost s = bytes@.skip(pos as int);
            let (c, p2) = match decode_call(bytes, pos) {
                Some(x) => x,
                None => {
                    return None;
                },
            };
            let ghost r = bytes@.skip(p2 as int);
            proof {
                assert(r.len() < s.len());
                lemma_dec_calls_bound((remaining - 1) as nat, r, r.len() + 1, s.len());
            }
            let ghost calls0 = calls@;
            calls.push(c);
            proof {
                crate::call::lemma_view_calls_props(calls0);
                crate::call::lemma_view_calls_props(calls@);
                assert(calls@ =~= calls0.push(c));
                assert(Call::view_calls(calls@) =~= Call::view_calls(calls0).push(c@));
                assert forall|rest: Seq<CallV>|
                    #![trigger (seq![c@] + rest)]
                    true implies Call::view_calls(calls0) + (seq![c@] + rest) =~= Call::view_calls(
                    calls@,
                ) + rest by {}
            }
            pos = p2;
            remaining = remaining - 1;
        }
        proof {
            assert(dec_calls(0, bytes@.skip(pos as int), bytes@.skip(pos as int).len() + 1)
                == Some((Seq::<CallV>::empty(), bytes@.skip(pos as int))));
            assert(Call::view_calls(calls@) + Seq::<CallV>::empty() =~= Call::view_calls(calls@));
        }
        if pos != bytes.len() {
            proof {
                assert(bytes@.skip(pos as int).len() != 0);
            }
            return None;
        }
        proof {
            assert(bytes@.skip(pos as int).len() == 0);
        }
        Some(SyscallInput::new(calls))
    }
}

} // verus!
