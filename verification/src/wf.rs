//! Well-formedness of programs: every call's arguments fit its syscall's
//! fields, buffer and array lengths respect their bounds, and every
//! reference to a resource points at an earlier call that produced it.

use vstd::prelude::*;

use crate::call::{ArgV, CallV};
use crate::context::spec_replay;
use crate::metadata::{spec_find_number, SyscallV};
use crate::rand_util::{MAX_ARRAY_LENGTH, MAX_BUFFER_LENGTH};
use crate::types::{spec_attr, type_wf, Direction, TypeV};

verus! {

/// An array of `n` elements fits the declared length range, or the general
/// array cap where none is declared.
pub open spec fn array_len_ok(n: nat, range: Option<(u64, u64)>) -> bool {
    match range {
        Some((lo, hi)) => lo <= n <= hi,
        None => n <= MAX_ARRAY_LENGTH,
    }
}

/// A buffer of `n` bytes fits the declared length range, or the buffer cap
/// where none is declared.
pub open spec fn buffer_len_ok(n: nat, range: Option<(u64, u64)>) -> bool {
    match range {
        Some((lo, hi)) => lo <= n <= hi,
        None => n <= MAX_BUFFER_LENGTH,
    }
}

/// A buffer argument fits a buffer type: input buffers carry payload for
/// fields the kernel reads, output buffers carry only a length, and either
/// way the length respects the bounds.
pub open spec fn data_matches(a: ArgV, dir: Direction, range: Option<(u64, u64)>) -> bool {
    match dir {
        Direction::In | Direction::InOut => a matches ArgV::DataIn(d) && buffer_len_ok(
            d.len(),
            range,
        ),
        Direction::Out => a matches ArgV::DataOut(n) && buffer_len_ok(n as nat, range),
    }
}

/// The argument fits the type: its tag agrees with the type's tag, its
/// members fit the member types, and its lengths respect the bounds.
pub open spec fn arg_matches(a: ArgV, t: TypeV) -> bool
    decreases t,
{
    match t {
        TypeV::Int { .. } => a is Const,
        TypeV::Flag { .. } => a is Const,
        TypeV::Array { elem, range, .. } => a matches ArgV::Group(args) && array_len_ok(
            args.len(),
            range,
        ) && (forall|i: int| 0 <= i < args.len() ==> arg_matches(#[trigger] args[i], *elem)),
        TypeV::Pointer { elem, .. } => match a {
            ArgV::Addr(x) => x == 0,
            ArgV::PointerData(b) => arg_matches(*b, *elem),
            _ => false,
        },
        TypeV::BufferString { attr, .. } => data_matches(a, attr.dir, None),
        TypeV::BufferFilename { attr, .. } => data_matches(a, attr.dir, None),
        TypeV::BufferByte { attr, range } => data_matches(a, attr.dir, range),
        TypeV::Struct { fields, .. } => a matches ArgV::Group(args) && args.len() == fields.len()
            && (forall|i: int|
            0 <= i < args.len() ==> arg_matches(#[trigger] args[i], fields[i].ty)),
        TypeV::Union { fields, .. } => exists|i: int|
            0 <= i < fields.len() && arg_matches(a, (#[trigger] fields[i]).ty),
        TypeV::Resource { .. } => a is ResultRef || a is ResultLiteral,
    }
}

/// The deterministic default argument of a type.
pub open spec fn spec_default(t: TypeV) -> ArgV
    decreases t,
{
    match t {
        TypeV::Int { .. } => ArgV::Const(0),
        TypeV::Flag { .. } => ArgV::Const(0),
        TypeV::Array { elem, range, .. } => {
            let d = spec_default(*elem);
            match range {
                Some((lo, _)) => ArgV::Group(Seq::new(lo as nat, |i: int| d)),
                None => ArgV::Group(Seq::empty()),
            }
        },
        TypeV::Pointer { .. } => ArgV::Addr(0),
        TypeV::BufferString { attr, values, .. } => match attr.dir {
            Direction::In | Direction::InOut => ArgV::DataIn(
                if values.len() == 1 {
                    values[0]
                } else {
                    Seq::empty()
                },
            ),
            Direction::Out => ArgV::DataOut(0),
        },
        TypeV::BufferFilename { attr, .. } => match attr.dir {
            Direction::In | Direction::InOut => ArgV::DataIn(Seq::empty()),
            Direction::Out => ArgV::DataOut(0),
        },
        TypeV::BufferByte { attr, range } => {
            let lo: u64 = match range {
                Some((l, _)) => l,
                None => 0,
            };
            match attr.dir {
                Direction::In | Direction::InOut => ArgV::DataIn(Seq::new(lo as nat, |i: int| 0u8)),
                Direction::Out => ArgV::DataOut(lo),
            }
        },
        TypeV::Struct { fields, .. } => ArgV::Group(spec_defaults(fields)),
        TypeV::Union { fields, .. } => {
            if fields.len() > 0 {
                spec_default(fields[0].ty)
            } else {
                ArgV::Group(Seq::empty())
            }
        },
        TypeV::Resource { values, .. } => {
            if values.len() > 0 {
                ArgV::ResultLiteral(values[0])
            } else {
                ArgV::ResultLiteral(0)
            }
        },
    }
}

/// The defaults of a sequence of fields, in order.
pub open spec fn spec_defaults(fs: Seq<crate::types::FieldV>) -> Seq<ArgV>
    decreases fs,
{
    if fs.len() == 0 {
        Seq::empty()
    } else {
        spec_defaults(fs.drop_last()).push(spec_default(fs.last().ty))
    }
}

/// The field defaults stand for the fields one by one.
pub broadcast proof fn lemma_spec_defaults_props(fs: Seq<crate::types::FieldV>)
    ensures
        (#[trigger] spec_defaults(fs)).len() == fs.len(),
        forall|i: int| 0 <= i < fs.len() ==> spec_defaults(fs)[i] == spec_default(fs[i].ty),
    decreases fs,
{
    if fs.len() > 0 {
        lemma_spec_defaults_props(fs.drop_last());
        assert(forall|i: int| 0 <= i < fs.len() - 1 ==> fs.drop_last()[i] == fs[i]);
    }
}

/// The call is well-formed against the catalog: its number is known, its
/// arguments fit the fields one to one, and it carries a result identifier
/// exactly when its syscall returns a resource.
pub open spec fn call_wf(c: CallV, meta: Seq<SyscallV>) -> bool {
    match spec_find_number(meta, c.nr) {
        Some(s) => {
            &&& c.args.len() == s.fields.len()
            &&& (forall|i: int|
                0 <= i < c.args.len() ==> arg_matches(#[trigger] c.args[i], s.fields[i].ty))
            &&& (c.result is Some <==> (s.ret matches Some(t) && t is Resource))
        },
        None => false,
    }
}

/// Every call of the program is well-formed against the catalog.
pub open spec fn program_wf(p: Seq<CallV>, meta: Seq<SyscallV>) -> bool {
    forall|i: int| 0 <= i < p.len() ==> call_wf(#[trigger] p[i], meta)
}

/// The argument mentions the resource identifier somewhere inside it.
pub open spec fn arg_has_ref(a: ArgV, id: u64) -> bool
    decreases a,
{
    match a {
        ArgV::ResultRef(r) => r == id,
        ArgV::PointerData(b) => arg_has_ref(*b, id),
        ArgV::Group(args) => exists|i: int| 0 <= i < args.len() && arg_has_ref(
            #[trigger] args[i],
            id,
        ),
        _ => false,
    }
}

/// The call mentions the resource identifier in one of its arguments.
pub open spec fn call_has_ref(c: CallV, id: u64) -> bool {
    exists|i: int| 0 <= i < c.args.len() && arg_has_ref(#[trigger] c.args[i], id)
}

/// Dataflow closure: every reference points at the result of a strictly
/// earlier call of the same program.
pub open spec fn dataflow_ok(p: Seq<CallV>) -> bool {
    forall|i: int, id: u64|
        0 <= i < p.len() && #[trigger] call_has_ref(p[i], id) ==> exists|j: int|
            0 <= j < i && p[j].result == Some(id)
}

/// The result list mentions the identifier.
pub open spec fn results_has_id(rs: Seq<(u64, TypeV)>, id: u64) -> bool {
    exists|k: int| 0 <= k < rs.len() && (#[trigger] rs[k]).0 == id
}

/// A block of calls is linked against a base result list: every reference
/// in the block resolves either in the base or to an earlier call of the
/// block itself.
pub open spec fn calls_linked(base: Seq<(u64, TypeV)>, cs: Seq<CallV>) -> bool {
    forall|j: int, id: u64|
        0 <= j < cs.len() && #[trigger] call_has_ref(cs[j], id) ==> results_has_id(base, id)
            || exists|k: int| 0 <= k < j && cs[k].result == Some(id)
}

/// Every identifier the replay of a program collects is the result of one
/// of its calls.
pub proof fn lemma_replay_ids(meta: Seq<SyscallV>, p: Seq<CallV>, id: u64)
    requires
        results_has_id(spec_replay(meta, p), id),
    ensures
        exists|j: int| 0 <= j < p.len() && (#[trigger] p[j]).result == Some(id),
    decreases p,
{
    let rs = spec_replay(meta, p);
    let rest = spec_replay(meta, p.drop_last());
    if p.len() == 0 {
        assert(false);
    } else {
        if rs == rest {
            lemma_replay_ids(meta, p.drop_last(), id);
            let j = choose|j: int|
                0 <= j < p.drop_last().len() && (#[trigger] p.drop_last()[j]).result == Some(id);
            assert(p[j].result == Some(id));
        } else {
            // The last call contributed an entry.
            let k = choose|k: int| 0 <= k < rs.len() && (#[trigger] rs[k]).0 == id;
            if k < rs.len() - 1 {
                assert(rest[k].0 == id);
                lemma_replay_ids(meta, p.drop_last(), id);
                let j = choose|j: int|
                    0 <= j < p.drop_last().len() && (#[trigger] p.drop_last()[j]).result == Some(
                        id,
                    );
                assert(p[j].result == Some(id));
            } else {
                assert(p[p.len() - 1].result == Some(id));
            }
        }
    }
}

/// The replay of a program collects the identifier of every well-formed
/// call that produces one.
pub proof fn lemma_replay_contains(meta: Seq<SyscallV>, p: Seq<CallV>, j: int)
    requires
        0 <= j < p.len(),
        p[j].result is Some,
        call_wf(p[j], meta),
    ensures
        results_has_id(spec_replay(meta, p), p[j].result->Some_0),
    decreases p,
{
    if j == p.len() - 1 {
        let rest = spec_replay(meta, p.drop_last());
        let rs = spec_replay(meta, p);
        assert(rs[rs.len() - 1].0 == p[j].result->Some_0);
    } else {
        assert(p.drop_last()[j] == p[j]);
        lemma_replay_contains(meta, p.drop_last(), j);
        let rest = spec_replay(meta, p.drop_last());
        let id = p[j].result->Some_0;
        let k = choose|k: int| 0 <= k < rest.len() && (#[trigger] rest[k]).0 == id;
        assert(spec_replay(meta, p)[k].0 == id);
    }
}

/// Replay distributes over concatenation.
pub proof fn lemma_replay_concat(meta: Seq<SyscallV>, a: Seq<CallV>, b: Seq<CallV>)
    ensures
        spec_replay(meta, a + b) == spec_replay(meta, a) + spec_replay(meta, b),
    decreases b,
{
    if b.len() == 0 {
        assert(a + b =~= a);
        assert(spec_replay(meta, b) =~= Seq::<(u64, TypeV)>::empty());
        assert(spec_replay(meta, a) + spec_replay(meta, b) =~= spec_replay(meta, a));
    } else {
        lemma_replay_concat(meta, a, b.drop_last());
        assert((a + b).drop_last() =~= a + b.drop_last());
        assert((a + b).last() == b.last());
        assert(spec_replay(meta, a) + spec_replay(meta, b) =~= spec_replay(meta, a + b));
    }
}

/// A well-formed, closed program stays so under truncation.
pub proof fn lemma_dataflow_take(p: Seq<CallV>, n: int)
    requires
        dataflow_ok(p),
        0 <= n <= p.len(),
    ensures
        dataflow_ok(p.take(n)),
{
    let q = p.take(n);
    assert forall|i: int, id: u64|
        0 <= i < q.len() && #[trigger] call_has_ref(q[i], id) implies exists|j: int|
        0 <= j < i && q[j].result == Some(id) by {
        assert(q[i] == p[i]);
        assert(call_has_ref(p[i], id));
        let j = choose|j: int| 0 <= j < i && (#[trigger] p[j]).result == Some(id);
        assert(q[j].result == Some(id));
    }
}

/// Appending a block linked against the program's replay keeps the
/// dataflow closed.
pub proof fn lemma_dataflow_append(meta: Seq<SyscallV>, p: Seq<CallV>, cs: Seq<CallV>)
    requires
        dataflow_ok(p),
        calls_linked(spec_replay(meta, p), cs),
    ensures
        dataflow_ok(p + cs),
{
    let q = p + cs;
    assert forall|i: int, id: u64|
        0 <= i < q.len() && #[trigger] call_has_ref(q[i], id) implies exists|j: int|
        0 <= j < i && q[j].result == Some(id) by {
        if i < p.len() {
            assert(q[i] == p[i]);
            let j = choose|j: int| 0 <= j < i && (#[trigger] p[j]).result == Some(id);
            assert(q[j].result == Some(id));
        } else {
            let ci = i - p.len();
            assert(q[i] == cs[ci]);
            assert(call_has_ref(cs[ci], id));
            if results_has_id(spec_replay(meta, p), id) {
                lemma_replay_ids(meta, p, id);
                let j = choose|j: int| 0 <= j < p.len() && (#[trigger] p[j]).result == Some(id);
                assert(q[j].result == Some(id));
            } else {
                let k = choose|k: int| 0 <= k < ci && (#[trigger] cs[k]).result == Some(id);
                assert(q[p.len() + k].result == Some(id));
                assert(0 <= p.len() + k < i);
            }
        }
    }
}

/// Truncating keeps every call well-formed.
pub proof fn lemma_wf_take(p: Seq<CallV>, meta: Seq<SyscallV>, n: int)
    requires
        program_wf(p, meta),
        0 <= n <= p.len(),
    ensures
        program_wf(p.take(n), meta),
{
    assert forall|i: int| 0 <= i < p.take(n).len() implies call_wf(#[trigger] p.take(n)[i], meta) by {
        assert(p.take(n)[i] == p[i]);
    }
}

/// The argument with every reference to the given identifier replaced by
/// the given value, at any depth.
pub open spec fn replace_ref_arg(a: ArgV, id: u64, d: ArgV) -> ArgV
    decreases a,
{
    match a {
        ArgV::ResultRef(r) => if r == id {
            d
        } else {
            a
        },
        ArgV::PointerData(b) => ArgV::PointerData(Box::new(replace_ref_arg(*b, id, d))),
        ArgV::Group(args) => ArgV::Group(replace_ref_args(args, id, d)),
        _ => a,
    }
}

/// The replacement applied to each argument of a sequence.
pub open spec fn replace_ref_args(s: Seq<ArgV>, id: u64, d: ArgV) -> Seq<ArgV>
    decreases s,
{
    if s.len() == 0 {
        Seq::empty()
    } else {
        replace_ref_args(s.drop_last(), id, d).push(replace_ref_arg(s.last(), id, d))
    }
}

/// The replaced arguments stand for the arguments one by one.
pub broadcast proof fn lemma_replace_ref_args_props(s: Seq<ArgV>, id: u64, d: ArgV)
    ensures
        (#[trigger] replace_ref_args(s, id, d)).len() == s.len(),
        forall|i: int| 0 <= i < s.len() ==> replace_ref_args(s, id, d)[i] == replace_ref_arg(
            s[i],
            id,
            d,
        ),
    decreases s,
{
    if s.len() > 0 {
        lemma_replace_ref_args_props(s.drop_last(), id, d);
        assert(forall|i: int| 0 <= i < s.len() - 1 ==> s.drop_last()[i] == s[i]);
    }
}

/// The call with every reference to the given identifier replaced by the
/// given value in its arguments.
pub open spec fn replace_ref_call(c: CallV, id: u64, d: ArgV) -> CallV {
    CallV { nr: c.nr, args: replace_ref_args(c.args, id, d), result: c.result }
}

/// Replacing a reference by a literal keeps an argument fitting its type.
pub proof fn lemma_replace_matches(a: ArgV, t: TypeV, id: u64, d: ArgV)
    requires
        arg_matches(a, t),
        d is ResultLiteral,
    ensures
        arg_matches(replace_ref_arg(a, id, d), t),
    decreases t,
{
    lemma_replace_ref_args_props(
        match a {
            ArgV::Group(args) => args,
            _ => Seq::empty(),
        },
        id,
        d,
    );
    match t {
        TypeV::Array { elem, range, .. } => {
            let args = a->Group_0;
            assert forall|i: int| 0 <= i < args.len() implies arg_matches(
                #[trigger] replace_ref_args(args, id, d)[i],
                *elem,
            ) by {
                lemma_replace_matches(args[i], *elem, id, d);
            }
        },
        TypeV::Pointer { elem, .. } => {
            match a {
                ArgV::PointerData(b) => {
                    lemma_replace_matches(*b, *elem, id, d);
                },
                _ => {},
            }
        },
        TypeV::Struct { fields, .. } => {
            let args = a->Group_0;
            assert forall|i: int| 0 <= i < args.len() implies arg_matches(
                #[trigger] replace_ref_args(args, id, d)[i],
                fields[i].ty,
            ) by {
                lemma_replace_matches(args[i], fields[i].ty, id, d);
            }
        },
        TypeV::Union { fields, .. } => {
            let i = choose|i: int| 0 <= i < fields.len() && arg_matches(a, (#[trigger] fields[i]).ty);
            lemma_replace_matches(a, fields[i].ty, id, d);
        },
        _ => {},
    }
}

/// After replacement, the argument no longer mentions the replaced
/// identifier, and mentions nothing it did not mention before.
pub proof fn lemma_replace_refs(a: ArgV, id: u64, d: ArgV, id2: u64)
    requires
        forall|x: u64| !arg_has_ref(d, x),
        arg_has_ref(replace_ref_arg(a, id, d), id2),
    ensures
        arg_has_ref(a, id2),
        id2 != id,
    decreases a,
{
    match a {
        ArgV::PointerData(b) => {
            lemma_replace_refs(*b, id, d, id2);
        },
        ArgV::Group(args) => {
            lemma_replace_ref_args_props(args, id, d);
            let r = replace_ref_args(args, id, d);
            let k = choose|k: int| 0 <= k < r.len() && arg_has_ref(#[trigger] r[k], id2);
            lemma_replace_refs(args[k], id, d, id2);
        },
        _ => {},
    }
}

/// In a catalog with pairwise distinct numbers, looking a member's number
/// up returns that member.
pub open spec fn numbers_unique(m: Seq<SyscallV>) -> bool {
    forall|i: int, j: int| 0 <= i < j < m.len() ==> m[i].nr != m[j].nr
}

/// Looking up the number of a member of a duplicate-free catalog finds
/// that member.
pub proof fn lemma_find_number_of_member(m: Seq<SyscallV>, i: int)
    requires
        numbers_unique(m),
        0 <= i < m.len(),
    ensures
        spec_find_number(m, m[i].nr) == Some(m[i]),
    decreases m,
{
    if i == 0 {
    } else {
        assert(m[0].nr != m[i].nr);
        assert(forall|a: int, b: int|
            0 <= a < b < m.drop_first().len() ==> m.drop_first()[a].nr != m.drop_first()[b].nr);
        lemma_find_number_of_member(m.drop_first(), i - 1);
        assert(m.drop_first()[i - 1] == m[i]);
    }
}

} // verus!
