//! Executable validity checks, deciding exactly the specification
//! predicates: whether a program is well-formed against a catalog and
//! whether its resource dataflow is closed. Unverified callers use these
//! to establish the mutators' preconditions on programs read from outside.

use vstd::prelude::*;

use crate::call::{lemma_view_seq_props, Arg, ArgV, Call};
use crate::input::SyscallInput;
use crate::metadata::SyscallMetadata;
use crate::rand_util::{MAX_ARRAY_LENGTH, MAX_BUFFER_LENGTH};
use crate::types::{lemma_fields_height_bound, lemma_view_fields_props, type_height, Direction,
    Type, TypeV};
use crate::wf::{arg_has_ref, arg_matches, call_has_ref, call_wf, dataflow_ok, program_wf};

verus! {

/// Whether the argument fits the type.
pub fn check_arg_matches(a: &Arg, t: &Type) -> (r: bool)
    ensures
        r == arg_matches(a@, t@),
    decreases type_height(t@), 0int,
{
    match t {
        Type::Int(_) => match a {
            Arg::Const(_) => true,
            _ => false,
        },
        Type::Flag(_) => match a {
            Arg::Const(_) => true,
            _ => false,
        },
        Type::Array(ta) => match a {
            Arg::Group(g) => {
                let len_ok = match ta.range {
                    Some((lo, hi)) => lo <= g.0.len() as u64 && g.0.len() as u64 <= hi,
                    None => g.0.len() as u64 <= MAX_ARRAY_LENGTH,
                };
                proof {
                    lemma_view_seq_props(g.0@);
                    assert(a@->Group_0 == Arg::view_seq(g.0@));
                    assert(a@->Group_0.len() == g.0@.len());
                }
                if !len_ok {
                    proof {
                        assert(!crate::wf::array_len_ok(a@->Group_0.len(), ta.range));
                        assert(!arg_matches(a@, t@));
                    }
                    return false;
                }
                let mut i: usize = 0;
                while i < g.0.len()
                    invariant
                        i <= g.0@.len(),
                        type_height(ta.elem@) < type_height(t@),
                        a@ == ArgV::Group(Arg::view_seq(g.0@)),
                        t@ matches TypeV::Array { elem, range, .. } && *elem == ta.elem@ && range
                            == ta.range,
                        crate::wf::array_len_ok(Arg::view_seq(g.0@).len(), ta.range),
                        Arg::view_seq(g.0@).len() == g.0@.len(),
                        forall|k: int|
                            0 <= k < g.0@.len() ==> Arg::view_seq(g.0@)[k] == g.0@[k]@,
                        forall|k: int|
                            0 <= k < i ==> arg_matches(#[trigger] Arg::view_seq(g.0@)[k], ta.elem@),
                    decreases g.0@.len() - i,
                {
                    if !check_arg_matches(&g.0[i], &*ta.elem) {
                        proof {
                            assert(a@->Group_0 == Arg::view_seq(g.0@));
                            assert(!arg_matches(a@->Group_0[i as int], ta.elem@));
                            assert(!arg_matches(a@, t@));
                        }
                        return false;
                    }
                    i = i + 1;
                }
                proof {
                    assert(a@->Group_0 == Arg::view_seq(g.0@));
                    assert(arg_matches(a@, t@));
                }
                true
            },
            _ => false,
        },
        Type::Pointer(tp) => match a {
            Arg::Pointer(crate::call::PointerArg::Addr(x)) => *x == 0,
            Arg::Pointer(crate::call::PointerArg::Data(b)) => check_arg_matches(&**b, &*tp.elem),
            _ => false,
        },
        Type::Buffer(crate::types::BufferType::String(tb)) => check_data_arg(a, tb.attr.dir, None),
        Type::Buffer(crate::types::BufferType::Filename(tb)) => check_data_arg(
            a,
            tb.attr.dir,
            None,
        ),
        Type::Buffer(crate::types::BufferType::Byte(tb)) => check_data_arg(a, tb.attr.dir, tb.range),
        Type::Struct(ts) => match a {
            Arg::Group(g) => {
                proof {
                    lemma_view_seq_props(g.0@);
                    lemma_view_fields_props(ts.fields@);
                }
                if g.0.len() != ts.fields.len() {
                    proof {
                        assert(a@->Group_0 == Arg::view_seq(g.0@));
                        assert(!arg_matches(a@, t@));
                    }
                    return false;
                }
                let mut i: usize = 0;
                while i < g.0.len()
                    invariant
                        i <= g.0@.len(),
                        g.0@.len() == ts.fields@.len(),
                        a@ == ArgV::Group(Arg::view_seq(g.0@)),
                        t@ matches TypeV::Struct { fields, .. } && fields == Type::view_fields(
                            ts.fields@,
                        ) && type_height(t@) == crate::types::fields_height(fields) + 2,
                        Arg::view_seq(g.0@).len() == g.0@.len(),
                        forall|k: int|
                            0 <= k < g.0@.len() ==> Arg::view_seq(g.0@)[k] == g.0@[k]@,
                        Type::view_fields(ts.fields@).len() == ts.fields@.len(),
                        forall|k: int|
                            0 <= k < ts.fields@.len() ==> Type::view_fields(ts.fields@)[k]
                                == ts.fields@[k]@,
                        forall|k: int|
                            0 <= k < i ==> arg_matches(
                                #[trigger] Arg::view_seq(g.0@)[k],
                                Type::view_fields(ts.fields@)[k].ty,
                            ),
                    decreases g.0@.len() - i,
                {
                    proof {
                        lemma_fields_height_bound(Type::view_fields(ts.fields@), i as int);
                        assert(Type::view_fields(ts.fields@)[i as int].ty == ts.fields@[i as int]@.ty);
                    }
                    if !check_arg_matches(&g.0[i], &ts.fields[i].ty) {
                        proof {
                            assert(a@->Group_0 == Arg::view_seq(g.0@));
                            assert(!arg_matches(
                                a@->Group_0[i as int],
                                Type::view_fields(ts.fields@)[i as int].ty,
                            ));
                            assert(!arg_matches(a@, t@));
                        }
                        return false;
                    }
                    i = i + 1;
                }
                proof {
                    assert(a@->Group_0 == Arg::view_seq(g.0@));
                    assert(arg_matches(a@, t@));
                }
                true
            },
            _ => false,
        },
        Type::Union(tu) => {
            proof {
                lemma_view_fields_props(tu.fields@);
            }
            let mut i: usize = 0;
            while i < tu.fields.len()
                invariant
                    i <= tu.fields@.len(),
                    t@ matches TypeV::Union { fields, .. } && fields == Type::view_fields(
                        tu.fields@,
                    ) && type_height(t@) == crate::types::fields_height(fields) + 2,
                    Type::view_fields(tu.fields@).len() == tu.fields@.len(),
                    forall|k: int|
                        0 <= k < tu.fields@.len() ==> Type::view_fields(tu.fields@)[k]
                            == tu.fields@[k]@,
                    forall|k: int|
                        0 <= k < i ==> !arg_matches(a@, Type::view_fields(tu.fields@)[k].ty),
                decreases tu.fields@.len() - i,
            {
                proof {
                    lemma_fields_height_bound(Type::view_fields(tu.fields@), i as int);
                    assert(Type::view_fields(tu.fields@)[i as int].ty == tu.fields@[i as int]@.ty);
                }
                if check_arg_matches(a, &tu.fields[i].ty) {
                    return true;
                }
                i = i + 1;
            }
            false
        },
        Type::Resource(_) => match a {
            Arg::Result(_) => true,
            _ => false,
        },
    }
}

/// Whether a buffer argument fits the direction and length bounds.
fn check_data_arg(a: &Arg, dir: Direction, range: Option<(u64, u64)>) -> (r: bool)
    ensures
        r == crate::wf::data_matches(a@, dir, range),
{
    match dir {
        Direction::In | Direction::InOut => match a {
            Arg::Data(crate::call::DataArg::In(d)) => {
                match range {
                    Some((lo, hi)) => lo <= d.len() as u64 && d.len() as u64 <= hi,
                    None => d.len() as u64 <= MAX_BUFFER_LENGTH,
                }
            },
            _ => false,
        },
        Direction::Out => match a {
            Arg::Data(crate::call::DataArg::Out(n)) => {
                match range {
                    Some((lo, hi)) => lo <= *n && *n <= hi,
                    None => *n <= MAX_BUFFER_LENGTH,
                }
            },
            _ => false,
        },
    }
}

/// Whether the call is well-formed against the catalog.
pub fn check_call_wf(c: &Call, metadata: &SyscallMetadata) -> (r: bool)
    ensures
        r == call_wf(c@, metadata@),
{
    let sc = match metadata.find_number(c.number()) {
        Some(sc) => sc,
        None => {
            return false;
        },
    };
    let fields = sc.fields();
    let args = c.args();
    proof {
        lemma_view_seq_props(args@);
    }
    if args.len() != fields.len() {
        return false;
    }
    let mut i: usize = 0;
    while i < args.len()
        invariant
            i <= args@.len(),
            Arg::view_seq(args@) == c@.args,
            args@.len() == c@.args.len(),
            forall|k: int| 0 <= k < args@.len() ==> args@[k]@ == c@.args[k],
            crate::metadata::spec_find_number(metadata@, c@.nr) == Some(sc@),
            fields@.len() == sc@.fields.len(),
            c@.args.len() == sc@.fields.len(),
            forall|k: int| 0 <= k < fields@.len() ==> fields@[k]@ == sc@.fields[k],
            forall|k: int|
                0 <= k < i ==> arg_matches(#[trigger] c@.args[k], sc@.fields[k].ty),
        decreases args@.len() - i,
    {
        if !check_arg_matches(&args[i], &fields[i].ty) {
            proof {
                assert(fields@[i as int]@.ty == sc@.fields[i as int].ty);
                assert(!arg_matches(c@.args[i as int], sc@.fields[i as int].ty));
                assert(!call_wf(c@, metadata@));
            }
            return false;
        }
        i = i + 1;
    }
    let has_result = match c.result() {
        Some(_) => true,
        None => false,
    };
    let ret_resource = match sc.return_type() {
        Some(rt) => rt.is_resource(),
        None => false,
    };
    let r = has_result == ret_resource;
    proof {
        assert(r == call_wf(c@, metadata@));
    }
    r
}

/// Whether every call of the program is well-formed against the catalog.
pub fn check_program_wf(input: &SyscallInput, metadata: &SyscallMetadata) -> (r: bool)
    ensures
        r == program_wf(input@, metadata@),
{
    let calls = input.calls();
    let mut i: usize = 0;
    while i < calls.len()
        invariant
            i <= calls@.len(),
            calls@.len() == input@.len(),
            forall|k: int| 0 <= k < calls@.len() ==> calls@[k]@ == input@[k],
            forall|k: int| 0 <= k < i ==> call_wf(#[trigger] input@[k], metadata@),
        decreases calls@.len() - i,
    {
        if !check_call_wf(&calls[i], metadata) {
            proof {
                assert(!call_wf(input@[i as int], metadata@));
                assert(!program_wf(input@, metadata@));
            }
            return false;
        }
        i = i + 1;
    }
    true
}

/// Every reference inside the argument is one of the given identifiers.
pub open spec fn refs_bounded(a: ArgV, ids: Seq<u64>) -> bool {
    forall|x: u64| #[trigger] arg_has_ref(a, x) ==> ids.contains(x)
}

/// Whether the identifier is among the given ones.
fn contains_id(ids: &Vec<u64>, id: u64) -> (r: bool)
    ensures
        r == ids@.contains(id),
{
    let mut i: usize = 0;
    while i < ids.len()
        invariant
            i <= ids@.len(),
            forall|k: int| 0 <= k < i ==> ids@[k] != id,
        decreases ids@.len() - i,
    {
        if ids[i] == id {
            return true;
        }
        i = i + 1;
    }
    false
}

/// Whether every reference inside the argument is one of the given
/// identifiers.
fn check_arg_refs(a: &Arg, ids: &Vec<u64>) -> (r: bool)
    ensures
        r == refs_bounded(a@, ids@),
    decreases a,
{
    match a {
        Arg::Result(crate::call::ResultArg::Ref(rid)) => {
            let r = contains_id(ids, *rid);
            proof {
                if r {
                    assert forall|x: u64| #[trigger] arg_has_ref(a@, x) implies ids@.contains(
                        x,
                    ) by {
                        assert(x == rid);
                    }
                } else {
                    assert(arg_has_ref(a@, *rid));
                }
            }
            r
        },
        Arg::Pointer(crate::call::PointerArg::Data(b)) => {
            let r = check_arg_refs(&**b, ids);
            proof {
                if r {
                    assert forall|x: u64| #[trigger] arg_has_ref(a@, x) implies ids@.contains(
                        x,
                    ) by {
                        assert(arg_has_ref((**b)@, x));
                    }
                } else {
                    assert(exists|x: u64| arg_has_ref((**b)@, x) && !ids@.contains(x)) by {
                        if forall|x: u64| #[trigger] arg_has_ref((**b)@, x) ==> ids@.contains(x) {
                            assert(refs_bounded((**b)@, ids@));
                        }
                    }
                    let x = choose|x: u64| arg_has_ref((**b)@, x) && !ids@.contains(x);
                    assert(arg_has_ref(a@, x));
                }
            }
            r
        },
        Arg::Group(g) => {
            let r = check_args_refs(&g.0, ids);
            proof {
                if r {
                    assert forall|x: u64| #[trigger] arg_has_ref(a@, x) implies ids@.contains(
                        x,
                    ) by {
                        let k = choose|k: int|
                            0 <= k < Arg::view_seq(g.0@).len() && arg_has_ref(
                                #[trigger] Arg::view_seq(g.0@)[k],
                                x,
                            );
                        assert(refs_bounded(Arg::view_seq(g.0@)[k], ids@));
                    }
                } else {
                    let k = choose|k: int|
                        0 <= k < Arg::view_seq(g.0@).len() && !refs_bounded(
                            #[trigger] Arg::view_seq(g.0@)[k],
                            ids@,
                        );
                    assert(exists|x: u64|
                        arg_has_ref(Arg::view_seq(g.0@)[k], x) && !ids@.contains(x)) by {
                        if forall|x: u64| #[trigger] arg_has_ref(Arg::view_seq(g.0@)[k], x)
                            ==> ids@.contains(x) {
                            assert(refs_bounded(Arg::view_seq(g.0@)[k], ids@));
                        }
                    }
                    let x = choose|x: u64|
                        arg_has_ref(Arg::view_seq(g.0@)[k], x) && !ids@.contains(x);
                    assert(a@->Group_0 == Arg::view_seq(g.0@));
                    assert(arg_has_ref(a@->Group_0[k], x));
                    assert(arg_has_ref(a@, x));
                }
            }
            r
        },
        _ => {
            proof {
                assert forall|x: u64| #[trigger] arg_has_ref(a@, x) implies ids@.contains(x) by {}
            }
            true
        },
    }
}

/// Whether every reference inside each argument of the vector is one of
/// the given identifiers.
fn check_args_refs(v: &Vec<Arg>, ids: &Vec<u64>) -> (r: bool)
    ensures
        r == (forall|k: int|
            0 <= k < Arg::view_seq(v@).len() ==> refs_bounded(
                #[trigger] Arg::view_seq(v@)[k],
                ids@,
            )),
    decreases v@,
{
    proof {
        lemma_view_seq_props(v@);
    }
    let mut i: usize = 0;
    while i < v.len()
        invariant
            i <= v@.len(),
            Arg::view_seq(v@).len() == v@.len(),
            forall|k: int| 0 <= k < v@.len() ==> Arg::view_seq(v@)[k] == v@[k]@,
            forall|k: int| 0 <= k < i ==> refs_bounded(#[trigger] Arg::view_seq(v@)[k], ids@),
        decreases v@.len() - i,
    {
        if !check_arg_refs(&v[i], ids) {
            proof {
                assert(!refs_bounded(Arg::view_seq(v@)[i as int], ids@));
            }
            return false;
        }
        i = i + 1;
    }
    true
}

/// Whether every reference of the program points at the result of a
/// strictly earlier call.
pub fn check_dataflow(input: &SyscallInput) -> (r: bool)
    ensures
        r == dataflow_ok(input@),
{
    let calls = input.calls();
    let ghost p = input@;
    let mut produced: Vec<u64> = Vec::new();
    let mut i: usize = 0;
    while i < calls.len()
        invariant
            i <= calls@.len(),
            p == input@,
            calls@.len() == p.len(),
            forall|k: int| 0 <= k < calls@.len() ==> calls@[k]@ == p[k],
            forall|x: u64|
                produced@.contains(x) <==> exists|j: int|
                    0 <= j < i && (#[trigger] p[j]).result == Some(x),
            forall|i2: int, id: u64|
                0 <= i2 < i && #[trigger] call_has_ref(p[i2], id) ==> exists|j: int|
                    0 <= j < i2 && p[j].result == Some(id),
        decreases calls@.len() - i,
    {
        let args = calls[i].args();
        proof {
            lemma_view_seq_props(args@);
        }
        let mut k: usize = 0;
        while k < args.len()
            invariant
                k <= args@.len(),
                i < calls@.len(),
                p == input@,
                calls@.len() == p.len(),
                forall|m: int| 0 <= m < calls@.len() ==> calls@[m]@ == p[m],
                Arg::view_seq(args@) == p[i as int].args,
                args@.len() == p[i as int].args.len(),
                forall|m: int| 0 <= m < args@.len() ==> args@[m]@ == p[i as int].args[m],
                forall|x: u64|
                    produced@.contains(x) <==> exists|j: int|
                        0 <= j < i && (#[trigger] p[j]).result == Some(x),
                forall|m: int|
                    0 <= m < k ==> refs_bounded(#[trigger] p[i as int].args[m], produced@),
            decreases args@.len() - k,
        {
            if !check_arg_refs(&args[k], &produced) {
                proof {
                    assert(exists|x: u64|
                        arg_has_ref(p[i as int].args[k as int], x) && !produced@.contains(x)) by {
                        if forall|x: u64|
                            #[trigger] arg_has_ref(p[i as int].args[k as int], x)
                                ==> produced@.contains(x) {
                            assert(refs_bounded(p[i as int].args[k as int], produced@));
                        }
                    }
                    let x = choose|x: u64|
                        arg_has_ref(p[i as int].args[k as int], x) && !produced@.contains(x);
                    assert(call_has_ref(p[i as int], x));
                    assert(!(exists|j: int| 0 <= j < i && (#[trigger] p[j]).result == Some(x)));
                    assert(!dataflow_ok(p)) by {
                        if dataflow_ok(p) {
                            let j = choose|j: int|
                                0 <= j < i as int && (#[trigger] p[j]).result == Some(x);
                        }
                    }
                }
                return false;
            }
            k = k + 1;
        }
        proof {
            assert forall|id: u64| #[trigger] call_has_ref(p[i as int], id) implies exists|j: int|
                0 <= j < i as int && p[j].result == Some(id) by {
                let m = choose|m: int|
                    0 <= m < p[i as int].args.len() && arg_has_ref(
                        #[trigger] p[i as int].args[m],
                        id,
                    );
                assert(refs_bounded(p[i as int].args[m], produced@));
                assert(produced@.contains(id));
            }
        }
        match calls[i].result() {
            Some(id) => {
                let ghost prev = produced@;
                produced.push(id);
                proof {
                    assert forall|x: u64|
                        produced@.contains(x) <==> (exists|j: int|
                            0 <= j < i + 1 && (#[trigger] p[j]).result == Some(x)) by {
                        if produced@.contains(x) {
                            let m = choose|m: int|
                                0 <= m < produced@.len() && produced@[m] == x;
                            if m < prev.len() {
                                assert(prev[m] == x);
                                assert(prev.contains(x));
                            } else {
                                assert(x == id);
                                assert(p[i as int].result == Some(x));
                            }
                        }
                        if exists|j: int| 0 <= j < i + 1 && (#[trigger] p[j]).result == Some(x) {
                            let j = choose|j: int|
                                0 <= j < i + 1 && (#[trigger] p[j]).result == Some(x);
                            if j < i {
                                assert(prev.contains(x));
                                let m = choose|m: int| 0 <= m < prev.len() && prev[m] == x;
                                assert(produced@[m] == x);
                            } else {
                                assert(produced@[prev.len() as int] == x);
                            }
                        }
                    }
                }
            },
            None => {
                proof {
                    assert forall|x: u64|
                        produced@.contains(x) <==> (exists|j: int|
                            0 <= j < i + 1 && (#[trigger] p[j]).result == Some(x)) by {
                        if exists|j: int| 0 <= j < i + 1 && (#[trigger] p[j]).result == Some(x) {
                            let j = choose|j: int|
                                0 <= j < i + 1 && (#[trigger] p[j]).result == Some(x);
                            assert(j < i);
                        }
                    }
                }
            },
        }
        i = i + 1;
    }
    true
}

} // verus!
