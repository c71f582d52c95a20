//! Mutation: per-type argument mutators that keep arguments fitting their
//! types and inside the size caps, and the four program-level operators —
//! splice, insert, rand-arg and remove — that keep programs well-formed
//! and their resource dataflow closed.

use vstd::prelude::*;

use crate::call::{Arg, ArgV, Call, CallV, ConstArg, DataArg, GroupArg, PointerArg,
    lemma_view_seq_props};
use crate::context::{spec_replay, Context, ContextV};
use crate::generate::{arg_refs_in, catalog_ok, gen_post, generate_arg, generate_call,
    generate_type_arg, generate_string_value, generate_filename_value};
use crate::metadata::{SyscallMetadata, SyscallV};
use crate::rand_util::{rand_array_length, rand_filename_length, MAX_BUFFER_LENGTH};
use crate::rng::Rng;
use crate::types::{lemma_fields_height_bound, lemma_view_fields_props, type_height, type_wf,
    Type, TypeV};
use crate::wf::{arg_has_ref, arg_matches, buffer_len_ok, call_has_ref, calls_linked, dataflow_ok,
    lemma_replay_ids, program_wf, results_has_id};

verus! {

/// The mutated integer is a fresh in-range (or in-width) sample, the old
/// value moved by at most four with wrapping, or the old value with one
/// bit below the declared width flipped.
pub open spec fn int_mutation_ok(a: ArgV, old_arg: ArgV, t: TypeV) -> bool {
    a matches ArgV::Const(v) && {
        let prev = old_arg->Const_0;
        ||| crate::generate::int_arg_ok(a, t)
        ||| exists|k: u64|
            1 <= k <= 4 && (v == vstd::wrapping::u64_specs::wrapping_add(prev, k) || v
                == vstd::wrapping::u64_specs::wrapping_sub(prev, k))
        ||| exists|s: u64| s < t->Int_bits && v == (prev ^ (1u64 << s))
    }
}

/// The call's syscall declares no fields (or is unknown to the catalog).
pub open spec fn no_fields_call(c: CallV, meta: Seq<SyscallV>) -> bool {
    match crate::metadata::spec_find_number(meta, c.nr) {
        Some(s) => s.fields.len() == 0,
        None => true,
    }
}

/// What a program-level mutator reports: whether it changed the input.
#[derive(Debug, Clone, Copy, PartialEq, Eq, Structural)]
pub enum MutationResult {
    Mutated,
    Skipped,
}

/// Byte-level havoc: a budgeted run of flips, inserts, deletions and
/// arithmetic on single bytes, then clamped into the declared range (or
/// the buffer cap). With `no_zero`, havoc writes no NUL bytes.
pub fn havoc_bytes(rng: &mut Rng, data: &mut Vec<u8>, range: Option<(u64, u64)>, no_zero: bool)
    requires
        match range {
            Some((lo, hi)) => lo <= hi && hi <= MAX_BUFFER_LENGTH,
            None => true,
        },
    ensures
        buffer_len_ok(final(data)@.len(), range),
        (no_zero && (forall|k: int| 0 <= k < old(data)@.len() ==> old(data)@[k] != 0)) ==> (forall|
            k: int,
        | 0 <= k < final(data)@.len() ==> final(data)@[k] != 0),
{
    let ghost clean = no_zero && (forall|k: int| 0 <= k < old(data)@.len() ==> old(data)@[k] != 0);
    let mut budget: usize = 16;
    loop
        invariant
            clean == (no_zero && (forall|k: int|
                0 <= k < old(data)@.len() ==> old(data)@[k] != 0)),
            clean ==> forall|k: int| 0 <= k < data@.len() ==> data@[k] != 0,
        decreases budget,
    {
        if budget == 0 {
            break;
        }
        budget = budget - 1;
        let op = rng.below(5);
        if op == 0 && data.len() > 0 {
            // Flip one bit of one byte
            let i = rng.below(data.len());
            let bit = rng.below(8);
            let b = data[i];
            let flipped = b ^ (1u8 << (bit as u8));
            let v = if no_zero && flipped == 0 {
                1
            } else {
                flipped
            };
            let ghost prev = data@;
            data.set(i, v);
            proof {
                if clean {
                    assert(flipped != 0 ==> v != 0);
                    assert(forall|k: int| 0 <= k < data@.len() && k != i ==> data@[k] == prev[k]);
                }
            }
        } else if op == 1 && data.len() > 0 {
            // Overwrite one byte with a random value
            let i = rng.below(data.len());
            let v = if no_zero {
                1 + rng.below(255) as u8
            } else {
                rng.below(256) as u8
            };
            let ghost prev = data@;
            data.set(i, v);
            proof {
                if clean {
                    assert(forall|k: int| 0 <= k < data@.len() && k != i ==> data@[k] == prev[k]);
                }
            }
        } else if op == 2 && data.len() < MAX_BUFFER_LENGTH as usize {
            // Insert a random byte
            let i = rng.below(data.len() + 1);
            let v = if no_zero {
                1 + rng.below(255) as u8
            } else {
                rng.below(256) as u8
            };
            let ghost prev = data@;
            data.insert(i, v);
            proof {
                if clean {
                    assert(forall|k: int| 0 <= k < i ==> data@[k] == prev[k]);
                    assert(forall|k: int| i < k < data@.len() ==> data@[k] == prev[k - 1]);
                }
            }
        } else if op == 3 && data.len() > 0 {
            // Delete one byte
            let i = rng.below(data.len());
            let ghost prev = data@;
            data.remove(i);
            proof {
                if clean {
                    assert(forall|k: int| 0 <= k < i ==> data@[k] == prev[k]);
                    assert(forall|k: int| i <= k < data@.len() ==> data@[k] == prev[k + 1]);
                }
            }
        } else if data.len() > 0 {
            // Add a random amount to one byte
            let i = rng.below(data.len());
            let add = rng.below(256) as u8;
            let b = data[i].wrapping_add(add);
            let v = if no_zero && b == 0 {
                1
            } else {
                b
            };
            let ghost prev = data@;
            data.set(i, v);
            proof {
                if clean {
                    assert(forall|k: int| 0 <= k < data@.len() && k != i ==> data@[k] == prev[k]);
                }
            }
        }
        if rng.one_of(3) {
            break;
        }
    }

    // Clamp the result into the admissible lengths
    let (lo, hi) = match range {
        Some((lo, hi)) => (lo, hi),
        None => (0, MAX_BUFFER_LENGTH),
    };
    if data.len() > hi as usize {
        let ghost prev = data@;
        data.truncate(hi as usize);
        proof {
            if clean {
                assert(forall|k: int| 0 <= k < data@.len() ==> data@[k] == prev[k]);
            }
        }
    }
    while data.len() < lo as usize
        invariant
            lo <= hi <= MAX_BUFFER_LENGTH,
            data@.len() <= hi,
            clean == (no_zero && (forall|k: int|
                0 <= k < old(data)@.len() ==> old(data)@[k] != 0)),
            clean ==> forall|k: int| 0 <= k < data@.len() ==> data@[k] != 0,
        decreases lo as int - data@.len(),
    {
        data.push(if no_zero {
            1
        } else {
            0
        });
    }
}

/// A nearby buffer length: a short random walk from the old one, clamped
/// into the declared range (or the buffer cap).
pub fn mutate_buffer_length(rng: &mut Rng, old_len: u64, range: Option<(u64, u64)>) -> (r: u64)
    requires
        match range {
            Some((lo, hi)) => lo <= hi && hi <= MAX_BUFFER_LENGTH,
            None => true,
        },
    ensures
        buffer_len_ok(r as nat, range),
{
    let (lo, hi) = match range {
        Some((lo, hi)) => (lo, hi),
        None => (0, MAX_BUFFER_LENGTH),
    };
    let mut new_len: u64 = old_len;
    if new_len < lo {
        new_len = lo;
    }
    if new_len > hi {
        new_len = hi;
    }
    let mut budget: usize = 8;
    loop
        invariant
            lo <= new_len <= hi,
            hi <= MAX_BUFFER_LENGTH,
        ensures
            lo <= new_len <= hi,
        decreases budget,
    {
        if budget == 0 {
            break;
        }
        budget = budget - 1;
        let step = rng.below(33) as u64;
        let mut cand: u64 = if step >= 16 {
            new_len + (step - 16)
        } else {
            let down = 16 - step;
            if new_len >= down {
                new_len - down
            } else {
                0
            }
        };
        if cand < lo {
            cand = lo;
        }
        if cand > hi {
            cand = hi;
        }
        new_len = cand;
        if new_len != old_len {
            break;
        }
    }
    new_len
}

/// A mutation of one argument of the given type: the result still fits the
/// type, and any prerequisite calls it needed are returned for insertion
/// just before the mutated call.
pub fn mutate_arg(rng: &mut Rng, ctx: &mut Context, ty: &Type, arg: Arg, generating: bool) -> (res:
    (Arg, Vec<Call>))
    requires
        catalog_ok(old(ctx)@.metadata),
        type_wf(ty@),
        arg_matches(arg@, ty@),
        arg_refs_in(arg@, old(ctx)@.results),
    ensures
        gen_post(old(ctx)@, final(ctx)@, Call::view_calls(res.1@)),
        arg_matches(res.0@, ty@),
        arg_refs_in(res.0@, final(ctx)@.results),
        (ty@ is Int || ty@ is Flag || ty@ is BufferString || ty@ is BufferFilename
            || ty@ is BufferByte) ==> Call::view_calls(res.1@).len() == 0,
        ty@ is Int ==> int_mutation_ok(res.0@, arg@, ty@),
        ty@ is Flag ==> (res.0@ matches ArgV::Const(v) && v != arg@->Const_0),
    decreases (if generating {
        0int
    } else {
        1int
    }), type_height(ty@), 2int,
{
    match ty {
        Type::Int(t) => {
            let old_val = match &arg {
                Arg::Const(c) => c.0,
                _ => {
                    proof {
                        assert(false);
                    }
                    0
                },
            };
            let new_val = if rng.binary() {
                let v = t.generate_value(rng);
                proof {
                    assert(crate::generate::int_arg_ok(ArgV::Const(v), ty@));
                    assert(int_mutation_ok(ArgV::Const(v), arg@, ty@));
                }
                v
            } else {
                let pick = rng.below(5);
                if pick == 0 {
                    let k = rng.below(4) as u64 + 1;
                    let moved = old_val.wrapping_add(k);
                    proof {
                        assert(arg@->Const_0 == old_val);
                        assert(exists|kk: u64|
                            1 <= kk <= 4 && (moved == vstd::wrapping::u64_specs::wrapping_add(
                                arg@->Const_0,
                                kk,
                            ) || moved == vstd::wrapping::u64_specs::wrapping_sub(
                                arg@->Const_0,
                                kk,
                            ))) by {
                            assert(1 <= k <= 4 && moved
                                == vstd::wrapping::u64_specs::wrapping_add(arg@->Const_0, k));
                        }
                        assert(int_mutation_ok(ArgV::Const(moved), arg@, ty@));
                    }
                    moved
                } else if pick == 1 {
                    let k = rng.below(4) as u64 + 1;
                    let moved = old_val.wrapping_sub(k);
                    proof {
                        assert(arg@->Const_0 == old_val);
                        assert(exists|kk: u64|
                            1 <= kk <= 4 && (moved == vstd::wrapping::u64_specs::wrapping_add(
                                arg@->Const_0,
                                kk,
                            ) || moved == vstd::wrapping::u64_specs::wrapping_sub(
                                arg@->Const_0,
                                kk,
                            ))) by {
                            assert(1 <= k <= 4 && moved
                                == vstd::wrapping::u64_specs::wrapping_sub(arg@->Const_0, k));
                        }
                        assert(int_mutation_ok(ArgV::Const(moved), arg@, ty@));
                    }
                    moved
                } else {
                    let shift = rng.below(t.bits as usize);
                    proof {
                        assert(shift < 64);
                    }
                    let flipped = old_val ^ (1u64 << shift);
                    proof {
                        assert(arg@->Const_0 == old_val);
                        assert(exists|s: u64|
                            s < ty@->Int_bits && flipped == (arg@->Const_0 ^ (1u64 << s))) by {
                            assert((shift as u64) < ty@->Int_bits && flipped == (arg@->Const_0 ^ (
                            1u64 << (shift as u64))));
                        }
                        assert(int_mutation_ok(ArgV::Const(flipped), arg@, ty@));
                    }
                    flipped
                }
            };
            let calls: Vec<Call> = Vec::new();
            proof {
                lemma_nocalls(old(ctx)@, ctx@, calls@);
                assert(int_mutation_ok(ArgV::Const(new_val), arg@, ty@));
            }
            (Arg::Const(ConstArg(new_val)), calls)
        },
        Type::Flag(t) => {
            let old_val = match &arg {
                Arg::Const(c) => c.0,
                _ => {
                    proof {
                        assert(false);
                    }
                    0
                },
            };
            // Resample until the value changes, within a budget; a final
            // forced bit flip guarantees the change either way
            let mut val = old_val;
            let mut budget: usize = 100;
            loop
                invariant
                    t.values@.len() >= 1,
                decreases budget,
            {
                if budget == 0 {
                    break;
                }
                budget = budget - 1;
                val = t.generate_value(rng, old_val);
                if val != old_val {
                    break;
                }
            }
            if val == old_val {
                val = old_val ^ 1;
                proof {
                    assert(old_val ^ 1 != old_val) by (bit_vector);
                }
            }
            let calls: Vec<Call> = Vec::new();
            proof {
                lemma_nocalls(old(ctx)@, ctx@, calls@);
            }
            (Arg::Const(ConstArg(val)), calls)
        },
        Type::Array(t) => {
            // Resize within the admissible lengths: truncate to a shorter
            // length or generate extra elements up to a longer one
            let mut elems: Vec<Arg> = match arg {
                Arg::Group(g) => g.0,
                other => {
                    proof {
                        assert(false);
                    }
                    Vec::new()
                },
            };
            proof {
                lemma_view_seq_props(elems@);
            }
            let new_len: usize = match t.range {
                Some((lo, hi)) => {
                    proof {
                        assert(lo <= hi <= MAX_BUFFER_LENGTH);
                    }
                    rng.between(lo as usize, hi as usize)
                },
                None => rand_array_length(rng) as usize,
            };
            let ghost c0 = ctx@;
            let mut calls: Vec<Call> = Vec::new();
            proof {
                lemma_nocalls(c0, ctx@, calls@);
                assert(Arg::view_seq(elems@) == arg@->Group_0);
                assert forall|k: int|
                    0 <= k < elems@.len() implies arg_matches(
                    #[trigger] Arg::view_seq(elems@)[k],
                    t.elem@,
                ) && arg_refs_in(Arg::view_seq(elems@)[k], ctx@.results) by {
                    assert(arg_matches(arg@->Group_0[k], t.elem@));
                    assert forall|id: u64| #[trigger] arg_has_ref(Arg::view_seq(elems@)[k], id)
                        implies results_has_id(ctx@.results, id) by {
                        assert(arg_has_ref(arg@, id));
                    }
                }
            }
            if new_len <= elems.len() {
                let ghost prev = elems@;
                elems.truncate(new_len);
                proof {
                    assert(elems@ =~= prev.take(new_len as int));
                    lemma_view_seq_props(prev);
                    lemma_view_seq_props(elems@);
                    assert forall|k: int|
                        0 <= k < elems@.len() implies arg_matches(
                        #[trigger] Arg::view_seq(elems@)[k],
                        t.elem@,
                    ) && arg_refs_in(Arg::view_seq(elems@)[k], ctx@.results) by {
                        assert(elems@[k] == prev[k]);
                        assert(Arg::view_seq(prev)[k] == prev[k]@);
                    }
                }
            } else {
                while elems.len() < new_len
                    invariant
                        catalog_ok(c0.metadata),
                        type_wf(t.elem@),
                        type_height(t.elem@) < type_height(ty@),
                        ctx@.metadata == c0.metadata,
                        gen_post(c0, ctx@, Call::view_calls(calls@)),
                        forall|k: int|
                            0 <= k < elems@.len() ==> arg_matches(
                                #[trigger] Arg::view_seq(elems@)[k],
                                t.elem@,
                            ),
                        forall|k: int|
                            0 <= k < elems@.len() ==> arg_refs_in(
                                #[trigger] Arg::view_seq(elems@)[k],
                                ctx@.results,
                            ),
                        elems@.len() <= new_len,
                    decreases new_len - elems@.len(),
                {
                    let ghost cpre = ctx@;
                    let ghost elems0 = elems@;
                    let ghost calls0 = calls@;
                    let res = generate_arg(rng, ctx, &*t.elem, generating);
                    let a = res.0;
                    let mut cs = res.1;
                    let ghost cs0 = cs@;
                    elems.push(a);
                    calls.append(&mut cs);
                    proof {
                        crate::generate::extend_block(c0, cpre, ctx@, calls0, cs0);
                        lemma_view_seq_props(elems0);
                        lemma_view_seq_props(elems@);
                        assert(elems@ =~= elems0.push(a));
                        assert forall|k: int|
                            0 <= k < elems@.len() implies arg_matches(
                            #[trigger] Arg::view_seq(elems@)[k],
                            t.elem@,
                        ) && arg_refs_in(Arg::view_seq(elems@)[k], ctx@.results) by {
                            if k < elems0.len() {
                                assert(Arg::view_seq(elems@)[k] == elems0[k]@);
                                assert(Arg::view_seq(elems0)[k] == elems0[k]@);
                                crate::generate::lemma_refs_in_extend(
                                    elems0[k]@,
                                    cpre.results,
                                    spec_replay(c0.metadata, Call::view_calls(cs0)),
                                );
                            } else {
                                assert(Arg::view_seq(elems@)[k] == a@);
                            }
                        }
                    }
                }
            }
            let a = Arg::Group(GroupArg(elems));
            proof {
                lemma_view_seq_props(a->Group_0.0@);
                assert(arg_matches(a@, ty@));
                assert forall|id: u64| #[trigger] arg_has_ref(a@, id) implies results_has_id(
                    ctx@.results,
                    id,
                ) by {
                    let s = a@->Group_0;
                    let k = choose|k: int| 0 <= k < s.len() && arg_has_ref(#[trigger] s[k], id);
                }
            }
            (a, calls)
        },
        Type::Pointer(t) => {
            let regenerate = rng.one_of(3);
            match arg {
                Arg::Pointer(PointerArg::Data(b)) if !regenerate => {
                    // Mutate the pointee in place
                    proof {
                        assert(arg_matches((*b)@, t.elem@));
                        assert forall|id: u64| #[trigger] arg_has_ref((*b)@, id)
                            implies results_has_id(old(ctx)@.results, id) by {
                            assert(arg_has_ref(arg@, id));
                        }
                    }
                    let res = mutate_arg(rng, ctx, &*t.elem, *b, generating);
                    let inner = res.0;
                    let ghost iv = inner@;
                    let a = Arg::Pointer(PointerArg::Data(Box::new(inner)));
                    proof {
                        assert(a@ == ArgV::PointerData(Box::new(iv)));
                        assert(arg_matches(a@, ty@));
                        assert forall|id: u64| #[trigger] arg_has_ref(a@, id)
                            implies results_has_id(ctx@.results, id) by {
                            assert(arg_has_ref(iv, id));
                        }
                    }
                    (a, res.1)
                },
                _ => {
                    // Regenerate the pointer entirely
                    generate_type_arg(rng, ctx, ty, generating)
                },
            }
        },
        Type::Buffer(crate::types::BufferType::String(t)) => {
            proof {
                assert forall|i: int|
                    0 <= i < t.values@.len() implies (#[trigger] t.values@[i])@.len()
                    <= MAX_BUFFER_LENGTH by {
                    assert(ty@->BufferString_values[i] == t.values@[i]@);
                    assert(ty@->BufferString_values[i].len() <= MAX_BUFFER_LENGTH);
                }
            }
            let a = match arg {
                Arg::Data(DataArg::In(data)) => {
                    if t.values.len() > 0 {
                        // Regenerate from the preset values
                        let s = generate_string_value(rng, ctx, t);
                        Arg::Data(DataArg::In(s))
                    } else {
                        let mut data = data;
                        havoc_bytes(rng, &mut data, None, t.no_zero);
                        Arg::Data(DataArg::In(data))
                    }
                },
                Arg::Data(DataArg::Out(len)) => {
                    let n = mutate_buffer_length(rng, len, None);
                    Arg::Data(DataArg::Out(n))
                },
                other => {
                    proof {
                        assert(false);
                    }
                    other
                },
            };
            let calls: Vec<Call> = Vec::new();
            proof {
                lemma_nocalls(old(ctx)@, ctx@, calls@);
            }
            (a, calls)
        },
        Type::Buffer(crate::types::BufferType::Filename(t)) => {
            let a = match arg {
                Arg::Data(DataArg::In(_)) => {
                    // Regenerate the filename
                    let s = generate_filename_value(rng, ctx, t.no_zero);
                    Arg::Data(DataArg::In(s))
                },
                Arg::Data(DataArg::Out(len)) => {
                    let n = if rng.one_of(100) {
                        rand_filename_length(rng)
                    } else {
                        mutate_buffer_length(rng, len, None)
                    };
                    Arg::Data(DataArg::Out(n))
                },
                other => {
                    proof {
                        assert(false);
                    }
                    other
                },
            };
            let calls: Vec<Call> = Vec::new();
            proof {
                lemma_nocalls(old(ctx)@, ctx@, calls@);
            }
            (a, calls)
        },
        Type::Buffer(crate::types::BufferType::Byte(t)) => {
            let a = match arg {
                Arg::Data(DataArg::In(data)) => {
                    let mut data = data;
                    havoc_bytes(rng, &mut data, t.range, false);
                    Arg::Data(DataArg::In(data))
                },
                Arg::Data(DataArg::Out(len)) => {
                    let n = mutate_buffer_length(rng, len, t.range);
                    Arg::Data(DataArg::Out(n))
                },
                other => {
                    proof {
                        assert(false);
                    }
                    other
                },
            };
            let calls: Vec<Call> = Vec::new();
            proof {
                lemma_nocalls(old(ctx)@, ctx@, calls@);
            }
            (a, calls)
        },
        Type::Struct(t) => {
            // Mutate one member field
            let mut elems: Vec<Arg> = match arg {
                Arg::Group(g) => g.0,
                other => {
                    proof {
                        assert(false);
                    }
                    Vec::new()
                },
            };
            proof {
                lemma_view_seq_props(elems@);
                lemma_view_fields_props(t.fields@);
            }
            if t.fields.len() == 0 {
                let a = Arg::Group(GroupArg(elems));
                let calls: Vec<Call> = Vec::new();
                proof {
                    lemma_nocalls(old(ctx)@, ctx@, calls@);
                    assert(Arg::view_seq(elems@) =~= arg@->Group_0);
                    assert(a@ == arg@);
                }
                return (a, calls);
            }
            let k = rng.below(t.fields.len());
            proof {
                crate::types::lemma_fields_wf_index(Type::view_fields(t.fields@), k as int);
                lemma_fields_height_bound(Type::view_fields(t.fields@), k as int);
                assert(Type::view_fields(t.fields@)[k as int].ty == t.fields@[k as int]@.ty);
                assert(Arg::view_seq(elems@)[k as int] == elems@[k as int]@);
            }
            let ghost elems0 = elems@;
            let elem = elems.remove(k);
            proof {
                assert(arg_matches(elem@, t.fields@[k as int]@.ty));
                assert forall|id: u64| #[trigger] arg_has_ref(elem@, id) implies results_has_id(
                    old(ctx)@.results,
                    id,
                ) by {
                    assert(arg_has_ref(arg@->Group_0[k as int], id));
                    assert(arg_has_ref(arg@, id));
                }
            }
            let res = mutate_arg(rng, ctx, &t.fields[k].ty, elem, generating);
            elems.insert(k, res.0);
            let a = Arg::Group(GroupArg(elems));
            proof {
                assert(elems@ =~= elems0.update(k as int, elems@[k as int]));
                lemma_view_seq_props(elems0);
                lemma_view_seq_props(elems@);
                assert(Arg::view_seq(elems@) =~= arg@->Group_0.update(
                    k as int,
                    elems@[k as int]@,
                ));
                assert(arg_matches(a@, ty@));
                assert forall|id: u64| #[trigger] arg_has_ref(a@, id) implies results_has_id(
                    ctx@.results,
                    id,
                ) by {
                    let s = a@->Group_0;
                    let m = choose|m: int| 0 <= m < s.len() && arg_has_ref(#[trigger] s[m], id);
                    if m == k {
                        assert(arg_refs_in(res.0@, ctx@.results));
                    } else {
                        assert(s[m] == arg@->Group_0[m]);
                        assert(arg_has_ref(arg@, id));
                        assert(results_has_id(old(ctx)@.results, id));
                        crate::generate::lemma_has_id_extend(
                            old(ctx)@.results,
                            spec_replay(old(ctx)@.metadata, Call::view_calls(res.1@)),
                            id,
                        );
                    }
                }
            }
            (a, res.1)
        },
        Type::Union(t) => {
            // Re-tag: choose a variant afresh and generate it
            proof {
                lemma_view_fields_props(t.fields@);
            }
            let k = rng.below(t.fields.len());
            proof {
                crate::types::lemma_fields_wf_index(Type::view_fields(t.fields@), k as int);
                lemma_fields_height_bound(Type::view_fields(t.fields@), k as int);
                assert(Type::view_fields(t.fields@)[k as int].ty == t.fields@[k as int]@.ty);
            }
            let res = generate_arg(rng, ctx, &t.fields[k].ty, generating);
            proof {
                assert(arg_matches(res.0@, Type::view_fields(t.fields@)[k as int].ty));
            }
            (res.0, res.1)
        },
        Type::Resource(_) => {
            // Regenerate the resource; this may add prerequisite calls
            generate_type_arg(rng, ctx, ty, generating)
        },
    }
}

/// Cutting a closed program and appending another closed program keeps the
/// dataflow closed: each part's references resolve within itself.
pub proof fn lemma_dataflow_splice(p: Seq<CallV>, q: Seq<CallV>, pos: int)
    requires
        dataflow_ok(p),
        dataflow_ok(q),
        0 <= pos <= p.len(),
    ensures
        dataflow_ok(p.take(pos) + q),
{
    let r = p.take(pos) + q;
    assert forall|i: int, id: u64|
        0 <= i < r.len() && #[trigger] call_has_ref(r[i], id) implies exists|j: int|
        0 <= j < i && r[j].result == Some(id) by {
        if i < pos {
            assert(r[i] == p[i]);
            let j = choose|j: int| 0 <= j < i && (#[trigger] p[j]).result == Some(id);
            assert(r[j].result == Some(id));
        } else {
            let qi = i - pos;
            assert(r[i] == q[qi]);
            let j = choose|j: int| 0 <= j < qi && (#[trigger] q[j]).result == Some(id);
            assert(r[pos + j].result == Some(id));
        }
    }
}

/// Inserting a block linked against the prefix's replay keeps the dataflow
/// closed.
pub proof fn lemma_dataflow_insert(meta: Seq<SyscallV>, p: Seq<CallV>, pos: int, cs: Seq<CallV>)
    requires
        dataflow_ok(p),
        0 <= pos <= p.len(),
        calls_linked(spec_replay(meta, p.take(pos)), cs),
    ensures
        dataflow_ok(p.take(pos) + cs + p.skip(pos)),
{
    let r = p.take(pos) + cs + p.skip(pos);
    assert forall|i: int, id: u64|
        0 <= i < r.len() && #[trigger] call_has_ref(r[i], id) implies exists|j: int|
        0 <= j < i && r[j].result == Some(id) by {
        if i < pos {
            assert(r[i] == p[i]);
            let j = choose|j: int| 0 <= j < i && (#[trigger] p[j]).result == Some(id);
            assert(r[j].result == Some(id));
        } else if i < pos + cs.len() {
            let ci = i - pos;
            assert(r[i] == cs[ci]);
            if results_has_id(spec_replay(meta, p.take(pos)), id) {
                lemma_replay_ids(meta, p.take(pos), id);
                let j = choose|j: int|
                    0 <= j < p.take(pos).len() && (#[trigger] p.take(pos)[j]).result == Some(id);
                assert(r[j].result == Some(id));
            } else {
                let k = choose|k: int| 0 <= k < ci && (#[trigger] cs[k]).result == Some(id);
                assert(r[pos + k].result == Some(id));
            }
        } else {
            let oi = i - cs.len();
            assert(r[i] == p[oi]);
            let j = choose|j: int| 0 <= j < oi && (#[trigger] p[j]).result == Some(id);
            if j < pos {
                assert(r[j].result == Some(id));
            } else {
                assert(r[j + cs.len()] == p[j]);
                assert(r[j + cs.len()].result == Some(id));
            }
        }
    }
}

/// Mutating one call's argument — with its prerequisite block inserted just
/// before it — keeps the dataflow closed, provided the new argument's
/// references resolve against the prefix's replay extended by the block's.
pub proof fn lemma_dataflow_mutate(
    meta: Seq<SyscallV>,
    p: Seq<CallV>,
    pos: int,
    cs: Seq<CallV>,
    cprime: CallV,
)
    requires
        dataflow_ok(p),
        0 <= pos < p.len(),
        calls_linked(spec_replay(meta, p.take(pos)), cs),
        cprime.result == p[pos].result,
        forall|id: u64| #[trigger] call_has_ref(cprime, id) ==> call_has_ref(p[pos], id)
            || results_has_id(
            spec_replay(meta, p.take(pos)) + spec_replay(meta, cs),
            id,
        ),
    ensures
        dataflow_ok(p.take(pos) + cs + seq![cprime] + p.skip(pos + 1)),
{
    let r = p.take(pos) + cs + seq![cprime] + p.skip(pos + 1);
    assert forall|i: int, id: u64|
        0 <= i < r.len() && #[trigger] call_has_ref(r[i], id) implies exists|j: int|
        0 <= j < i && r[j].result == Some(id) by {
        if i < pos {
            assert(r[i] == p[i]);
            let j = choose|j: int| 0 <= j < i && (#[trigger] p[j]).result == Some(id);
            assert(r[j].result == Some(id));
        } else if i < pos + cs.len() {
            let ci = i - pos;
            assert(r[i] == cs[ci]);
            if results_has_id(spec_replay(meta, p.take(pos)), id) {
                lemma_replay_ids(meta, p.take(pos), id);
                let j = choose|j: int|
                    0 <= j < p.take(pos).len() && (#[trigger] p.take(pos)[j]).result == Some(id);
                assert(r[j].result == Some(id));
            } else {
                let k = choose|k: int| 0 <= k < ci && (#[trigger] cs[k]).result == Some(id);
                assert(r[pos + k].result == Some(id));
            }
        } else if i == pos + cs.len() {
            assert(r[i] == cprime);
            if call_has_ref(p[pos], id) {
                let j = choose|j: int| 0 <= j < pos && (#[trigger] p[j]).result == Some(id);
                assert(r[j].result == Some(id));
            } else {
                let both = spec_replay(meta, p.take(pos)) + spec_replay(meta, cs);
                let k = choose|k: int| 0 <= k < both.len() && (#[trigger] both[k]).0 == id;
                if k < spec_replay(meta, p.take(pos)).len() {
                    lemma_replay_ids(meta, p.take(pos), id);
                    let j = choose|j: int|
                        0 <= j < p.take(pos).len() && (#[trigger] p.take(pos)[j]).result == Some(
                            id,
                        );
                    assert(r[j].result == Some(id));
                } else {
                    assert(spec_replay(meta, cs)[k - spec_replay(meta, p.take(pos)).len()].0 == id);
                    lemma_replay_ids(meta, cs, id);
                    let m = choose|m: int| 0 <= m < cs.len() && (#[trigger] cs[m]).result == Some(id);
                    assert(r[pos + m].result == Some(id));
                }
            }
        } else {
            let oi = i - cs.len();
            assert(r[i] == p[oi]);
            let j = choose|j: int| 0 <= j < oi && (#[trigger] p[j]).result == Some(id);
            if j < pos {
                assert(r[j].result == Some(id));
            } else if j == pos {
                assert(r[pos + cs.len()].result == Some(id));
            } else {
                assert(r[j + cs.len()] == p[j]);
                assert(r[j + cs.len()].result == Some(id));
            }
        }
    }
}

/// After a rewiring replacement the call keeps no reference to the
/// replaced identifier and gains none.
pub proof fn lemma_replace_call_refs(c: CallV, id: u64, d: ArgV, id2: u64)
    requires
        forall|x: u64| !arg_has_ref(d, x),
        call_has_ref(crate::wf::replace_ref_call(c, id, d), id2),
    ensures
        call_has_ref(c, id2),
        id2 != id,
{
    crate::wf::lemma_replace_ref_args_props(c.args, id, d);
    let rc = crate::wf::replace_ref_call(c, id, d);
    let i = choose|i: int| 0 <= i < rc.args.len() && arg_has_ref(#[trigger] rc.args[i], id2);
    crate::wf::lemma_replace_refs(c.args[i], id, d, id2);
}

/// Rewiring keeps a call well-formed when the replacement is a literal.
pub proof fn lemma_replace_call_wf(c: CallV, id: u64, d: ArgV, meta: Seq<SyscallV>)
    requires
        crate::wf::call_wf(c, meta),
        d is ResultLiteral,
    ensures
        crate::wf::call_wf(crate::wf::replace_ref_call(c, id, d), meta),
{
    crate::wf::lemma_replace_ref_args_props(c.args, id, d);
    let rc = crate::wf::replace_ref_call(c, id, d);
    let s = crate::metadata::spec_find_number(meta, c.nr)->Some_0;
    assert forall|i: int| 0 <= i < rc.args.len() implies arg_matches(
        #[trigger] rc.args[i],
        s.fields[i].ty,
    ) by {
        crate::wf::lemma_replace_matches(c.args[i], s.fields[i].ty, id, d);
    }
}

/// Removing a call keeps the program well-formed and its dataflow closed.
pub proof fn lemma_remove_preserves(meta: Seq<SyscallV>, p: Seq<CallV>, idx: int)
    requires
        program_wf(p, meta),
        dataflow_ok(p),
        crate::metadata::metadata_wf(meta),
        0 <= idx < p.len(),
    ensures
        program_wf(crate::input::removed_program(p, idx, meta), meta),
        dataflow_ok(crate::input::removed_program(p, idx, meta)),
{
    let q = crate::input::removed_program(p, idx, meta);
    match p[idx].result {
        None => {
            assert(q =~= p.take(idx) + p.skip(idx + 1));
            assert forall|i: int| 0 <= i < q.len() implies crate::wf::call_wf(
                #[trigger] q[i],
                meta,
            ) by {
                if i < idx {
                    assert(q[i] == p[i]);
                } else {
                    assert(q[i] == p[i + 1]);
                }
            }
            assert forall|i: int, id: u64|
                0 <= i < q.len() && #[trigger] call_has_ref(q[i], id) implies exists|j: int|
                0 <= j < i && q[j].result == Some(id) by {
                let oi = if i < idx {
                    i
                } else {
                    i + 1
                };
                assert(q[i] == p[oi]);
                let j = choose|j: int| 0 <= j < oi && (#[trigger] p[j]).result == Some(id);
                assert(j != idx);
                if j < idx {
                    assert(q[j] == p[j]);
                    assert(q[j].result == Some(id));
                } else {
                    assert(q[j - 1] == p[j]);
                    assert(q[j - 1].result == Some(id));
                    assert(j - 1 < i);
                }
            }
        },
        Some(rid) => {
            let d = match crate::metadata::spec_find_number(meta, p[idx].nr) {
                Some(s) => match s.ret {
                    Some(t) => crate::wf::spec_default(t),
                    None => ArgV::ResultLiteral(0),
                },
                None => ArgV::ResultLiteral(0),
            };
            // The removed call is well-formed, so its syscall returns a
            // resource and the default is a literal without references.
            assert(crate::wf::call_wf(p[idx], meta));
            let s = crate::metadata::spec_find_number(meta, p[idx].nr)->Some_0;
            crate::metadata::lemma_find_number_props(meta, p[idx].nr);
            assert(crate::metadata::syscall_wf(s)) by {
                let k = choose|k: int| 0 <= k < meta.len() && #[trigger] meta[k] == s;
            }
            let rt = s.ret->Some_0;
            assert(rt is Resource);
            assert(d is ResultLiteral);
            assert(forall|x: u64| !arg_has_ref(d, x));
            let tail = crate::input::rewrite_tail(p.skip(idx + 1), rid, d);
            assert(q == p.take(idx) + tail);
            assert forall|i: int| 0 <= i < q.len() implies crate::wf::call_wf(
                #[trigger] q[i],
                meta,
            ) by {
                if i < idx {
                    assert(q[i] == p[i]);
                } else {
                    assert(q[i] == crate::wf::replace_ref_call(p[i + 1], rid, d));
                    lemma_replace_call_wf(p[i + 1], rid, d, meta);
                }
            }
            assert forall|i: int, id: u64|
                0 <= i < q.len() && #[trigger] call_has_ref(q[i], id) implies exists|j: int|
                0 <= j < i && q[j].result == Some(id) by {
                if i < idx {
                    assert(q[i] == p[i]);
                    let j = choose|j: int| 0 <= j < i && (#[trigger] p[j]).result == Some(id);
                    assert(q[j].result == Some(id));
                } else {
                    let oi = i + 1;
                    assert(q[i] == crate::wf::replace_ref_call(p[oi], rid, d));
                    lemma_replace_call_refs(p[oi], rid, d, id);
                    assert(call_has_ref(p[oi], id) && id != rid);
                    let j = choose|j: int| 0 <= j < oi && (#[trigger] p[j]).result == Some(id);
                    assert(j != idx);
                    if j < idx {
                        assert(q[j] == p[j]);
                        assert(q[j].result == Some(id));
                    } else {
                        assert(q[j - 1] == crate::wf::replace_ref_call(p[j], rid, d));
                        assert(q[j - 1].result == Some(id));
                        assert(j - 1 < i);
                    }
                }
            }
        },
    }
}

/// Emitting no calls keeps every mutation guarantee.
proof fn lemma_nocalls(oldc: ContextV, newc: ContextV, calls: Seq<Call>)
    requires
        newc.metadata == oldc.metadata,
        newc.results == oldc.results,
        calls.len() == 0,
    ensures
        gen_post(oldc, newc, Call::view_calls(calls)),
{
    assert(Call::view_calls(calls) =~= Seq::<CallV>::empty());
    assert(spec_replay(oldc.metadata, Call::view_calls(calls)) =~= Seq::<(u64, TypeV)>::empty());
    assert(oldc.results + spec_replay(oldc.metadata, Call::view_calls(calls)) =~= oldc.results);
}

use crate::input::SyscallInput;

/// Splices another program into the input: the input is cut at a random
/// position, the other program's calls follow, and the result is bounded
/// by `max_size`.
pub struct SyscallSpliceMutator;

impl SyscallSpliceMutator {
    pub fn mutate(&self, rng: &mut Rng, input: &mut SyscallInput, other: &SyscallInput,
        max_size: usize) -> (r: MutationResult)
        requires
            dataflow_ok(old(input)@),
            dataflow_ok(other@),
        ensures
            r == MutationResult::Skipped <==> (old(input)@.len() == 0 || old(input)@.len()
                > max_size),
            r == MutationResult::Skipped ==> final(input)@ == old(input)@,
            r == MutationResult::Mutated ==> final(input)@.len() <= max_size,
            dataflow_ok(final(input)@),
            forall|m: Seq<SyscallV>|
                program_wf(old(input)@, m) && program_wf(other@, m) ==> program_wf(
                    final(input)@,
                    m,
                ),
    {
        if input.len() == 0 || input.len() > max_size {
            return MutationResult::Skipped;
        }
        let ghost p = input@;
        let ghost q = other@;
        let pos = rng.below(input.len());
        let other_calls = crate::call::clone_calls(other.calls());
        input.splice(pos, other_calls);
        proof {
            lemma_dataflow_splice(p, q, pos as int);
        }
        let ghost mid = input@;
        input.truncate(max_size);
        proof {
            if max_size <= mid.len() {
                crate::wf::lemma_dataflow_take(mid, max_size as int);
            }
            assert forall|m: Seq<SyscallV>|
                program_wf(p, m) && program_wf(q, m) implies program_wf(input@, m) by {
                assert forall|i: int| 0 <= i < input@.len() implies crate::wf::call_wf(
                    #[trigger] input@[i],
                    m,
                ) by {
                    assert(input@[i] == mid[i]);
                    if i < pos {
                        assert(mid[i] == p[i]);
                    } else {
                        assert(mid[i] == q[i - pos]);
                    }
                }
            }
        }
        MutationResult::Mutated
    }
}

/// Inserts the calls of one freshly generated syscall at a random position,
/// bounded by `max_size`.
pub struct SyscallInsertMutator {
    pub metadata: SyscallMetadata,
}

impl SyscallInsertMutator {
    pub fn new(metadata: SyscallMetadata) -> (r: Self)
        ensures
            r.metadata@ == metadata@,
    {
        SyscallInsertMutator { metadata }
    }

    pub fn mutate(&self, rng: &mut Rng, input: &mut SyscallInput, max_size: usize) -> (r:
        MutationResult)
        requires
            catalog_ok(self.metadata@),
            self.metadata@.len() >= 1,
            program_wf(old(input)@, self.metadata@),
            dataflow_ok(old(input)@),
        ensures
            r == MutationResult::Skipped <==> old(input)@.len() >= max_size,
            r == MutationResult::Skipped ==> final(input)@ == old(input)@,
            r == MutationResult::Mutated ==> final(input)@.len() <= max_size,
            program_wf(final(input)@, self.metadata@),
            dataflow_ok(final(input)@),
    {
        if input.len() >= max_size {
            return MutationResult::Skipped;
        }
        let ghost p = input@;
        let ghost meta = self.metadata@;
        let pos = rng.below(input.len() + 1);

        // Rebuild the generation state the prefix leaves behind
        let mut ctx = Context::with_calls(self.metadata.deep_clone(), input.calls(), pos);
        proof {
            assert(p.subrange(0, pos as int) =~= p.take(pos as int));
        }

        // Generate one syscall's calls at that point
        let idx = rng.below(self.metadata.syscalls().len());
        let syscall = self.metadata.syscalls()[idx].deep_clone();
        proof {
            assert(meta[idx as int] == syscall@);
            assert(meta.contains(syscall@));
        }
        let ghost c0 = ctx@;
        let new_calls = generate_call(rng, &mut ctx, &syscall, false);
        let ghost cs = Call::view_calls(new_calls@);

        input.insert(pos, new_calls);
        proof {
            lemma_dataflow_insert(meta, p, pos as int, cs);
        }
        let ghost mid = input@;
        input.truncate(max_size);
        proof {
            if max_size <= mid.len() {
                crate::wf::lemma_dataflow_take(mid, max_size as int);
            }
            assert forall|i: int| 0 <= i < input@.len() implies crate::wf::call_wf(
                #[trigger] input@[i],
                meta,
            ) by {
                assert(input@[i] == mid[i]);
                if i < pos {
                    assert(mid[i] == p[i]);
                } else if i < pos + cs.len() {
                    assert(mid[i] == cs[i - pos]);
                } else {
                    assert(mid[i] == p[i - cs.len()]);
                }
            }
        }
        MutationResult::Mutated
    }
}

/// Mutates one randomly chosen argument of one randomly chosen call; any
/// prerequisite calls the mutation needed are inserted just before it.
pub struct SyscallRandMutator {
    pub metadata: SyscallMetadata,
}

impl SyscallRandMutator {
    pub fn new(metadata: SyscallMetadata) -> (r: Self)
        ensures
            r.metadata@ == metadata@,
    {
        SyscallRandMutator { metadata }
    }

    pub fn mutate(&self, rng: &mut Rng, input: &mut SyscallInput, max_size: usize) -> (r:
        MutationResult)
        requires
            catalog_ok(self.metadata@),
            program_wf(old(input)@, self.metadata@),
            dataflow_ok(old(input)@),
        ensures
            r == MutationResult::Skipped ==> final(input)@ == old(input)@,
            r == MutationResult::Skipped ==> (old(input)@.len() == 0 || exists|i: int|
                0 <= i < old(input)@.len() && no_fields_call(
                    #[trigger] old(input)@[i],
                    self.metadata@,
                )),
            (old(input)@.len() > 0 && (forall|i: int|
                0 <= i < old(input)@.len() ==> !no_fields_call(
                    #[trigger] old(input)@[i],
                    self.metadata@,
                ))) ==> r == MutationResult::Mutated,
            r == MutationResult::Mutated ==> final(input)@.len() <= max_size,
            program_wf(final(input)@, self.metadata@),
            dataflow_ok(final(input)@),
    {
        let n = input.len();
        if n == 0 {
            return MutationResult::Skipped;
        }
        let ghost p = input@;
        let ghost meta = self.metadata@;
        let pos = rng.below(n);
        proof {
            assert(crate::wf::call_wf(p[pos as int], meta));
        }

        // Rebuild the generation state the prefix leaves behind
        let mut ctx = Context::with_calls(self.metadata.deep_clone(), input.calls(), pos);
        proof {
            assert(p.subrange(0, pos as int) =~= p.take(pos as int));
        }

        let nr = input.get(pos).number();
        let sc = match self.metadata.find_number(nr) {
            Some(sc) => sc,
            None => {
                proof {
                    assert(false);
                }
                return MutationResult::Skipped;
            },
        };
        let nf = sc.fields().len();
        if nf == 0 {
            return MutationResult::Skipped;
        }
        let apos = rng.below(nf);
        proof {
            crate::metadata::lemma_find_number_props(meta, nr);
            assert(meta.contains(sc@));
            let k = choose|k: int| 0 <= k < meta.len() && #[trigger] meta[k] == sc@;
            assert(crate::metadata::syscall_wf(sc@));
            crate::types::lemma_fields_wf_index(sc@.fields, apos as int);
        }

        // Copy the argument out and mutate it
        let args_ref = input.get(pos).args();
        proof {
            crate::call::lemma_view_seq_props(args_ref@);
            assert(args_ref@.len() == p[pos as int].args.len());
        }
        let old_arg = args_ref[apos].deep_clone();
        proof {
            assert(old_arg@ == p[pos as int].args[apos as int]);
            assert(arg_matches(old_arg@, sc@.fields[apos as int].ty));
            assert forall|id: u64| #[trigger] arg_has_ref(old_arg@, id) implies results_has_id(
                ctx@.results,
                id,
            ) by {
                assert(call_has_ref(p[pos as int], id));
                let j = choose|j: int| 0 <= j < pos && (#[trigger] p[j]).result == Some(id);
                assert(p.take(pos as int)[j] == p[j]);
                crate::wf::lemma_replay_contains(meta, p.take(pos as int), j);
            }
        }
        let ghost c0 = ctx@;
        let res = mutate_arg(rng, &mut ctx, &sc.fields()[apos].ty, old_arg, false);
        let new_arg = res.0;
        let new_calls = res.1;
        let ghost cs = Call::view_calls(new_calls@);
        let ghost na = new_arg@;

        input.set_call_arg(pos, apos, new_arg);
        let ghost cprime = input@[pos as int];
        input.insert(pos, new_calls);
        proof {
            assert(input@ =~= p.take(pos as int) + cs + seq![cprime] + p.skip(pos + 1)) by {
                assert(p.update(pos as int, cprime).take(pos as int) =~= p.take(pos as int));
                assert(p.update(pos as int, cprime).skip(pos as int) =~= seq![cprime] + p.skip(
                    pos + 1,
                ));
                assert(p.take(pos as int) + cs + (seq![cprime] + p.skip(pos + 1)) =~= p.take(
                    pos as int,
                ) + cs + seq![cprime] + p.skip(pos + 1));
            }
            // The updated call keeps its result and only gained references
            // that resolve before it.
            assert forall|id: u64| #[trigger] call_has_ref(cprime, id) implies call_has_ref(
                p[pos as int],
                id,
            ) || results_has_id(
                spec_replay(meta, p.take(pos as int)) + spec_replay(meta, cs),
                id,
            ) by {
                let ai = choose|ai: int|
                    0 <= ai < cprime.args.len() && arg_has_ref(#[trigger] cprime.args[ai], id);
                if ai == apos {
                    assert(arg_has_ref(na, id));
                    assert(results_has_id(ctx@.results, id));
                    assert(ctx@.results =~= spec_replay(meta, p.take(pos as int)) + spec_replay(
                        meta,
                        cs,
                    ));
                } else {
                    assert(cprime.args[ai] == p[pos as int].args[ai]);
                }
            }
            lemma_dataflow_mutate(meta, p, pos as int, cs, cprime);
            // The updated call stays well-formed
            assert(crate::wf::call_wf(cprime, meta)) by {
                assert forall|i: int| 0 <= i < cprime.args.len() implies arg_matches(
                    #[trigger] cprime.args[i],
                    sc@.fields[i].ty,
                ) by {
                    if i != apos {
                        assert(cprime.args[i] == p[pos as int].args[i]);
                    }
                }
            }
        }
        let ghost mid = input@;
        input.truncate(max_size);
        proof {
            if max_size <= mid.len() {
                crate::wf::lemma_dataflow_take(mid, max_size as int);
            }
            assert forall|i: int| 0 <= i < input@.len() implies crate::wf::call_wf(
                #[trigger] input@[i],
                meta,
            ) by {
                assert(input@[i] == mid[i]);
                if i < pos {
                    assert(mid[i] == p[i]);
                } else if i < pos + cs.len() {
                    assert(mid[i] == cs[i - pos]);
                } else if i == pos + cs.len() {
                    assert(mid[i] == cprime);
                } else {
                    assert(mid[i] == p[i - cs.len()]);
                }
            }
        }
        MutationResult::Mutated
    }
}

/// Removes one randomly chosen call, rewiring any reference to its result
/// to the resource type's default.
pub struct SyscallRemoveMutator {
    pub metadata: SyscallMetadata,
}

impl SyscallRemoveMutator {
    pub fn new(metadata: SyscallMetadata) -> (r: Self)
        ensures
            r.metadata@ == metadata@,
    {
        SyscallRemoveMutator { metadata }
    }

    pub fn mutate(&self, rng: &mut Rng, input: &mut SyscallInput) -> (r: MutationResult)
        requires
            catalog_ok(self.metadata@),
            program_wf(old(input)@, self.metadata@),
            dataflow_ok(old(input)@),
        ensures
            r == MutationResult::Skipped <==> old(input)@.len() == 0,
            r == MutationResult::Skipped ==> final(input)@ == old(input)@,
            r == MutationResult::Mutated ==> final(input)@.len() == old(input)@.len() - 1,
            r == MutationResult::Mutated ==> exists|pos: int|
                0 <= pos < old(input)@.len() && final(input)@ == crate::input::removed_program(
                    old(input)@,
                    pos,
                    self.metadata@,
                ),
            program_wf(final(input)@, self.metadata@),
            dataflow_ok(final(input)@),
    {
        let n = input.len();
        if n == 0 {
            return MutationResult::Skipped;
        }
        let ghost p = input@;
        let pos = rng.below(n);
        input.remove(pos, &self.metadata);
        proof {
            lemma_remove_preserves(self.metadata@, p, pos as int);
            assert(0 <= pos < p.len() && input@ == crate::input::removed_program(
                p,
                pos as int,
                self.metadata@,
            ));
        }
        MutationResult::Mutated
    }
}

} // verus!
