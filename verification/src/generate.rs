//! Generation of arguments, calls and whole programs: every produced call
//! sequence is well-formed against the catalog and closed under resource
//! dataflow.

use vstd::prelude::*;

use crate::call::{lemma_view_calls_props, lemma_view_seq_props, Arg, ArgV, Call, CallV, ConstArg,
    DataArg, GroupArg, PointerArg, ResultArg};
use crate::types::Field;
use crate::context::{spec_replay, Context, ContextV};
use crate::metadata::{Syscall, SyscallV};
use crate::rand_util::{rand_array_length, rand_buffer_length, rand_filename_length, rand_int,
    rand_string, MAX_BUFFER_LENGTH};
use crate::rng::Rng;
use crate::types::{fields_height, lemma_fields_height_bound, lemma_view_fields_props, type_height,
    type_wf, Direction, FlagType, IntType, Type, TypeV};
use crate::wf::{arg_matches, call_has_ref, call_wf, calls_linked, dataflow_ok, numbers_unique,
    program_wf, results_has_id, arg_has_ref, lemma_find_number_of_member, lemma_replay_concat,
    lemma_replay_ids, lemma_spec_defaults_props, spec_default, spec_defaults};
use crate::metadata::metadata_wf;

verus! {

/// A catalog the generator can work against: well-formed syscalls with
/// pairwise distinct numbers.
pub open spec fn catalog_ok(meta: Seq<SyscallV>) -> bool {
    metadata_wf(meta) && numbers_unique(meta)
}

/// The argument only references resources the result list knows.
pub open spec fn arg_refs_in(a: crate::call::ArgV, rs: Seq<(u64, TypeV)>) -> bool {
    forall|id: u64| #[trigger] arg_has_ref(a, id) ==> results_has_id(rs, id)
}

/// What every generation step guarantees: the catalog is untouched, the
/// new results are exactly what replaying the emitted calls yields, and the
/// emitted calls are well-formed and internally linked.
pub open spec fn gen_post(
    oldc: ContextV,
    newc: ContextV,
    calls: Seq<CallV>,
) -> bool {
    &&& newc.metadata == oldc.metadata
    &&& newc.results == oldc.results + spec_replay(oldc.metadata, calls)
    &&& program_wf(calls, oldc.metadata)
    &&& calls_linked(oldc.results, calls)
}

/// The type is a resource with the given name.
pub open spec fn is_resource_named(t: TypeV, name: Seq<char>) -> bool {
    t matches TypeV::Resource { name: n, .. } && n == name
}

/// Some syscall of the catalog returns a resource with the given name.
pub open spec fn has_compatible_creator(meta: Seq<SyscallV>, name: Seq<char>) -> bool {
    exists|k: int| 0 <= k < meta.len() && ret_compatible(#[trigger] meta[k], name)
}

/// Some live result carries a resource with the given name.
pub open spec fn has_compatible_result(rs: Seq<(u64, TypeV)>, name: Seq<char>) -> bool {
    exists|k: int| 0 <= k < rs.len() && is_resource_named((#[trigger] rs[k]).1, name)
}

/// The argument is a fallback literal drawn from the resource's value set.
pub open spec fn is_fallback(a: ArgV, t: TypeV) -> bool {
    a matches ArgV::ResultLiteral(v) && t->Resource_values.contains(v)
}

/// The integer argument lies in the declared range, or fits the declared
/// width where no range is given.
pub open spec fn int_arg_ok(a: ArgV, t: TypeV) -> bool {
    a matches ArgV::Const(v) && match t->Int_range {
        Some((lo, hi)) => lo <= v <= hi,
        None => crate::rand_util::fits_bits(v, t->Int_bits),
    }
}

/// The declared length range admits a non-empty array.
pub open spec fn array_can_be_nonempty(t: TypeV) -> bool {
    match t->Array_range {
        Some((lo, hi)) => hi >= 1,
        None => true,
    }
}

/// An input filename that the type wants NUL-terminated ends in NUL, unless
/// it stands at the buffer cap.
pub open spec fn filename_nul_ok(t: TypeV, a: ArgV) -> bool {
    (t matches TypeV::BufferFilename { attr, no_zero } && !no_zero && (attr.dir is In
        || attr.dir is InOut)) ==> (a matches ArgV::DataIn(d) && (d.len() == MAX_BUFFER_LENGTH || (
    d.len() >= 1 && d.last() == 0)))
}

/// The payload is one of the presets, at most with a NUL appended.
pub open spec fn string_from_presets(d: Seq<u8>, values: Seq<Seq<u8>>) -> bool {
    exists|k: int| 0 <= k < values.len() && (d == #[trigger] values[k] || d == values[k].push(0))
}

/// An input string of a preset-valued buffer carries one of the presets,
/// at most with a NUL appended.
pub open spec fn string_preset_ok(t: TypeV, a: ArgV) -> bool {
    match t {
        TypeV::BufferString { attr, values, .. } => (values.len() > 0 && (attr.dir is In
            || attr.dir is InOut)) ==> (a matches ArgV::DataIn(d) && string_from_presets(d, values)),
        _ => true,
    }
}

/// What holds of one generated argument in every outcome, beyond type fit:
/// leaf kinds emit no prerequisite calls; a null pointer emits none; while
/// already inside resource generation a resource argument emits none and is
/// a reuse reference or a fallback literal; and with neither a live
/// compatible resource nor a compatible creator the argument falls back to
/// a literal from the value set.
pub open spec fn arg_gen_ok(
    ty: TypeV,
    generating: bool,
    oldc: ContextV,
    a: ArgV,
    calls: Seq<CallV>,
) -> bool {
    &&& (ty is Int || ty is Flag || ty is BufferString || ty is BufferFilename
        || ty is BufferByte) ==> calls.len() == 0
    &&& a is Addr ==> calls.len() == 0
    &&& (ty is Resource && generating) ==> (calls.len() == 0 && (a is ResultRef || is_fallback(
        a,
        ty,
    )))
    &&& (ty is Resource && calls.len() > 0) ==> has_compatible_creator(
        oldc.metadata,
        ty->Resource_name,
    )
    &&& (ty is Resource && !has_compatible_creator(oldc.metadata, ty->Resource_name)
        && !has_compatible_result(oldc.results, ty->Resource_name)) ==> (calls.len() == 0
        && is_fallback(a, ty))
}

/// An identifier found in a result list is still found after the list
/// grows.
pub proof fn lemma_has_id_extend(rs: Seq<(u64, TypeV)>, more: Seq<(u64, TypeV)>, id: u64)
    requires
        results_has_id(rs, id),
    ensures
        results_has_id(rs + more, id),
{
    let k = choose|k: int| 0 <= k < rs.len() && (#[trigger] rs[k]).0 == id;
    assert((rs + more)[k].0 == id);
}

/// Two linked blocks concatenate to a linked block when the second is
/// linked against the base extended by the first's replay.
proof fn lemma_linked_concat(
    meta: Seq<SyscallV>,
    base: Seq<(u64, TypeV)>,
    c1: Seq<CallV>,
    c2: Seq<CallV>,
)
    requires
        calls_linked(base, c1),
        calls_linked(base + spec_replay(meta, c1), c2),
    ensures
        calls_linked(base, c1 + c2),
{
    let all = c1 + c2;
    assert forall|j: int, id: u64|
        0 <= j < all.len() && #[trigger] call_has_ref(all[j], id) implies results_has_id(base, id)
        || exists|k: int| 0 <= k < j && all[k].result == Some(id) by {
        if j < c1.len() {
            assert(all[j] == c1[j]);
            if !results_has_id(base, id) {
                let k = choose|k: int| 0 <= k < j && (#[trigger] c1[k]).result == Some(id);
                assert(all[k].result == Some(id));
            }
        } else {
            let j2 = j - c1.len();
            assert(all[j] == c2[j2]);
            if results_has_id(base + spec_replay(meta, c1), id) {
                let k = choose|k: int|
                    0 <= k < (base + spec_replay(meta, c1)).len() && (#[trigger] (base
                        + spec_replay(meta, c1))[k]).0 == id;
                if k < base.len() {
                    assert(base[k].0 == id);
                } else {
                    assert(spec_replay(meta, c1)[k - base.len()].0 == id);
                    lemma_replay_ids(meta, c1, id);
                    let m = choose|m: int|
                        0 <= m < c1.len() && (#[trigger] c1[m]).result == Some(id);
                    assert(all[m].result == Some(id));
                }
            } else {
                let k = choose|k: int| 0 <= k < j2 && (#[trigger] c2[k]).result == Some(id);
                assert(all[c1.len() + k].result == Some(id));
            }
        }
    }
}

impl Type {
    /// The deterministic default argument for this type: zero for
    /// integers and flags, null for pointers, the shortest admissible
    /// contents for buffers and aggregates, and the first fallback value
    /// for resources. Defaults carry no resource references and produce no
    /// prerequisite calls.
    pub fn default_arg(&self) -> (r: Arg)
        requires
            type_wf(self@),
        ensures
            arg_matches(r@, self@),
            forall|id: u64| !arg_has_ref(r@, id),
            r@ == spec_default(self@),
        decreases type_height(self@),
    {
        match self {
            Type::Int(_) => Arg::Const(ConstArg(0)),
            Type::Flag(_) => Arg::Const(ConstArg(0)),
            Type::Array(t) => {
                let mut args: Vec<Arg> = Vec::new();
                match t.range {
                    Some((lo, _)) => {
                        proof {
                            assert(lo <= MAX_BUFFER_LENGTH);
                        }
                        let n = lo as usize;
                        let mut i: usize = 0;
                        while i < n
                            invariant
                                i <= n,
                                n == lo as usize,
                                lo <= MAX_BUFFER_LENGTH,
                                type_wf(t.elem@),
                                type_height(t.elem@) < type_height(self@),
                                args@.len() == i,
                                forall|k: int|
                                    0 <= k < i ==> arg_matches(#[trigger] args@[k]@, t.elem@)
                                        && (forall|id: u64| !arg_has_ref(args@[k]@, id))
                                        && args@[k]@ == spec_default(t.elem@),
                            decreases n - i,
                        {
                            let a = (&*t.elem).default_arg();
                            args.push(a);
                            i = i + 1;
                        }
                    },
                    None => {},
                }
                let r = Arg::Group(GroupArg(args));
                proof {
                    lemma_view_seq_props(args@);
                    assert(arg_matches(r@, self@));
                    assert forall|id: u64| !arg_has_ref(r@, id) by {
                        if arg_has_ref(r@, id) {
                            let k = choose|k: int|
                                0 <= k < Arg::view_seq(args@).len() && arg_has_ref(
                                    #[trigger] Arg::view_seq(args@)[k],
                                    id,
                                );
                            assert(!arg_has_ref(args@[k]@, id));
                        }
                    }
                    match t.range {
                        Some((lo, _)) => {
                            let d = spec_default(t.elem@);
                            assert(Arg::view_seq(args@) =~= Seq::new(lo as nat, |i: int| d));
                        },
                        None => {
                            assert(Arg::view_seq(args@) =~= Seq::<ArgV>::empty());
                        },
                    }
                    assert(r@ == spec_default(self@));
                }
                r
            },
            Type::Pointer(_) => Arg::Pointer(PointerArg::Addr(0)),
            Type::Buffer(crate::types::BufferType::String(t)) => {
                proof {
                    assert(forall|i: int|
                        0 <= i < t.values@.len() ==> self@->BufferString_values[i] == t.values@[i]@);
                }
                match t.attr.dir {
                    Direction::In | Direction::InOut => {
                        if t.values.len() == 1 {
                            proof {
                                assert(self@->BufferString_values[0].len() <= MAX_BUFFER_LENGTH);
                            }
                            Arg::Data(DataArg::In(crate::types::clone_bytes(&t.values[0])))
                        } else {
                            Arg::Data(DataArg::In(Vec::new()))
                        }
                    },
                    Direction::Out => Arg::Data(DataArg::Out(0)),
                }
            },
            Type::Buffer(crate::types::BufferType::Filename(t)) => {
                match t.attr.dir {
                    Direction::In | Direction::InOut => Arg::Data(DataArg::In(Vec::new())),
                    Direction::Out => Arg::Data(DataArg::Out(0)),
                }
            },
            Type::Buffer(crate::types::BufferType::Byte(t)) => {
                let lo: u64 = match t.range {
                    Some((lo, _)) => lo,
                    None => 0,
                };
                proof {
                    assert(lo <= MAX_BUFFER_LENGTH);
                }
                match t.attr.dir {
                    Direction::In | Direction::InOut => {
                        let mut data: Vec<u8> = Vec::new();
                        let n = lo as usize;
                        let mut i: usize = 0;
                        while i < n
                            invariant
                                i <= n,
                                data@.len() == i,
                                forall|k: int| 0 <= k < i ==> data@[k] == 0u8,
                            decreases n - i,
                        {
                            data.push(0);
                            i = i + 1;
                        }
                        proof {
                            assert(data@ =~= Seq::new(lo as nat, |k: int| 0u8));
                        }
                        Arg::Data(DataArg::In(data))
                    },
                    Direction::Out => Arg::Data(DataArg::Out(lo)),
                }
            },
            Type::Struct(t) => {
                let mut args: Vec<Arg> = Vec::new();
                let n = t.fields.len();
                let mut i: usize = 0;
                while i < n
                    invariant
                        i <= n,
                        n == t.fields@.len(),
                        crate::types::fields_wf(Type::view_fields(t.fields@)),
                        self@ matches TypeV::Struct { fields, .. } && fields == Type::view_fields(
                            t.fields@,
                        ) && type_height(self@) == fields_height(fields) + 2,
                        args@.len() == i,
                        forall|k: int|
                            0 <= k < i ==> arg_matches(
                                #[trigger] args@[k]@,
                                Type::view_fields(t.fields@)[k].ty,
                            ) && (forall|id: u64| !arg_has_ref(args@[k]@, id)) && args@[k]@
                                == spec_default(Type::view_fields(t.fields@)[k].ty),
                    decreases n - i,
                {
                    proof {
                        lemma_view_fields_props(t.fields@);
                        crate::types::lemma_fields_wf_index(Type::view_fields(t.fields@), i as int);
                        crate::types::lemma_fields_height_bound(
                            Type::view_fields(t.fields@),
                            i as int,
                        );
                        assert(Type::view_fields(t.fields@)[i as int].ty == t.fields@[i as int]@.ty);
                    }
                    let a = t.fields[i].ty.default_arg();
                    args.push(a);
                    i = i + 1;
                }
                let r = Arg::Group(GroupArg(args));
                proof {
                    lemma_view_seq_props(args@);
                    lemma_view_fields_props(t.fields@);
                    lemma_spec_defaults_props(Type::view_fields(t.fields@));
                    assert(arg_matches(r@, self@));
                    assert forall|id: u64| !arg_has_ref(r@, id) by {
                        if arg_has_ref(r@, id) {
                            let k = choose|k: int|
                                0 <= k < Arg::view_seq(args@).len() && arg_has_ref(
                                    #[trigger] Arg::view_seq(args@)[k],
                                    id,
                                );
                            assert(!arg_has_ref(args@[k]@, id));
                        }
                    }
                    assert(Arg::view_seq(args@) =~= spec_defaults(Type::view_fields(t.fields@)));
                    assert(r@ == spec_default(self@));
                }
                r
            },
            Type::Union(t) => {
                proof {
                    lemma_view_fields_props(t.fields@);
                    crate::types::lemma_fields_wf_index(Type::view_fields(t.fields@), 0);
                    crate::types::lemma_fields_height_bound(Type::view_fields(t.fields@), 0);
                    assert(Type::view_fields(t.fields@)[0].ty == t.fields@[0]@.ty);
                }
                let r = t.fields[0].ty.default_arg();
                proof {
                    assert(arg_matches(r@, Type::view_fields(t.fields@)[0].ty));
                }
                r
            },
            Type::Resource(t) => Arg::Result(ResultArg::Literal(t.values[0])),
        }
    }
}

/// Whether two byte strings hold the same bytes.
pub fn bytes_eq(a: &Vec<u8>, b: &Vec<u8>) -> (r: bool)
    ensures
        r == (a@ == b@),
{
    if a.len() != b.len() {
        proof {
            assert(a@.len() != b@.len());
        }
        return false;
    }
    let mut i: usize = 0;
    while i < a.len()
        invariant
            i <= a@.len(),
            a@.len() == b@.len(),
            forall|k: int| 0 <= k < i ==> a@[k] == b@[k],
        decreases a@.len() - i,
    {
        if a[i] != b[i] {
            return false;
        }
        i = i + 1;
    }
    proof {
        assert(a@ =~= b@);
    }
    true
}

/// Whether the pool holds the byte string.
fn pool_contains(pool: &Vec<Vec<u8>>, x: &Vec<u8>) -> (r: bool)
    ensures
        r == (exists|k: int| 0 <= k < pool@.len() && #[trigger] pool@[k]@ == x@),
{
    let mut i: usize = 0;
    while i < pool.len()
        invariant
            i <= pool@.len(),
            forall|k: int| 0 <= k < i ==> #[trigger] pool@[k]@ != x@,
        decreases pool@.len() - i,
    {
        if bytes_eq(&pool[i], x) {
            return true;
        }
        i = i + 1;
    }
    false
}

/// A copy of a random pool entry, trimmed to the buffer cap; nothing when
/// the pool is empty.
fn pick_pool(rng: &mut Rng, pool: &Vec<Vec<u8>>) -> (r: Option<Vec<u8>>)
    ensures
        match r {
            Some(v) => v@.len() <= MAX_BUFFER_LENGTH,
            None => pool@.len() == 0,
        },
{
    if pool.len() == 0 {
        return None;
    }
    let idx = rng.below(pool.len());
    let mut v = crate::types::clone_bytes(&pool[idx]);
    v.truncate(MAX_BUFFER_LENGTH as usize);
    Some(v)
}

/// Appends the decimal digits of the value.
fn push_decimal(buf: &mut Vec<u8>, v: u64)
    ensures
        old(buf)@.len() + 1 <= final(buf)@.len() <= old(buf)@.len() + 20,
{
    let mut digits: Vec<u8> = Vec::new();
    let mut x = v;
    let mut budget: usize = 20;
    loop
        invariant_except_break
            digits@.len() + budget == 20,
            budget >= 1,
        ensures
            1 <= digits@.len() <= 20,
        decreases budget,
    {
        proof {
            assert(x % 10 < 10);
        }
        digits.push(48 + (x % 10) as u8);
        x = x / 10;
        budget = budget - 1;
        if x == 0 || budget == 0 {
            break;
        }
    }
    let mut k = digits.len();
    while k > 0
        invariant
            k <= digits@.len(),
            buf@.len() == old(buf)@.len() + (digits@.len() - k),
            1 <= digits@.len() <= 20,
        decreases k,
    {
        k = k - 1;
        buf.push(digits[k]);
    }
}

pub uninterp spec fn cleaned_is_dot(path: Seq<u8>) -> bool;

/// Relies on path_clean::clean: whether the path, cleaned lexically,
/// equals the current directory `.`. The result depends on the bytes
/// alone.
#[verifier::external_body]
fn path_cleans_to_dot(path: &Vec<u8>) -> (r: bool)
    ensures
        r == cleaned_is_dot(path@),
{
    let s = String::from_utf8_lossy(path.as_slice());
    path_clean::clean(s.as_ref()).to_str() == Some(".")
}

/// A fresh filename: a directory taken from the pool or the current one,
/// sometimes escaping with a parent component, then a `file{i}` suffix not
/// yet in the pool, occasionally padded toward the common path length.
/// Bounded by the buffer cap; when every candidate collides with the pool,
/// the name is padded to the cap instead.
pub fn rand_filename(rng: &mut Rng, ctx: &Context) -> (r: Vec<u8>)
    ensures
        6 <= r@.len() <= MAX_BUFFER_LENGTH,
        (forall|k: int| 0 <= k < ctx@.filenames.len() ==> #[trigger] ctx@.filenames[k] != r@)
            || r@.len() == MAX_BUFFER_LENGTH,
{
    // Directory part: reuse a known filename or start from `.`
    let mut dir: Vec<u8> = Vec::new();
    let mut picked = false;
    if rng.binary() {
        match pick_pool(rng, ctx.filenames()) {
            Some(v) => {
                dir = v;
                picked = true;
            },
            None => {},
        }
    }
    if !picked {
        dir.push(46);  // .
    }
    if dir.len() > 0 && dir[dir.len() - 1] == 0 {
        dir.pop();
    }
    if rng.one_of(10) && !path_cleans_to_dot(&dir) {
        // Escape toward the parent directory
        dir.push(47);  // /
        dir.push(46);  // .
        dir.push(46);  // .
    }

    let pool_len = ctx.filenames().len();
    let tries: usize = if pool_len < usize::MAX - 1 {
        pool_len + 1
    } else {
        usize::MAX - 1
    };
    let mut name: Vec<u8> = Vec::new();
    let mut fresh = false;
    let mut i: usize = 1;
    loop
        invariant_except_break
            1 <= i <= tries + 1,
            tries >= 1,
            tries <= usize::MAX - 1,
            dir@.len() <= MAX_BUFFER_LENGTH + 3,
            i == 1 || 6 <= name@.len() <= MAX_BUFFER_LENGTH,
            !fresh,
        ensures
            6 <= name@.len() <= MAX_BUFFER_LENGTH,
            fresh ==> forall|k: int|
                0 <= k < ctx@.filenames.len() ==> #[trigger] ctx@.filenames[k] != name@,
        decreases tries + 1 - i,
    {
        if i > tries {
            break;
        }
        name = crate::types::clone_bytes(&dir);
        name.push(47);  // /
        name.push(102);  // f
        name.push(105);  // i
        name.push(108);  // l
        name.push(101);  // e
        push_decimal(&mut name, i as u64);
        if rng.one_of(100) {
            // Stretch toward the target path length
            let want = rand_filename_length(rng);
            while (name.len() as u64) < want
                invariant
                    want <= MAX_BUFFER_LENGTH,
                    name@.len() >= 6,
                decreases want - name@.len(),
            {
                name.push(97);  // a
            }
        }
        name.truncate(MAX_BUFFER_LENGTH as usize);
        let pool = ctx.filenames();
        if !pool_contains(pool, &name) {
            proof {
                assert forall|k: int| 0 <= k < ctx@.filenames.len() implies #[trigger] ctx@.filenames[k]
                    != name@ by {
                    assert(pool@[k]@ == ctx@.filenames[k]);
                }
            }
            fresh = true;
            break;
        }
        i = i + 1;
    }
    if !fresh {
        // Every candidate collided: pad to the cap, the one admissible
        // escape from the freshness guarantee
        while name.len() < MAX_BUFFER_LENGTH as usize
            invariant
                name@.len() <= MAX_BUFFER_LENGTH,
            decreases MAX_BUFFER_LENGTH - name@.len(),
        {
            name.push(97);  // a
        }
    }
    name
}

impl IntType {
    /// A value for this integer field: uniform in the declared range, or a
    /// shaped random integer of the declared width.
    pub fn generate_value(&self, rng: &mut Rng) -> (r: u64)
        requires
            type_wf(self@),
        ensures
            match self.range {
                Some((lo, hi)) => lo <= r <= hi,
                None => crate::rand_util::fits_bits(r, self.bits),
            },
    {
        match self.range {
            Some((lo, hi)) => rng.between_u64(lo, hi),
            None => rand_int(rng, self.bits),
        }
    }
}

impl FlagType {
    /// A value for this flag field: sometimes fully random or zero, small
    /// drift from the old value for enumerations, a choice among the
    /// values, or an accumulated XOR of (occasionally shifted) values for
    /// bitmasks.
    pub fn generate_value(&self, rng: &mut Rng, old_val: u64) -> u64
        requires
            self.values@.len() >= 1,
    {
        if rng.one_of(100) {
            return rng.next();
        }
        if rng.one_of(50) {
            return 0;
        }

        // Slightly increment or decrement the old value
        if !self.is_bitmask && old_val != 0 && rng.one_of(100) {
            let inc: u64 = if rng.binary() {
                1
            } else {
                u64::MAX
            };
            let mut val = old_val.wrapping_add(inc);
            let mut budget: usize = 64;
            loop
                invariant
                    budget <= 64,
                decreases budget,
            {
                if budget == 0 || !rng.binary() {
                    break;
                }
                val = val.wrapping_add(inc);
                budget = budget - 1;
            }
            return val;
        }

        // A single value or zero
        if self.values.len() == 1 {
            return if rng.binary() {
                0
            } else {
                self.values[0]
            };
        }

        // Enumeration flags: a straight choice
        if !self.is_bitmask && !rng.one_of(10) {
            return self.values[rng.below(self.values.len())];
        }

        let more = if self.values.len() <= usize::MAX - 4 {
            self.values.len() + 4
        } else {
            self.values.len()
        };
        if rng.one_of(more) {
            return 0;
        }

        // Bitmask flags: accumulate by flipping listed values
        let mut val = if old_val != 0 && rng.one_of(10) {
            0
        } else {
            old_val
        };
        let mut k: usize = 0;
        loop
            invariant
                k <= 10,
                self.values@.len() >= 1,
            decreases 10 - k,
        {
            if k >= 10 {
                break;
            }
            if val != 0 && rng.n_out_of(1, 3) {
                break;
            }
            let mut flag = self.values[rng.below(self.values.len())];
            if rng.one_of(20) {
                // Try adjacent bit values in case the description is
                // missing a relevant flag
                if rng.binary() {
                    flag = flag >> 1u64;
                } else {
                    flag = flag << 1u64;
                }
            }
            val = val ^ flag;
            k = k + 1;
        }
        val
    }
}

/// Emitting no calls keeps every generation guarantee, whatever happened
/// to the pools.
proof fn lemma_gen_post_nocalls(oldc: ContextV, newc: ContextV, calls: Seq<Call>)
    requires
        newc.metadata == oldc.metadata,
        newc.results == oldc.results,
        calls.len() == 0,
    ensures
        gen_post(oldc, newc, Call::view_calls(calls)),
        Call::view_calls(calls).len() == 0,
{
    assert(Call::view_calls(calls) =~= Seq::<CallV>::empty());
    assert(spec_replay(oldc.metadata, Call::view_calls(calls)) =~= Seq::<(u64, TypeV)>::empty());
    assert(oldc.results + spec_replay(oldc.metadata, Call::view_calls(calls)) =~= oldc.results);
}

/// A string for a string buffer: a preset value when the description gives
/// any, else a string seen before or a fresh random one, with the trailing
/// NUL appearing or vanishing rarely. The string joins the pool.
pub fn generate_string_value(rng: &mut Rng, ctx: &mut Context, t: &crate::types::StringBuffer) -> (r:
    Vec<u8>)
    requires
        forall|i: int| 0 <= i < t.values@.len() ==> (#[trigger] t.values@[i])@.len()
            <= MAX_BUFFER_LENGTH,
    ensures
        r@.len() <= MAX_BUFFER_LENGTH,
        final(ctx)@.metadata == old(ctx)@.metadata,
        final(ctx)@.results == old(ctx)@.results,
        final(ctx)@.strings == old(ctx)@.strings.push(r@),
        final(ctx)@.filenames == old(ctx)@.filenames,
        t.values@.len() > 0 ==> exists|k: int|
            0 <= k < t.values@.len() && (r@ == (#[trigger] t.values@[k])@ || r@ == t.values@[k]@.push(
                0,
            )),
{
    let preset = t.values.len() > 0;
    let ghost mut kpick: int = 0;
    let mut s: Vec<u8>;
    if preset {
        let idx = rng.below(t.values.len());
        s = crate::types::clone_bytes(&t.values[idx]);
        proof {
            kpick = idx as int;
        }
    } else if rng.binary() {
        match pick_pool(rng, ctx.strings()) {
            Some(v) => {
                s = v;
            },
            None => {
                s = rand_string(rng);
            },
        }
    } else {
        s = rand_string(rng);
    }
    let ghost base = s@;
    // The trailing NUL appears or disappears with probability 1/100
    if rng.one_of(100) == t.no_zero {
        if s.len() < MAX_BUFFER_LENGTH as usize {
            s.push(0);
        }
    }
    proof {
        if preset {
            assert(base == t.values@[kpick]@);
            assert(s@ == base || s@ == base.push(0));
        }
    }
    ctx.add_string(crate::types::clone_bytes(&s));
    s
}

/// A filename for a filename buffer: rarely a special name, usually one
/// seen before, else a fresh one; NUL-terminated unless the type says
/// otherwise. The filename joins the pool.
pub fn generate_filename_value(rng: &mut Rng, ctx: &mut Context, no_zero: bool) -> (r: Vec<u8>)
    ensures
        r@.len() <= MAX_BUFFER_LENGTH,
        final(ctx)@.metadata == old(ctx)@.metadata,
        final(ctx)@.results == old(ctx)@.results,
        final(ctx)@.filenames == old(ctx)@.filenames.push(r@),
        final(ctx)@.strings == old(ctx)@.strings,
        !no_zero ==> (r@.len() == MAX_BUFFER_LENGTH || (r@.len() >= 1 && r@.last() == 0)),
{
    let mut name: Vec<u8>;
    if rng.one_of(100) {
        // A special filename: the empty one or the current directory
        name = Vec::new();
        if rng.binary() {
            name.push(46);  // .
        }
    } else if rng.n_out_of(9, 10) {
        match pick_pool(rng, ctx.filenames()) {
            Some(v) => {
                name = v;
            },
            None => {
                name = rand_filename(rng, ctx);
            },
        }
    } else {
        name = rand_filename(rng, ctx);
    }
    if !no_zero {
        if name.len() < MAX_BUFFER_LENGTH as usize {
            name.push(0);
            proof {
                assert(name@.last() == 0);
            }
        }
    }
    ctx.add_filename(crate::types::clone_bytes(&name));
    name
}

/// A reference to a live resource compatible with the given name, chosen
/// uniformly; nothing exactly when none is live.
fn use_existing_resource(rng: &mut Rng, ctx: &Context, name: &String) -> (r: Option<Arg>)
    ensures
        match r {
            Some(a) => a@ is ResultRef && arg_refs_in(a@, ctx@.results) && has_compatible_result(
                ctx@.results,
                name@,
            ),
            None => !has_compatible_result(ctx@.results, name@),
        },
{
    let results = ctx.results();
    let mut idxs: Vec<usize> = Vec::new();
    let mut i: usize = 0;
    while i < results.len()
        invariant
            i <= results@.len(),
            results@.len() == ctx@.results.len(),
            forall|k: int|
                0 <= k < results@.len() ==> (results@[k].0, results@[k].1@) == ctx@.results[k],
            forall|k: int|
                0 <= k < idxs@.len() ==> #[trigger] idxs@[k] < results@.len() && is_resource_named(
                    ctx@.results[idxs@[k] as int].1,
                    name@,
                ),
            idxs@.len() == 0 ==> forall|j: int|
                0 <= j < i ==> !is_resource_named((#[trigger] ctx@.results[j]).1, name@),
        decreases results@.len() - i,
    {
        if results[i].1.is_compatible_resource(name) {
            idxs.push(i);
        }
        i = i + 1;
    }
    if idxs.len() == 0 {
        proof {
            assert(!has_compatible_result(ctx@.results, name@));
        }
        return None;
    }
    let pick = rng.below(idxs.len());
    let idx = idxs[pick];
    let id = results[idx].0;
    let a = Arg::Result(ResultArg::Ref(id));
    proof {
        assert(ctx@.results[idx as int].0 == id);
        assert(is_resource_named(ctx@.results[idx as int].1, name@));
        assert forall|id2: u64| #[trigger] arg_has_ref(a@, id2) implies results_has_id(
            ctx@.results,
            id2,
        ) by {
            assert(id2 == id);
        }
    }
    Some(a)
}

/// A fallback literal for a resource, chosen uniformly among its values.
pub fn choose_fallback(rng: &mut Rng, t: &crate::types::ResourceType) -> (r: Arg)
    requires
        t.values@.len() >= 1,
    ensures
        r@ is ResultLiteral,
        forall|id: u64| !arg_has_ref(r@, id),
        exists|k: int| 0 <= k < t.values@.len() && r@ == ArgV::ResultLiteral(t.values@[k]),
{
    let idx = rng.below(t.values.len());
    let r = Arg::Result(ResultArg::Literal(t.values[idx]));
    proof {
        assert(r@ == ArgV::ResultLiteral(t.values@[idx as int]));
    }
    r
}

/// An argument for one field: an optional field falls back to its
/// deterministic default (or a fallback literal for resources) on a fair
/// coin, otherwise the type generates a value, possibly with prerequisite
/// calls.
pub fn generate_arg(rng: &mut Rng, ctx: &mut Context, ty: &Type, generating: bool) -> (res: (
    Arg,
    Vec<Call>,
))
    requires
        catalog_ok(old(ctx)@.metadata),
        type_wf(ty@),
    ensures
        gen_post(old(ctx)@, final(ctx)@, Call::view_calls(res.1@)),
        arg_matches(res.0@, ty@),
        arg_refs_in(res.0@, final(ctx)@.results),
        arg_gen_ok(ty@, generating, old(ctx)@, res.0@, Call::view_calls(res.1@)),
        ty@ is Int ==> (res.0@ == ArgV::Const(0) || int_arg_ok(res.0@, ty@)),
    decreases (if generating {
        0int
    } else {
        1int
    }), type_height(ty@), 1int,
{
    let optional = ty.attr().optional;
    if optional && rng.binary() {
        let calls: Vec<Call> = Vec::new();
        let a = match ty {
            Type::Resource(t) => choose_fallback(rng, t),
            other => other.default_arg(),
        };
        proof {
            lemma_gen_post_nocalls(old(ctx)@, ctx@, calls@);
            match ty {
                Type::Resource(t) => {
                    assert(is_fallback(a@, ty@));
                },
                _ => {
                    assert(a@ == crate::wf::spec_default(ty@));
                },
            }
        }
        (a, calls)
    } else {
        generate_type_arg(rng, ctx, ty, generating)
    }
}

/// An argument straight from the type's own generator.
pub fn generate_type_arg(rng: &mut Rng, ctx: &mut Context, ty: &Type, generating: bool) -> (res: (
    Arg,
    Vec<Call>,
))
    requires
        catalog_ok(old(ctx)@.metadata),
        type_wf(ty@),
    ensures
        gen_post(old(ctx)@, final(ctx)@, Call::view_calls(res.1@)),
        arg_matches(res.0@, ty@),
        arg_refs_in(res.0@, final(ctx)@.results),
        arg_gen_ok(ty@, generating, old(ctx)@, res.0@, Call::view_calls(res.1@)),
        ty@ is Int ==> int_arg_ok(res.0@, ty@),
        (ty@ is Pointer && generating) ==> !(res.0@ is Addr),
        (ty@ is Array && generating && array_can_be_nonempty(ty@)) ==> (res.0@ matches ArgV::Group(
            elems,
        ) && elems.len() >= 1),
        filename_nul_ok(ty@, res.0@),
        string_preset_ok(ty@, res.0@),
    decreases (if generating {
        0int
    } else {
        1int
    }), type_height(ty@), 0int,
{
    match ty {
        Type::Int(t) => {
            let v = t.generate_value(rng);
            let calls: Vec<Call> = Vec::new();
            proof {
                lemma_gen_post_nocalls(old(ctx)@, ctx@, calls@);
            }
            (Arg::Const(ConstArg(v)), calls)
        },
        Type::Flag(t) => {
            let v = t.generate_value(rng, 0);
            let calls: Vec<Call> = Vec::new();
            proof {
                lemma_gen_post_nocalls(old(ctx)@, ctx@, calls@);
            }
            (Arg::Const(ConstArg(v)), calls)
        },
        Type::Array(t) => {
            // Choose the length, forcing at least one element while a
            // resource is being produced somewhere inside
            let mut len: usize = match t.range {
                Some((lo, hi)) => {
                    proof {
                        assert(lo <= hi <= MAX_BUFFER_LENGTH);
                    }
                    rng.between(lo as usize, hi as usize)
                },
                None => rand_array_length(rng) as usize,
            };
            if generating && len == 0 {
                let ok = match t.range {
                    Some((lo, hi)) => hi >= 1,
                    None => true,
                };
                if ok {
                    len = 1;
                }
            }
            proof {
                if generating && array_can_be_nonempty(ty@) {
                    assert(len >= 1);
                }
            }
            let ghost c0 = ctx@;
            let mut args: Vec<Arg> = Vec::new();
            let mut calls: Vec<Call> = Vec::new();
            let mut i: usize = 0;
            proof {
                lemma_gen_post_nocalls(c0, ctx@, calls@);
            }
            while i < len
                invariant
                    i <= len,
                    catalog_ok(c0.metadata),
                    type_wf(t.elem@),
                    type_height(t.elem@) < type_height(ty@),
                    ctx@.metadata == c0.metadata,
                    gen_post(c0, ctx@, Call::view_calls(calls@)),
                    args@.len() == i,
                    forall|k: int|
                        0 <= k < i ==> arg_matches(#[trigger] Arg::view_seq(args@)[k], t.elem@),
                    forall|k: int|
                        0 <= k < i ==> arg_refs_in(#[trigger] Arg::view_seq(args@)[k], ctx@.results),
                decreases len - i,
            {
                let ghost cpre = ctx@;
                let ghost args0 = args@;
                let ghost calls0 = calls@;
                let res = generate_arg(rng, ctx, &*t.elem, generating);
                let a = res.0;
                let mut cs = res.1;
                let ghost cs0 = cs@;
                args.push(a);
                calls.append(&mut cs);
                proof {
                    extend_block(c0, cpre, ctx@, calls0, cs0);
                    lemma_view_seq_props(args0);
                    lemma_view_seq_props(args@);
                    assert(args@ =~= args0.push(a));
                    assert forall|k: int|
                        0 <= k < i + 1 implies arg_matches(
                        #[trigger] Arg::view_seq(args@)[k],
                        t.elem@,
                    ) && arg_refs_in(Arg::view_seq(args@)[k], ctx@.results) by {
                        if k < i {
                            assert(Arg::view_seq(args@)[k] == args0[k]@);
                            assert(Arg::view_seq(args0)[k] == args0[k]@);
                            lemma_refs_in_extend(
                                args0[k]@,
                                cpre.results,
                                spec_replay(c0.metadata, Call::view_calls(cs0)),
                            );
                        } else {
                            assert(Arg::view_seq(args@)[k] == a@);
                        }
                    }
                }
                i = i + 1;
            }
            let a = Arg::Group(GroupArg(args));
            proof {
                lemma_view_seq_props(args@);
                assert(arg_matches(a@, ty@));
                assert forall|id: u64| #[trigger] arg_has_ref(a@, id) implies results_has_id(
                    ctx@.results,
                    id,
                ) by {
                    let k = choose|k: int|
                        0 <= k < Arg::view_seq(args@).len() && arg_has_ref(
                            #[trigger] Arg::view_seq(args@)[k],
                            id,
                        );
                    assert(arg_refs_in(Arg::view_seq(args@)[k], ctx@.results));
                }
                if generating && array_can_be_nonempty(ty@) {
                    assert(a@->Group_0.len() >= 1);
                }
            }
            (a, calls)
        },
        Type::Pointer(t) => {
            if !generating && rng.one_of(1000) {
                let calls: Vec<Call> = Vec::new();
                proof {
                    lemma_gen_post_nocalls(old(ctx)@, ctx@, calls@);
                }
                (Arg::Pointer(PointerArg::Addr(0)), calls)
            } else {
                let res = generate_arg(rng, ctx, &*t.elem, generating);
                let inner = res.0;
                let ghost iv = inner@;
                let a = Arg::Pointer(PointerArg::Data(Box::new(inner)));
                proof {
                    assert(a@ == ArgV::PointerData(Box::new(iv)));
                    assert(arg_matches(a@, ty@));
                    assert forall|id: u64| #[trigger] arg_has_ref(a@, id) implies results_has_id(
                        ctx@.results,
                        id,
                    ) by {
                        assert(arg_has_ref(iv, id));
                    }
                }
                (a, res.1)
            }
        },
        Type::Buffer(crate::types::BufferType::String(t)) => {
            proof {
                assert forall|i: int|
                    0 <= i < t.values@.len() implies (#[trigger] t.values@[i])@.len()
                    <= MAX_BUFFER_LENGTH by {
                    assert(ty@->BufferString_values[i] == t.values@[i]@);
                    assert(ty@->BufferString_values[i].len() <= MAX_BUFFER_LENGTH);
                }
            }
            let s = generate_string_value(rng, ctx, t);
            let ghost sv = s@;
            let calls: Vec<Call> = Vec::new();
            proof {
                lemma_gen_post_nocalls(old(ctx)@, ctx@, calls@);
            }
            let a = match t.attr.dir {
                Direction::In | Direction::InOut => {
                    proof {
                        if t.values@.len() > 0 {
                            let k = choose|k: int|
                                0 <= k < t.values@.len() && (sv == (#[trigger] t.values@[k])@ || sv
                                    == t.values@[k]@.push(0));
                            assert(ty@->BufferString_values[k] == t.values@[k]@);
                            assert(string_from_presets(sv, ty@->BufferString_values));
                        }
                    }
                    Arg::Data(DataArg::In(s))
                },
                Direction::Out => {
                    let n = s.len() as u64;
                    Arg::Data(DataArg::Out(n))
                },
            };
            (a, calls)
        },
        Type::Buffer(crate::types::BufferType::Filename(t)) => {
            let a = match t.attr.dir {
                Direction::In | Direction::InOut => {
                    let s = generate_filename_value(rng, ctx, t.no_zero);
                    Arg::Data(DataArg::In(s))
                },
                Direction::Out => {
                    // The filename length is taken to be variable
                    let n: u64 = if rng.n_out_of(1, 3) {
                        rng.below(100) as u64
                    } else {
                        rand_filename_length(rng)
                    };
                    Arg::Data(DataArg::Out(n))
                },
            };
            let calls: Vec<Call> = Vec::new();
            proof {
                lemma_gen_post_nocalls(old(ctx)@, ctx@, calls@);
            }
            (a, calls)
        },
        Type::Buffer(crate::types::BufferType::Byte(t)) => {
            let len: u64 = match t.range {
                Some((lo, hi)) => {
                    proof {
                        assert(lo <= hi <= MAX_BUFFER_LENGTH);
                    }
                    rng.between(lo as usize, hi as usize) as u64
                },
                None => rand_buffer_length(rng),
            };
            let a = match t.attr.dir {
                Direction::In | Direction::InOut => {
                    let n = len as usize;
                    let mut data: Vec<u8> = Vec::new();
                    let mut i: usize = 0;
                    while i < n
                        invariant
                            i <= n,
                            data@.len() == i,
                        decreases n - i,
                    {
                        data.push(rng.below(256) as u8);
                        i = i + 1;
                    }
                    Arg::Data(DataArg::In(data))
                },
                Direction::Out => Arg::Data(DataArg::Out(len)),
            };
            let calls: Vec<Call> = Vec::new();
            proof {
                lemma_gen_post_nocalls(old(ctx)@, ctx@, calls@);
            }
            (a, calls)
        },
        Type::Struct(t) => {
            proof {
                lemma_view_fields_props(t.fields@);
            }
            let res = generate_args(rng, ctx, &t.fields, generating);
            let args = res.0;
            let a = Arg::Group(GroupArg(args));
            proof {
                lemma_view_seq_props(args@);
                lemma_view_fields_props(t.fields@);
                assert(arg_matches(a@, ty@));
                assert forall|id: u64| #[trigger] arg_has_ref(a@, id) implies results_has_id(
                    ctx@.results,
                    id,
                ) by {
                    let s = a@->Group_0;
                    let k = choose|k: int| 0 <= k < s.len() && arg_has_ref(#[trigger] s[k], id);
                    assert(arg_refs_in(Arg::view_seq(args@)[k], ctx@.results));
                }
            }
            (a, res.1)
        },
        Type::Union(t) => {
            proof {
                lemma_view_fields_props(t.fields@);
                crate::types::lemma_fields_wf_index(Type::view_fields(t.fields@), 0);
            }
            let k = rng.below(t.fields.len());
            proof {
                crate::types::lemma_fields_wf_index(Type::view_fields(t.fields@), k as int);
                lemma_fields_height_bound(Type::view_fields(t.fields@), k as int);
                assert(Type::view_fields(t.fields@)[k as int].ty == t.fields@[k as int]@.ty);
            }
            let res = generate_arg(rng, ctx, &t.fields[k].ty, generating);
            proof {
                assert(arg_matches(res.0@, Type::view_fields(t.fields@)[k as int].ty));
            }
            (res.0, res.1)
        },
        Type::Resource(t) => {
            let can_recurse = !generating;
            let reuse = if can_recurse {
                rng.n_out_of(4, 5)
            } else {
                rng.n_out_of(19, 20)
            };
            if reuse {
                let existing = use_existing_resource(rng, ctx, &t.name);
                match existing {
                    Some(a) => {
                        let calls: Vec<Call> = Vec::new();
                        proof {
                            lemma_gen_post_nocalls(old(ctx)@, ctx@, calls@);
                        }
                        return (a, calls);
                    },
                    None => {},
                }
            }
            if can_recurse {
                if rng.one_of(4) {
                    // Reserved hook: seeding resources from prior corpora
                    // is not implemented and never yields anything.
                }
                if rng.n_out_of(4, 5) {
                    // Create the resource with a fresh call
                    let mut creators: Vec<usize> = Vec::new();
                    let ghost mv = ctx@.metadata;
                    {
                        let syscalls = ctx.syscalls();
                        let mut i: usize = 0;
                        while i < syscalls.len()
                            invariant
                                i <= syscalls@.len(),
                                syscalls@.len() == mv.len(),
                                forall|k: int| 0 <= k < syscalls@.len() ==> syscalls@[k]@ == mv[k],
                                forall|k: int|
                                    0 <= k < creators@.len() ==> #[trigger] creators@[k]
                                        < syscalls@.len() && ret_compatible(
                                        mv[creators@[k] as int],
                                        t.name@,
                                    ),
                            decreases syscalls@.len() - i,
                        {
                            let is_creator = match syscalls[i].return_type() {
                                Some(rt) => rt.is_compatible_resource(&t.name),
                                None => false,
                            };
                            if is_creator {
                                creators.push(i);
                            }
                            i = i + 1;
                        }
                    }
                    if creators.len() > 0 {
                        let pick = rng.below(creators.len());
                        let idx = creators[pick];
                        let syscall = {
                            let syscalls = ctx.syscalls();
                            proof {
                                assert(syscalls@[idx as int]@ == ctx@.metadata[idx as int]);
                            }
                            syscalls[idx].deep_clone()
                        };
                        proof {
                            assert(ctx@.metadata[idx as int] == syscall@);
                            assert(ctx@.metadata.contains(syscall@));
                        }
                        let calls = generate_call(rng, ctx, &syscall, true);
                        let last = &calls[calls.len() - 1];
                        proof {
                            crate::call::lemma_view_calls_props(calls@);
                            assert(last@ == Call::view_calls(calls@).last());
                        }
                        match last.result() {
                            Some(id) => {
                                let a = Arg::Result(ResultArg::Ref(id));
                                proof {
                                    assert forall|id2: u64| #[trigger] arg_has_ref(a@, id2)
                                        implies results_has_id(ctx@.results, id2) by {
                                        assert(id2 == id);
                                    }
                                }
                                return (a, calls);
                            },
                            None => {
                                // A creator returns a resource, so its call
                                // carries an identifier.
                                proof {
                                    assert(ret_compatible(mv[idx as int], t.name@));
                                    assert(syscall_ret_is_resource(syscall@));
                                    assert(false);
                                }
                                let a = choose_fallback(rng, t);
                                return (a, calls);
                            },
                        }
                    }
                }
            }
            // Fall back to a literal value
            let a = choose_fallback(rng, t);
            let calls: Vec<Call> = Vec::new();
            proof {
                lemma_gen_post_nocalls(old(ctx)@, ctx@, calls@);
            }
            (a, calls)
        },
    }
}

/// Whether a syscall's return type is a resource.
pub open spec fn syscall_ret_is_resource(s: SyscallV) -> bool {
    s.ret matches Some(t) && t is Resource
}

/// Whether a syscall returns a resource with the given name.
pub open spec fn ret_compatible(s: SyscallV, name: Seq<char>) -> bool {
    s.ret matches Some(t) && t matches TypeV::Resource { name: n, .. } && n == name
}

/// Earlier blocks keep their guarantees when a later step extends the
/// context and the emitted calls.
pub proof fn extend_block(
    c0: ContextV,
    cpre: ContextV,
    cpost: ContextV,
    calls0: Seq<Call>,
    cs0: Seq<Call>,
)
    requires
        gen_post(c0, cpre, Call::view_calls(calls0)),
        gen_post(cpre, cpost, Call::view_calls(cs0)),
    ensures
        gen_post(c0, cpost, Call::view_calls(calls0 + cs0)),
        cpost.results == cpre.results + spec_replay(c0.metadata, Call::view_calls(cs0)),
{
    crate::call::lemma_view_calls_concat(calls0, cs0);
    let v0 = Call::view_calls(calls0);
    let v1 = Call::view_calls(cs0);
    lemma_replay_concat(c0.metadata, v0, v1);
    assert(cpost.results =~= c0.results + (spec_replay(c0.metadata, v0) + spec_replay(
        c0.metadata,
        v1,
    )));
    assert(c0.results + (spec_replay(c0.metadata, v0) + spec_replay(c0.metadata, v1)) =~= c0.results
        + spec_replay(c0.metadata, v0 + v1));
    assert forall|i: int| 0 <= i < (v0 + v1).len() implies call_wf(#[trigger] (v0 + v1)[i], c0.metadata) by {
        if i < v0.len() {
            assert((v0 + v1)[i] == v0[i]);
        } else {
            assert((v0 + v1)[i] == v1[i - v0.len()]);
        }
    }
    lemma_linked_concat(c0.metadata, c0.results, v0, v1);
}

/// A reference that resolves in a result list resolves after the list
/// grows.
pub proof fn lemma_refs_in_extend(a: crate::call::ArgV, rs: Seq<(u64, TypeV)>, more: Seq<(u64, TypeV)>)
    requires
        arg_refs_in(a, rs),
    ensures
        arg_refs_in(a, rs + more),
{
    assert forall|id: u64| #[trigger] arg_has_ref(a, id) implies results_has_id(rs + more, id) by {
        lemma_has_id_extend(rs, more, id);
    }
}

/// Arguments for every field of a syscall, in order, with whatever
/// prerequisite calls the fields demanded.
pub fn generate_args(rng: &mut Rng, ctx: &mut Context, fields: &Vec<Field>, generating: bool) -> (
    res: (Vec<Arg>, Vec<Call>))
    requires
        catalog_ok(old(ctx)@.metadata),
        crate::types::fields_wf(Type::view_fields(fields@)),
    ensures
        gen_post(old(ctx)@, final(ctx)@, Call::view_calls(res.1@)),
        res.0@.len() == fields@.len(),
        forall|k: int|
            0 <= k < res.0@.len() ==> arg_matches(
                #[trigger] Arg::view_seq(res.0@)[k],
                Type::view_fields(fields@)[k].ty,
            ),
        forall|k: int|
            0 <= k < res.0@.len() ==> arg_refs_in(
                #[trigger] Arg::view_seq(res.0@)[k],
                final(ctx)@.results,
            ),
    decreases (if generating {
        0int
    } else {
        1int
    }), fields_height(Type::view_fields(fields@)) + 1, 0int,
{
    let ghost c0 = ctx@;
    let mut args: Vec<Arg> = Vec::new();
    let mut calls: Vec<Call> = Vec::new();
    let mut i: usize = 0;
    proof {
        lemma_gen_post_nocalls(c0, ctx@, calls@);
        lemma_view_fields_props(fields@);
    }
    while i < fields.len()
        invariant
            i <= fields@.len(),
            catalog_ok(c0.metadata),
            crate::types::fields_wf(Type::view_fields(fields@)),
            ctx@.metadata == c0.metadata,
            gen_post(c0, ctx@, Call::view_calls(calls@)),
            args@.len() == i,
            forall|k: int|
                0 <= k < i ==> arg_matches(
                    #[trigger] Arg::view_seq(args@)[k],
                    Type::view_fields(fields@)[k].ty,
                ),
            forall|k: int|
                0 <= k < i ==> arg_refs_in(#[trigger] Arg::view_seq(args@)[k], ctx@.results),
            (if generating {
                0int
            } else {
                1int
            }) == (if generating {
                0int
            } else {
                1int
            }),
        decreases fields@.len() - i,
    {
        proof {
            lemma_view_fields_props(fields@);
            crate::types::lemma_fields_wf_index(Type::view_fields(fields@), i as int);
            lemma_fields_height_bound(Type::view_fields(fields@), i as int);
            assert(Type::view_fields(fields@)[i as int].ty == fields@[i as int]@.ty);
        }
        let ghost cpre = ctx@;
        let ghost args0 = args@;
        let ghost calls0 = calls@;
        let res = generate_arg(rng, ctx, &fields[i].ty, generating);
        let a = res.0;
        let mut cs = res.1;
        let ghost cs0 = cs@;
        args.push(a);
        calls.append(&mut cs);
        proof {
            extend_block(c0, cpre, ctx@, calls0, cs0);
            lemma_view_seq_props(args0);
            lemma_view_seq_props(args@);
            assert(args@ =~= args0.push(a));
            assert forall|k: int|
                0 <= k < i + 1 implies arg_matches(
                #[trigger] Arg::view_seq(args@)[k],
                Type::view_fields(fields@)[k].ty,
            ) && arg_refs_in(Arg::view_seq(args@)[k], ctx@.results) by {
                if k < i {
                    assert(Arg::view_seq(args@)[k] == args0[k]@);
                    assert(Arg::view_seq(args0)[k] == args0[k]@);
                    lemma_refs_in_extend(
                        args0[k]@,
                        cpre.results,
                        spec_replay(c0.metadata, Call::view_calls(cs0)),
                    );
                } else {
                    assert(Arg::view_seq(args@)[k] == a@);
                }
            }
        }
        i = i + 1;
    }
    (args, calls)
}

/// The calls realizing one syscall: any prerequisite resource-producing
/// calls first, then the call itself, which carries a fresh result
/// identifier exactly when the syscall returns a resource.
pub fn generate_call(rng: &mut Rng, ctx: &mut Context, syscall: &Syscall, generating: bool) -> (
    calls: Vec<Call>)
    requires
        catalog_ok(old(ctx)@.metadata),
        old(ctx)@.metadata.contains(syscall@),
    ensures
        gen_post(old(ctx)@, final(ctx)@, Call::view_calls(calls@)),
        calls@.len() >= 1,
        Call::view_calls(calls@).last().nr == syscall@.nr,
        Call::view_calls(calls@).last().result is Some <==> syscall_ret_is_resource(syscall@),
        match Call::view_calls(calls@).last().result {
            Some(id) => results_has_id(final(ctx)@.results, id),
            None => true,
        },
    decreases (if generating {
        0int
    } else {
        1int
    }), fields_height(syscall@.fields) + 2, 0int,
{
    proof {
        let k = choose|k: int|
            0 <= k < old(ctx)@.metadata.len() && old(ctx)@.metadata[k] == syscall@;
        assert(crate::metadata::syscall_wf(syscall@));
    }
    let ghost c0 = ctx@;
    let res = generate_args(rng, ctx, syscall.fields(), generating);
    let args = res.0;
    let mut calls = res.1;
    let ghost cmid = ctx@;

    let ret_resource = match syscall.return_type() {
        Some(t) => t.is_resource(),
        None => false,
    };
    let result: Option<u64> = if ret_resource {
        match syscall.return_type() {
            Some(t) => Some(ctx.add_result(t)),
            None => None,
        }
    } else {
        None
    };

    let c = Call::new(syscall.number(), args, result);
    let ghost calls0 = calls@;
    calls.push(c);
    proof {
        let meta = c0.metadata;
        crate::call::lemma_view_calls_props(calls0);
        crate::call::lemma_view_calls_props(calls@);
        assert(calls@ =~= calls0.push(c));
        assert(Call::view_calls(calls@) =~= Call::view_calls(calls0).push(c@));
        let pv = Call::view_calls(calls0);
        let cv = Call::view_calls(calls@);
        lemma_view_seq_props(args@);

        // The new call is well-formed: its number finds its syscall.
        let k = choose|k: int| 0 <= k < meta.len() && meta[k] == syscall@;
        lemma_find_number_of_member(meta, k);
        assert(crate::metadata::spec_find_number(meta, c@.nr) == Some(syscall@));
        assert(call_wf(c@, meta));
        assert forall|i: int| 0 <= i < cv.len() implies call_wf(#[trigger] cv[i], meta) by {
            if i < pv.len() {
                assert(cv[i] == pv[i]);
            }
        }

        // Replay of the appended call matches what the context recorded.
        assert(cv.drop_last() =~= pv);
        assert(ctx@.results =~= c0.results + spec_replay(meta, cv));

        // The new call's references resolve against what stood before it.
        assert forall|j: int, id: u64|
            0 <= j < cv.len() && #[trigger] call_has_ref(cv[j], id) implies results_has_id(
            c0.results,
            id,
        ) || exists|m: int| 0 <= m < j && cv[m].result == Some(id) by {
            if j < pv.len() {
                assert(call_has_ref(pv[j], id));
            } else {
                let ai = choose|ai: int|
                    0 <= ai < c@.args.len() && arg_has_ref(#[trigger] c@.args[ai], id);
                assert(c@.args[ai] == args@[ai]@);
                assert(arg_refs_in(Arg::view_seq(args@)[ai], cmid.results));
                assert(results_has_id(cmid.results, id));
                if !results_has_id(c0.results, id) {
                    let rk = choose|rk: int|
                        0 <= rk < cmid.results.len() && (#[trigger] cmid.results[rk]).0 == id;
                    assert(cmid.results =~= c0.results + spec_replay(meta, pv));
                    assert(spec_replay(meta, pv)[rk - c0.results.len()].0 == id);
                    lemma_replay_ids(meta, pv, id);
                    let m = choose|m: int| 0 <= m < pv.len() && (#[trigger] pv[m]).result == Some(id);
                    assert(cv[m].result == Some(id));
                }
            }
        }

        // The produced identifier is registered.
        match c@.result {
            Some(id) => {
                assert(ctx@.results[ctx@.results.len() - 1].0 == id);
            },
            None => {},
        }
    }
    calls
}

/// A fresh program: the context is reset, then calls accumulate from
/// uniformly chosen syscalls until the program reaches `max_calls`, and the
/// tail is cut at that bound. The result is well-formed and its resource
/// dataflow is closed.
pub fn generate_calls(rng: &mut Rng, ctx: &mut Context, max_calls: usize) -> (calls: Vec<Call>)
    requires
        catalog_ok(old(ctx)@.metadata),
        old(ctx)@.metadata.len() >= 1,
    ensures
        program_wf(Call::view_calls(calls@), old(ctx)@.metadata),
        dataflow_ok(Call::view_calls(calls@)),
        calls@.len() == max_calls,
        final(ctx)@.metadata == old(ctx)@.metadata,
{
    ctx.reset();
    let ghost c0 = ctx@;
    proof {
        assert(c0.results =~= Seq::<(u64, TypeV)>::empty());
    }
    let mut calls: Vec<Call> = Vec::new();
    proof {
        lemma_gen_post_nocalls(c0, ctx@, calls@);
        assert(dataflow_ok(Call::view_calls(calls@)));
    }
    while calls.len() < max_calls
        invariant
            catalog_ok(c0.metadata),
            c0.metadata.len() >= 1,
            c0.results =~= Seq::<(u64, TypeV)>::empty(),
            ctx@.metadata == c0.metadata,
            gen_post(c0, ctx@, Call::view_calls(calls@)),
            dataflow_ok(Call::view_calls(calls@)),
        decreases (if calls@.len() >= max_calls {
            0int
        } else {
            max_calls - calls@.len()
        }),
    {
        let idx = {
            let syscalls = ctx.syscalls();
            rng.below(syscalls.len())
        };
        let syscall = {
            let syscalls = ctx.syscalls();
            proof {
                assert(syscalls@[idx as int]@ == ctx@.metadata[idx as int]);
            }
            syscalls[idx].deep_clone()
        };
        proof {
            assert(ctx@.metadata[idx as int] == syscall@);
            assert(ctx@.metadata.contains(syscall@));
        }
        let ghost cpre = ctx@;
        let ghost calls0 = calls@;
        let mut new_calls = generate_call(rng, ctx, &syscall, false);
        let ghost nc0 = new_calls@;
        calls.append(&mut new_calls);
        proof {
            extend_block(c0, cpre, ctx@, calls0, nc0);
            // Dataflow stays closed: the new block is linked against the
            // replay of what stood before it.
            assert(cpre.results =~= spec_replay(c0.metadata, Call::view_calls(calls0)));
            crate::wf::lemma_dataflow_append(
                c0.metadata,
                Call::view_calls(calls0),
                Call::view_calls(nc0),
            );
            crate::call::lemma_view_calls_concat(calls0, nc0);
        }
    }
    let ghost beforev = calls@;
    calls.truncate(max_calls);
    proof {
        crate::call::lemma_view_calls_props(beforev);
        crate::call::lemma_view_calls_props(calls@);
        if beforev.len() > max_calls {
            assert(calls@ =~= beforev.take(max_calls as int));
            assert(Call::view_calls(calls@) =~= Call::view_calls(beforev).take(max_calls as int));
            crate::wf::lemma_wf_take(Call::view_calls(beforev), c0.metadata, max_calls as int);
            crate::wf::lemma_dataflow_take(Call::view_calls(beforev), max_calls as int);
        } else {
            assert(calls@ == beforev);
        }
    }
    calls
}

/// Builds fresh programs of up to `max_size` calls over one context.
pub struct SyscallGenerator {
    pub max_size: usize,
    pub context: Context,
}

impl SyscallGenerator {
    pub fn new(max_size: usize, context: Context) -> (r: Self)
        ensures
            r.max_size == max_size,
            r.context@ == context@,
    {
        SyscallGenerator { max_size, context }
    }

    /// A fresh well-formed program whose resource dataflow is closed,
    /// bounded by this generator's size.
    pub fn generate(&mut self, rng: &mut Rng) -> (r: crate::input::SyscallInput)
        requires
            catalog_ok(old(self).context@.metadata),
            old(self).context@.metadata.len() >= 1,
        ensures
            program_wf(r@, old(self).context@.metadata),
            dataflow_ok(r@),
            r@.len() == old(self).max_size,
            final(self).max_size == old(self).max_size,
            final(self).context@.metadata == old(self).context@.metadata,
    {
        let max = self.max_size;
        let calls = generate_calls(rng, &mut self.context, max);
        proof {
            lemma_view_calls_props(calls@);
        }
        crate::input::SyscallInput::new(calls)
    }
}

} // verus!
