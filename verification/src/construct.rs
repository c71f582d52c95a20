//! Construction of well-formed types from plain description values:
//! sorting and de-duplication of value lists, bitmask detection, and the
//! validating constructors that surface description-level errors.

use vstd::prelude::*;
use vstd::seq_lib::group_seq_properties;

use crate::rand_util::MAX_BUFFER_LENGTH;
use crate::types::{
    seq_sorted, seq_sorted_unique, spec_is_bitmask, type_wf, ArrayType, BufferType, ByteBuffer,
    Field, FilenameBuffer, FlagType, IntType, PointerType, ResourceType, StringBuffer, StructType,
    Type, TypeAttr, UnionType,
};

verus! {

broadcast use
    group_seq_properties,
    vstd::seq_lib::to_multiset_insert,
    vstd::seq_lib::to_multiset_contains,
    vstd::prelude::Seq::lemma_push_to_set_commute,
;

/// A fault in the syscall description, surfaced when metadata is built.
#[derive(Debug, Clone, Copy, PartialEq, Eq, Structural)]
pub enum BuildError {
    /// A flag type carries no values.
    EmptyFlagValues,
    /// A union type carries no fields.
    EmptyUnionFields,
    /// A resource provides no fallback value.
    ResourceWithoutValues,
    /// A range whose lower bound exceeds its upper bound, or that spans
    /// every 64-bit value.
    InvalidRange,
    /// A declared buffer or array length above the buffer cap.
    LengthOverCap,
    /// An integer width outside 1..=64 bits.
    InvalidBits,
    /// A preset string longer than the buffer cap.
    PresetStringTooLong,
}

/// Sorts the values ascending; the result holds the same values with the
/// same multiplicities.
pub fn sort_values(v: &Vec<u64>) -> (r: Vec<u64>)
    ensures
        seq_sorted(r@),
        r@.to_multiset() == v@.to_multiset(),
        r@.len() == v@.len(),
{
    let mut r: Vec<u64> = Vec::new();
    let mut i: usize = 0;
    while i < v.len()
        invariant
            i <= v@.len(),
            seq_sorted(r@),
            r@.to_multiset() == v@.subrange(0, i as int).to_multiset(),
            r@.len() == i,
        decreases v@.len() - i,
    {
        let x = v[i];
        let ghost prev = r@;
        let mut pos: usize = 0;
        while pos < r.len() && r[pos] <= x
            invariant
                pos <= r@.len(),
                forall|k: int| 0 <= k < pos ==> r@[k] <= x,
                r@ == prev,
            decreases r@.len() - pos,
        {
            pos = pos + 1;
        }
        proof {
            assert(pos < prev.len() ==> prev[pos as int] > x);
        }
        r.insert(pos, x);
        proof {
            let cur = r@;
            assert(cur == prev.insert(pos as int, x));
            assert forall|a: int, b: int| 0 <= a <= b < cur.len() implies cur[a] <= cur[b] by {
                let p = pos as int;
                if a < p && b < p {
                    assert(cur[a] == prev[a] && cur[b] == prev[b]);
                } else if a < p && b == p {
                    assert(cur[a] == prev[a] && cur[b] == x);
                } else if a < p && b > p {
                    assert(cur[a] == prev[a] && cur[b] == prev[b - 1]);
                } else if a == p && b == p {
                } else if a == p && b > p {
                    assert(cur[a] == x && cur[b] == prev[b - 1]);
                    assert(prev[p] <= prev[b - 1]);
                } else {
                    assert(cur[a] == prev[a - 1] && cur[b] == prev[b - 1]);
                }
            }
            assert(seq_sorted(cur));
            assert(v@.subrange(0, i + 1 as int) =~= v@.subrange(0, i as int).push(x));
            vstd::seq_lib::to_multiset_build(v@.subrange(0, i as int), x);
        }
        i = i + 1;
    }
    proof {
        assert(v@.subrange(0, v@.len() as int) =~= v@);
    }
    r
}

/// Sorts the values ascending and removes duplicates; the result holds
/// exactly the same set of values, each once.
pub fn sort_dedup_values(v: &Vec<u64>) -> (r: Vec<u64>)
    ensures
        seq_sorted_unique(r@),
        r@.to_set() == v@.to_set(),
        v@.len() > 0 ==> r@.len() > 0,
{
    let s = sort_values(v);
    proof {
        assert forall|a: u64| s@.contains(a) <==> v@.contains(a) by {
            assert(s@.to_multiset().contains(a) == v@.to_multiset().contains(a));
        }
    }
    let mut r: Vec<u64> = Vec::new();
    let mut i: usize = 0;
    while i < s.len()
        invariant
            i <= s@.len(),
            seq_sorted(s@),
            seq_sorted_unique(r@),
            r@.to_set() == s@.subrange(0, i as int).to_set(),
            i > 0 ==> r@.len() > 0 && r@.last() == s@[i - 1],
            i == 0 ==> r@.len() == 0,
        decreases s@.len() - i,
    {
        let x = s[i];
        if r.len() == 0 || r[r.len() - 1] != x {
            proof {
                if r@.len() > 0 {
                    assert(r@.last() == s@[i - 1]);
                    assert(s@[i - 1] <= s@[i as int]);
                    assert(forall|k: int| 0 <= k < r@.len() ==> r@[k] <= r@.last());
                }
            }
            r.push(x);
        }
        proof {
            assert(s@.subrange(0, i + 1 as int) =~= s@.subrange(0, i as int).push(x));
            if r@.len() == 0 || r@.last() != x {
                assert(false);
            }
            assert(r@.to_set() =~= s@.subrange(0, i + 1 as int).to_set()) by {
                assert(s@.subrange(0, i as int).push(x).to_set() =~= s@.subrange(
                    0,
                    i as int,
                ).to_set().insert(x));
                assert(r@.to_set().contains(x));
            }
        }
        i = i + 1;
    }
    proof {
        assert(s@.subrange(0, s@.len() as int) =~= s@);
        assert forall|a: u64| r@.to_set().contains(a) <==> v@.to_set().contains(a) by {
            assert(s@.to_set().contains(a) <==> s@.contains(a));
            assert(v@.to_set().contains(a) <==> v@.contains(a));
            assert(s@.contains(a) <==> v@.contains(a));
        }
        assert(r@.to_set() =~= v@.to_set());
        if v@.len() > 0 {
            assert(s@.to_set().contains(s@[0]));
            assert(r@.to_set().contains(s@[0]));
            if r@.len() == 0 {
                assert(!r@.contains(s@[0]));
                assert(false);
            }
        }
    }
    r
}

/// The bitwise OR of all values in the sequence.
pub open spec fn or_seq(s: Seq<u64>) -> u64
    decreases s,
{
    if s.len() == 0 {
        0u64
    } else {
        or_seq(s.drop_last()) | s.last()
    }
}

/// A value is bit-disjoint from the OR of a sequence exactly when it is
/// bit-disjoint from every member.
proof fn lemma_or_seq_disjoint(s: Seq<u64>, x: u64)
    ensures
        (x & or_seq(s) == 0) <==> (forall|j: int| 0 <= j < s.len() ==> x & s[j] == 0),
    decreases s,
{
    if s.len() == 0 {
        assert(x & 0 == 0) by (bit_vector);
    } else {
        let rest = s.drop_last();
        let a = or_seq(rest);
        let b = s.last();
        lemma_or_seq_disjoint(rest, x);
        assert((x & (a | b) == 0) <==> (x & a == 0 && x & b == 0)) by (bit_vector);
        assert(or_seq(s) == a | b);
        assert(forall|j: int| 0 <= j < rest.len() ==> #[trigger] s[j] == rest[j]);
        if x & or_seq(s) == 0 {
            assert forall|j: int| 0 <= j < s.len() implies x & #[trigger] s[j] == 0 by {
                if j < s.len() - 1 {
                    assert(s[j] == rest[j]);
                } else {
                    assert(s[j] == b);
                }
            }
        } else {
            if x & a != 0 {
                assert(exists|j: int| 0 <= j < rest.len() && x & #[trigger] rest[j] != 0) by {
                    if forall|j: int| 0 <= j < rest.len() ==> x & #[trigger] rest[j] == 0 {
                        assert(false);
                    }
                }
                let j = choose|j: int| 0 <= j < rest.len() && x & #[trigger] rest[j] != 0;
                assert(x & s[j] != 0);
            } else {
                assert(x & b != 0);
                assert(x & s[s.len() - 1] != 0);
            }
        }
    }
}

/// Whether the sorted values form a bitmask: no zero among them, and no
/// two share a bit.
pub fn is_bitmask(values: &Vec<u64>) -> (r: bool)
    requires
        seq_sorted(values@),
    ensures
        r == spec_is_bitmask(values@),
{
    if values.len() == 0 || values[0] == 0 {
        // Zero cannot be part of a bitmask
        return false;
    }
    assert(forall|i: int| 0 <= i < values@.len() ==> #[trigger] values@[i] >= values@[0]);
    let mut combined: u64 = 0;
    let mut i: usize = 0;
    while i < values.len()
        invariant
            i <= values@.len(),
            combined == or_seq(values@.subrange(0, i as int)),
            forall|p: int, q: int| 0 <= p < q < i ==> values@[p] & values@[q] == 0,
        decreases values@.len() - i,
    {
        let x = values[i];
        let ghost prefix = values@.subrange(0, i as int);
        proof {
            assert(forall|a: u64, b: u64| #[trigger] (a & b) == b & a) by (bit_vector);
        }
        if x & combined != 0 {
            proof {
                lemma_or_seq_disjoint(prefix, x);
                let j = choose|j: int| 0 <= j < prefix.len() && x & prefix[j] != 0;
                assert(prefix[j] == values@[j]);
                assert(values@[j] & values@[i as int] != 0);
            }
            return false;
        }
        proof {
            lemma_or_seq_disjoint(prefix, x);
            assert(forall|p: int| 0 <= p < i ==> #[trigger] prefix[p] == values@[p]);
            assert forall|p: int| 0 <= p < i implies #[trigger] values@[p] & values@[i as int]
                == 0 by {
                let vp = values@[p];
                assert(x & prefix[p] == 0);
                assert(vp & x == x & vp) by (bit_vector);
            }
            assert(values@.subrange(0, i + 1 as int) =~= prefix.push(x));
            assert(prefix.push(x).drop_last() =~= prefix);
            assert(prefix.push(x).last() == x);
            assert(or_seq(prefix.push(x)) == or_seq(prefix.push(x).drop_last()) | prefix.push(
                x,
            ).last());
            assert(or_seq(values@.subrange(0, i + 1 as int)) == combined | x);
        }
        combined = combined | x;
        i = i + 1;
    }
    true
}

impl IntType {
    /// An integer type from its width and optional range. The range must
    /// not be inverted; a range spanning every value stands for no range.
    pub fn new(attr: TypeAttr, bits: u8, range: Option<(u64, u64)>) -> (r: Result<
        IntType,
        BuildError,
    >)
        ensures
            r is Ok ==> type_wf(r->Ok_0@) && r->Ok_0@ is Int,
            r is Ok ==> r->Ok_0.attr == attr && r->Ok_0.bits == bits,
            (1 <= bits <= 64 && range is None) ==> r is Ok && r->Ok_0.range is None,
            r is Err ==> !(1 <= bits <= 64) || (range matches Some((lo, hi)) && (lo > hi || (lo
                == 0 && hi == u64::MAX))),
    {
        if bits < 1 || bits > 64 {
            return Err(BuildError::InvalidBits);
        }
        match range {
            None => Ok(IntType { attr, bits, range: None }),
            Some((lo, hi)) => {
                if lo > hi {
                    Err(BuildError::InvalidRange)
                } else if lo == 0 && hi == u64::MAX {
                    Err(BuildError::InvalidRange)
                } else {
                    Ok(IntType { attr, bits, range: Some((lo, hi)) })
                }
            },
        }
    }
}

impl FlagType {
    /// A flag type from its resolved values: sorts them and detects
    /// whether they form a bitmask. At least one value is required.
    pub fn new(attr: TypeAttr, values: Vec<u64>) -> (r: Result<FlagType, BuildError>)
        ensures
            r is Ok ==> type_wf(r->Ok_0@) && r->Ok_0@ is Flag,
            r is Ok ==> r->Ok_0.attr == attr && r->Ok_0.values@.to_multiset()
                == values@.to_multiset() && r->Ok_0.values@.len() == values@.len(),
            r is Ok ==> r->Ok_0.is_bitmask == spec_is_bitmask(r->Ok_0.values@),
            r is Err <==> values@.len() == 0,
    {
        if values.len() == 0 {
            return Err(BuildError::EmptyFlagValues);
        }
        let sorted = sort_values(&values);
        proof {
            assert(sorted@.to_multiset().len() == values@.to_multiset().len());
            vstd::seq_lib::to_multiset_len(sorted@);
            vstd::seq_lib::to_multiset_len(values@);
        }
        let bitmask = is_bitmask(&sorted);
        Ok(FlagType { attr, values: sorted, is_bitmask: bitmask })
    }
}

impl ResourceType {
    /// A resource type from its name and fallback values, own and
    /// inherited: sorts and de-duplicates them. At least one is required.
    pub fn new(attr: TypeAttr, name: String, values: Vec<u64>) -> (r: Result<
        ResourceType,
        BuildError,
    >)
        ensures
            r is Ok ==> type_wf(r->Ok_0@) && r->Ok_0@ is Resource,
            r is Ok ==> r->Ok_0.attr == attr && r->Ok_0.name@ == name@
                && r->Ok_0.values@.to_set() == values@.to_set(),
            r is Err <==> values@.len() == 0,
    {
        if values.len() == 0 {
            return Err(BuildError::ResourceWithoutValues);
        }
        let sorted = sort_dedup_values(&values);
        Ok(ResourceType { attr, name, values: sorted })
    }
}

impl ArrayType {
    /// An array type from its element type and optional length range. The
    /// range must be ordered and below the buffer cap.
    pub fn new(attr: TypeAttr, elem: Type, range: Option<(u64, u64)>) -> (r: Result<
        ArrayType,
        BuildError,
    >)
        ensures
            r is Ok ==> (type_wf(elem@) ==> type_wf(r->Ok_0@)) && r->Ok_0@ is Array,
            r is Ok ==> r->Ok_0.attr == attr && r->Ok_0.elem@ == elem@ && r->Ok_0.range == range,
            r is Err <==> (range matches Some((lo, hi)) && (lo > hi || hi > MAX_BUFFER_LENGTH)),
    {
        match range {
            Some((lo, hi)) => {
                if lo > hi {
                    Err(BuildError::InvalidRange)
                } else if hi > MAX_BUFFER_LENGTH {
                    Err(BuildError::LengthOverCap)
                } else {
                    Ok(ArrayType { attr, elem: Box::new(elem), range })
                }
            },
            None => Ok(ArrayType { attr, elem: Box::new(elem), range: None }),
        }
    }
}

impl PointerType {
    /// A pointer type from its pointee type.
    pub fn new(attr: TypeAttr, elem: Type) -> (r: PointerType)
        ensures
            type_wf(elem@) ==> type_wf(r@),
            r@ is Pointer,
            r.attr == attr && r.elem@ == elem@,
    {
        PointerType { attr, elem: Box::new(elem) }
    }
}

impl StringBuffer {
    /// A string buffer from its preset values; each must fit the buffer
    /// cap.
    pub fn new(attr: TypeAttr, values: Vec<Vec<u8>>, no_zero: bool) -> (r: Result<
        StringBuffer,
        BuildError,
    >)
        ensures
            r is Ok ==> type_wf(Type::Buffer(BufferType::String(r->Ok_0))@),
            r is Ok ==> r->Ok_0.attr == attr && r->Ok_0.values == values && r->Ok_0.no_zero
                == no_zero,
            r is Err <==> exists|i: int|
                0 <= i < values@.len() && #[trigger] values@[i]@.len() > MAX_BUFFER_LENGTH,
    {
        let mut i: usize = 0;
        while i < values.len()
            invariant
                i <= values@.len(),
                forall|k: int| 0 <= k < i ==> #[trigger] values@[k]@.len() <= MAX_BUFFER_LENGTH,
            decreases values@.len() - i,
        {
            if values[i].len() > MAX_BUFFER_LENGTH as usize {
                return Err(BuildError::PresetStringTooLong);
            }
            i = i + 1;
        }
        let r = StringBuffer { attr, values, no_zero };
        proof {
            let vv = Type::Buffer(BufferType::String(r))@;
            assert(forall|k: int|
                0 <= k < vv->BufferString_values.len() ==> vv->BufferString_values[k]
                    == r.values@[k]@);
        }
        Ok(r)
    }
}

impl FilenameBuffer {
    /// A filename buffer.
    pub fn new(attr: TypeAttr, no_zero: bool) -> (r: FilenameBuffer)
        ensures
            type_wf(Type::Buffer(BufferType::Filename(r))@),
            r.attr == attr && r.no_zero == no_zero,
    {
        FilenameBuffer { attr, no_zero }
    }
}

impl ByteBuffer {
    /// A byte buffer from its optional length range, which must be ordered
    /// and below the buffer cap.
    pub fn new(attr: TypeAttr, range: Option<(u64, u64)>) -> (r: Result<ByteBuffer, BuildError>)
        ensures
            r is Ok ==> type_wf(Type::Buffer(BufferType::Byte(r->Ok_0))@),
            r is Ok ==> r->Ok_0.attr == attr && r->Ok_0.range == range,
            r is Err <==> (range matches Some((lo, hi)) && (lo > hi || hi > MAX_BUFFER_LENGTH)),
    {
        match range {
            Some((lo, hi)) => {
                if lo > hi {
                    Err(BuildError::InvalidRange)
                } else if hi > MAX_BUFFER_LENGTH {
                    Err(BuildError::LengthOverCap)
                } else {
                    Ok(ByteBuffer { attr, range })
                }
            },
            None => Ok(ByteBuffer { attr, range: None }),
        }
    }
}

impl StructType {
    /// A struct type from its ordered member fields.
    pub fn new(attr: TypeAttr, fields: Vec<Field>) -> (r: StructType)
        ensures
            r.attr == attr && r.fields == fields,
            r@ is Struct,
    {
        StructType { attr, fields }
    }
}

/// Whether the values are sorted ascending.
pub fn check_sorted(values: &Vec<u64>) -> (r: bool)
    ensures
        r == seq_sorted(values@),
{
    if values.len() < 2 {
        return true;
    }
    let mut i: usize = 1;
    while i < values.len()
        invariant
            1 <= i <= values@.len(),
            forall|p: int, q: int| 0 <= p <= q < i ==> values@[p] <= values@[q],
        decreases values@.len() - i,
    {
        if values[i - 1] > values[i] {
            return false;
        }
        i = i + 1;
    }
    true
}

/// Whether the values are sorted strictly ascending.
pub fn check_sorted_unique(values: &Vec<u64>) -> (r: bool)
    ensures
        r == seq_sorted_unique(values@),
{
    if values.len() < 2 {
        return true;
    }
    let mut i: usize = 1;
    while i < values.len()
        invariant
            1 <= i <= values@.len(),
            forall|p: int, q: int| 0 <= p < q < i ==> values@[p] < values@[q],
        decreases values@.len() - i,
    {
        if values[i - 1] >= values[i] {
            return false;
        }
        i = i + 1;
    }
    true
}

impl Type {
    /// Whether this type is well-formed: ranges ordered and within the
    /// caps, flag values sorted with their bitmask mark right, resources
    /// with at least one sorted unique value, recursively.
    pub fn check_wf(&self) -> (r: bool)
        ensures
            r == type_wf(self@),
        decreases crate::types::type_height(self@),
    {
        match self {
            Type::Int(t) => {
                proof {
                    assert(self@->Int_bits == t.bits);
                    assert(self@->Int_range == t.range);
                }
                if t.bits < 1 || t.bits > 64 {
                    return false;
                }
                let rr = match t.range {
                    Some((lo, hi)) => lo <= hi && hi - lo < u64::MAX,
                    None => true,
                };
                proof {
                    assert(rr == type_wf(self@));
                }
                rr
            },
            Type::Flag(t) => {
                proof {
                    assert(self@->Flag_values == t.values@);
                    assert(self@->Flag_is_bitmask == t.is_bitmask);
                }
                if t.values.len() == 0 {
                    return false;
                }
                if !check_sorted(&t.values) {
                    return false;
                }
                let bm = is_bitmask(&t.values);
                let r = t.is_bitmask == bm;
                proof {
                    assert(self@->Flag_values == t.values@);
                    assert(self@->Flag_is_bitmask == t.is_bitmask);
                    assert(r == type_wf(self@));
                }
                r
            },
            Type::Array(t) => {
                let range_ok = match t.range {
                    Some((lo, hi)) => lo <= hi && hi <= MAX_BUFFER_LENGTH,
                    None => true,
                };
                let rr = range_ok && (&*t.elem).check_wf();
                proof {
                    assert(self@->Array_elem == t.elem@);
                    assert(self@->Array_range == t.range);
                    assert(rr == type_wf(self@));
                }
                rr
            },
            Type::Pointer(t) => {
                let rr = (&*t.elem).check_wf();
                proof {
                    assert(self@->Pointer_elem == t.elem@);
                    assert(rr == type_wf(self@));
                }
                rr
            },
            Type::Buffer(BufferType::String(t)) => {
                let mut i: usize = 0;
                let ghost vv = self@->BufferString_values;
                proof {
                    assert(forall|k: int| 0 <= k < t.values@.len() ==> vv[k] == t.values@[k]@);
                }
                while i < t.values.len()
                    invariant
                        i <= t.values@.len(),
                        self@ is BufferString,
                        vv == self@->BufferString_values,
                        vv.len() == t.values@.len(),
                        forall|k: int| 0 <= k < t.values@.len() ==> vv[k] == t.values@[k]@,
                        forall|k: int| 0 <= k < i ==> #[trigger] vv[k].len() <= MAX_BUFFER_LENGTH,
                    decreases t.values@.len() - i,
                {
                    if t.values[i].len() > MAX_BUFFER_LENGTH as usize {
                        proof {
                            assert(vv[i as int].len() > MAX_BUFFER_LENGTH);
                            assert(!type_wf(self@));
                        }
                        return false;
                    }
                    i = i + 1;
                }
                proof {
                    assert(forall|k: int|
                        0 <= k < vv.len() ==> #[trigger] vv[k].len() <= MAX_BUFFER_LENGTH);
                    assert(type_wf(self@));
                }
                true
            },
            Type::Buffer(BufferType::Filename(_)) => true,
            Type::Buffer(BufferType::Byte(t)) => {
                let rr = match t.range {
                    Some((lo, hi)) => lo <= hi && hi <= MAX_BUFFER_LENGTH,
                    None => true,
                };
                proof {
                    assert(self@->BufferByte_range == t.range);
                    assert(rr == type_wf(self@));
                }
                rr
            },
            Type::Struct(t) => {
                let rr = check_fields_wf(&t.fields);
                proof {
                    assert(self@->Struct_fields == Type::view_fields(t.fields@));
                    assert(rr == type_wf(self@));
                }
                rr
            },
            Type::Union(t) => {
                let rr = t.fields.len() > 0 && check_fields_wf(&t.fields);
                proof {
                    assert(self@->Union_fields == Type::view_fields(t.fields@));
                    crate::types::lemma_view_fields_props(t.fields@);
                    assert(rr == type_wf(self@));
                }
                rr
            },
            Type::Resource(t) => {
                let rr = t.values.len() > 0 && check_sorted_unique(&t.values);
                proof {
                    assert(self@->Resource_values == t.values@);
                    assert(rr == type_wf(self@));
                }
                rr
            },
        }
    }
}

/// Whether every field's type is well-formed.
pub fn check_fields_wf(fields: &Vec<Field>) -> (r: bool)
    ensures
        r == crate::types::fields_wf(Type::view_fields(fields@)),
    decreases crate::types::fields_height(Type::view_fields(fields@)) + 1,
{
    let ghost fv = Type::view_fields(fields@);
    proof {
        crate::types::lemma_view_fields_props(fields@);
        crate::types::lemma_fields_wf_equiv(fv);
    }
    let mut i: usize = 0;
    while i < fields.len()
        invariant
            i <= fields@.len(),
            fv == Type::view_fields(fields@),
            fv.len() == fields@.len(),
            forall|k: int| 0 <= k < fields@.len() ==> fv[k] == fields@[k]@,
            forall|k: int| 0 <= k < i ==> type_wf(#[trigger] fv[k].ty),
        decreases fields@.len() - i,
    {
        proof {
            crate::types::lemma_fields_height_bound(fv, i as int);
            assert(fv[i as int].ty == fields@[i as int]@.ty);
        }
        if !fields[i].ty.check_wf() {
            proof {
                assert(!type_wf(fv[i as int].ty));
                crate::types::lemma_fields_wf_equiv(fv);
            }
            return false;
        }
        proof {
            assert(type_wf(fv[i as int].ty));
        }
        i = i + 1;
    }
    proof {
        crate::types::lemma_fields_wf_equiv(fv);
    }
    true
}

/// Whether the catalog is one the generator can work against: every
/// syscall well-formed, numbers pairwise distinct.
pub fn check_catalog(metadata: &crate::metadata::SyscallMetadata) -> (r: bool)
    ensures
        r == crate::generate::catalog_ok(metadata@),
{
    let syscalls = metadata.syscalls();
    let n = syscalls.len();
    let mut i: usize = 0;
    while i < n
        invariant
            i <= n,
            n == syscalls@.len(),
            syscalls@.len() == metadata@.len(),
            forall|k: int| 0 <= k < syscalls@.len() ==> syscalls@[k]@ == metadata@[k],
            forall|k: int| 0 <= k < i ==> crate::metadata::syscall_wf(#[trigger] metadata@[k]),
            forall|p: int, q: int| 0 <= p < q < i ==> metadata@[p].nr != metadata@[q].nr,
        decreases n - i,
    {
        let sc = &syscalls[i];
        proof {
            assert(sc@ == metadata@[i as int]);
        }
        if !check_fields_wf(sc.fields()) {
            proof {
                assert(!crate::metadata::syscall_wf(metadata@[i as int]));
                assert(!crate::metadata::metadata_wf(metadata@));
            }
            return false;
        }
        proof {
            assert(crate::types::fields_wf(metadata@[i as int].fields));
        }
        let ret_ok = match sc.return_type() {
            Some(t) => t.check_wf(),
            None => true,
        };
        if !ret_ok {
            proof {
                assert(!crate::metadata::syscall_wf(metadata@[i as int]));
                assert(!crate::metadata::metadata_wf(metadata@));
            }
            return false;
        }
        proof {
            assert(crate::metadata::syscall_wf(metadata@[i as int]));
        }
        // Numbers must be pairwise distinct
        let mut j: usize = 0;
        while j < i
            invariant
                j <= i < n,
                n == syscalls@.len(),
                syscalls@.len() == metadata@.len(),
                sc@ == metadata@[i as int],
                forall|k: int| 0 <= k < syscalls@.len() ==> syscalls@[k]@ == metadata@[k],
                forall|k: int| 0 <= k < j ==> metadata@[k].nr != metadata@[i as int].nr,
            decreases i - j,
        {
            if syscalls[j].number() == sc.number() {
                proof {
                    assert(metadata@[j as int].nr == metadata@[i as int].nr);
                    assert(!crate::wf::numbers_unique(metadata@));
                }
                return false;
            }
            j = j + 1;
        }
        proof {
            assert(forall|p: int| 0 <= p < i ==> metadata@[p].nr != metadata@[i as int].nr);
        }
        i = i + 1;
    }
    proof {
        assert(crate::metadata::metadata_wf(metadata@));
        assert(crate::wf::numbers_unique(metadata@));
    }
    true
}

impl UnionType {
    /// A union type from its alternative member fields, at least one.
    pub fn new(attr: TypeAttr, fields: Vec<Field>) -> (r: Result<UnionType, BuildError>)
        ensures
            r is Ok ==> r->Ok_0.attr == attr && r->Ok_0.fields == fields && r->Ok_0@ is Union,
            r is Err <==> fields@.len() == 0,
    {
        if fields.len() == 0 {
            return Err(BuildError::EmptyUnionFields);
        }
        Ok(UnionType { attr, fields })
    }
}

} // verus!
