//! The type model of syscall arguments: integers with ranges, flag sets,
//! arrays, pointers, buffers, structs, unions, and resources, each carrying
//! a direction/optionality attribute.

use vstd::prelude::*;

use crate::rand_util::MAX_BUFFER_LENGTH;

verus! {

/// Whether the kernel reads, writes, or both reads and writes a value.
#[derive(Clone, Copy, PartialEq, Eq, Structural, Debug)]
pub enum Direction {
    In,
    Out,
    InOut,
}

/// Attributes shared by every type: direction and optionality.
#[derive(Clone, Copy, PartialEq, Eq, Structural, Debug)]
pub struct TypeAttr {
    pub dir: Direction,
    pub optional: bool,
}

impl TypeAttr {
    /// An input, non-optional attribute; the default for fields that carry
    /// no explicit direction or optionality.
    pub fn input() -> (r: Self)
        ensures
            r == (TypeAttr { dir: Direction::In, optional: false }),
    {
        TypeAttr { dir: Direction::In, optional: false }
    }
}

/// Model of a [`Type`]: the same tree with mathematical sequences inside.
#[allow(inconsistent_fields)]
pub enum TypeV {
    Int { attr: TypeAttr, bits: u8, range: Option<(u64, u64)> },
    Flag { attr: TypeAttr, values: Seq<u64>, is_bitmask: bool },
    Array { attr: TypeAttr, elem: Box<TypeV>, range: Option<(u64, u64)> },
    Pointer { attr: TypeAttr, elem: Box<TypeV> },
    BufferString { attr: TypeAttr, values: Seq<Seq<u8>>, no_zero: bool },
    BufferFilename { attr: TypeAttr, no_zero: bool },
    BufferByte { attr: TypeAttr, range: Option<(u64, u64)> },
    Struct { attr: TypeAttr, fields: Seq<FieldV> },
    Union { attr: TypeAttr, fields: Seq<FieldV> },
    Resource { attr: TypeAttr, name: Seq<char>, values: Seq<u64> },
}

/// Model of a [`Field`].
pub struct FieldV {
    pub name: Seq<char>,
    pub ty: TypeV,
    pub dir: Direction,
}

/// An integer field: bit width and an optional inclusive value range.
#[derive(Debug)]
pub struct IntType {
    pub attr: TypeAttr,
    pub bits: u8,
    pub range: Option<(u64, u64)>,
}

/// A flag field: the admissible values, sorted, and whether they form a
/// bitmask (pairwise disjoint bit sets, zero not among them).
#[derive(Debug)]
pub struct FlagType {
    pub attr: TypeAttr,
    pub values: Vec<u64>,
    pub is_bitmask: bool,
}

/// An array field: element type and an optional inclusive length range.
#[derive(Debug)]
pub struct ArrayType {
    pub attr: TypeAttr,
    pub elem: Box<Type>,
    pub range: Option<(u64, u64)>,
}

/// A pointer field: the pointee type.
#[derive(Debug)]
pub struct PointerType {
    pub attr: TypeAttr,
    pub elem: Box<Type>,
}

/// A string buffer: optional preset values and whether the trailing NUL is
/// omitted.
#[derive(Debug)]
pub struct StringBuffer {
    pub attr: TypeAttr,
    pub values: Vec<Vec<u8>>,
    pub no_zero: bool,
}

/// A filename buffer.
#[derive(Debug)]
pub struct FilenameBuffer {
    pub attr: TypeAttr,
    pub no_zero: bool,
}

/// A raw byte buffer with an optional inclusive length range.
#[derive(Debug)]
pub struct ByteBuffer {
    pub attr: TypeAttr,
    pub range: Option<(u64, u64)>,
}

/// The buffer kinds: strings, filenames, raw bytes.
#[derive(Debug)]
pub enum BufferType {
    String(StringBuffer),
    Filename(FilenameBuffer),
    Byte(ByteBuffer),
}

/// A struct field: ordered member fields.
#[derive(Debug)]
pub struct StructType {
    pub attr: TypeAttr,
    pub fields: Vec<Field>,
}

/// A union field: alternative member fields, at least one.
#[derive(Debug)]
pub struct UnionType {
    pub attr: TypeAttr,
    pub fields: Vec<Field>,
}

/// A resource: a kernel object identified by name, with fallback literal
/// values (own and inherited), sorted and de-duplicated, at least one.
#[derive(Debug)]
pub struct ResourceType {
    pub attr: TypeAttr,
    pub name: String,
    pub values: Vec<u64>,
}

/// The type of one syscall argument.
#[derive(Debug)]
pub enum Type {
    Int(IntType),
    Flag(FlagType),
    Array(ArrayType),
    Pointer(PointerType),
    Buffer(BufferType),
    Struct(StructType),
    Union(UnionType),
    Resource(ResourceType),
}

/// One positional parameter of a syscall.
#[derive(Debug)]
pub struct Field {
    pub name: String,
    pub ty: Type,
    pub dir: Direction,
}

impl Type {
    /// The model of this type.
    pub open spec fn view_rec(self) -> TypeV
        decreases self,
    {
        match self {
            Type::Int(t) => TypeV::Int { attr: t.attr, bits: t.bits, range: t.range },
            Type::Flag(t) => TypeV::Flag {
                attr: t.attr,
                values: t.values@,
                is_bitmask: t.is_bitmask,
            },
            Type::Array(t) => TypeV::Array {
                attr: t.attr,
                elem: Box::new((*t.elem).view_rec()),
                range: t.range,
            },
            Type::Pointer(t) => TypeV::Pointer { attr: t.attr, elem: Box::new((*t.elem).view_rec()) },
            Type::Buffer(BufferType::String(t)) => TypeV::BufferString {
                attr: t.attr,
                values: Seq::new(t.values@.len(), |i: int| t.values@[i]@),
                no_zero: t.no_zero,
            },
            Type::Buffer(BufferType::Filename(t)) => TypeV::BufferFilename {
                attr: t.attr,
                no_zero: t.no_zero,
            },
            Type::Buffer(BufferType::Byte(t)) => TypeV::BufferByte { attr: t.attr, range: t.range },
            Type::Struct(t) => TypeV::Struct { attr: t.attr, fields: Self::view_fields(t.fields@) },
            Type::Union(t) => TypeV::Union { attr: t.attr, fields: Self::view_fields(t.fields@) },
            Type::Resource(t) => TypeV::Resource { attr: t.attr, name: t.name@, values: t.values@ },
        }
    }

    /// The model of a sequence of fields, element by element.
    pub open spec fn view_fields(s: Seq<Field>) -> Seq<FieldV>
        decreases s,
    {
        if s.len() == 0 {
            Seq::empty()
        } else {
            Self::view_fields(s.drop_last()).push(
                FieldV {
                    name: s.last().name@,
                    ty: s.last().ty.view_rec(),
                    dir: s.last().dir,
                },
            )
        }
    }
}

impl View for Type {
    type V = TypeV;

    open spec fn view(&self) -> TypeV {
        self.view_rec()
    }
}

impl View for Field {
    type V = FieldV;

    open spec fn view(&self) -> FieldV {
        FieldV { name: self.name@, ty: self.ty.view_rec(), dir: self.dir }
    }
}

impl View for IntType {
    type V = TypeV;

    open spec fn view(&self) -> TypeV {
        Type::Int(*self).view_rec()
    }
}

impl View for FlagType {
    type V = TypeV;

    open spec fn view(&self) -> TypeV {
        Type::Flag(*self).view_rec()
    }
}

impl View for ArrayType {
    type V = TypeV;

    open spec fn view(&self) -> TypeV {
        Type::Array(*self).view_rec()
    }
}

impl View for PointerType {
    type V = TypeV;

    open spec fn view(&self) -> TypeV {
        Type::Pointer(*self).view_rec()
    }
}

impl View for StringBuffer {
    type V = TypeV;

    open spec fn view(&self) -> TypeV {
        Type::Buffer(BufferType::String(*self)).view_rec()
    }
}

impl View for FilenameBuffer {
    type V = TypeV;

    open spec fn view(&self) -> TypeV {
        Type::Buffer(BufferType::Filename(*self)).view_rec()
    }
}

impl View for ByteBuffer {
    type V = TypeV;

    open spec fn view(&self) -> TypeV {
        Type::Buffer(BufferType::Byte(*self)).view_rec()
    }
}

impl View for StructType {
    type V = TypeV;

    open spec fn view(&self) -> TypeV {
        Type::Struct(*self).view_rec()
    }
}

impl View for UnionType {
    type V = TypeV;

    open spec fn view(&self) -> TypeV {
        Type::Union(*self).view_rec()
    }
}

impl View for ResourceType {
    type V = TypeV;

    open spec fn view(&self) -> TypeV {
        Type::Resource(*self).view_rec()
    }
}

/// The field models stand for the fields one by one: same length, same
/// entries.
pub broadcast proof fn lemma_view_fields_props(s: Seq<Field>)
    ensures
        (#[trigger] Type::view_fields(s)).len() == s.len(),
        forall|i: int| 0 <= i < s.len() ==> Type::view_fields(s)[i] == s[i]@,
    decreases s,
{
    if s.len() > 0 {
        lemma_view_fields_props(s.drop_last());
        assert(forall|i: int| 0 <= i < s.len() - 1 ==> s.drop_last()[i] == s[i]);
        assert(Type::view_fields(s)[s.len() - 1] == s[s.len() - 1]@);
    }
}

impl Type {
    /// A copy of this type, equal to it in the model.
    pub fn deep_clone(&self) -> (r: Type)
        ensures
            r@ == self@,
        decreases self,
    {
        match self {
            Type::Int(t) => Type::Int(IntType { attr: t.attr, bits: t.bits, range: t.range }),
            Type::Flag(t) => Type::Flag(
                FlagType { attr: t.attr, values: clone_u64s(&t.values), is_bitmask: t.is_bitmask },
            ),
            Type::Array(t) => Type::Array(
                ArrayType {
                    attr: t.attr,
                    elem: Box::new((&*t.elem).deep_clone()),
                    range: t.range,
                },
            ),
            Type::Pointer(t) => Type::Pointer(
                PointerType { attr: t.attr, elem: Box::new((&*t.elem).deep_clone()) },
            ),
            Type::Buffer(BufferType::String(t)) => {
                let r = Type::Buffer(
                    BufferType::String(
                        StringBuffer {
                            attr: t.attr,
                            values: clone_byte_vecs(&t.values),
                            no_zero: t.no_zero,
                        },
                    ),
                );
                proof {
                    assert(r@->BufferString_values =~= self@->BufferString_values);
                    assert(r@ =~= self@);
                }
                r
            },
            Type::Buffer(BufferType::Filename(t)) => Type::Buffer(
                BufferType::Filename(FilenameBuffer { attr: t.attr, no_zero: t.no_zero }),
            ),
            Type::Buffer(BufferType::Byte(t)) => Type::Buffer(
                BufferType::Byte(ByteBuffer { attr: t.attr, range: t.range }),
            ),
            Type::Struct(t) => Type::Struct(
                StructType { attr: t.attr, fields: clone_fields(&t.fields) },
            ),
            Type::Union(t) => Type::Union(
                UnionType { attr: t.attr, fields: clone_fields(&t.fields) },
            ),
            Type::Resource(t) => Type::Resource(
                ResourceType { attr: t.attr, name: t.name.clone(), values: clone_u64s(&t.values) },
            ),
        }
    }
}

impl Field {
    /// A copy of this field, equal to it in the model.
    pub fn deep_clone(&self) -> (r: Field)
        ensures
            r@ == self@,
        decreases self,
    {
        Field { name: self.name.clone(), ty: self.ty.deep_clone(), dir: self.dir }
    }
}

/// A copy of a vector of fields, equal to it in the model.
pub fn clone_fields(fs: &Vec<Field>) -> (r: Vec<Field>)
    ensures
        Type::view_fields(r@) == Type::view_fields(fs@),
        r@.len() == fs@.len(),
    decreases fs@,
{
    broadcast use lemma_view_fields_props;

    let mut r: Vec<Field> = Vec::new();
    let mut i: usize = 0;
    while i < fs.len()
        invariant
            i <= fs@.len(),
            r@.len() == i,
            forall|k: int| 0 <= k < i ==> r@[k]@ == fs@[k]@,
        decreases fs@.len() - i,
    {
        let f = &fs[i];
        r.push(Field { name: f.name.clone(), ty: f.ty.deep_clone(), dir: f.dir });
        i = i + 1;
    }
    proof {
        lemma_view_fields_eq(r@, fs@);
    }
    r
}

/// Two field vectors whose entries agree in the model have the same model.
proof fn lemma_view_fields_eq(a: Seq<Field>, b: Seq<Field>)
    requires
        a.len() == b.len(),
        forall|k: int| 0 <= k < a.len() ==> a[k]@ == b[k]@,
    ensures
        Type::view_fields(a) == Type::view_fields(b),
    decreases a,
{
    if a.len() > 0 {
        assert(forall|k: int| 0 <= k < a.len() - 1 ==> a.drop_last()[k] == a[k]);
        assert(forall|k: int| 0 <= k < b.len() - 1 ==> b.drop_last()[k] == b[k]);
        lemma_view_fields_eq(a.drop_last(), b.drop_last());
        assert(a.last()@ == b.last()@);
        assert(Type::view_fields(a) =~= Type::view_fields(b));
    } else {
        assert(Type::view_fields(a) =~= Type::view_fields(b));
    }
}

/// A copy of a vector of values.
pub fn clone_u64s(v: &Vec<u64>) -> (r: Vec<u64>)
    ensures
        r@ == v@,
{
    let mut r: Vec<u64> = Vec::new();
    let mut i: usize = 0;
    while i < v.len()
        invariant
            i <= v@.len(),
            r@ == v@.subrange(0, i as int),
        decreases v@.len() - i,
    {
        r.push(v[i]);
        proof {
            assert(r@ =~= v@.subrange(0, i + 1 as int));
        }
        i = i + 1;
    }
    proof {
        assert(v@.subrange(0, v@.len() as int) =~= v@);
    }
    r
}

/// A copy of a vector of byte strings.
pub fn clone_byte_vecs(v: &Vec<Vec<u8>>) -> (r: Vec<Vec<u8>>)
    ensures
        r@.len() == v@.len(),
        forall|i: int| 0 <= i < v@.len() ==> r@[i]@ == #[trigger] v@[i]@,
{
    let mut r: Vec<Vec<u8>> = Vec::new();
    let mut i: usize = 0;
    while i < v.len()
        invariant
            i <= v@.len(),
            r@.len() == i,
            forall|k: int| 0 <= k < i ==> r@[k]@ == #[trigger] v@[k]@,
        decreases v@.len() - i,
    {
        r.push(clone_bytes(&v[i]));
        i = i + 1;
    }
    r
}

/// A copy of a byte string.
pub fn clone_bytes(v: &Vec<u8>) -> (r: Vec<u8>)
    ensures
        r@ == v@,
{
    let mut r: Vec<u8> = Vec::new();
    let mut i: usize = 0;
    while i < v.len()
        invariant
            i <= v@.len(),
            r@ == v@.subrange(0, i as int),
        decreases v@.len() - i,
    {
        r.push(v[i]);
        proof {
            assert(r@ =~= v@.subrange(0, i + 1 as int));
        }
        i = i + 1;
    }
    proof {
        assert(v@.subrange(0, v@.len() as int) =~= v@);
    }
    r
}

/// The sequence is sorted in ascending order (duplicates allowed).
pub open spec fn seq_sorted(s: Seq<u64>) -> bool {
    forall|i: int, j: int| 0 <= i <= j < s.len() ==> s[i] <= s[j]
}

/// The sequence is sorted in strictly ascending order: sorted and without
/// duplicates.
pub open spec fn seq_sorted_unique(s: Seq<u64>) -> bool {
    forall|i: int, j: int| 0 <= i < j < s.len() ==> s[i] < s[j]
}

/// The values form a bitmask: there is at least one, none is zero, and no
/// two share a bit.
pub open spec fn spec_is_bitmask(s: Seq<u64>) -> bool {
    &&& s.len() > 0
    &&& forall|i: int| 0 <= i < s.len() ==> s[i] != 0
    &&& forall|i: int, j: int| 0 <= i < j < s.len() ==> s[i] & s[j] == 0
}

/// Well-formedness of a type, as the metadata constructors establish it.
pub open spec fn type_wf(t: TypeV) -> bool
    decreases t,
{
    match t {
        TypeV::Int { bits, range, .. } => {
            &&& 1 <= bits <= 64
            &&& match range {
                Some((lo, hi)) => lo <= hi && hi - lo < u64::MAX,
                None => true,
            }
        },
        TypeV::Flag { values, is_bitmask, .. } => {
            &&& values.len() > 0
            &&& seq_sorted(values)
            &&& is_bitmask == spec_is_bitmask(values)
        },
        TypeV::Array { elem, range, .. } => {
            &&& type_wf(*elem)
            &&& match range {
                Some((lo, hi)) => lo <= hi && hi <= MAX_BUFFER_LENGTH,
                None => true,
            }
        },
        TypeV::Pointer { elem, .. } => type_wf(*elem),
        TypeV::BufferString { values, .. } => forall|i: int|
            0 <= i < values.len() ==> values[i].len() <= MAX_BUFFER_LENGTH,
        TypeV::BufferFilename { .. } => true,
        TypeV::BufferByte { range, .. } => match range {
            Some((lo, hi)) => lo <= hi && hi <= MAX_BUFFER_LENGTH,
            None => true,
        },
        TypeV::Struct { fields, .. } => fields_wf(fields),
        TypeV::Union { fields, .. } => fields.len() > 0 && fields_wf(fields),
        TypeV::Resource { values, .. } => values.len() > 0 && seq_sorted_unique(values),
    }
}

/// Well-formedness of every field in a sequence.
pub open spec fn fields_wf(fs: Seq<FieldV>) -> bool
    decreases fs,
{
    if fs.len() == 0 {
        true
    } else {
        fields_wf(fs.drop_last()) && type_wf(fs.last().ty)
    }
}

/// The nesting height of a type: zero for leaves, one more than the
/// deepest member otherwise. Generation recurses along it.
pub open spec fn type_height(t: TypeV) -> nat
    decreases t,
{
    match t {
        TypeV::Array { elem, .. } => type_height(*elem) + 1,
        TypeV::Pointer { elem, .. } => type_height(*elem) + 1,
        TypeV::Struct { fields, .. } => fields_height(fields) + 2,
        TypeV::Union { fields, .. } => fields_height(fields) + 2,
        _ => 0,
    }
}

/// A field sequence is well-formed exactly when every member's type is.
pub proof fn lemma_fields_wf_equiv(fs: Seq<FieldV>)
    ensures
        fields_wf(fs) <==> (forall|i: int| 0 <= i < fs.len() ==> type_wf(#[trigger] fs[i].ty)),
    decreases fs,
{
    if fs.len() > 0 {
        lemma_fields_wf_equiv(fs.drop_last());
        assert(forall|i: int| 0 <= i < fs.len() - 1 ==> fs.drop_last()[i] == fs[i]);
        if forall|i: int| 0 <= i < fs.len() ==> type_wf(#[trigger] fs[i].ty) {
            assert(type_wf(fs.last().ty)) by {
                assert(fs.last() == fs[fs.len() - 1]);
            }
            assert(forall|i: int|
                0 <= i < fs.drop_last().len() ==> type_wf(#[trigger] fs.drop_last()[i].ty));
        }
    }
}

/// Every member of a well-formed field sequence has a well-formed type.
pub proof fn lemma_fields_wf_index(fs: Seq<FieldV>, i: int)
    requires
        fields_wf(fs),
        0 <= i < fs.len(),
    ensures
        type_wf(fs[i].ty),
    decreases fs,
{
    if i == fs.len() - 1 {
        assert(fs.last() == fs[i]);
    } else {
        lemma_fields_wf_index(fs.drop_last(), i);
        assert(fs.drop_last()[i] == fs[i]);
    }
}

/// No member of a field sequence is taller than the sequence's height.
pub proof fn lemma_fields_height_bound(fs: Seq<FieldV>, i: int)
    requires
        0 <= i < fs.len(),
    ensures
        type_height(fs[i].ty) <= fields_height(fs),
    decreases fs,
{
    if i == fs.len() - 1 {
        assert(fs.last() == fs[i]);
    } else {
        lemma_fields_height_bound(fs.drop_last(), i);
        assert(fs.drop_last()[i] == fs[i]);
    }
}

/// The largest nesting height among a sequence of fields.
pub open spec fn fields_height(fs: Seq<FieldV>) -> nat
    decreases fs,
{
    if fs.len() == 0 {
        0
    } else {
        let rest = fields_height(fs.drop_last());
        let last = type_height(fs.last().ty);
        if rest >= last {
            rest
        } else {
            last
        }
    }
}

impl Type {
    /// Whether this is an integer-valued type (integer or flag).
    pub fn is_integer(&self) -> (r: bool)
        ensures
            r == (self@ is Int || self@ is Flag),
    {
        match self {
            Type::Int(_) | Type::Flag(_) => true,
            _ => false,
        }
    }

    /// Whether this is a string buffer.
    pub fn is_string(&self) -> (r: bool)
        ensures
            r == (self@ is BufferString),
    {
        match self {
            Type::Buffer(BufferType::String(_)) => true,
            _ => false,
        }
    }

    /// Whether this is a filename buffer.
    pub fn is_filename(&self) -> (r: bool)
        ensures
            r == (self@ is BufferFilename),
    {
        match self {
            Type::Buffer(BufferType::Filename(_)) => true,
            _ => false,
        }
    }

    /// Whether this is a resource.
    pub fn is_resource(&self) -> (r: bool)
        ensures
            r == (self@ is Resource),
    {
        match self {
            Type::Resource(_) => true,
            _ => false,
        }
    }

    /// Whether this is a resource with the given name.
    pub fn is_compatible_resource(&self, name: &String) -> (r: bool)
        ensures
            r == (self@ is Resource && self@->Resource_name == name@),
    {
        match self {
            Type::Resource(inner) => inner.name == *name,
            _ => false,
        }
    }

    /// The attribute of this type.
    pub fn attr(&self) -> (r: &TypeAttr)
        ensures
            *r == spec_attr(self@),
    {
        match self {
            Type::Int(inner) => &inner.attr,
            Type::Flag(inner) => &inner.attr,
            Type::Array(inner) => &inner.attr,
            Type::Pointer(inner) => &inner.attr,
            Type::Buffer(BufferType::String(inner)) => &inner.attr,
            Type::Buffer(BufferType::Filename(inner)) => &inner.attr,
            Type::Buffer(BufferType::Byte(inner)) => &inner.attr,
            Type::Struct(inner) => &inner.attr,
            Type::Union(inner) => &inner.attr,
            Type::Resource(inner) => &inner.attr,
        }
    }
}

/// The attribute carried by a type model.
pub open spec fn spec_attr(t: TypeV) -> TypeAttr {
    match t {
        TypeV::Int { attr, .. } => attr,
        TypeV::Flag { attr, .. } => attr,
        TypeV::Array { attr, .. } => attr,
        TypeV::Pointer { attr, .. } => attr,
        TypeV::BufferString { attr, .. } => attr,
        TypeV::BufferFilename { attr, .. } => attr,
        TypeV::BufferByte { attr, .. } => attr,
        TypeV::Struct { attr, .. } => attr,
        TypeV::Union { attr, .. } => attr,
        TypeV::Resource { attr, .. } => attr,
    }
}

/// A length range is variable if absent or spanning more than one value.
pub fn is_var_len(range: Option<(u64, u64)>) -> (r: bool)
    ensures
        r == match range {
            Some((lo, hi)) => lo != hi,
            None => true,
        },
{
    match range {
        Some((lo, hi)) => lo != hi,
        None => true,
    }
}

} // verus!
