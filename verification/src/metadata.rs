//! The immutable catalog of syscalls: each with a number, a name, ordered
//! fields, and an optional return type.

use vstd::prelude::*;

use crate::types::{fields_wf, lemma_view_fields_props, type_wf, Field, FieldV, Type, TypeV};

verus! {

/// Model of a [`Syscall`].
pub struct SyscallV {
    pub nr: u32,
    pub name: Seq<char>,
    pub fields: Seq<FieldV>,
    pub ret: Option<TypeV>,
}

/// One kernel entry point: number, name, positional fields, and the type
/// of its return value if the description declares one.
#[derive(Debug)]
pub struct Syscall {
    nr: u32,
    name: String,
    fields: Vec<Field>,
    ret: Option<Type>,
}

impl View for Syscall {
    type V = SyscallV;

    closed spec fn view(&self) -> SyscallV {
        SyscallV {
            nr: self.nr,
            name: self.name@,
            fields: Type::view_fields(self.fields@),
            ret: match self.ret {
                Some(t) => Some(t@),
                None => None,
            },
        }
    }
}

/// Well-formedness of a syscall: its fields and return type are
/// well-formed types.
pub open spec fn syscall_wf(s: SyscallV) -> bool {
    &&& fields_wf(s.fields)
    &&& match s.ret {
        Some(t) => type_wf(t),
        None => true,
    }
}

impl Syscall {
    /// A syscall from its parts.
    pub fn new(nr: u32, name: String, fields: Vec<Field>, ret: Option<Type>) -> (r: Syscall)
        ensures
            r@ == (SyscallV {
                nr,
                name: name@,
                fields: Type::view_fields(fields@),
                ret: match ret {
                    Some(t) => Some(t@),
                    None => None,
                },
            }),
    {
        Syscall { nr, name, fields, ret }
    }

    pub fn number(&self) -> (r: u32)
        ensures
            r == self@.nr,
    {
        self.nr
    }

    pub fn name(&self) -> (r: &String)
        ensures
            r@ == self@.name,
    {
        &self.name
    }

    pub fn fields(&self) -> (r: &Vec<Field>)
        ensures
            Type::view_fields(r@) == self@.fields,
            r@.len() == self@.fields.len(),
            forall|i: int| 0 <= i < r@.len() ==> r@[i]@ == self@.fields[i],
    {
        proof {
            lemma_view_fields_props(self.fields@);
        }
        &self.fields
    }

    pub fn return_type(&self) -> (r: Option<&Type>)
        ensures
            match r {
                Some(t) => self@.ret == Some(t@),
                None => self@.ret is None,
            },
    {
        match &self.ret {
            Some(t) => Some(t),
            None => None,
        }
    }

    /// A copy of this syscall, equal to it in the model.
    pub fn deep_clone(&self) -> (r: Syscall)
        ensures
            r@ == self@,
    {
        let ret = match &self.ret {
            Some(t) => Some(t.deep_clone()),
            None => None,
        };
        Syscall {
            nr: self.nr,
            name: self.name.clone(),
            fields: crate::types::clone_fields(&self.fields),
            ret,
        }
    }
}

/// The first syscall with the given number, if any.
pub open spec fn spec_find_number(m: Seq<SyscallV>, nr: u32) -> Option<SyscallV>
    decreases m,
{
    if m.len() == 0 {
        None
    } else if m[0].nr == nr {
        Some(m[0])
    } else {
        spec_find_number(m.drop_first(), nr)
    }
}

/// Whatever syscall the lookup returns carries the looked-up number and is
/// a member of the catalog.
pub broadcast proof fn lemma_find_number_props(m: Seq<SyscallV>, nr: u32)
    ensures
        match #[trigger] spec_find_number(m, nr) {
            Some(s) => s.nr == nr && m.contains(s),
            None => forall|i: int| 0 <= i < m.len() ==> m[i].nr != nr,
        },
    decreases m,
{
    if m.len() > 0 && m[0].nr != nr {
        lemma_find_number_props(m.drop_first(), nr);
        if spec_find_number(m.drop_first(), nr) is Some {
            let s = spec_find_number(m.drop_first(), nr)->Some_0;
            let i = choose|i: int| 0 <= i < m.drop_first().len() && m.drop_first()[i] == s;
            assert(m[i + 1] == s);
        } else {
            assert forall|i: int| 0 <= i < m.len() implies m[i].nr != nr by {
                if i > 0 {
                    assert(m.drop_first()[i - 1] == m[i]);
                }
            }
        }
    }
}

/// The immutable list of syscalls a description provides.
#[derive(Debug)]
pub struct SyscallMetadata(pub Vec<Syscall>);

impl View for SyscallMetadata {
    type V = Seq<SyscallV>;

    open spec fn view(&self) -> Seq<SyscallV> {
        Self::view_syscalls(self.0@)
    }
}

/// Well-formedness of a whole catalog.
pub open spec fn metadata_wf(m: Seq<SyscallV>) -> bool {
    forall|i: int| 0 <= i < m.len() ==> syscall_wf(#[trigger] m[i])
}

impl SyscallMetadata {
    /// The models of a sequence of syscalls, element by element.
    pub open spec fn view_syscalls(s: Seq<Syscall>) -> Seq<SyscallV>
        decreases s,
    {
        if s.len() == 0 {
            Seq::empty()
        } else {
            Self::view_syscalls(s.drop_last()).push(s.last()@)
        }
    }

    /// A catalog from a list of syscalls.
    pub fn new(syscalls: Vec<Syscall>) -> (r: SyscallMetadata)
        ensures
            r@ == Self::view_syscalls(syscalls@),
    {
        SyscallMetadata(syscalls)
    }

    pub fn syscalls(&self) -> (r: &Vec<Syscall>)
        ensures
            Self::view_syscalls(r@) == self@,
            r@.len() == self@.len(),
            forall|i: int| 0 <= i < r@.len() ==> r@[i]@ == self@[i],
    {
        proof {
            lemma_view_syscalls_props(self.0@);
        }
        &self.0
    }

    /// The first syscall with the given number, if any.
    pub fn find_number(&self, nr: u32) -> (r: Option<&Syscall>)
        ensures
            match r {
                Some(s) => spec_find_number(self@, nr) == Some(s@),
                None => spec_find_number(self@, nr) is None,
            },
    {
        proof {
            lemma_view_syscalls_props(self.0@);
            assert(self@.skip(0) =~= self@);
        }
        let mut i: usize = 0;
        while i < self.0.len()
            invariant
                i <= self.0@.len(),
                Self::view_syscalls(self.0@) == self@,
                self.0@.len() == self@.len(),
                forall|k: int| 0 <= k < self.0@.len() ==> self.0@[k]@ == self@[k],
                forall|k: int| 0 <= k < i ==> self@[k].nr != nr,
                spec_find_number(self@.skip(i as int), nr) == spec_find_number(self@, nr),
            decreases self.0@.len() - i,
        {
            if self.0[i].number() == nr {
                proof {
                    assert(self@.skip(i as int)[0] == self@[i as int]);
                }
                return Some(&self.0[i]);
            }
            proof {
                assert(self@.skip(i as int)[0] == self@[i as int]);
                assert(self@.skip(i as int).drop_first() =~= self@.skip(i + 1));
            }
            i = i + 1;
        }
        proof {
            assert(self@.skip(i as int).len() == 0);
        }
        None
    }

    /// A copy of this catalog, equal to it in the model.
    pub fn deep_clone(&self) -> (r: SyscallMetadata)
        ensures
            r@ == self@,
    {
        proof {
            lemma_view_syscalls_props(self.0@);
        }
        let mut out: Vec<Syscall> = Vec::new();
        let mut i: usize = 0;
        while i < self.0.len()
            invariant
                i <= self.0@.len(),
                out@.len() == i,
                forall|k: int| 0 <= k < i ==> out@[k]@ == self.0@[k]@,
            decreases self.0@.len() - i,
        {
            out.push(self.0[i].deep_clone());
            i = i + 1;
        }
        proof {
            lemma_view_syscalls_eq(out@, self.0@);
        }
        SyscallMetadata(out)
    }
}

/// The syscall models stand for the syscalls one by one: same length, same
/// entries.
pub broadcast proof fn lemma_view_syscalls_props(s: Seq<Syscall>)
    ensures
        (#[trigger] SyscallMetadata::view_syscalls(s)).len() == s.len(),
        forall|i: int| 0 <= i < s.len() ==> SyscallMetadata::view_syscalls(s)[i] == s[i]@,
    decreases s,
{
    if s.len() > 0 {
        lemma_view_syscalls_props(s.drop_last());
        assert(forall|i: int| 0 <= i < s.len() - 1 ==> s.drop_last()[i] == s[i]);
    }
}

/// Two syscall vectors whose entries agree in the model have the same
/// model.
proof fn lemma_view_syscalls_eq(a: Seq<Syscall>, b: Seq<Syscall>)
    requires
        a.len() == b.len(),
        forall|k: int| 0 <= k < a.len() ==> a[k]@ == b[k]@,
    ensures
        SyscallMetadata::view_syscalls(a) == SyscallMetadata::view_syscalls(b),
    decreases a,
{
    if a.len() > 0 {
        assert(forall|k: int| 0 <= k < a.len() - 1 ==> a.drop_last()[k] == a[k]);
        assert(forall|k: int| 0 <= k < b.len() - 1 ==> b.drop_last()[k] == b[k]);
        lemma_view_syscalls_eq(a.drop_last(), b.drop_last());
        assert(SyscallMetadata::view_syscalls(a) =~= SyscallMetadata::view_syscalls(b));
    } else {
        assert(SyscallMetadata::view_syscalls(a) =~= SyscallMetadata::view_syscalls(b));
    }
}

} // verus!
