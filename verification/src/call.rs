//! The data model of one planned system call: its number, its argument
//! values, and the identifier of the resource it produces, if any.

use vstd::prelude::*;

verus! {

/// Mathematical model of an argument value.
///
/// `Arg` is the executable form; `ArgV` is what contracts speak of.
pub enum ArgV {
    /// An integer-valued argument (integers and flag sets).
    Const(u64),
    /// A pointer by special address; 0 is the canonical null.
    Addr(u64),
    /// A pointer to an encoded pointee.
    PointerData(Box<ArgV>),
    /// An input buffer carrying its payload.
    DataIn(Seq<u8>),
    /// An output buffer carrying only its requested size.
    DataOut(u64),
    /// An aggregate of element arguments.
    Group(Seq<ArgV>),
    /// A reference to the result of an earlier call.
    ResultRef(u64),
    /// A fallback literal standing in for a resource.
    ResultLiteral(u64),
}

/// An integer-valued argument; covers integer and flag fields.
#[derive(Debug)]
pub struct ConstArg(pub u64);

/// A pointer argument: a special address or an owned pointee.
#[derive(Debug)]
pub enum PointerArg {
    /// Special address; only 0 (null) is generated.
    Addr(u64),
    /// The pointee value.
    Data(Box<Arg>),
}

/// A buffer argument: input buffers carry bytes, output buffers a length.
#[derive(Debug)]
pub enum DataArg {
    In(Vec<u8>),
    Out(u64),
}

/// An aggregate argument used for structs, unions and arrays.
#[derive(Debug)]
pub struct GroupArg(pub Vec<Arg>);

/// A resource argument: a reference to an earlier call's result, or a
/// literal fallback value.
#[derive(Debug)]
pub enum ResultArg {
    Ref(u64),
    Literal(u64),
}

/// One argument of a call.
#[derive(Debug)]
pub enum Arg {
    Const(ConstArg),
    Pointer(PointerArg),
    Data(DataArg),
    Group(GroupArg),
    Result(ResultArg),
}

impl Arg {
    /// The model value of this argument.
    pub open spec fn view_rec(self) -> ArgV
        decreases self,
    {
        match self {
            Arg::Const(c) => ArgV::Const(c.0),
            Arg::Pointer(PointerArg::Addr(a)) => ArgV::Addr(a),
            Arg::Pointer(PointerArg::Data(b)) => ArgV::PointerData(Box::new((*b).view_rec())),
            Arg::Data(DataArg::In(d)) => ArgV::DataIn(d@),
            Arg::Data(DataArg::Out(n)) => ArgV::DataOut(n),
            Arg::Group(g) => ArgV::Group(Self::view_seq(g.0@)),
            Arg::Result(ResultArg::Ref(id)) => ArgV::ResultRef(id),
            Arg::Result(ResultArg::Literal(v)) => ArgV::ResultLiteral(v),
        }
    }

    /// The model of a sequence of arguments, element by element.
    pub open spec fn view_seq(s: Seq<Arg>) -> Seq<ArgV>
        decreases s,
    {
        if s.len() == 0 {
            Seq::empty()
        } else {
            Self::view_seq(s.drop_last()).push(s.last().view_rec())
        }
    }

    /// The model of a vector of arguments.
    pub open spec fn view_args(args: Vec<Arg>) -> Seq<ArgV> {
        Self::view_seq(args@)
    }
}

impl View for Arg {
    type V = ArgV;

    open spec fn view(&self) -> ArgV {
        self.view_rec()
    }
}

impl ConstArg {
    pub fn new(value: u64) -> (r: Self)
        ensures
            r.0 == value,
    {
        ConstArg(value)
    }
}

impl PointerArg {
    /// A pointer by address. Only the null pointer is supported.
    pub fn from_addr(addr: u64) -> (r: Self)
        requires
            addr == 0,
        ensures
            r == PointerArg::Addr(0u64),
    {
        PointerArg::Addr(addr)
    }

    /// A pointer that owns its pointee.
    pub fn from_res(res: Arg) -> (r: Self)
        ensures
            r == PointerArg::Data(Box::new(res)),
    {
        PointerArg::Data(Box::new(res))
    }
}

impl GroupArg {
    pub fn new(args: Vec<Arg>) -> (r: Self)
        ensures
            r.0 == args,
    {
        GroupArg(args)
    }
}

impl ResultArg {
    pub fn from_result(id: u64) -> (r: Self)
        ensures
            r == ResultArg::Ref(id),
    {
        ResultArg::Ref(id)
    }

    pub fn from_literal(literal: u64) -> (r: Self)
        ensures
            r == ResultArg::Literal(literal),
    {
        ResultArg::Literal(literal)
    }

    /// Whether this argument references the result with the given identifier.
    pub fn uses_result(&self, id: u64) -> (r: bool)
        ensures
            r == (self is Ref && self->Ref_0 == id),
    {
        match self {
            ResultArg::Ref(self_id) => id == *self_id,
            ResultArg::Literal(_) => false,
        }
    }
}

/// The argument models stand for the arguments one by one: same length,
/// same entries.
pub broadcast proof fn lemma_view_seq_props(s: Seq<Arg>)
    ensures
        (#[trigger] Arg::view_seq(s)).len() == s.len(),
        forall|i: int| 0 <= i < s.len() ==> Arg::view_seq(s)[i] == s[i]@,
    decreases s,
{
    if s.len() > 0 {
        lemma_view_seq_props(s.drop_last());
        assert(forall|i: int| 0 <= i < s.len() - 1 ==> s.drop_last()[i] == s[i]);
    }
}

/// Model of one call: syscall number, argument models, optional result id.
pub struct CallV {
    pub nr: u32,
    pub args: Seq<ArgV>,
    pub result: Option<u64>,
}

/// A planned invocation of a single syscall with concrete arguments.
///
/// `result` is present iff the syscall's return type is a resource; it is
/// the identifier later calls use to reference the produced resource.
#[derive(Debug)]
pub struct Call {
    nr: u32,
    args: Vec<Arg>,
    result: Option<u64>,
}

impl View for Call {
    type V = CallV;

    closed spec fn view(&self) -> CallV {
        CallV { nr: self.nr, args: Arg::view_args(self.args), result: self.result }
    }
}

impl Call {
    /// The models of a sequence of calls, element by element.
    pub open spec fn view_calls(s: Seq<Call>) -> Seq<CallV>
        decreases s,
    {
        if s.len() == 0 {
            Seq::empty()
        } else {
            Self::view_calls(s.drop_last()).push(s.last()@)
        }
    }

    pub fn new(nr: u32, args: Vec<Arg>, result: Option<u64>) -> (r: Self)
        ensures
            r@ == (CallV { nr, args: Arg::view_args(args), result }),
    {
        Call { nr, args, result }
    }

    pub fn number(&self) -> (r: u32)
        ensures
            r == self@.nr,
    {
        self.nr
    }

    pub fn args(&self) -> (r: &Vec<Arg>)
        ensures
            Arg::view_args(*r) == self@.args,
    {
        &self.args
    }

    pub fn result(&self) -> (r: Option<u64>)
        ensures
            r == self@.result,
    {
        self.result
    }

    /// Replaces the argument at the given position.
    pub fn set_arg(&mut self, idx: usize, arg: Arg)
        requires
            idx < old(self)@.args.len(),
        ensures
            final(self)@.nr == old(self)@.nr,
            final(self)@.result == old(self)@.result,
            final(self)@.args == old(self)@.args.update(idx as int, arg@),
    {
        proof {
            lemma_view_seq_props(self.args@);
        }
        let ghost prev = self.args@;
        self.args.remove(idx);
        self.args.insert(idx, arg);
        proof {
            assert(self.args@ =~= prev.update(idx as int, arg));
            lemma_view_seq_props(self.args@);
            assert(Arg::view_seq(self.args@) =~= Arg::view_seq(prev).update(idx as int, arg@));
        }
    }
}

impl Arg {
    /// A copy of this argument, equal to it in the model.
    pub fn deep_clone(&self) -> (r: Arg)
        ensures
            r@ == self@,
        decreases self,
    {
        match self {
            Arg::Const(c) => Arg::Const(ConstArg(c.0)),
            Arg::Pointer(PointerArg::Addr(a)) => Arg::Pointer(PointerArg::Addr(*a)),
            Arg::Pointer(PointerArg::Data(b)) => Arg::Pointer(
                PointerArg::Data(Box::new((&**b).deep_clone())),
            ),
            Arg::Data(DataArg::In(d)) => Arg::Data(DataArg::In(crate::types::clone_bytes(d))),
            Arg::Data(DataArg::Out(n)) => Arg::Data(DataArg::Out(*n)),
            Arg::Group(g) => Arg::Group(GroupArg(clone_args(&g.0))),
            Arg::Result(ResultArg::Ref(id)) => Arg::Result(ResultArg::Ref(*id)),
            Arg::Result(ResultArg::Literal(v)) => Arg::Result(ResultArg::Literal(*v)),
        }
    }
}

/// A copy of a vector of arguments, equal to it in the model.
pub fn clone_args(v: &Vec<Arg>) -> (r: Vec<Arg>)
    ensures
        Arg::view_seq(r@) == Arg::view_seq(v@),
        r@.len() == v@.len(),
    decreases v@,
{
    broadcast use lemma_view_seq_props;

    let mut r: Vec<Arg> = Vec::new();
    let mut i: usize = 0;
    while i < v.len()
        invariant
            i <= v@.len(),
            r@.len() == i,
            forall|k: int| 0 <= k < i ==> r@[k]@ == v@[k]@,
        decreases v@.len() - i,
    {
        r.push(v[i].deep_clone());
        i = i + 1;
    }
    proof {
        assert(Arg::view_seq(r@) =~= Arg::view_seq(v@));
    }
    r
}

impl Call {
    /// A copy of this call, equal to it in the model.
    pub fn deep_clone(&self) -> (r: Call)
        ensures
            r@ == self@,
    {
        Call { nr: self.nr, args: clone_args(&self.args), result: self.result }
    }
}

/// A copy of a vector of calls, equal to it in the model.
pub fn clone_calls(v: &Vec<Call>) -> (r: Vec<Call>)
    ensures
        Call::view_calls(r@) == Call::view_calls(v@),
        r@.len() == v@.len(),
{
    broadcast use lemma_view_calls_props;

    let mut r: Vec<Call> = Vec::new();
    let mut i: usize = 0;
    while i < v.len()
        invariant
            i <= v@.len(),
            r@.len() == i,
            forall|k: int| 0 <= k < i ==> r@[k]@ == v@[k]@,
        decreases v@.len() - i,
    {
        r.push(v[i].deep_clone());
        i = i + 1;
    }
    proof {
        assert(Call::view_calls(r@) =~= Call::view_calls(v@));
    }
    r
}

/// Lengths inside the value fit the 64-bit length words of the canonical
/// encoding.
pub open spec fn arg_sizes_ok(a: ArgV) -> bool
    decreases a,
{
    match a {
        ArgV::DataIn(d) => d.len() <= u64::MAX,
        ArgV::PointerData(b) => arg_sizes_ok(*b),
        ArgV::Group(args) => args.len() <= u64::MAX && (forall|i: int|
            0 <= i < args.len() ==> arg_sizes_ok(#[trigger] args[i])),
        _ => true,
    }
}

/// Lengths inside the call fit the length words of the canonical encoding.
pub open spec fn call_sizes_ok(c: CallV) -> bool {
    c.args.len() <= u64::MAX && (forall|j: int|
        0 <= j < c.args.len() ==> arg_sizes_ok(#[trigger] c.args[j]))
}

/// Lengths inside the program fit the length words of the canonical
/// encoding.
pub open spec fn program_sizes_ok(p: Seq<CallV>) -> bool {
    &&& p.len() <= u64::MAX
    &&& forall|i: int| 0 <= i < p.len() ==> call_sizes_ok(#[trigger] p[i])
}

/// Executable arguments always fit the encoding's length words.
pub proof fn lemma_arg_sizes_ok(a: Arg)
    ensures
        arg_sizes_ok(a@),
    decreases a,
{
    broadcast use vstd::std_specs::vec::axiom_spec_len;

    match a {
        Arg::Pointer(PointerArg::Data(b)) => {
            lemma_arg_sizes_ok(*b);
        },
        Arg::Data(DataArg::In(d)) => {
            assert(vstd::std_specs::vec::spec_vec_len(&d) == d@.len());
            assert(d@.len() <= usize::MAX);
        },
        Arg::Group(g) => {
            lemma_view_seq_props(g.0@);
            assert(vstd::std_specs::vec::spec_vec_len(&g.0) == g.0@.len());
            assert(g.0@.len() <= usize::MAX);
            assert forall|i: int| 0 <= i < Arg::view_seq(g.0@).len() implies arg_sizes_ok(
                #[trigger] Arg::view_seq(g.0@)[i],
            ) by {
                lemma_arg_sizes_ok(g.0@[i]);
            }
        },
        _ => {},
    }
}

/// Executable calls always fit the encoding's length words.
pub proof fn lemma_call_sizes_ok(c: Call)
    ensures
        call_sizes_ok(c@),
{
    broadcast use vstd::std_specs::vec::axiom_spec_len;

    lemma_view_seq_props(c.args@);
    assert(vstd::std_specs::vec::spec_vec_len(&c.args) == c.args@.len());
    assert(c.args@.len() <= usize::MAX);
    assert forall|j: int| 0 <= j < c@.args.len() implies arg_sizes_ok(#[trigger] c@.args[j]) by {
        lemma_arg_sizes_ok(c.args@[j]);
    }
}

/// The model of a concatenation is the concatenation of the models.
pub proof fn lemma_view_calls_concat(a: Seq<Call>, b: Seq<Call>)
    ensures
        Call::view_calls(a + b) == Call::view_calls(a) + Call::view_calls(b),
{
    lemma_view_calls_props(a);
    lemma_view_calls_props(b);
    lemma_view_calls_props(a + b);
    assert(Call::view_calls(a + b) =~= Call::view_calls(a) + Call::view_calls(b));
}

/// The call models stand for the calls one by one: same length, same
/// entries.
pub broadcast proof fn lemma_view_calls_props(s: Seq<Call>)
    ensures
        (#[trigger] Call::view_calls(s)).len() == s.len(),
        forall|i: int| 0 <= i < s.len() ==> Call::view_calls(s)[i] == s[i]@,
    decreases s,
{
    if s.len() > 0 {
        lemma_view_calls_props(s.drop_last());
        assert(forall|i: int| 0 <= i < s.len() - 1 ==> s.drop_last()[i] == s[i]);
    }
}

} // verus!
