//! Per-episode generation state: the metadata handle, the resources
//! produced so far with their types, the identifier allocator, and the
//! pools of strings and filenames seen so far.

use vstd::prelude::*;

use crate::call::{Call, CallV};
use crate::metadata::{spec_find_number, Syscall, SyscallMetadata, SyscallV};
use crate::types::{Type, TypeV};

verus! {

/// Mints identifiers in ascending order, saturating at the largest.
pub struct IndexAllocator(pub u64);

impl IndexAllocator {
    pub fn new() -> (r: Self)
        ensures
            r.0 == 0,
    {
        IndexAllocator(0)
    }

    pub fn from_index(index: u64) -> (r: Self)
        ensures
            r.0 == index,
    {
        IndexAllocator(index)
    }

    /// Returns the next identifier and advances. At the largest value the
    /// allocator saturates and repeats it.
    pub fn allocate(&mut self) -> (r: u64)
        ensures
            r == old(self).0,
            final(self).0 == if old(self).0 == u64::MAX {
                u64::MAX
            } else {
                (old(self).0 + 1) as u64
            },
    {
        let idx = self.0;
        if self.0 < u64::MAX {
            self.0 = self.0 + 1;
        }
        idx
    }
}

/// Model of a [`Context`].
pub struct ContextV {
    pub metadata: Seq<SyscallV>,
    pub results: Seq<(u64, TypeV)>,
    pub next_id: u64,
    pub strings: Seq<Seq<u8>>,
    pub filenames: Seq<Seq<u8>>,
}

/// The models of a result list, element by element.
pub open spec fn view_results(s: Seq<(u64, Type)>) -> Seq<(u64, TypeV)>
    decreases s,
{
    if s.len() == 0 {
        Seq::empty()
    } else {
        view_results(s.drop_last()).push((s.last().0, s.last().1@))
    }
}

/// The result models stand for the results one by one: same length, same
/// entries.
pub broadcast proof fn lemma_view_results_props(s: Seq<(u64, Type)>)
    ensures
        (#[trigger] view_results(s)).len() == s.len(),
        forall|i: int| 0 <= i < s.len() ==> view_results(s)[i] == (s[i].0, s[i].1@),
    decreases s,
{
    if s.len() > 0 {
        lemma_view_results_props(s.drop_last());
        assert(forall|i: int| 0 <= i < s.len() - 1 ==> s.drop_last()[i] == s[i]);
    }
}

/// The resources a prefix of calls produces, in order: for each call that
/// carries a result identifier, that identifier with the return type its
/// syscall declares. Calls whose number is unknown to the catalog or whose
/// syscall returns nothing contribute nothing.
pub open spec fn spec_replay(meta: Seq<SyscallV>, calls: Seq<CallV>) -> Seq<(u64, TypeV)>
    decreases calls,
{
    if calls.len() == 0 {
        Seq::empty()
    } else {
        let rest = spec_replay(meta, calls.drop_last());
        let c = calls.last();
        match c.result {
            Some(id) => match spec_find_number(meta, c.nr) {
                Some(s) => match s.ret {
                    Some(t) => rest.push((id, t)),
                    None => rest,
                },
                None => rest,
            },
            None => rest,
        }
    }
}

/// The smallest identifier strictly above every result identifier in the
/// calls (saturating), and zero where there is none.
pub open spec fn min_fresh_id(calls: Seq<CallV>) -> u64
    decreases calls,
{
    if calls.len() == 0 {
        0u64
    } else {
        let rest = min_fresh_id(calls.drop_last());
        match calls.last().result {
            Some(id) => {
                let above = if id == u64::MAX {
                    u64::MAX
                } else {
                    (id + 1) as u64
                };
                if above > rest {
                    above
                } else {
                    rest
                }
            },
            None => rest,
        }
    }
}

/// Mutable working state of one generation or mutation episode.
pub struct Context {
    metadata: SyscallMetadata,
    results: Vec<(u64, Type)>,
    allocator: IndexAllocator,
    strings: Vec<Vec<u8>>,
    filenames: Vec<Vec<u8>>,
}

impl View for Context {
    type V = ContextV;

    closed spec fn view(&self) -> ContextV {
        ContextV {
            metadata: self.metadata@,
            results: view_results(self.results@),
            next_id: self.allocator.0,
            strings: Seq::new(self.strings@.len(), |i: int| self.strings@[i]@),
            filenames: Seq::new(self.filenames@.len(), |i: int| self.filenames@[i]@),
        }
    }
}

impl Context {
    /// A fresh context over the given catalog.
    pub fn new(metadata: SyscallMetadata) -> (r: Context)
        ensures
            r@.metadata == metadata@,
            r@.results == Seq::<(u64, TypeV)>::empty(),
            r@.next_id == 0,
            r@.strings == Seq::<Seq<u8>>::empty(),
            r@.filenames == Seq::<Seq<u8>>::empty(),
    {
        let r = Context {
            metadata,
            results: Vec::new(),
            allocator: IndexAllocator::new(),
            strings: Vec::new(),
            filenames: Vec::new(),
        };
        proof {
            assert(r@.strings =~= Seq::<Seq<u8>>::empty());
            assert(r@.filenames =~= Seq::<Seq<u8>>::empty());
        }
        r
    }

    /// Returns the context to a clean state, keeping the catalog.
    pub fn reset(&mut self)
        ensures
            final(self)@.metadata == old(self)@.metadata,
            final(self)@.results == Seq::<(u64, TypeV)>::empty(),
            final(self)@.next_id == 0,
            final(self)@.strings == Seq::<Seq<u8>>::empty(),
            final(self)@.filenames == Seq::<Seq<u8>>::empty(),
    {
        self.results.clear();
        self.allocator = IndexAllocator::new();
        self.strings.clear();
        self.filenames.clear();
        proof {
            assert(self@.strings =~= Seq::<Seq<u8>>::empty());
            assert(self@.filenames =~= Seq::<Seq<u8>>::empty());
        }
    }

    /// A context that stands at a position inside an existing program: the
    /// resources of the first `prefix_len` calls are live, and fresh
    /// identifiers lie above every identifier in the whole program.
    pub fn with_calls(metadata: SyscallMetadata, calls: &Vec<Call>, prefix_len: usize) -> (r:
        Context)
        requires
            prefix_len <= calls@.len(),
        ensures
            r@.metadata == metadata@,
            r@.results == spec_replay(
                metadata@,
                Call::view_calls(calls@).subrange(0, prefix_len as int),
            ),
            r@.next_id == min_fresh_id(Call::view_calls(calls@)),
            r@.strings == Seq::<Seq<u8>>::empty(),
            r@.filenames == Seq::<Seq<u8>>::empty(),
    {
        broadcast use crate::call::lemma_view_calls_props;
        broadcast use lemma_view_results_props;

        let ghost cv = Call::view_calls(calls@);
        let mut results: Vec<(u64, Type)> = Vec::new();
        let mut i: usize = 0;
        while i < prefix_len
            invariant
                i <= prefix_len <= calls@.len(),
                cv == Call::view_calls(calls@),
                cv.len() == calls@.len(),
                forall|k: int| 0 <= k < calls@.len() ==> cv[k] == calls@[k]@,
                view_results(results@) == spec_replay(metadata@, cv.subrange(0, i as int)),
            decreases prefix_len - i,
        {
            let ghost prev = results@;
            let call = &calls[i];
            match call.result() {
                Some(id) => {
                    match metadata.find_number(call.number()) {
                        Some(sc) => {
                            match sc.return_type() {
                                Some(t) => {
                                    results.push((id, t.deep_clone()));
                                },
                                None => {},
                            }
                        },
                        None => {},
                    }
                },
                None => {},
            }
            proof {
                assert(cv.subrange(0, i + 1 as int).drop_last() =~= cv.subrange(0, i as int));
                assert(cv.subrange(0, i + 1 as int).last() == cv[i as int]);
                if results@ != prev {
                    assert(results@.drop_last() =~= prev);
                }
            }
            i = i + 1;
        }

        let mut next: u64 = 0;
        let mut j: usize = 0;
        while j < calls.len()
            invariant
                j <= calls@.len(),
                cv == Call::view_calls(calls@),
                cv.len() == calls@.len(),
                forall|k: int| 0 <= k < calls@.len() ==> cv[k] == calls@[k]@,
                next == min_fresh_id(cv.subrange(0, j as int)),
            decreases calls@.len() - j,
        {
            match calls[j].result() {
                Some(id) => {
                    let above = if id == u64::MAX {
                        u64::MAX
                    } else {
                        id + 1
                    };
                    if above > next {
                        next = above;
                    }
                },
                None => {},
            }
            proof {
                assert(cv.subrange(0, j + 1 as int).drop_last() =~= cv.subrange(0, j as int));
                assert(cv.subrange(0, j + 1 as int).last() == cv[j as int]);
            }
            j = j + 1;
        }
        proof {
            assert(cv.subrange(0, cv.len() as int) =~= cv);
        }

        let r = Context {
            metadata,
            results,
            allocator: IndexAllocator::from_index(next),
            strings: Vec::new(),
            filenames: Vec::new(),
        };
        proof {
            assert(r@.strings =~= Seq::<Seq<u8>>::empty());
            assert(r@.filenames =~= Seq::<Seq<u8>>::empty());
        }
        r
    }

    /// The syscall catalog.
    pub fn syscalls(&self) -> (r: &Vec<Syscall>)
        ensures
            SyscallMetadata::view_syscalls(r@) == self@.metadata,
            r@.len() == self@.metadata.len(),
            forall|i: int| 0 <= i < r@.len() ==> r@[i]@ == self@.metadata[i],
    {
        self.metadata.syscalls()
    }

    /// The catalog handle itself.
    pub fn metadata(&self) -> (r: &SyscallMetadata)
        ensures
            r@ == self@.metadata,
    {
        &self.metadata
    }

    /// The resources produced so far, each with its type.
    pub fn results(&self) -> (r: &Vec<(u64, Type)>)
        ensures
            view_results(r@) == self@.results,
            r@.len() == self@.results.len(),
            forall|i: int| 0 <= i < r@.len() ==> (r@[i].0, r@[i].1@) == self@.results[i],
    {
        proof {
            lemma_view_results_props(self.results@);
        }
        &self.results
    }

    /// Registers a freshly produced resource of the given type and returns
    /// its identifier.
    pub fn add_result(&mut self, ty: &Type) -> (id: u64)
        ensures
            id == old(self)@.next_id,
            final(self)@.results == old(self)@.results.push((id, ty@)),
            final(self)@.metadata == old(self)@.metadata,
            final(self)@.strings == old(self)@.strings,
            final(self)@.filenames == old(self)@.filenames,
            final(self)@.next_id == if old(self)@.next_id == u64::MAX {
                u64::MAX
            } else {
                (old(self)@.next_id + 1) as u64
            },
    {
        broadcast use lemma_view_results_props;

        let ghost prev = self.results@;
        let id = self.allocator.allocate();
        self.results.push((id, ty.deep_clone()));
        proof {
            assert(self.results@.drop_last() =~= prev);
            assert(view_results(self.results@) =~= view_results(prev).push((id, ty@)));
        }
        id
    }

    /// The strings seen so far in this episode.
    pub fn strings(&self) -> (r: &Vec<Vec<u8>>)
        ensures
            r@.len() == self@.strings.len(),
            forall|i: int| 0 <= i < r@.len() ==> r@[i]@ == self@.strings[i],
    {
        &self.strings
    }

    /// The filenames seen so far in this episode.
    pub fn filenames(&self) -> (r: &Vec<Vec<u8>>)
        ensures
            r@.len() == self@.filenames.len(),
            forall|i: int| 0 <= i < r@.len() ==> r@[i]@ == self@.filenames[i],
    {
        &self.filenames
    }

    /// Records a string for later reuse.
    pub fn add_string(&mut self, s: Vec<u8>)
        ensures
            final(self)@.strings == old(self)@.strings.push(s@),
            final(self)@.metadata == old(self)@.metadata,
            final(self)@.results == old(self)@.results,
            final(self)@.next_id == old(self)@.next_id,
            final(self)@.filenames == old(self)@.filenames,
    {
        self.strings.push(s);
        proof {
            assert(self@.strings =~= old(self)@.strings.push(s@));
        }
    }

    /// Records a filename for later reuse.
    pub fn add_filename(&mut self, s: Vec<u8>)
        ensures
            final(self)@.filenames == old(self)@.filenames.push(s@),
            final(self)@.metadata == old(self)@.metadata,
            final(self)@.results == old(self)@.results,
            final(self)@.next_id == old(self)@.next_id,
            final(self)@.strings == old(self)@.strings,
    {
        self.filenames.push(s);
        proof {
            assert(self@.filenames =~= old(self)@.filenames.push(s@));
        }
    }
}

} // verus!
