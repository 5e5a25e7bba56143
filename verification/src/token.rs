//! The access token, and the arena that it carries.
use vstd::prelude::*;
use crate::handle::{PyObject, PyObjectRef};
use crate::heap::lemma_count_prefix;
use crate::ptr::Ptr;
use crate::runtime::Runtime;
use crate::scope::{release_all, Scope};

verus! {

/// The arena of a token: owning handles that are kept until the token is
/// released, so that borrowed handles to their objects stay good until then.
/// It only grows; nothing is taken out before all of it is given up.
pub struct TrackedArena {
    entries: Vec<PyObject>,
}

impl View for TrackedArena {
    type V = Seq<Ptr>;

    closed spec fn view(&self) -> Seq<Ptr> {
        self.entries@.map_values(|ob: PyObject| ob@)
    }
}

impl TrackedArena {
    /// An arena without entries.
    pub fn new() -> (arena: TrackedArena)
        ensures
            arena@ == Seq::<Ptr>::empty(),
    {
        let arena = TrackedArena { entries: Vec::new() };
        assert(arena@ =~= Seq::<Ptr>::empty());
        arena
    }

    /// The number of entries.
    pub fn len(&self) -> (len: usize)
        ensures
            len == self@.len(),
    {
        self.entries.len()
    }

    /// How many of the entries are references to the object at `p`.
    pub fn count(&self, p: Ptr) -> (count: usize)
        ensures
            count == self@.to_multiset().count(p),
    {
        let ghost ptrs = self@;
        let n = self.entries.len();
        let mut count: usize = 0;
        let mut i: usize = 0;
        proof {
            broadcast use vstd::multiset::group_multiset_axioms;

            assert(ptrs.take(0) =~= Seq::<Ptr>::empty());
            vstd::seq_lib::to_multiset_contains(Seq::<Ptr>::empty(), p);
        }
        while i < n
            invariant
                0 <= i <= n,
                n == self.entries.len(),
                ptrs == self@,
                ptrs.len() == n,
                count <= i,
                count == ptrs.take(i as int).to_multiset().count(p),
            decreases n - i,
        {
            proof {
                lemma_count_prefix(ptrs, i as int, p);
            }
            if self.entries[i].as_ptr() == p {
                count = count + 1;
            }
            i = i + 1;
        }
        proof {
            assert(ptrs.take(n as int) =~= ptrs);
        }
        count
    }

    /// Appends `owned` and gives a borrowed handle to its object.
    pub fn track(&mut self, owned: PyObject) -> (r: PyObjectRef)
        ensures
            r@ == owned@,
            final(self)@ == old(self)@.push(owned@),
    {
        let r = owned.as_ref();
        self.entries.push(owned);
        assert(self@ =~= old(self)@.push(owned@));
        r
    }

    /// Gives up every entry, oldest first, and leaves the arena empty.
    pub fn drop_all(&mut self, rt: &mut Runtime)
        requires
            (Scope { heap: old(rt)@, arena: old(self)@ }).wf(),
        ensures
            final(self)@ == Seq::<Ptr>::empty(),
            final(rt)@ == release_all(old(rt)@, old(self)@),
            final(rt)@.wf(),
    {
        let ghost ptrs = self@;
        let ghost start = rt@;
        let n = self.entries.len();
        let mut i: usize = 0;
        assert(ptrs.skip(0) =~= ptrs);
        while i < n
            invariant
                0 <= i <= n,
                n == ptrs.len(),
                self@ == ptrs,
                self.entries.len() == n,
                rt@ == release_all(start, ptrs.take(i as int)),
                (Scope { heap: rt@, arena: ptrs.skip(i as int) }).wf(),
            decreases n - i,
        {
            let p = self.entries[i].as_ptr();
            proof {
                let now = Scope { heap: rt@, arena: ptrs.skip(i as int) };
                let rest = Scope { heap: rt@.release(p), arena: ptrs.skip(i + 1) };
                assert(now.arena[0] == p);
                now.lemma_pooled_live(0);
                assert(now.spare(p) >= 0);
                rt@.lemma_release(p);
                lemma_skip_step(ptrs, i as int);
                assert forall|q: Ptr| rest.heap.has(q) implies #[trigger] rest.spare(q) >= 0 by {
                    assert(now.spare(q) >= 0);
                }
                assert forall|j: int| 0 <= j < rest.arena.len() implies rest.heap.has(
                    #[trigger] rest.arena[j],
                ) by {
                    assert(now.heap.has(now.arena[j + 1]));
                }
                assert(ptrs.take(i + 1).drop_last() =~= ptrs.take(i as int));
            }
            rt.decref(p);
            i = i + 1;
        }
        self.entries.clear();
        proof {
            assert(self@ =~= Seq::<Ptr>::empty());
            assert(ptrs.take(n as int) =~= ptrs);
        }
    }
}

/// The references from slot `i` on are the one in slot `i` and those after it.
pub proof fn lemma_skip_step(ptrs: Seq<Ptr>, i: int)
    requires
        0 <= i < ptrs.len(),
    ensures
        ptrs.skip(i).to_multiset() =~= ptrs.skip(i + 1).to_multiset().insert(ptrs[i]),
{
    broadcast use vstd::multiset::group_multiset_axioms;

    let tail = ptrs.skip(i);
    assert(tail.remove(0) =~= ptrs.skip(i + 1));
    vstd::seq_lib::to_multiset_remove(tail, 0);
    assert(tail.contains(tail[0]));
    vstd::seq_lib::to_multiset_contains(tail, tail[0]);
}

/// The access token: whoever holds it has the runtime to themselves. Every
/// operation on an object takes it.
pub struct Python {
    rt: Runtime,
    arena: TrackedArena,
}

impl View for Python {
    type V = Scope;

    closed spec fn view(&self) -> Scope {
        Scope { heap: self.rt@, arena: self.arena@ }
    }
}

impl Python {
    /// Takes the runtime and gives the token for it, with an empty arena.
    pub fn acquire(rt: Runtime) -> (py: Python)
        requires
            rt@.wf(),
        ensures
            py@ == (Scope { heap: rt@, arena: Seq::empty() }),
            py@.wf(),
    {
        let py = Python { rt, arena: TrackedArena::new() };
        proof {
            broadcast use vstd::multiset::group_multiset_axioms;

            assert forall|p: Ptr| py@.heap.has(p) implies #[trigger] py@.spare(p) >= 0 by {
                vstd::seq_lib::to_multiset_contains(py@.arena, p);
                assert(py@.heap.slots[p.index()].refcnt >= py@.heap.held(
                    Ptr::At(p.index() as usize),
                ));
            }
        }
        py
    }

    /// Gives the token back: every reference of the arena is given up, oldest
    /// first, and then the runtime is free again.
    pub fn release(self) -> (rt: Runtime)
        requires
            self@.wf(),
        ensures
            rt@ == release_all(self@.heap, self@.arena),
            rt@.wf(),
    {
        let mut py = self;
        py.arena.drop_all(&mut py.rt);
        py.rt
    }

    /// The runtime, to look at.
    pub fn runtime(&self) -> (rt: &Runtime)
        ensures
            rt@ == self@.heap,
    {
        &self.rt
    }

    /// The runtime, to work on.
    pub(crate) fn runtime_mut(&mut self) -> (rt: &mut Runtime)
        ensures
            rt@ == old(self)@.heap,
            final(self)@ == old(self)@.with_heap(final(rt)@),
    {
        &mut self.rt
    }

    /// Whether `p` names an object that somebody still refers to.
    pub fn is_live(&self, p: Ptr) -> (live: bool)
        ensures
            live == self@.heap.live(p),
    {
        self.rt.contains(p) && self.rt.refcnt(p) > 0
    }

    /// How many references to the object at `p` are in the hands of owning
    /// handles.
    pub fn spare(&self, p: Ptr) -> (count: usize)
        requires
            self@.wf(),
            self@.heap.has(p),
        ensures
            count == self@.spare(p),
    {
        proof {
            assert(self@.spare(p) >= 0);
        }
        self.rt.refcnt(p) - self.rt.held(p) - self.arena.count(p)
    }

    /// Whether an owning handle to the object at `p` can exist.
    pub fn owns(&self, p: Ptr) -> (yes: bool)
        requires
            self@.wf(),
        ensures
            yes == self@.owns(p),
    {
        self.rt.contains(p) && self.spare(p) >= 1
    }

    /// The number of references that the arena holds.
    pub fn arena_len(&self) -> (len: usize)
        ensures
            len == self@.arena.len(),
    {
        self.arena.len()
    }

    /// Moves `ob` into the arena and gives a borrowed handle to its object,
    /// which stays in use until the token is released.
    pub fn track_object(&mut self, ob: PyObject) -> (r: PyObjectRef)
        requires
            old(self)@.wf(),
            old(self)@.owns(ob@),
        ensures
            r@ == ob@,
            final(self)@ == old(self)@.track(ob@),
            final(self)@.wf(),
    {
        proof {
            old(self)@.lemma_track(ob@);
        }
        self.arena.track(ob)
    }
}

} // verus!
