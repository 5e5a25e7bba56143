//! The mathematical model of what an access token guards: the heap, and the
//! arena of references whose release waits for the token's own.
use vstd::prelude::*;
use crate::heap::{Content, Heap};
use crate::ptr::Ptr;

verus! {

/// The state behind an access token.
pub struct Scope {
    pub heap: Heap,
    /// The references that the arena holds, oldest first.
    pub arena: Seq<Ptr>,
}

/// The heap after one reference to each of `ptrs` is given up, first to last.
pub open spec fn release_all(heap: Heap, ptrs: Seq<Ptr>) -> Heap
    decreases ptrs.len(),
{
    if ptrs.len() == 0 {
        heap
    } else {
        release_all(heap, ptrs.drop_last()).release(ptrs.last())
    }
}

/// Giving up the references of an arena lowers the count of every object by
/// the number of references that the arena holds to it, and changes nothing
/// else.
pub proof fn lemma_release_all(heap: Heap, ptrs: Seq<Ptr>)
    requires
        forall|i: int| 0 <= i < ptrs.len() ==> heap.has(#[trigger] ptrs[i]),
        forall|p: Ptr| heap.has(p) ==> heap.refcnt(p) >= #[trigger] ptrs.to_multiset().count(p),
    ensures
        release_all(heap, ptrs).slots.len() == heap.slots.len(),
        release_all(heap, ptrs).error == heap.error,
        forall|p: Ptr|
            heap.has(p) ==> #[trigger] release_all(heap, ptrs).refcnt(p) == heap.refcnt(p)
                - ptrs.to_multiset().count(p),
        forall|p: Ptr|
            heap.has(p) ==> #[trigger] release_all(heap, ptrs).content(p) == heap.content(p),
    decreases ptrs.len(),
{
    broadcast use vstd::multiset::group_multiset_axioms;

    let after = release_all(heap, ptrs);
    if ptrs.len() == 0 {
        assert forall|p: Ptr| heap.has(p) implies #[trigger] after.refcnt(p) == heap.refcnt(p)
            - ptrs.to_multiset().count(p) by {
            vstd::seq_lib::to_multiset_contains(ptrs, p);
        }
    } else {
        let front = ptrs.drop_last();
        let last = ptrs.last();
        let mid = release_all(heap, front);
        assert(ptrs =~= front.push(last));
        vstd::seq_lib::to_multiset_build(front, last);
        assert forall|p: Ptr| heap.has(p) implies heap.refcnt(p)
            >= #[trigger] front.to_multiset().count(p) by {
            assert(heap.refcnt(p) >= ptrs.to_multiset().count(p));
        }
        lemma_release_all(heap, front);
        assert(after == mid.release(last));
        assert(heap.has(ptrs[ptrs.len() - 1]));
        assert(heap.refcnt(last) >= ptrs.to_multiset().count(last));
        assert(mid.refcnt(last) == heap.refcnt(last) - front.to_multiset().count(last));
        assert forall|p: Ptr| heap.has(p) implies #[trigger] after.refcnt(p) == heap.refcnt(p)
            - ptrs.to_multiset().count(p) by {
            assert(mid.refcnt(p) == heap.refcnt(p) - front.to_multiset().count(p));
            if p == last {
                assert(after.slots[p.index()].refcnt == (mid.refcnt(last) - 1) as nat);
            } else {
                assert(p.index() != last.index());
                assert(after.slots[p.index()] == mid.slots[p.index()]);
            }
        }
        assert forall|p: Ptr| heap.has(p) implies #[trigger] after.content(p) == heap.content(
            p,
        ) by {
            assert(mid.content(p) == heap.content(p));
        }
    }
}

impl Scope {
    /// How many references to `p` the arena holds.
    pub open spec fn pooled(self, p: Ptr) -> nat {
        self.arena.to_multiset().count(p)
    }

    /// How many references to `p` are in the hands of owning handles: those
    /// that neither a sequence nor the arena accounts for.
    pub open spec fn spare(self, p: Ptr) -> int {
        self.heap.refcnt(p) - self.heap.held(p) - self.pooled(p)
    }

    /// Whether an owning handle to `p` can exist.
    pub open spec fn owns(self, p: Ptr) -> bool {
        self.heap.has(p) && self.spare(p) >= 1
    }

    /// The invariant of the state: the heap's own, the arena holds objects
    /// only, and every object counts at least the references that sequences
    /// and the arena hold to it.
    pub open spec fn wf(self) -> bool {
        &&& self.heap.wf()
        &&& forall|i: int| 0 <= i < self.arena.len() ==> self.heap.has(#[trigger] self.arena[i])
        &&& forall|p: Ptr| self.heap.has(p) ==> #[trigger] self.spare(p) >= 0
    }

    /// Whether `after` is this state with new objects added and nothing else
    /// changed, where `p` is one of the new objects and the caller holds the
    /// one reference to it.
    pub open spec fn built(self, after: Scope, p: Ptr) -> bool {
        &&& after.wf()
        &&& after.arena == self.arena
        &&& after.heap.extends(self.heap)
        &&& forall|q: Ptr| self.heap.has(q) ==> #[trigger] after.heap.held(q) == self.heap.held(q)
        &&& after.heap.has(p)
        &&& !self.heap.has(p)
        &&& after.heap.refcnt(p) == 1
        &&& after.heap.held(p) == 0
    }

    /// The same arena over another heap.
    pub open spec fn with_heap(self, heap: Heap) -> Scope {
        Scope { heap, ..self }
    }

    /// The state after the arena took over a reference to `p`.
    pub open spec fn track(self, p: Ptr) -> Scope {
        Scope { arena: self.arena.push(p), ..self }
    }

    /// The state after a reference to `p` was added.
    pub open spec fn retain(self, p: Ptr) -> Scope {
        self.with_heap(self.heap.retain(p))
    }

    /// The state after a reference to `p` was given up.
    pub open spec fn release(self, p: Ptr) -> Scope {
        self.with_heap(self.heap.release(p))
    }

    /// When the token is released, the count of every object goes down by
    /// the number of references that the arena holds to it; no object
    /// changes what it holds, none comes or goes, and the error indicator
    /// stays.
    pub proof fn lemma_release_arena(self)
        requires
            self.wf(),
        ensures
            release_all(self.heap, self.arena).slots.len() == self.heap.slots.len(),
            release_all(self.heap, self.arena).error == self.heap.error,
            forall|p: Ptr|
                self.heap.has(p) ==> #[trigger] release_all(self.heap, self.arena).refcnt(p)
                    == self.heap.refcnt(p) - self.pooled(p),
            forall|p: Ptr|
                self.heap.has(p) ==> #[trigger] release_all(self.heap, self.arena).content(p)
                    == self.heap.content(p),
    {
        assert forall|p: Ptr| self.heap.has(p) implies self.heap.refcnt(p)
            >= #[trigger] self.arena.to_multiset().count(p) by {
            assert(self.spare(p) >= 0);
        }
        lemma_release_all(self.heap, self.arena);
    }

    /// A tracked reference names an object in use.
    pub proof fn lemma_pooled_live(self, i: int)
        requires
            self.wf(),
            0 <= i < self.arena.len(),
        ensures
            self.heap.live(self.arena[i]),
            self.pooled(self.arena[i]) >= 1,
    {
        let p = self.arena[i];
        assert(self.arena.contains(p));
        vstd::seq_lib::to_multiset_contains(self.arena, p);
        assert(self.spare(p) >= 0);
    }

    /// Handing a spare reference to the arena keeps the invariant.
    pub proof fn lemma_track(self, p: Ptr)
        requires
            self.wf(),
            self.owns(p),
        ensures
            self.track(p).wf(),
            self.track(p).spare(p) == self.spare(p) - 1,
            forall|q: Ptr| q != p ==> self.track(p).spare(q) == self.spare(q),
    {
        broadcast use vstd::multiset::group_multiset_axioms;

        let after = self.track(p);
        vstd::seq_lib::to_multiset_build(self.arena, p);
        assert forall|q: Ptr| after.heap.has(q) implies #[trigger] after.spare(q) >= 0 by {
            assert(self.spare(q) >= 0);
        }
    }

    /// A new object that holds no address is the caller's, and nothing else
    /// changes.
    pub proof fn lemma_allocate(self, content: Content)
        requires
            self.wf(),
            self.heap.slots.len() < usize::MAX,
            content.items().len() <= isize::MAX,
            forall|i: int| 0 <= i < content.items().len() ==> content.items()[i] is Null,
        ensures
            self.built(self.with_heap(self.heap.allocate(content)), self.heap.next()),
    {
        let after = self.with_heap(self.heap.allocate(content));
        let p = self.heap.next();
        self.heap.lemma_allocate(content);
        self.heap.lemma_held_has(p);
        assert forall|q: Ptr| after.heap.has(q) implies #[trigger] after.spare(q) >= 0 by {
            if q == p {
                self.lemma_unpooled(p);
            } else {
                assert(self.heap.has(q));
                assert(self.spare(q) >= 0);
            }
        }
        assert forall|i: int| 0 <= i < after.arena.len() implies after.heap.has(
            #[trigger] after.arena[i],
        ) by {
            assert(self.heap.has(self.arena[i]));
        }
    }

    /// The one reference to a new object is spare.
    pub proof fn lemma_built_owns(self, after: Scope, p: Ptr)
        requires
            self.wf(),
            self.built(after, p),
        ensures
            after.owns(p),
            after.spare(p) == 1,
            forall|q: Ptr| self.heap.has(q) ==> after.spare(q) == self.spare(q),
    {
        self.lemma_unpooled(p);
        assert forall|q: Ptr| self.heap.has(q) implies after.spare(q) == self.spare(q) by {
            assert(after.heap.slots[q.index()] == self.heap.slots[q.index()]);
            assert(after.heap.held(q) == self.heap.held(q));
        }
    }

    /// The invariant does not depend on the error indicator.
    pub proof fn lemma_settle(self)
        requires
            self.wf(),
        ensures
            self.with_heap(self.heap.settle()).wf(),
    {
        let after = self.with_heap(self.heap.settle());
        assert(after.heap.slots == self.heap.slots);
        assert forall|p: Ptr| after.heap.has(p) implies #[trigger] after.spare(p) >= 0 by {
            assert(self.spare(p) >= 0);
        }
        assert forall|i: int| 0 <= i < after.arena.len() implies after.heap.has(
            #[trigger] after.arena[i],
        ) by {
            assert(self.heap.has(self.arena[i]));
        }
        assert forall|k: int| 0 <= k < after.heap.slots.len() implies (
        #[trigger] after.heap.slots[k]).refcnt >= after.heap.held(Ptr::At(k as usize)) by {
            assert(self.heap.slots[k].refcnt >= self.heap.held(Ptr::At(k as usize)));
        }
        assert forall|k: int, i: int|
            0 <= k < after.heap.slots.len() && 0 <= i < after.heap.slots[k].content.items().len() implies {
            let q = #[trigger] after.heap.slots[k].content.items()[i];
            q is Null || after.heap.has(q)
        } by {
            let q = self.heap.slots[k].content.items()[i];
            assert(q is Null || self.heap.has(q));
        }
    }

    /// The arena holds no reference to what is no object.
    pub proof fn lemma_unpooled(self, p: Ptr)
        requires
            self.wf(),
            !self.heap.has(p),
        ensures
            self.pooled(p) == 0,
    {
        vstd::seq_lib::to_multiset_contains(self.arena, p);
        if self.arena.contains(p) {
            let i = choose|i: int| 0 <= i < self.arena.len() && self.arena[i] == p;
            assert(self.heap.has(self.arena[i]));
        }
    }

    /// Handing a spare reference to a slot of a sequence keeps the invariant.
    pub proof fn lemma_set_item(self, list: Ptr, index: int, item: Ptr)
        requires
            self.wf(),
            self.heap.is_list(list),
            item is Null || self.owns(item),
        ensures
            self.with_heap(self.heap.set_item(list, index, item)).wf(),
    {
        let after = self.with_heap(self.heap.set_item(list, index, item));
        self.heap.lemma_set_item(list, index, item);
        assert forall|q: Ptr| after.heap.has(q) implies #[trigger] after.spare(q) >= 0 by {
            assert(self.spare(q) >= 0);
            assert(after.heap.held(q) == if 0 <= index < self.heap.items(list).len() {
                self.heap.held(q) + (if q == item {
                    1int
                } else {
                    0int
                }) - (if q == self.heap.items(list)[index] {
                    1int
                } else {
                    0int
                })
            } else {
                self.heap.held(q) as int
            });
        }
        assert forall|i: int| 0 <= i < after.arena.len() implies after.heap.has(
            #[trigger] after.arena[i],
        ) by {
            assert(self.heap.has(self.arena[i]));
        }
    }

    /// Handing a spare reference to a sequence, to stand before a slot, keeps
    /// the invariant.
    pub proof fn lemma_insert_item(self, list: Ptr, index: int, item: Ptr)
        requires
            self.wf(),
            self.heap.is_list(list),
            item is Null || self.owns(item),
        ensures
            self.with_heap(self.heap.insert_item(list, index, item)).wf(),
    {
        let after = self.with_heap(self.heap.insert_item(list, index, item));
        self.heap.lemma_insert_item(list, index, item);
        assert forall|q: Ptr| after.heap.has(q) implies #[trigger] after.spare(q) >= 0 by {
            assert(self.spare(q) >= 0);
            assert(after.heap.held(q) == self.heap.held(q) + (if q == item
                && self.heap.insert_error(list, index, item) is None {
                1int
            } else {
                0int
            }));
        }
        assert forall|i: int| 0 <= i < after.arena.len() implies after.heap.has(
            #[trigger] after.arena[i],
        ) by {
            assert(self.heap.has(self.arena[i]));
        }
    }

    /// A reference more keeps the invariant and is spare.
    pub proof fn lemma_retain(self, p: Ptr)
        requires
            self.wf(),
            self.heap.has(p),
        ensures
            self.retain(p).wf(),
            self.retain(p).spare(p) == self.spare(p) + 1,
            forall|q: Ptr| q != p && self.heap.has(q) ==> self.retain(p).spare(q) == self.spare(q),
    {
        let after = self.retain(p);
        self.heap.lemma_retain(p);
        assert forall|q: Ptr| after.heap.has(q) implies #[trigger] after.spare(q) >= 0 by {
            assert(self.spare(q) >= 0);
        }
    }

    /// Giving up a spare reference keeps the invariant.
    pub proof fn lemma_release(self, p: Ptr)
        requires
            self.wf(),
            self.owns(p),
        ensures
            self.release(p).wf(),
            self.release(p).spare(p) == self.spare(p) - 1,
            forall|q: Ptr| q != p && self.heap.has(q) ==> self.release(p).spare(q) == self.spare(q),
    {
        let after = self.release(p);
        self.heap.lemma_release(p);
        assert forall|q: Ptr| after.heap.has(q) implies #[trigger] after.spare(q) >= 0 by {
            assert(self.spare(q) >= 0);
        }
    }
}

} // verus!
