//! The mathematical model of the runtime's heap.
//!
//! A heap is a sequence of slots. Each slot carries a reference count and
//! what the object holds: a number, or a sequence of addresses. Dead objects
//! keep their slot, so an address never comes to name another object.
use vstd::prelude::*;
use vstd::multiset::Multiset;
use crate::err::ErrorKind;
use crate::ptr::Ptr;

verus! {

/// What an object holds.
pub enum Content {
    Int(i64),
    List(Seq<Ptr>),
}

impl Content {
    /// The addresses that the object holds: those of its elements for a
    /// sequence, none for a number.
    pub open spec fn items(self) -> Seq<Ptr> {
        match self {
            Content::List(items) => items,
            Content::Int(_) => Seq::empty(),
        }
    }
}

/// One object: its reference count and what it holds.
pub struct Slot {
    pub refcnt: nat,
    pub content: Content,
}

/// The heap, and the error indicator beside it.
pub struct Heap {
    pub slots: Seq<Slot>,
    pub error: Option<ErrorKind>,
}

/// All addresses that the sequences of `slots` hold, each as often as it is held.
pub open spec fn stored_in(slots: Seq<Slot>) -> Multiset<Ptr>
    decreases slots.len(),
{
    if slots.len() == 0 {
        Multiset::empty()
    } else {
        stored_in(slots.drop_last()).add(slots.last().content.items().to_multiset())
    }
}

impl Heap {
    /// The heap without objects.
    pub open spec fn empty() -> Heap {
        Heap { slots: Seq::empty(), error: None }
    }

    /// Whether `p` names an object of this heap.
    pub open spec fn has(self, p: Ptr) -> bool {
        p is At && p.index() < self.slots.len()
    }

    /// The reference count of the object at `p`.
    pub open spec fn refcnt(self, p: Ptr) -> nat {
        self.slots[p.index()].refcnt
    }

    /// What the object at `p` holds.
    pub open spec fn content(self, p: Ptr) -> Content {
        self.slots[p.index()].content
    }

    /// Whether `p` names an object that somebody still refers to.
    pub open spec fn live(self, p: Ptr) -> bool {
        self.has(p) && self.refcnt(p) > 0
    }

    /// Whether `p` names a sequence.
    pub open spec fn is_list(self, p: Ptr) -> bool {
        self.has(p) && self.content(p) is List
    }

    /// Whether `p` names a number.
    pub open spec fn is_int(self, p: Ptr) -> bool {
        self.has(p) && self.content(p) is Int
    }

    /// The elements of the sequence at `p`.
    pub open spec fn items(self, p: Ptr) -> Seq<Ptr> {
        self.content(p).items()
    }

    /// How many references to `p` the sequences of this heap hold.
    pub open spec fn held(self, p: Ptr) -> nat {
        stored_in(self.slots).count(p)
    }

    /// The address that the next allocation gives out.
    pub open spec fn next(self) -> Ptr {
        Ptr::At(self.slots.len() as usize)
    }

    /// The invariant of the heap: a sequence holds only null and addresses of
    /// objects, is no longer than an index can tell, and every object counts
    /// at least the references that sequences hold to it.
    pub open spec fn wf(self) -> bool {
        &&& self.slots.len() <= usize::MAX
        &&& forall|k: int, i: int|
            0 <= k < self.slots.len() && 0 <= i < self.slots[k].content.items().len() ==> {
                let p = #[trigger] self.slots[k].content.items()[i];
                p is Null || self.has(p)
            }
        &&& forall|k: int|
            0 <= k < self.slots.len() ==> #[trigger] self.slots[k].content.items().len()
                <= isize::MAX
        &&& forall|k: int|
            0 <= k < self.slots.len() ==> (#[trigger] self.slots[k]).refcnt >= self.held(
                Ptr::At(k as usize),
            )
    }

    /// Whether `newer` has every object of this heap from slot `base` on,
    /// holding what it holds here.
    pub open spec fn agrees_from(self, newer: Heap, base: int) -> bool {
        &&& self.slots.len() <= newer.slots.len()
        &&& forall|k: int|
            0 <= k && base <= k < self.slots.len() ==> (#[trigger] newer.slots[k]).content
                == self.slots[k].content
    }

    /// Whether this heap has every object of `older`, unchanged, and the same
    /// error indicator.
    pub open spec fn extends(self, older: Heap) -> bool {
        &&& older.slots.len() <= self.slots.len()
        &&& forall|k: int| 0 <= k < older.slots.len() ==> #[trigger] self.slots[k] == older.slots[k]
        &&& self.error == older.error
    }

    /// The heap with one more object, which holds `content` and has one
    /// reference, at the address `self.next()`.
    pub open spec fn allocate(self, content: Content) -> Heap {
        Heap { slots: self.slots.push(Slot { refcnt: 1, content }), ..self }
    }

    /// The heap with one more reference to `p`.
    pub open spec fn retain(self, p: Ptr) -> Heap {
        Heap {
            slots: self.slots.update(
                p.index(),
                Slot { refcnt: self.refcnt(p) + 1, ..self.slots[p.index()] },
            ),
            ..self
        }
    }

    /// The heap with one reference to `p` less.
    pub open spec fn release(self, p: Ptr) -> Heap {
        Heap {
            slots: self.slots.update(
                p.index(),
                Slot { refcnt: (self.refcnt(p) - 1) as nat, ..self.slots[p.index()] },
            ),
            ..self
        }
    }

    /// The heap after a reference that may be null is given up.
    pub open spec fn discard(self, p: Ptr) -> Heap {
        if p is Null {
            self
        } else {
            self.release(p)
        }
    }

    /// The heap with `elems` as the elements of the sequence at `list`.
    pub open spec fn with_items(self, list: Ptr, elems: Seq<Ptr>) -> Heap {
        Heap {
            slots: self.slots.update(
                list.index(),
                Slot { content: Content::List(elems), ..self.slots[list.index()] },
            ),
            ..self
        }
    }

    /// The heap with `kind` in the error indicator.
    pub open spec fn raise(self, kind: ErrorKind) -> Heap {
        Heap { error: Some(kind), ..self }
    }

    /// The heap with an empty error indicator.
    pub open spec fn settle(self) -> Heap {
        Heap { error: None, ..self }
    }

    /// The heap after a reference to `item` was handed to slot `index` of the
    /// sequence at `list`. In range, `item` takes the slot and the reference
    /// that the slot held is given up. Out of range, the reference to `item`
    /// is given up and an `IndexError` is signalled.
    pub open spec fn set_item(self, list: Ptr, index: int, item: Ptr) -> Heap {
        if 0 <= index < self.items(list).len() {
            self.with_items(list, self.items(list).update(index, item)).discard(
                self.items(list)[index],
            )
        } else {
            self.discard(item).raise(ErrorKind::IndexError)
        }
    }

    /// Whether a reference to `item` can go into the sequence at `list` before
    /// slot `index`.
    pub open spec fn insert_error(self, list: Ptr, index: int, item: Ptr) -> Option<ErrorKind> {
        if item is Null {
            Some(ErrorKind::SystemError)
        } else if !(0 <= index <= self.items(list).len()) {
            Some(ErrorKind::IndexError)
        } else if self.items(list).len() >= isize::MAX {
            Some(ErrorKind::OverflowError)
        } else {
            None
        }
    }

    /// The heap after a reference to `item` was handed to the sequence at
    /// `list`, to stand before slot `index`. Where that cannot be, the
    /// reference is given up and the error is signalled.
    pub open spec fn insert_item(self, list: Ptr, index: int, item: Ptr) -> Heap {
        match self.insert_error(list, index, item) {
            Some(kind) => self.discard(item).raise(kind),
            None => self.with_items(list, self.items(list).insert(index, item)),
        }
    }
}

/// Adding a slot adds what it holds.
pub proof fn lemma_stored_push(slots: Seq<Slot>, slot: Slot)
    ensures
        stored_in(slots.push(slot)) == stored_in(slots).add(
            slot.content.items().to_multiset(),
        ),
{
    assert(slots.push(slot).drop_last() =~= slots);
}

/// Replacing a slot takes away what the old one held and adds what the new
/// one holds.
pub proof fn lemma_stored_update(slots: Seq<Slot>, k: int, slot: Slot)
    requires
        0 <= k < slots.len(),
    ensures
        stored_in(slots.update(k, slot)).add(slots[k].content.items().to_multiset())
            =~= stored_in(slots).add(slot.content.items().to_multiset()),
    decreases slots.len(),
{
    broadcast use vstd::multiset::group_multiset_axioms;

    let front = slots.drop_last();
    let after = slots.update(k, slot);
    let left = stored_in(after).add(slots[k].content.items().to_multiset());
    let right = stored_in(slots).add(slot.content.items().to_multiset());
    assert(stored_in(slots) == stored_in(front).add(slots.last().content.items().to_multiset()));
    assert(stored_in(after) == stored_in(after.drop_last()).add(
        after.last().content.items().to_multiset(),
    ));
    if k == slots.len() - 1 {
        assert(after.drop_last() =~= front);
    } else {
        lemma_stored_update(front, k, slot);
        assert(after.drop_last() =~= front.update(k, slot));
        let inner_left = stored_in(front.update(k, slot)).add(
            slots[k].content.items().to_multiset(),
        );
        let inner_right = stored_in(front).add(slot.content.items().to_multiset());
        assert forall|q: Ptr| left.count(q) == right.count(q) by {
            assert(inner_left.count(q) == inner_right.count(q));
        }
    }
    assert(left =~= right);
}

/// Replacing a slot by one that holds the same leaves what is stored as it was.
pub proof fn lemma_stored_recount(slots: Seq<Slot>, k: int, slot: Slot)
    requires
        0 <= k < slots.len(),
        slot.content.items() == slots[k].content.items(),
    ensures
        stored_in(slots.update(k, slot)) =~= stored_in(slots),
{
    broadcast use vstd::multiset::group_multiset_axioms;

    lemma_stored_update(slots, k, slot);
    let held = slot.content.items().to_multiset();
    assert forall|q: Ptr| stored_in(slots.update(k, slot)).count(q) == stored_in(slots).count(q) by {
        assert(stored_in(slots.update(k, slot)).add(held).count(q) == stored_in(slots).add(
            held,
        ).count(q));
    }
}

/// An element of a sequence of the heap is stored at least once.
pub proof fn lemma_stored_member(slots: Seq<Slot>, k: int, i: int)
    requires
        0 <= k < slots.len(),
        0 <= i < slots[k].content.items().len(),
    ensures
        stored_in(slots).count(slots[k].content.items()[i]) >= 1,
    decreases slots.len(),
{
    broadcast use vstd::multiset::group_multiset_axioms;

    if k == slots.len() - 1 {
        let items = slots[k].content.items();
        assert(items.contains(items[i]));
        vstd::seq_lib::to_multiset_contains(items, items[i]);
    } else {
        lemma_stored_member(slots.drop_last(), k, i);
    }
}

impl Heap {
    /// An element of a sequence is an object in use, or null.
    pub proof fn lemma_item_live(self, list: Ptr, i: int)
        requires
            self.wf(),
            self.is_list(list),
            0 <= i < self.items(list).len(),
        ensures
            self.items(list)[i] is Null || self.live(self.items(list)[i]),
            self.held(self.items(list)[i]) >= 1,
    {
        let p = self.slots[list.index()].content.items()[i];
        lemma_stored_member(self.slots, list.index(), i);
        if p is At {
            assert(self.slots[p.index()].refcnt >= self.held(Ptr::At(p.index() as usize)));
        }
    }

    /// A new object that holds no address keeps the invariant and changes no
    /// count of what is held.
    pub proof fn lemma_allocate(self, content: Content)
        requires
            self.wf(),
            self.slots.len() < usize::MAX,
            content.items().len() <= isize::MAX,
            forall|i: int| 0 <= i < content.items().len() ==> content.items()[i] is Null,
        ensures
            self.allocate(content).wf(),
            forall|q: Ptr| q is At ==> self.allocate(content).held(q) == self.held(q),
    {
        broadcast use vstd::multiset::group_multiset_axioms;

        let after = self.allocate(content);
        let slot = Slot { refcnt: 1, content };
        lemma_stored_push(self.slots, slot);
        assert forall|q: Ptr| q is At implies after.held(q) == self.held(q) by {
            vstd::seq_lib::to_multiset_contains(content.items(), q);
        }
        assert forall|k: int, i: int|
            0 <= k < after.slots.len() && 0 <= i < after.slots[k].content.items().len() implies {
            let p = #[trigger] after.slots[k].content.items()[i];
            p is Null || after.has(p)
        } by {
            if k < self.slots.len() {
                let p = self.slots[k].content.items()[i];
                assert(p is Null || self.has(p));
            }
        }
        assert forall|k: int| 0 <= k < after.slots.len() implies (#[trigger] after.slots[k]).refcnt
            >= after.held(Ptr::At(k as usize)) by {
            if k < self.slots.len() {
                assert(self.slots[k].refcnt >= self.held(Ptr::At(k as usize)));
            } else {
                assert(self.held(Ptr::At(k as usize)) == 0) by {
                    self.lemma_held_has(Ptr::At(k as usize));
                }
            }
        }
    }

    /// Only objects of the heap are held.
    pub proof fn lemma_held_has(self, p: Ptr)
        requires
            self.wf(),
            p is At,
            !self.has(p),
        ensures
            self.held(p) == 0,
    {
        lemma_stored_absent(self.slots, p);
    }

    /// One more or one less reference changes no count of what is held.
    pub proof fn lemma_recount(self, p: Ptr, refcnt: nat)
        requires
            self.has(p),
        ensures
            stored_in(self.slots.update(p.index(), Slot { refcnt, ..self.slots[p.index()] }))
                == stored_in(self.slots),
    {
        lemma_stored_recount(
            self.slots,
            p.index(),
            Slot { refcnt, ..self.slots[p.index()] },
        );
    }

    /// A reference more keeps the invariant.
    pub proof fn lemma_retain(self, p: Ptr)
        requires
            self.wf(),
            self.has(p),
        ensures
            self.retain(p).wf(),
            forall|q: Ptr| self.retain(p).held(q) == self.held(q),
    {
        let after = self.retain(p);
        self.lemma_recount(p, self.refcnt(p) + 1);
        assert forall|k: int| 0 <= k < after.slots.len() implies (#[trigger] after.slots[k]).refcnt
            >= after.held(Ptr::At(k as usize)) by {
            assert(self.slots[k].refcnt >= self.held(Ptr::At(k as usize)));
        }
        assert forall|k: int, i: int|
            0 <= k < after.slots.len() && 0 <= i < after.slots[k].content.items().len() implies {
            let q = #[trigger] after.slots[k].content.items()[i];
            q is Null || after.has(q)
        } by {
            let q = self.slots[k].content.items()[i];
            assert(q is Null || self.has(q));
        }
    }

    /// A reference less keeps the invariant, where the reference was not one
    /// that a sequence holds.
    pub proof fn lemma_release(self, p: Ptr)
        requires
            self.wf(),
            self.has(p),
            self.refcnt(p) > self.held(p),
        ensures
            self.release(p).wf(),
            forall|q: Ptr| self.release(p).held(q) == self.held(q),
    {
        let after = self.release(p);
        self.lemma_recount(p, (self.refcnt(p) - 1) as nat);
        assert forall|k: int| 0 <= k < after.slots.len() implies (#[trigger] after.slots[k]).refcnt
            >= after.held(Ptr::At(k as usize)) by {
            assert(self.slots[k].refcnt >= self.held(Ptr::At(k as usize)));
        }
        assert forall|k: int, i: int|
            0 <= k < after.slots.len() && 0 <= i < after.slots[k].content.items().len() implies {
            let q = #[trigger] after.slots[k].content.items()[i];
            q is Null || after.has(q)
        } by {
            let q = self.slots[k].content.items()[i];
            assert(q is Null || self.has(q));
        }
    }
}

impl Heap {
    /// New elements for a sequence keep the invariant where each object
    /// still counts what is then held of it; what is held changes by what
    /// the sequence lost and gained.
    pub proof fn lemma_with_items(self, list: Ptr, elems: Seq<Ptr>)
        requires
            self.wf(),
            self.is_list(list),
            elems.len() <= isize::MAX,
            forall|i: int| 0 <= i < elems.len() ==> elems[i] is Null || self.has(#[trigger] elems[i]),
            forall|q: Ptr|
                self.has(q) ==> self.refcnt(q) + self.items(list).to_multiset().count(q)
                    >= self.held(q) + #[trigger] elems.to_multiset().count(q),
        ensures
            self.with_items(list, elems).wf(),
            forall|q: Ptr|
                #[trigger] self.with_items(list, elems).held(q) + self.items(
                    list,
                ).to_multiset().count(q) == self.held(q) + elems.to_multiset().count(q),
    {
        broadcast use vstd::multiset::group_multiset_axioms;

        let after = self.with_items(list, elems);
        let slot = Slot { content: Content::List(elems), ..self.slots[list.index()] };
        lemma_stored_update(self.slots, list.index(), slot);
        let left = stored_in(after.slots).add(self.items(list).to_multiset());
        let right = stored_in(self.slots).add(elems.to_multiset());
        assert forall|q: Ptr|
            #[trigger] after.held(q) + self.items(list).to_multiset().count(q) == self.held(q)
                + elems.to_multiset().count(q) by {
            assert(left.count(q) == right.count(q));
        }
        assert forall|k: int| 0 <= k < after.slots.len() implies (#[trigger] after.slots[k]).refcnt
            >= after.held(Ptr::At(k as usize)) by {
            let q = Ptr::At(k as usize);
            assert(self.has(q));
            assert(self.slots[k].refcnt >= self.held(q));
            assert(after.held(q) + self.items(list).to_multiset().count(q) == self.held(q)
                + elems.to_multiset().count(q));
        }
        assert forall|k: int, i: int|
            0 <= k < after.slots.len() && 0 <= i < after.slots[k].content.items().len() implies {
            let q = #[trigger] after.slots[k].content.items()[i];
            q is Null || after.has(q)
        } by {
            if k == list.index() {
                assert(elems[i] is Null || self.has(elems[i]));
            } else {
                let q = self.slots[k].content.items()[i];
                assert(q is Null || self.has(q));
            }
        }
    }

    /// Handing a reference to a slot of a sequence keeps the invariant. In
    /// range, one more reference to the item is then held and one less to
    /// what the slot held; out of range, what is held stays.
    pub proof fn lemma_set_item(self, list: Ptr, index: int, item: Ptr)
        requires
            self.wf(),
            self.is_list(list),
            item is Null || (self.has(item) && self.refcnt(item) > self.held(item)),
        ensures
            self.set_item(list, index, item).wf(),
            forall|q: Ptr|
                #[trigger] self.set_item(list, index, item).held(q) == if 0 <= index
                    < self.items(list).len() {
                    self.held(q) + (if q == item {
                        1int
                    } else {
                        0int
                    }) - (if q == self.items(list)[index] {
                        1int
                    } else {
                        0int
                    })
                } else {
                    self.held(q) as int
                },
    {
        broadcast use vstd::multiset::group_multiset_axioms;

        let items = self.items(list);
        if 0 <= index < items.len() {
            let old_item = items[index];
            let elems = items.update(index, item);
            vstd::seq_lib::to_multiset_update(items, index, item);
            self.lemma_item_live(list, index);
            assert(items.contains(old_item));
            vstd::seq_lib::to_multiset_contains(items, old_item);
            assert forall|i: int| 0 <= i < elems.len() implies elems[i] is Null || self.has(
                #[trigger] elems[i],
            ) by {
                if i != index {
                    let q = self.slots[list.index()].content.items()[i];
                    assert(q is Null || self.has(q));
                }
            }
            assert forall|q: Ptr| self.has(q) implies self.refcnt(q) + items.to_multiset().count(q)
                >= self.held(q) + #[trigger] elems.to_multiset().count(q) by {
                assert(self.slots[q.index()].refcnt >= self.held(Ptr::At(q.index() as usize)));
            }
            self.lemma_with_items(list, elems);
            let mid = self.with_items(list, elems);
            assert forall|q: Ptr|
                mid.held(q) == self.held(q) + (if q == item {
                    1int
                } else {
                    0int
                }) - (if q == old_item {
                    1int
                } else {
                    0int
                }) by {
                assert(mid.held(q) + items.to_multiset().count(q) == self.held(q)
                    + elems.to_multiset().count(q));
            }
            if old_item is At {
                assert(self.slots[old_item.index()].refcnt >= self.held(
                    Ptr::At(old_item.index() as usize),
                ));
                mid.lemma_release(old_item);
            }
            let after = self.set_item(list, index, item);
            assert(after == mid.discard(old_item));
            assert forall|q: Ptr| #[trigger] after.held(q) == mid.held(q) by {}
        } else {
            if item is At {
                self.lemma_release(item);
            }
            let after = self.set_item(list, index, item);
            assert(after.slots == self.discard(item).slots);
            assert forall|q: Ptr| #[trigger] after.held(q) == self.held(q) by {}
        }
    }

    /// Handing a reference to a sequence, to stand before a slot, keeps the
    /// invariant. Where it goes in, one more reference to the item is then
    /// held; where it does not, what is held stays.
    pub proof fn lemma_insert_item(self, list: Ptr, index: int, item: Ptr)
        requires
            self.wf(),
            self.is_list(list),
            item is Null || (self.has(item) && self.refcnt(item) > self.held(item)),
        ensures
            self.insert_item(list, index, item).wf(),
            forall|q: Ptr|
                #[trigger] self.insert_item(list, index, item).held(q) == self.held(q) + (if q
                    == item && self.insert_error(list, index, item) is None {
                    1int
                } else {
                    0int
                }),
    {
        broadcast use vstd::multiset::group_multiset_axioms;

        let items = self.items(list);
        if self.insert_error(list, index, item) is None {
            let elems = items.insert(index, item);
            vstd::seq_lib::to_multiset_insert(items, index, item);
            assert forall|i: int| 0 <= i < elems.len() implies elems[i] is Null || self.has(
                #[trigger] elems[i],
            ) by {
                if i < index {
                    let q = self.slots[list.index()].content.items()[i];
                    assert(q is Null || self.has(q));
                } else if i > index {
                    let q = self.slots[list.index()].content.items()[i - 1];
                    assert(q is Null || self.has(q));
                }
            }
            assert forall|q: Ptr| self.has(q) implies self.refcnt(q) + items.to_multiset().count(q)
                >= self.held(q) + #[trigger] elems.to_multiset().count(q) by {
                assert(self.slots[q.index()].refcnt >= self.held(Ptr::At(q.index() as usize)));
            }
            self.lemma_with_items(list, elems);
            let after = self.with_items(list, elems);
            assert forall|q: Ptr|
                #[trigger] after.held(q) == self.held(q) + (if q == item {
                    1int
                } else {
                    0int
                }) by {
                assert(after.held(q) + items.to_multiset().count(q) == self.held(q)
                    + elems.to_multiset().count(q));
            }
        } else {
            if item is At {
                self.lemma_release(item);
            }
        }
    }
}

/// The first elements of a sequence hold an address no more often than the
/// whole of it, and one element more holds it once more where the element is
/// the address.
pub proof fn lemma_count_prefix(items: Seq<Ptr>, i: int, p: Ptr)
    requires
        0 <= i < items.len(),
    ensures
        items.take(i + 1).to_multiset().count(p) == items.take(i).to_multiset().count(p) + (if items[i]
            == p {
            1int
        } else {
            0int
        }),
        items.take(i + 1).to_multiset().count(p) <= items.to_multiset().count(p),
    decreases items.len() - i,
{
    broadcast use vstd::multiset::group_multiset_axioms;

    assert(items.take(i + 1) =~= items.take(i).push(items[i]));
    vstd::seq_lib::to_multiset_build(items.take(i), items[i]);
    if i + 1 < items.len() {
        lemma_count_prefix(items, i + 1, p);
    } else {
        assert(items.take(i + 1) =~= items);
    }
}

/// The first slots of a heap store an address no more often than the whole
/// of it, and one slot more stores what that slot holds besides.
pub proof fn lemma_stored_prefix(slots: Seq<Slot>, k: int, p: Ptr)
    requires
        0 <= k < slots.len(),
    ensures
        stored_in(slots.take(k + 1)).count(p) == stored_in(slots.take(k)).count(p)
            + slots[k].content.items().to_multiset().count(p),
        stored_in(slots.take(k + 1)).count(p) <= stored_in(slots).count(p),
    decreases slots.len() - k,
{
    broadcast use vstd::multiset::group_multiset_axioms;

    assert(slots.take(k + 1).drop_last() =~= slots.take(k));
    if k + 1 < slots.len() {
        lemma_stored_prefix(slots, k + 1, p);
    } else {
        assert(slots.take(k + 1) =~= slots);
    }
}

/// An address that names no slot is not stored, where all that is stored
/// names a slot.
pub proof fn lemma_stored_absent(slots: Seq<Slot>, p: Ptr)
    requires
        forall|k: int, i: int|
            0 <= k < slots.len() && 0 <= i < slots[k].content.items().len() ==> #[trigger] slots[k].content.items()[i]
                != p,
    ensures
        stored_in(slots).count(p) == 0,
    decreases slots.len(),
{
    broadcast use vstd::multiset::group_multiset_axioms;

    if slots.len() > 0 {
        let front = slots.drop_last();
        assert forall|k: int, i: int|
            0 <= k < front.len() && 0 <= i < front[k].content.items().len() implies #[trigger] front[k].content.items()[i]
            != p by {
            assert(front[k] == slots[k]);
        }
        lemma_stored_absent(front, p);
        let items = slots.last().content.items();
        vstd::seq_lib::to_multiset_contains(items, p);
        if items.contains(p) {
            let i = choose|i: int| 0 <= i < items.len() && items[i] == p;
            assert(slots[slots.len() - 1].content.items()[i] == p);
        }
    }
}

} // verus!
