//! The object runtime: a heap of reference-counted objects, an error
//! indicator, and the table of primitives through which both are reached.
//!
//! The primitives are the whole interface of the runtime. Each states its
//! effect on the heap exactly, in terms of [`Heap`].
use vstd::prelude::*;
use crate::err::ErrorKind;
use crate::heap::{lemma_count_prefix, lemma_stored_prefix, stored_in, Content, Heap, Slot};
use crate::ptr::Ptr;

verus! {

enum Value {
    Int(i64),
    List(Vec<Ptr>),
}

struct Object {
    refcnt: usize,
    value: Value,
}

impl Object {
    spec fn slot(self) -> Slot {
        Slot {
            refcnt: self.refcnt as nat,
            content: match self.value {
                Value::Int(v) => Content::Int(v),
                Value::List(items) => Content::List(items@),
            },
        }
    }
}

/// The runtime. It is reached through an access token only, which takes it
/// whole and gives it back when the token is released.
pub struct Runtime {
    objects: Vec<Object>,
    error: Option<ErrorKind>,
}

impl View for Runtime {
    type V = Heap;

    closed spec fn view(&self) -> Heap {
        Heap { slots: self.objects@.map_values(|o: Object| o.slot()), error: self.error }
    }
}

/// A sequence of `len` null addresses.
pub open spec fn nulls(len: int) -> Seq<Ptr> {
    Seq::new(len as nat, |i: int| Ptr::Null)
}

impl Runtime {
    /// A runtime without objects.
    pub fn new() -> (rt: Runtime)
        ensures
            rt@ == Heap::empty(),
            rt@.wf(),
    {
        let rt = Runtime { objects: Vec::new(), error: None };
        proof {
            assert(rt@.slots =~= Seq::empty());
            assert(rt@.held(Ptr::Null) == 0);
        }
        rt
    }

    /// Whether `p` names an object.
    pub fn contains(&self, p: Ptr) -> (found: bool)
        ensures
            found == self@.has(p),
    {
        match p {
            Ptr::Null => false,
            Ptr::At(k) => k < self.objects.len(),
        }
    }

    /// The reference count of the object at `p`.
    pub fn refcnt(&self, p: Ptr) -> (count: usize)
        requires
            self@.has(p),
        ensures
            count == self@.refcnt(p),
    {
        match p {
            Ptr::Null => 0,
            Ptr::At(k) => self.objects[k].refcnt,
        }
    }

    /// How many references to the object at `p` the sequences of the heap
    /// hold.
    pub fn held(&self, p: Ptr) -> (count: usize)
        requires
            self@.wf(),
            self@.has(p),
        ensures
            count == self@.held(p),
    {
        let ghost slots = self@.slots;
        let n = self.objects.len();
        let mut count: usize = 0;
        let mut k: usize = 0;
        proof {
            assert(slots.take(0) =~= Seq::<Slot>::empty());
            assert(self@.slots[p.index()].refcnt >= self@.held(Ptr::At(p.index() as usize)));
        }
        while k < n
            invariant
                0 <= k <= n,
                n == self.objects.len(),
                slots == self@.slots,
                slots.len() == n,
                stored_in(slots).count(p) <= usize::MAX,
                count == stored_in(slots.take(k as int)).count(p),
            decreases n - k,
        {
            proof {
                lemma_stored_prefix(slots, k as int, p);
            }
            match &self.objects[k].value {
                Value::Int(_) => {
                    proof {
                        broadcast use vstd::multiset::group_multiset_axioms;

                        vstd::seq_lib::to_multiset_contains(Seq::<Ptr>::empty(), p);
                    }
                },
                Value::List(items) => {
                    let ghost base = count as int;
                    let m = items.len();
                    let mut i: usize = 0;
                    proof {
                        broadcast use vstd::multiset::group_multiset_axioms;

                        assert(items@.take(0) =~= Seq::<Ptr>::empty());
                        vstd::seq_lib::to_multiset_contains(Seq::<Ptr>::empty(), p);
                    }
                    while i < m
                        invariant
                            0 <= i <= m,
                            m == items@.len(),
                            base + items@.to_multiset().count(p) <= usize::MAX,
                            count == base + items@.take(i as int).to_multiset().count(p),
                        decreases m - i,
                    {
                        proof {
                            lemma_count_prefix(items@, i as int, p);
                        }
                        if items[i] == p {
                            count = count + 1;
                        }
                        i = i + 1;
                    }
                    proof {
                        assert(items@.take(m as int) =~= items@);
                    }
                },
            }
            k = k + 1;
        }
        proof {
            assert(slots.take(n as int) =~= slots);
        }
        count
    }

    /// Whether `p` names a sequence.
    pub fn list_check(&self, p: Ptr) -> (yes: bool)
        ensures
            yes == self@.is_list(p),
    {
        match p {
            Ptr::Null => false,
            Ptr::At(k) => {
                if k < self.objects.len() {
                    match &self.objects[k].value {
                        Value::List(_) => true,
                        Value::Int(_) => false,
                    }
                } else {
                    false
                }
            },
        }
    }

    /// Whether `p` names a number.
    pub fn int_check(&self, p: Ptr) -> (yes: bool)
        ensures
            yes == self@.is_int(p),
    {
        match p {
            Ptr::Null => false,
            Ptr::At(k) => {
                if k < self.objects.len() {
                    match &self.objects[k].value {
                        Value::List(_) => false,
                        Value::Int(_) => true,
                    }
                } else {
                    false
                }
            },
        }
    }

    /// Allocates a number. The caller gets the one reference to it.
    pub fn int_new(&mut self, value: i64) -> (p: Ptr)
        requires
            old(self)@.wf(),
        ensures
            p == old(self)@.next(),
            final(self)@ == old(self)@.allocate(Content::Int(value)),
            final(self)@.wf(),
    {
        let at = self.objects.len();
        self.objects.push(Object { refcnt: 1, value: Value::Int(value) });
        proof {
            assert(self.objects.len() == at + 1);
            assert(self@.slots =~= old(self)@.slots.push(
                Slot { refcnt: 1, content: Content::Int(value) },
            ));
            old(self)@.lemma_allocate(Content::Int(value));
        }
        Ptr::At(at)
    }

    /// The number that the object at `p` holds.
    pub fn int_value(&self, p: Ptr) -> (value: i64)
        requires
            self@.is_int(p),
        ensures
            self@.content(p) == Content::Int(value),
    {
        match p {
            Ptr::Null => 0,
            Ptr::At(k) => match &self.objects[k].value {
                Value::Int(v) => *v,
                Value::List(_) => 0,
            },
        }
    }

    /// Allocates a sequence of `len` empty slots. The caller gets the one
    /// reference to it. A negative `len` gives null and signals a
    /// `SystemError`.
    pub fn list_new(&mut self, len: isize) -> (p: Ptr)
        requires
            old(self)@.wf(),
        ensures
            len >= 0 ==> p == old(self)@.next() && final(self)@ == old(self)@.allocate(
                Content::List(nulls(len as int)),
            ),
            len < 0 ==> p is Null && final(self)@ == old(self)@.raise(ErrorKind::SystemError),
            final(self)@.wf(),
    {
        if len < 0 {
            self.error = Some(ErrorKind::SystemError);
            return Ptr::Null;
        }
        let mut items: Vec<Ptr> = Vec::new();
        let mut i: isize = 0;
        while i < len
            invariant
                0 <= i <= len,
                items@ =~= nulls(i as int),
            decreases len - i,
        {
            items.push(Ptr::Null);
            i = i + 1;
        }
        let at = self.objects.len();
        self.objects.push(Object { refcnt: 1, value: Value::List(items) });
        proof {
            let content = Content::List(nulls(len as int));
            assert(self.objects.len() == at + 1);
            assert(self@.slots =~= old(self)@.slots.push(Slot { refcnt: 1, content }));
            old(self)@.lemma_allocate(content);
        }
        Ptr::At(at)
    }

    /// The length of the sequence at `list`.
    pub fn list_size(&self, list: Ptr) -> (len: isize)
        requires
            self@.wf(),
            self@.is_list(list),
        ensures
            len == self@.items(list).len(),
    {
        match list {
            Ptr::Null => 0,
            Ptr::At(k) => match &self.objects[k].value {
                Value::List(items) => {
                    assert(self@.slots[k as int].content.items().len() <= isize::MAX);
                    items.len() as isize
                },
                Value::Int(_) => 0,
            },
        }
    }

    /// The element in slot `index` of the sequence at `list`, as a borrowed
    /// reference. The index is not checked.
    pub fn list_get_item(&self, list: Ptr, index: isize) -> (item: Ptr)
        requires
            self@.is_list(list),
            0 <= index < self@.items(list).len(),
        ensures
            item == self@.items(list)[index as int],
    {
        match list {
            Ptr::Null => Ptr::Null,
            Ptr::At(k) => match &self.objects[k].value {
                Value::List(items) => items[index as usize],
                Value::Int(_) => Ptr::Null,
            },
        }
    }

    /// Adds a reference to the object at `p`.
    pub fn incref(&mut self, p: Ptr)
        requires
            old(self)@.wf(),
            old(self)@.live(p),
            old(self)@.refcnt(p) < usize::MAX,
        ensures
            final(self)@ == old(self)@.retain(p),
            final(self)@.wf(),
    {
        match p {
            Ptr::Null => {},
            Ptr::At(k) => {
                self.objects[k].refcnt = self.objects[k].refcnt + 1;
            },
        }
        proof {
            assert(self@.slots =~= old(self)@.retain(p).slots);
            old(self)@.lemma_retain(p);
        }
    }

    /// Gives up a reference to the object at `p`. The reference must be the
    /// caller's to give: one that no sequence holds.
    pub fn decref(&mut self, p: Ptr)
        requires
            old(self)@.wf(),
            old(self)@.has(p),
            old(self)@.refcnt(p) > old(self)@.held(p),
        ensures
            final(self)@ == old(self)@.release(p),
            final(self)@.wf(),
    {
        self.discard(p);
        proof {
            old(self)@.lemma_release(p);
        }
    }

    fn discard(&mut self, p: Ptr)
        requires
            p is Null || old(self)@.live(p),
        ensures
            final(self)@ == old(self)@.discard(p),
    {
        match p {
            Ptr::Null => {},
            Ptr::At(k) => {
                self.objects[k].refcnt = self.objects[k].refcnt - 1;
            },
        }
        proof {
            assert(self@.slots =~= old(self)@.discard(p).slots);
        }
    }

    /// Hands the reference `item` to slot `index` of the sequence at `list`.
    /// In range, the slot takes it, the reference that the slot held is given
    /// up, and the status is 0. Out of range, `item` is given up, an
    /// `IndexError` is signalled, and the status is -1.
    pub fn list_set_item(&mut self, list: Ptr, index: isize, item: Ptr) -> (status: i32)
        requires
            old(self)@.wf(),
            old(self)@.is_list(list),
            item is Null || (old(self)@.has(item) && old(self)@.refcnt(item) > old(self)@.held(
                item,
            )),
        ensures
            final(self)@ == old(self)@.set_item(list, index as int, item),
            status == if 0 <= index < old(self)@.items(list).len() {
                0i32
            } else {
                -1i32
            },
            final(self)@.wf(),
    {
        proof {
            old(self)@.lemma_set_item(list, index as int, item);
        }
        let len = self.list_size(list);
        if index < 0 || index >= len {
            self.discard(item);
            self.error = Some(ErrorKind::IndexError);
            return -1;
        }
        proof {
            old(self)@.lemma_item_live(list, index as int);
        }
        let mut old_item = Ptr::Null;
        match list {
            Ptr::Null => {},
            Ptr::At(k) => match &mut self.objects[k].value {
                Value::List(items) => {
                    old_item = items[index as usize];
                    items[index as usize] = item;
                },
                Value::Int(_) => {},
            },
        }
        proof {
            assert(self@.slots =~= old(self)@.with_items(
                list,
                old(self)@.items(list).update(index as int, item),
            ).slots);
        }
        self.discard(old_item);
        0
    }

    /// Hands the reference `item` to the sequence at `list`, to stand before
    /// slot `index`; the elements from that slot on move one slot up. The
    /// status is 0. Where `item` is null, `index` is not in `0..=len`, or the
    /// sequence cannot grow, `item` is given up, the error is signalled, and
    /// the status is -1.
    pub fn list_insert(&mut self, list: Ptr, index: isize, item: Ptr) -> (status: i32)
        requires
            old(self)@.wf(),
            old(self)@.is_list(list),
            item is Null || (old(self)@.has(item) && old(self)@.refcnt(item) > old(self)@.held(
                item,
            )),
        ensures
            final(self)@ == old(self)@.insert_item(list, index as int, item),
            status == if old(self)@.insert_error(list, index as int, item) is None {
                0i32
            } else {
                -1i32
            },
            final(self)@.wf(),
    {
        proof {
            old(self)@.lemma_insert_item(list, index as int, item);
        }
        let len = self.list_size(list);
        if item.is_null() {
            self.error = Some(ErrorKind::SystemError);
            return -1;
        }
        if index < 0 || index > len {
            self.discard(item);
            self.error = Some(ErrorKind::IndexError);
            return -1;
        }
        if len == isize::MAX {
            self.discard(item);
            self.error = Some(ErrorKind::OverflowError);
            return -1;
        }
        match list {
            Ptr::Null => {},
            Ptr::At(k) => match &mut self.objects[k].value {
                Value::List(items) => {
                    items.insert(index as usize, item);
                },
                Value::Int(_) => {},
            },
        }
        proof {
            assert(self@.slots =~= old(self)@.with_items(
                list,
                old(self)@.items(list).insert(index as int, item),
            ).slots);
        }
        0
    }

    /// Whether an error is signalled.
    pub fn err_occurred(&self) -> (signalled: bool)
        ensures
            signalled == (self@.error is Some),
    {
        self.error.is_some()
    }

    /// Takes the signalled error, if any, out of the error indicator.
    pub fn err_fetch(&mut self) -> (kind: Option<ErrorKind>)
        ensures
            kind == old(self)@.error,
            final(self)@ == old(self)@.settle(),
    {
        let kind = self.error;
        self.error = None;
        kind
    }
}

} // verus!
