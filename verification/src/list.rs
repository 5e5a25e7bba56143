//! The sequence container: a typed handle to a growable sequence of objects.
//!
//! The container keeps nothing of its own. Its length and its elements are
//! those of the object in the runtime, read and changed through the token.
use vstd::prelude::*;
use crate::conversion::{converted, FromPyObject, IntoPyObject, Represented, ToPyObject};
use crate::err::{error_on_minusone, ErrorKind, ExtractError, PyErr, PyResult};
use crate::handle::{PyObject, PyObjectRef};
use crate::heap::{Content, Heap};
use crate::list_spec::{
    confined_list, decode_item, decode_list, filling, first_failure, lemma_confined_list_lower,
    lemma_fill_done, lemma_fill_start, lemma_fill_step, lemma_frame_list,
};
use crate::ptr::Ptr;
use crate::runtime::nulls;
use crate::scope::Scope;
use crate::token::Python;

verus! {

/// The mathematical values of a host sequence, element by element.
pub open spec fn models_of<T: Represented>(elements: Seq<T>) -> Seq<T::Model> {
    Seq::new(elements.len(), |j: int| elements[j].model())
}

/// Whether the runtime can hold each of `elements` and a sequence of them.
pub open spec fn all_fit<T: Represented>(elements: Seq<T>) -> bool {
    &&& elements.len() <= isize::MAX
    &&& forall|j: int| 0 <= j < elements.len() ==> (#[trigger] elements[j]).fits()
}

impl<T: Represented> Represented for [T] {
    type Model = Seq<T::Model>;

    open spec fn model(&self) -> Seq<T::Model> {
        models_of(self@)
    }

    open spec fn fits(&self) -> bool {
        all_fit(self@)
    }

    open spec fn decode(heap: Heap, p: Ptr) -> Result<Seq<T::Model>, ExtractError> {
        decode_list::<T>(heap, p)
    }

    open spec fn confined(heap: Heap, p: Ptr, base: int) -> bool {
        confined_list::<T>(heap, p, base)
    }

    proof fn lemma_confined_has(heap: Heap, p: Ptr, base: int) {
    }

    proof fn lemma_confined_lower(heap: Heap, p: Ptr, base: int, lower: int) {
        lemma_confined_list_lower::<T>(heap, p, base, lower);
    }

    proof fn lemma_frame(a: Heap, b: Heap, p: Ptr, base: int) {
        lemma_frame_list::<T>(a, b, p, base);
    }
}

impl<T: ToPyObject> ToPyObject for [T] {
    /// Allocates a sequence of as many slots as `self` has elements, then
    /// turns each element into an object, first to last, and hands it to
    /// the slot of its index.
    fn to_object(&self, py: &mut Python) -> (ob: PyObject) {
        let ghost start = py@;
        let n = self.len();
        let rt = py.runtime_mut();
        let ptr = rt.list_new(n as isize);
        proof {
            lemma_fill_start::<T>(start, n as int);
            assert(models_of(self@.take(0)) =~= Seq::<T::Model>::empty());
        }
        let mut i: usize = 0;
        while i < n
            invariant
                0 <= i <= n,
                n == self@.len(),
                all_fit(self@),
                start.wf(),
                filling::<T>(start, py@, ptr, models_of(self@.take(i as int)), n as int),
            decreases n - i,
        {
            let ghost before = py@;
            let ghost models = models_of(self@.take(i as int));
            let item = self[i].to_object(py).into_ptr();
            proof {
                lemma_fill_step::<T>(start, before, py@, ptr, models, n as int, item, self@[i as int].model());
                assert(models.push(self@[i as int].model()) =~= models_of(self@.take(i + 1)));
            }
            let rt = py.runtime_mut();
            rt.list_set_item(ptr, i as isize, item);
            i = i + 1;
        }
        proof {
            assert(self@.take(n as int) =~= self@);
            lemma_fill_done::<T>(start, py@, ptr, models_of(self@));
            start.lemma_built_owns(py@, ptr);
        }
        PyObject::from_owned_ptr(py, ptr)
    }
}

impl<T: Represented> Represented for Vec<T> {
    type Model = Seq<T::Model>;

    open spec fn model(&self) -> Seq<T::Model> {
        models_of(self@)
    }

    open spec fn fits(&self) -> bool {
        all_fit(self@)
    }

    open spec fn decode(heap: Heap, p: Ptr) -> Result<Seq<T::Model>, ExtractError> {
        decode_list::<T>(heap, p)
    }

    open spec fn confined(heap: Heap, p: Ptr, base: int) -> bool {
        confined_list::<T>(heap, p, base)
    }

    proof fn lemma_confined_has(heap: Heap, p: Ptr, base: int) {
    }

    proof fn lemma_confined_lower(heap: Heap, p: Ptr, base: int, lower: int) {
        lemma_confined_list_lower::<T>(heap, p, base, lower);
    }

    proof fn lemma_frame(a: Heap, b: Heap, p: Ptr, base: int) {
        lemma_frame_list::<T>(a, b, p, base);
    }
}

impl<T: ToPyObject> ToPyObject for Vec<T> {
    fn to_object(&self, py: &mut Python) -> (ob: PyObject) {
        self.as_slice().to_object(py)
    }
}

impl<T: IntoPyObject> IntoPyObject for Vec<T> {
    /// Allocates a sequence of as many slots as `self` has elements, then
    /// turns each element into an object, first to last, using it up, and
    /// hands the object to the slot of its index.
    fn into_object(self, py: &mut Python) -> (ob: PyObject) {
        let ghost start = py@;
        let ghost elements = self@;
        let n = self.len();
        let rt = py.runtime_mut();
        let ptr = rt.list_new(n as isize);
        proof {
            lemma_fill_start::<T>(start, n as int);
            assert(models_of(elements.take(0)) =~= Seq::<T::Model>::empty());
        }
        let mut i: usize = 0;
        for e in it: self.into_iter()
            invariant
                i == it.index(),
                it.seq() == elements,
                n == elements.len(),
                all_fit(elements),
                start.wf(),
                filling::<T>(start, py@, ptr, models_of(elements.take(i as int)), n as int),
        {
            let ghost before = py@;
            let ghost models = models_of(elements.take(i as int));
            let ghost model = e.model();
            let item = e.into_object(py).into_ptr();
            proof {
                lemma_fill_step::<T>(start, before, py@, ptr, models, n as int, item, model);
                assert(models.push(model) =~= models_of(elements.take(i + 1)));
            }
            let rt = py.runtime_mut();
            rt.list_set_item(ptr, i as isize, item);
            i = i + 1;
        }
        proof {
            assert(elements.take(n as int) =~= elements);
            lemma_fill_done::<T>(start, py@, ptr, models_of(elements));
            start.lemma_built_owns(py@, ptr);
        }
        PyObject::from_owned_ptr(py, ptr)
    }
}

impl<T: FromPyObject> FromPyObject for Vec<T> {
    /// Reads a sequence element by element, first to last, and stops at the
    /// first element that cannot be read.
    fn extract(py: &Python, ob: PyObjectRef) -> (r: Result<Vec<T>, ExtractError>) {
        let rt = py.runtime();
        let ptr = ob.as_ptr();
        if !rt.list_check(ptr) {
            return Err(ExtractError::KindMismatch);
        }
        let ghost heap = py@.heap;
        let ghost items = heap.items(ptr);
        let n = rt.list_size(ptr);
        let mut out: Vec<T> = Vec::new();
        let mut i: isize = 0;
        while i < n
            invariant
                0 <= i <= n,
                n == items.len(),
                ptr == ob@,
                heap == py@.heap,
                rt@ == heap,
                items == heap.items(ptr),
                py@.wf(),
                heap.is_list(ptr),
                out@.len() == i,
                first_failure::<T>(heap, items, 0) == first_failure::<T>(heap, items, i as int),
                forall|j: int|
                    0 <= j < i ==> decode_item::<T>(heap, #[trigger] items[j]) == Ok::<
                        T::Model,
                        ExtractError,
                    >(out@[j].model()),
            decreases n - i,
        {
            let item = rt.list_get_item(ptr, i);
            if item.is_null() {
                assert(first_failure::<T>(heap, items, i as int) == i);
                return Err(ExtractError::KindMismatch);
            }
            proof {
                heap.lemma_item_live(ptr, i as int);
            }
            match T::extract(py, PyObjectRef::from_borrowed_ptr(py, item)) {
                Ok(v) => {
                    out.push(v);
                },
                Err(e) => {
                    assert(first_failure::<T>(heap, items, i as int) == i);
                    return Err(e);
                },
            }
            assert(first_failure::<T>(heap, items, i as int) == first_failure::<T>(
                heap,
                items,
                i + 1,
            ));
            i = i + 1;
        }
        proof {
            assert(first_failure::<T>(heap, items, n as int) == n);
            assert(models_of(out@) =~= Seq::new(
                items.len(),
                |j: int| decode_item::<T>(heap, items[j])->Ok_0,
            ));
        }
        Ok(out)
    }
}

/// A borrowed handle to a sequence object.
#[derive(Clone, Copy, Debug)]
pub struct PyList {
    ob: PyObjectRef,
}

impl View for PyList {
    type V = Ptr;

    closed spec fn view(&self) -> Ptr {
        self.ob@
    }
}

/// Whether `index` names a slot of the sequence at `list` whose element can
/// be handed out with a reference of its own.
pub open spec fn gettable(scope: Scope, list: Ptr, index: int) -> bool {
    &&& 0 <= index < scope.heap.items(list).len()
    &&& scope.heap.items(list)[index] is At
    &&& scope.heap.refcnt(scope.heap.items(list)[index]) < usize::MAX
}

/// Why the element in slot `index` of the sequence at `list` cannot be handed
/// out: the index names no slot, the slot is empty, or the count of the
/// element is at its limit.
pub open spec fn get_refusal(scope: Scope, list: Ptr, index: int) -> Option<ErrorKind> {
    if !(0 <= index < scope.heap.items(list).len()) {
        Some(ErrorKind::IndexError)
    } else if scope.heap.items(list)[index] is Null {
        Some(ErrorKind::SystemError)
    } else if scope.heap.refcnt(scope.heap.items(list)[index]) >= usize::MAX {
        Some(ErrorKind::OverflowError)
    } else {
        None
    }
}

/// What building a sequence for `elements` makes of `before`: new objects, of
/// which the one at `list` stands for `elements`, and one more reference in
/// the arena, the one to `list`.
pub open spec fn new_spec<T: Represented>(
    before: Scope,
    after: Scope,
    list: Ptr,
    elements: Seq<T>,
) -> bool {
    &&& after.arena == before.arena.push(list)
    &&& converted::<[T]>(
        before,
        Scope { arena: before.arena, ..after },
        list,
        models_of(elements),
    )
}

/// What a step of a walk that stands at slot `index` of the sequence at
/// `list` gives, and the state that it leaves.
pub open spec fn next_spec(before: Scope, list: Ptr, index: int) -> (Option<Ptr>, Scope) {
    if index < before.heap.items(list).len() {
        let item = before.heap.items(list)[index];
        (Some(item), before.retain(item).track(item))
    } else {
        (None, before)
    }
}

/// The result of a checked operation: success, or the error for which it
/// was refused.
pub open spec fn outcome(refusal: Option<ErrorKind>) -> PyResult<()> {
    match refusal {
        None => Ok(()),
        Some(kind) => Err(PyErr { kind }),
    }
}

/// What handing a new object for `model` to slot `index` of the sequence at
/// `list` makes of `before`: the state after the conversion, in which the
/// slot takes the object or, out of range, the object is given up and the
/// error taken out of the indicator.
pub open spec fn set_item_spec<I: Represented>(
    before: Scope,
    after: Scope,
    list: Ptr,
    index: int,
    model: I::Model,
) -> bool {
    exists|mid: Scope, p: Ptr|
        {
            &&& #[trigger] converted::<I>(before, mid, p, model)
            &&& after == mid.with_heap(
                if 0 <= index < mid.heap.items(list).len() {
                    mid.heap.set_item(list, index, p)
                } else {
                    mid.heap.set_item(list, index, p).settle()
                },
            )
        }
}

/// What handing a new object for `model` to the sequence at `list`, to stand
/// before slot `index`, makes of `before`: the state after the conversion,
/// in which the object goes in or, where it cannot, is given up and the
/// error taken out of the indicator.
pub open spec fn insert_item_spec<I: Represented>(
    before: Scope,
    after: Scope,
    list: Ptr,
    index: int,
    model: I::Model,
) -> bool {
    exists|mid: Scope, p: Ptr|
        {
            &&& #[trigger] converted::<I>(before, mid, p, model)
            &&& after == mid.with_heap(
                if mid.heap.insert_error(list, index, p) is None {
                    mid.heap.insert_item(list, index, p)
                } else {
                    mid.heap.insert_item(list, index, p).settle()
                },
            )
        }
}

/// Why an object cannot go into a sequence of `len` slots before slot `index`.
pub open spec fn insert_refusal(len: int, index: int) -> Option<ErrorKind> {
    if !(0 <= index <= len) {
        Some(ErrorKind::IndexError)
    } else if len >= isize::MAX {
        Some(ErrorKind::OverflowError)
    } else {
        None
    }
}

impl PyList {
    /// Builds a new sequence whose elements stand for `elements`, in order.
    /// The reference to it goes to the arena of the token.
    pub fn new<T: ToPyObject>(py: &mut Python, elements: &[T]) -> (list: PyList)
        requires
            old(py)@.wf(),
            all_fit(elements@),
        ensures
            new_spec(old(py)@, final(py)@, list@, elements@),
            final(py)@.wf(),
    {
        let ob = elements.to_object(py);
        proof {
            old(py)@.lemma_built_owns(py@, ob@);
        }
        PyList { ob: py.track_object(ob) }
    }

    /// Builds a new sequence without elements. The reference to it goes to
    /// the arena of the token.
    pub fn empty(py: &mut Python) -> (list: PyList)
        requires
            old(py)@.wf(),
        ensures
            list@ == old(py)@.heap.next(),
            final(py)@ == old(py)@.with_heap(
                old(py)@.heap.allocate(Content::List(Seq::empty())),
            ).track(list@),
            final(py)@.wf(),
    {
        let rt = py.runtime_mut();
        let ptr = rt.list_new(0);
        proof {
            assert(nulls(0) =~= Seq::<Ptr>::empty());
            old(py)@.lemma_allocate(Content::List(Seq::empty()));
            old(py)@.lemma_built_owns(py@, ptr);
        }
        let ob = PyObject::from_owned_ptr(py, ptr);
        PyList { ob: py.track_object(ob) }
    }

    /// Reads `ob` as a sequence, where its object is one. The sequence is
    /// borrowed from `ob`.
    pub fn downcast_from(py: &Python, ob: &PyObject) -> (r: Result<PyList, ExtractError>)
        ensures
            match r {
                Ok(list) => py@.heap.is_list(ob@) && list@ == ob@,
                Err(e) => !py@.heap.is_list(ob@) && e == ExtractError::KindMismatch,
            },
    {
        if py.runtime().list_check(ob.as_ptr()) {
            Ok(PyList { ob: ob.as_ref() })
        } else {
            Err(ExtractError::KindMismatch)
        }
    }

    /// The address of the sequence.
    pub fn as_ptr(&self) -> (ptr: Ptr)
        ensures
            ptr == self@,
    {
        self.ob.as_ptr()
    }

    /// The sequence as an object of no particular kind.
    pub fn as_ref(&self) -> (r: PyObjectRef)
        ensures
            r@ == self@,
    {
        self.ob
    }

    /// The number of elements.
    pub fn len(&self, py: &Python) -> (len: usize)
        requires
            py@.wf(),
            py@.heap.is_list(self@),
        ensures
            len == py@.heap.items(self@).len(),
    {
        py.runtime().list_size(self.as_ptr()) as usize
    }

    /// The element in slot `index`, under a reference of its own that goes
    /// to the arena of the token. The index is not checked.
    pub fn get_item(&self, py: &mut Python, index: isize) -> (item: PyObjectRef)
        requires
            old(py)@.wf(),
            old(py)@.heap.is_list(self@),
            gettable(old(py)@, self@, index as int),
        ensures
            item@ == old(py)@.heap.items(self@)[index as int],
            final(py)@ == old(py)@.retain(item@).track(item@),
            final(py)@.wf(),
    {
        let ob = self.get_parked_item(py, index);
        py.track_object(ob)
    }

    /// The element in slot `index` as `get_item` gives it, where it can be
    /// given. Where the index names no slot the result is an `IndexError`,
    /// where the slot is empty a `SystemError`, where the count of the
    /// element is at its limit an `OverflowError`, and nothing changes.
    pub fn get_item_checked(&self, py: &mut Python, index: isize) -> (r: PyResult<PyObjectRef>)
        requires
            old(py)@.wf(),
            old(py)@.heap.is_list(self@),
        ensures
            match r {
                Ok(item) => {
                    &&& gettable(old(py)@, self@, index as int)
                    &&& item@ == old(py)@.heap.items(self@)[index as int]
                    &&& final(py)@ == old(py)@.retain(item@).track(item@)
                },
                Err(e) => {
                    &&& get_refusal(old(py)@, self@, index as int) == Some(e.kind)
                    &&& final(py)@ == old(py)@
                },
            },
            final(py)@.wf(),
    {
        let rt = py.runtime();
        if index < 0 || index >= rt.list_size(self.as_ptr()) {
            return Err(PyErr { kind: ErrorKind::IndexError });
        }
        let ptr = rt.list_get_item(self.as_ptr(), index);
        if ptr.is_null() {
            return Err(PyErr { kind: ErrorKind::SystemError });
        }
        proof {
            py@.heap.lemma_item_live(self@, index as int);
        }
        if rt.refcnt(ptr) == usize::MAX {
            return Err(PyErr { kind: ErrorKind::OverflowError });
        }
        Ok(self.get_item(py, index))
    }

    /// The element in slot `index`, under a reference of its own that the
    /// caller gets and that may outlast the token. The index is not checked.
    pub fn get_parked_item(&self, py: &mut Python, index: isize) -> (item: PyObject)
        requires
            old(py)@.wf(),
            old(py)@.heap.is_list(self@),
            gettable(old(py)@, self@, index as int),
        ensures
            item@ == old(py)@.heap.items(self@)[index as int],
            final(py)@ == old(py)@.retain(item@),
            final(py)@.wf(),
            final(py)@.owns(item@),
    {
        let ptr = py.runtime().list_get_item(self.as_ptr(), index);
        proof {
            py@.heap.lemma_item_live(self@, index as int);
        }
        PyObjectRef::from_borrowed_ptr(py, ptr).to_owned(py)
    }

    /// Turns `item` into a new object and puts it in slot `index`; the
    /// reference that the slot held is given up. Out of range, the new
    /// object is given up and the result is an `IndexError`.
    pub fn set_item<I: ToPyObject>(&self, py: &mut Python, index: isize, item: I) -> (r: PyResult<
        (),
    >)
        requires
            old(py)@.wf(),
            old(py)@.heap.is_list(self@),
            item.fits(),
        ensures
            set_item_spec::<I>(old(py)@, final(py)@, self@, index as int, item.model()),
            r == outcome(
                if 0 <= index < old(py)@.heap.items(self@).len() {
                    None
                } else {
                    Some(ErrorKind::IndexError)
                },
            ),
            final(py)@.wf(),
    {
        let ob = item.to_object(py);
        let ghost mid = py@;
        let ptr = ob.into_ptr();
        proof {
            old(py)@.lemma_built_owns(mid, ptr);
            assert(mid.heap.slots[self@.index()] == old(py)@.heap.slots[self@.index()]);
            mid.lemma_set_item(self@, index as int, ptr);
            mid.with_heap(mid.heap.set_item(self@, index as int, ptr)).lemma_settle();
            assert(converted::<I>(old(py)@, mid, ptr, item.model()));
        }
        let rt = py.runtime_mut();
        let status = rt.list_set_item(self.as_ptr(), index, ptr);
        error_on_minusone(py, status)
    }

    /// Turns `item` into a new object and puts it before slot `index`; the
    /// elements from that slot on move one slot up. Where `index` is not in
    /// `0..=len` the new object is given up and the result is an
    /// `IndexError`; where the sequence cannot grow, an `OverflowError`.
    pub fn insert_item<I: ToPyObject>(&self, py: &mut Python, index: isize, item: I) -> (r:
        PyResult<()>)
        requires
            old(py)@.wf(),
            old(py)@.heap.is_list(self@),
            item.fits(),
        ensures
            insert_item_spec::<I>(old(py)@, final(py)@, self@, index as int, item.model()),
            r == outcome(insert_refusal(old(py)@.heap.items(self@).len() as int, index as int)),
            final(py)@.wf(),
    {
        let ob = item.to_object(py);
        let ghost mid = py@;
        let ptr = ob.into_ptr();
        proof {
            old(py)@.lemma_built_owns(mid, ptr);
            assert(mid.heap.slots[self@.index()] == old(py)@.heap.slots[self@.index()]);
            mid.lemma_insert_item(self@, index as int, ptr);
            mid.with_heap(mid.heap.insert_item(self@, index as int, ptr)).lemma_settle();
            assert(converted::<I>(old(py)@, mid, ptr, item.model()));
        }
        let rt = py.runtime_mut();
        let status = rt.list_insert(self.as_ptr(), index, ptr);
        error_on_minusone(py, status)
    }

    /// An iterator over the elements, from the first slot on.
    pub fn iter(&self) -> (it: PyListIterator)
        ensures
            it.list() == self@,
            it.index() == 0,
    {
        PyListIterator { list: *self, index: 0 }
    }
}

/// A walk over the elements of a sequence. It looks at the sequence anew at
/// every step: the walk ends when its index has reached what is then the
/// length of the sequence.
pub struct PyListIterator {
    list: PyList,
    index: isize,
}

impl PyListIterator {
    #[verifier::type_invariant]
    spec fn inv(self) -> bool {
        self.index >= 0
    }

    /// The address of the sequence that is walked.
    pub closed spec fn list(&self) -> Ptr {
        self.list@
    }

    /// The slot that the next step looks at.
    pub closed spec fn index(&self) -> int {
        self.index as int
    }

    /// One step: the element in the slot of the index, under a reference of
    /// its own that goes to the arena of the token, and the index moves on;
    /// or nothing, where the index is not below the length of the sequence.
    pub fn next(&mut self, py: &mut Python) -> (item: Option<PyObjectRef>)
        requires
            old(py)@.wf(),
            old(py)@.heap.is_list(old(self).list()),
            old(self).index() < old(py)@.heap.items(old(self).list()).len() ==> gettable(
                old(py)@,
                old(self).list(),
                old(self).index(),
            ),
        ensures
            final(self).list() == old(self).list(),
            final(py)@.wf(),
            final(self).index() == old(self).index() + (if item is Some {
                1int
            } else {
                0int
            }),
            (
                match item {
                    Some(r) => Some(r@),
                    None => None,
                },
                final(py)@,
            ) == next_spec(old(py)@, old(self).list(), old(self).index()),
    {
        proof {
            use_type_invariant(&*self);
        }
        let len = py.runtime().list_size(self.list.as_ptr());
        if self.index < len {
            let item = self.list.get_item(py, self.index);
            self.index = self.index + 1;
            Some(item)
        } else {
            None
        }
    }
}

} // verus!
