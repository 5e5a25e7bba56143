//! The conversion protocol: host values to objects and back.
//!
//! What a host type means as an object is said once, by [`Represented`]:
//! which host value an object stands for, if any. The three capabilities,
//! [`ToPyObject`], [`IntoPyObject`] and [`FromPyObject`], are stated against
//! it, so that what one of them builds another reads back.
use vstd::prelude::*;
use crate::err::ExtractError;
use crate::handle::{PyObject, PyObjectRef};
use crate::heap::{Content, Heap};
use crate::ptr::Ptr;
use crate::scope::Scope;
use crate::token::Python;

verus! {

/// A host type whose values objects of the runtime can stand for.
pub trait Represented {
    /// The mathematical value of a host value.
    type Model;

    /// The mathematical value of `self`.
    spec fn model(&self) -> Self::Model;

    /// The host value that the object at `p` stands for, or why it stands
    /// for none.
    spec fn decode(heap: Heap, p: Ptr) -> Result<Self::Model, ExtractError>;

    /// Whether the runtime can hold `self`: a sequence has no more elements
    /// than an index of the runtime can tell.
    spec fn fits(&self) -> bool;

    /// Whether the object at `p`, and every object through which it is read
    /// as a value of this type, lies at slot `base` or above.
    spec fn confined(heap: Heap, p: Ptr, base: int) -> bool;

    /// What is confined is an object, at its base or above.
    proof fn lemma_confined_has(heap: Heap, p: Ptr, base: int)
        requires
            Self::confined(heap, p, base),
        ensures
            heap.has(p),
            p.index() >= base,
    ;

    /// What is confined above a base is confined above any lower one.
    proof fn lemma_confined_lower(heap: Heap, p: Ptr, base: int, lower: int)
        requires
            Self::confined(heap, p, base),
            lower <= base,
        ensures
            Self::confined(heap, p, lower),
    ;

    /// What an object stands for depends only on the objects to which it is
    /// confined.
    proof fn lemma_frame(a: Heap, b: Heap, p: Ptr, base: int)
        requires
            Self::confined(a, p, base),
            a.agrees_from(b, base),
        ensures
            Self::confined(b, p, base),
            Self::decode(b, p) == Self::decode(a, p),
    ;
}

/// Whether `after` is `before` with new objects added, of which the one at
/// `p` stands for `model` and is the caller's: what a conversion of a host
/// value to an object leaves behind.
pub open spec fn converted<T: Represented + ?Sized>(
    before: Scope,
    after: Scope,
    p: Ptr,
    model: T::Model,
) -> bool {
    &&& before.built(after, p)
    &&& T::confined(after.heap, p, before.heap.slots.len() as int)
    &&& T::decode(after.heap, p) == Ok::<T::Model, ExtractError>(model)
}

/// Whether `r` is what reading the object at `p` as a host value gives: the
/// value that the object stands for, or the reason why it stands for none.
pub open spec fn reads<T: Represented>(heap: Heap, p: Ptr, r: Result<T, ExtractError>) -> bool {
    match r {
        Ok(v) => T::decode(heap, p) == Ok::<T::Model, ExtractError>(v.model()),
        Err(e) => T::decode(heap, p) == Err::<T::Model, ExtractError>(e),
    }
}

/// Host values that can be turned into an object and kept.
pub trait ToPyObject: Represented {
    /// Builds a new object that stands for `self`. The caller gets the one
    /// reference to it. Nothing that was there before changes.
    fn to_object(&self, py: &mut Python) -> (ob: PyObject)
        requires
            old(py)@.wf(),
            self.fits(),
        ensures
            converted::<Self>(old(py)@, final(py)@, ob@, self.model()),
    ;
}

/// Host values that can be turned into an object and are used up by it.
pub trait IntoPyObject: Represented + Sized {
    /// Builds a new object that stands for `self`. The caller gets the one
    /// reference to it. Nothing that was there before changes.
    fn into_object(self, py: &mut Python) -> (ob: PyObject)
        requires
            old(py)@.wf(),
            self.fits(),
        ensures
            converted::<Self>(old(py)@, final(py)@, ob@, self.model()),
    ;
}

/// Host values that can be read out of an object.
pub trait FromPyObject: Represented + Sized {
    /// Reads the object as a host value: the value that the object stands
    /// for, or the reason why it stands for none.
    fn extract(py: &Python, ob: PyObjectRef) -> (r: Result<Self, ExtractError>)
        requires
            py@.wf(),
            py@.heap.live(ob@),
        ensures
            reads::<Self>(py@.heap, ob@, r),
    ;
}

/// The number that the object at `p` stands for.
pub open spec fn decode_int(heap: Heap, p: Ptr) -> Result<i64, ExtractError> {
    if heap.is_int(p) {
        Ok(heap.content(p)->Int_0)
    } else {
        Err(ExtractError::KindMismatch)
    }
}

impl Represented for i64 {
    type Model = i64;

    open spec fn model(&self) -> i64 {
        *self
    }

    open spec fn fits(&self) -> bool {
        true
    }

    open spec fn decode(heap: Heap, p: Ptr) -> Result<i64, ExtractError> {
        decode_int(heap, p)
    }

    open spec fn confined(heap: Heap, p: Ptr, base: int) -> bool {
        heap.has(p) && p.index() >= base
    }

    proof fn lemma_confined_has(heap: Heap, p: Ptr, base: int) {
    }

    proof fn lemma_confined_lower(heap: Heap, p: Ptr, base: int, lower: int) {
    }

    proof fn lemma_frame(a: Heap, b: Heap, p: Ptr, base: int) {
        assert(b.slots[p.index()].content == a.slots[p.index()].content);
    }
}

impl ToPyObject for i64 {
    fn to_object(&self, py: &mut Python) -> (ob: PyObject) {
        let rt = py.runtime_mut();
        let p = rt.int_new(*self);
        proof {
            old(py)@.lemma_allocate(Content::Int(*self));
            old(py)@.lemma_built_owns(py@, p);
        }
        PyObject::from_owned_ptr(py, p)
    }
}

impl IntoPyObject for i64 {
    fn into_object(self, py: &mut Python) -> (ob: PyObject) {
        self.to_object(py)
    }
}

impl FromPyObject for i64 {
    fn extract(py: &Python, ob: PyObjectRef) -> (r: Result<i64, ExtractError>) {
        let rt = py.runtime();
        if rt.int_check(ob.as_ptr()) {
            Ok(rt.int_value(ob.as_ptr()))
        } else {
            Err(ExtractError::KindMismatch)
        }
    }
}

impl Represented for i32 {
    type Model = i32;

    open spec fn model(&self) -> i32 {
        *self
    }

    open spec fn fits(&self) -> bool {
        true
    }

    open spec fn decode(heap: Heap, p: Ptr) -> Result<i32, ExtractError> {
        match decode_int(heap, p) {
            Ok(v) => if i32::MIN <= v <= i32::MAX {
                Ok(v as i32)
            } else {
                Err(ExtractError::OutOfRange)
            },
            Err(e) => Err(e),
        }
    }

    open spec fn confined(heap: Heap, p: Ptr, base: int) -> bool {
        heap.has(p) && p.index() >= base
    }

    proof fn lemma_confined_has(heap: Heap, p: Ptr, base: int) {
    }

    proof fn lemma_confined_lower(heap: Heap, p: Ptr, base: int, lower: int) {
    }

    proof fn lemma_frame(a: Heap, b: Heap, p: Ptr, base: int) {
        assert(b.slots[p.index()].content == a.slots[p.index()].content);
    }
}

impl ToPyObject for i32 {
    fn to_object(&self, py: &mut Python) -> (ob: PyObject) {
        let rt = py.runtime_mut();
        let p = rt.int_new(*self as i64);
        proof {
            old(py)@.lemma_allocate(Content::Int(*self as i64));
            old(py)@.lemma_built_owns(py@, p);
        }
        PyObject::from_owned_ptr(py, p)
    }
}

impl IntoPyObject for i32 {
    fn into_object(self, py: &mut Python) -> (ob: PyObject) {
        self.to_object(py)
    }
}

impl FromPyObject for i32 {
    fn extract(py: &Python, ob: PyObjectRef) -> (r: Result<i32, ExtractError>) {
        let rt = py.runtime();
        if rt.int_check(ob.as_ptr()) {
            let v = rt.int_value(ob.as_ptr());
            if v < -2147483648 || v > 2147483647 {
                Err(ExtractError::OutOfRange)
            } else {
                Ok(v as i32)
            }
        } else {
            Err(ExtractError::KindMismatch)
        }
    }
}

} // verus!
