//! Handles: the two ways to hold the address of an object.
use vstd::prelude::*;
use crate::conversion::{reads, FromPyObject};
use crate::err::ExtractError;
use crate::ptr::Ptr;
use crate::token::Python;

verus! {

/// An owning handle: it stands for one reference to its object, which its
/// holder has to hand on or give up.
#[derive(Debug)]
pub struct PyObject {
    ptr: Ptr,
}

impl View for PyObject {
    type V = Ptr;

    closed spec fn view(&self) -> Ptr {
        self.ptr
    }
}

/// A borrowed handle: it stands for no reference of its own, and is good for
/// as long as the token under which it was made keeps its object in use.
#[derive(Clone, Copy, Debug)]
pub struct PyObjectRef {
    ptr: Ptr,
}

impl View for PyObjectRef {
    type V = Ptr;

    closed spec fn view(&self) -> Ptr {
        self.ptr
    }
}

impl PyObject {
    /// Takes over a reference that the caller holds to the object at `ptr`.
    /// The count of the object stays as it is.
    pub fn from_owned_ptr(py: &Python, ptr: Ptr) -> (ob: PyObject)
        requires
            py@.wf(),
            py@.owns(ptr),
        ensures
            ob@ == ptr,
    {
        PyObject { ptr }
    }

    /// Takes over a reference to the object at `ptr`, where there is a
    /// reference to take over: `ptr` names an object, and one of its
    /// references is in nobody's keeping but an owning handle's.
    pub fn try_from_owned_ptr(py: &Python, ptr: Ptr) -> (r: Option<PyObject>)
        requires
            py@.wf(),
        ensures
            match r {
                Some(ob) => py@.owns(ptr) && ob@ == ptr,
                None => !py@.owns(ptr),
            },
    {
        if py.owns(ptr) {
            Some(PyObject { ptr })
        } else {
            None
        }
    }

    /// Hands the reference to the caller as a bare address. The count of the
    /// object stays as it is.
    pub fn into_ptr(self) -> (ptr: Ptr)
        ensures
            ptr == self@,
    {
        self.ptr
    }

    /// The address of the object.
    pub fn as_ptr(&self) -> (ptr: Ptr)
        ensures
            ptr == self@,
    {
        self.ptr
    }

    /// A borrowed handle to the same object.
    pub fn as_ref(&self) -> (r: PyObjectRef)
        ensures
            r@ == self@,
    {
        PyObjectRef { ptr: self.ptr }
    }

    /// Moves the reference into the arena of the token and gives a borrowed
    /// handle in its place.
    pub fn track(self, py: &mut Python) -> (r: PyObjectRef)
        requires
            old(py)@.wf(),
            old(py)@.owns(self@),
        ensures
            r@ == self@,
            final(py)@ == old(py)@.track(self@),
            final(py)@.wf(),
    {
        py.track_object(self)
    }

    /// Gives the reference up.
    pub fn release(self, py: &mut Python)
        requires
            old(py)@.wf(),
            old(py)@.owns(self@),
        ensures
            final(py)@ == old(py)@.release(self@),
            final(py)@.wf(),
    {
        proof {
            old(py)@.lemma_release(self@);
        }
        let rt = py.runtime_mut();
        rt.decref(self.ptr);
    }

    /// The reference count of the object.
    pub fn get_refcnt(&self, py: &Python) -> (count: usize)
        requires
            py@.heap.has(self@),
        ensures
            count == py@.heap.refcnt(self@),
    {
        py.runtime().refcnt(self.ptr)
    }

    /// Reads the object as a host value of type `T`.
    pub fn extract<T: FromPyObject>(&self, py: &Python) -> (r: Result<T, ExtractError>)
        requires
            py@.wf(),
            py@.heap.live(self@),
        ensures
            reads::<T>(py@.heap, self@, r),
    {
        T::extract(py, self.as_ref())
    }
}

impl PyObjectRef {
    /// Wraps the address of an object in use. The count of the object stays
    /// as it is.
    pub fn from_borrowed_ptr(py: &Python, ptr: Ptr) -> (r: PyObjectRef)
        requires
            py@.heap.live(ptr),
        ensures
            r@ == ptr,
    {
        PyObjectRef { ptr }
    }

    /// Wraps `ptr` where it is the address of an object in use.
    pub fn try_from_borrowed_ptr(py: &Python, ptr: Ptr) -> (r: Option<PyObjectRef>)
        ensures
            match r {
                Some(ob) => py@.heap.live(ptr) && ob@ == ptr,
                None => !py@.heap.live(ptr),
            },
    {
        if py.is_live(ptr) {
            Some(PyObjectRef { ptr })
        } else {
            None
        }
    }

    /// The address of the object.
    pub fn as_ptr(&self) -> (ptr: Ptr)
        ensures
            ptr == self@,
    {
        self.ptr
    }

    /// Adds a reference to the object and gives an owning handle for it. The
    /// owning handle may outlast the token.
    pub fn to_owned(&self, py: &mut Python) -> (ob: PyObject)
        requires
            old(py)@.wf(),
            old(py)@.heap.live(self@),
            old(py)@.heap.refcnt(self@) < usize::MAX,
        ensures
            ob@ == self@,
            final(py)@ == old(py)@.retain(self@),
            final(py)@.wf(),
            final(py)@.owns(self@),
    {
        proof {
            old(py)@.lemma_retain(self@);
        }
        let rt = py.runtime_mut();
        rt.incref(self.ptr);
        PyObject { ptr: self.ptr }
    }

    /// The reference count of the object.
    pub fn get_refcnt(&self, py: &Python) -> (count: usize)
        requires
            py@.heap.has(self@),
        ensures
            count == py@.heap.refcnt(self@),
    {
        py.runtime().refcnt(self.ptr)
    }

    /// Reads the object as a host value of type `T`.
    pub fn extract<T: FromPyObject>(&self, py: &Python) -> (r: Result<T, ExtractError>)
        requires
            py@.wf(),
            py@.heap.live(self@),
        ensures
            reads::<T>(py@.heap, self@, r),
    {
        T::extract(py, *self)
    }
}

} // verus!
