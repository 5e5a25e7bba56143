use pylist::conversion::{FromPyObject, IntoPyObject, ToPyObject};
use pylist::err::ExtractError;
use pylist::handle::{PyObject, PyObjectRef};
use pylist::list::PyList;
use pylist::ptr::Ptr;
use pylist::runtime::Runtime;
use pylist::token::{Python, TrackedArena};

#[test]
fn to_object_of_a_number_is_a_new_object_with_one_reference() {
    let mut py = Python::acquire(Runtime::new());
    let a = 5i32.to_object(&mut py);
    let b = 6i64.to_object(&mut py);
    assert_eq!(a.as_ptr(), Ptr::At(0));
    assert_eq!(b.as_ptr(), Ptr::At(1));
    assert_eq!(a.get_refcnt(&py), 1);
    assert_eq!(a.extract::<i32>(&py), Ok(5));
    assert_eq!(b.extract::<i64>(&py), Ok(6));
    assert_eq!(py.arena_len(), 0);
}

#[test]
fn into_object_of_a_number() {
    let mut py = Python::acquire(Runtime::new());
    let a = 5i32.into_object(&mut py);
    let b = (-9i64).into_object(&mut py);
    assert_eq!(a.extract::<i32>(&py), Ok(5));
    assert_eq!(b.extract::<i64>(&py), Ok(-9));
}

#[test]
fn extract_i32_out_of_range() {
    let mut py = Python::acquire(Runtime::new());
    let big = 2147483648i64.to_object(&mut py);
    let small = (-2147483649i64).to_object(&mut py);
    let max = 2147483647i64.to_object(&mut py);
    let min = (-2147483648i64).to_object(&mut py);
    assert_eq!(big.extract::<i32>(&py), Err(ExtractError::OutOfRange));
    assert_eq!(small.extract::<i32>(&py), Err(ExtractError::OutOfRange));
    assert_eq!(max.extract::<i32>(&py), Ok(2147483647));
    assert_eq!(min.extract::<i32>(&py), Ok(-2147483648));
    assert_eq!(big.extract::<i64>(&py), Ok(2147483648));
}

#[test]
fn extract_kind_mismatch() {
    let mut py = Python::acquire(Runtime::new());
    let n = 5i32.to_object(&mut py);
    let l = vec![1i32, 2].to_object(&mut py);
    assert_eq!(n.extract::<Vec<i32>>(&py), Err(ExtractError::KindMismatch));
    assert_eq!(l.extract::<i32>(&py), Err(ExtractError::KindMismatch));
    assert_eq!(l.extract::<i64>(&py), Err(ExtractError::KindMismatch));
    assert_eq!(l.extract::<Vec<Vec<i32>>>(&py), Err(ExtractError::KindMismatch));
}

#[test]
fn extract_stops_at_the_first_element_that_fails() {
    let mut py = Python::acquire(Runtime::new());
    let v = vec![1i64, 4294967296, 3];
    let ob = v.to_object(&mut py);
    assert_eq!(ob.extract::<Vec<i32>>(&py), Err(ExtractError::OutOfRange));
    assert_eq!(ob.extract::<Vec<i64>>(&py), Ok(v));
}

#[test]
fn extract_of_a_sequence_with_an_empty_slot() {
    let mut rt = Runtime::new();
    let l = rt.list_new(2);
    let a = rt.int_new(1);
    rt.list_set_item(l, 0, a);
    let py = Python::acquire(rt);
    let ob = PyObject::from_owned_ptr(&py, l);
    assert_eq!(ob.extract::<Vec<i32>>(&py), Err(ExtractError::KindMismatch));
}

#[test]
fn trait_extract_reads_a_borrowed_handle() {
    let mut py = Python::acquire(Runtime::new());
    let ob = 77i32.to_object(&mut py);
    assert_eq!(i32::extract(&py, ob.as_ref()), Ok(77));
    assert_eq!(i64::extract(&py, ob.as_ref()), Ok(77));
    assert_eq!(Vec::<i32>::extract(&py, ob.as_ref()), Err(ExtractError::KindMismatch));
}

#[test]
fn to_owned_adds_a_reference_and_release_gives_it_up() {
    let mut py = Python::acquire(Runtime::new());
    let a = 5i32.to_object(&mut py);
    let r = a.as_ref();
    assert_eq!(r.as_ptr(), a.as_ptr());
    let b = r.to_owned(&mut py);
    assert_eq!(b.as_ptr(), a.as_ptr());
    assert_eq!(r.get_refcnt(&py), 2);
    b.release(&mut py);
    assert_eq!(r.get_refcnt(&py), 1);
    a.release(&mut py);
    assert_eq!(r.get_refcnt(&py), 0);
}

#[test]
fn into_ptr_and_from_owned_ptr_leave_the_count() {
    let mut py = Python::acquire(Runtime::new());
    let a = 5i32.to_object(&mut py);
    let p = a.into_ptr();
    assert_eq!(p, Ptr::At(0));
    assert_eq!(py.runtime().refcnt(p), 1);
    let a = PyObject::from_owned_ptr(&py, p);
    assert_eq!(a.get_refcnt(&py), 1);
    let r = PyObjectRef::from_borrowed_ptr(&py, p);
    assert_eq!(r.get_refcnt(&py), 1);
    assert_eq!(r.extract::<i32>(&py), Ok(5));
}

#[test]
fn track_moves_the_reference_into_the_arena() {
    let mut py = Python::acquire(Runtime::new());
    let a = 5i32.to_object(&mut py);
    let r = a.track(&mut py);
    assert_eq!(py.arena_len(), 1);
    assert_eq!(r.get_refcnt(&py), 1);
    let b = 6i32.to_object(&mut py);
    let s = py.track_object(b);
    assert_eq!(py.arena_len(), 2);
    assert_eq!(s.extract::<i32>(&py), Ok(6));
    let rt = py.release();
    assert_eq!(rt.refcnt(r.as_ptr()), 0);
    assert_eq!(rt.refcnt(s.as_ptr()), 0);
}

#[test]
fn release_of_the_token_gives_up_each_reference_of_the_arena() {
    let mut py = Python::acquire(Runtime::new());
    let a = 5i32.to_object(&mut py);
    let r = a.as_ref();
    let b = r.to_owned(&mut py);
    let c = r.to_owned(&mut py);
    b.track(&mut py);
    c.track(&mut py);
    assert_eq!(r.get_refcnt(&py), 3);
    let rt = py.release();
    assert_eq!(rt.refcnt(r.as_ptr()), 1);
    let py = Python::acquire(rt);
    assert_eq!(py.arena_len(), 0);
    assert_eq!(a.get_refcnt(&py), 1);
}

#[test]
fn an_owning_handle_outlasts_the_token() {
    let mut py = Python::acquire(Runtime::new());
    let list = PyList::new(&mut py, &[2i32, 3]);
    let kept = list.get_parked_item(&mut py, 1);
    let lent = list.get_item(&mut py, 1);
    assert_eq!(kept.get_refcnt(&py), 3);
    let rt = py.release();
    assert_eq!(rt.refcnt(lent.as_ptr()), 2);
    assert_eq!(rt.refcnt(list.as_ptr()), 0);
    let py = Python::acquire(rt);
    assert_eq!(kept.extract::<i32>(&py), Ok(3));
}

#[test]
fn arena_alone() {
    let mut py = Python::acquire(Runtime::new());
    let a = 5i32.to_object(&mut py);
    let b = 6i32.to_object(&mut py);
    let mut rt = py.release();
    let mut arena = TrackedArena::new();
    assert_eq!(arena.len(), 0);
    let ra = arena.track(a);
    let rb = arena.track(b);
    assert_eq!(arena.len(), 2);
    assert_eq!(ra.as_ptr(), Ptr::At(0));
    assert_eq!(rb.as_ptr(), Ptr::At(1));
    arena.drop_all(&mut rt);
    assert_eq!(arena.len(), 0);
    assert_eq!(rt.refcnt(Ptr::At(0)), 0);
    assert_eq!(rt.refcnt(Ptr::At(1)), 0);
}

#[test]
fn try_from_owned_ptr_takes_a_spare_reference_only() {
    let mut py = Python::acquire(Runtime::new());
    let p = 5i32.to_object(&mut py).into_ptr();
    assert!(py.owns(p));
    assert_eq!(py.spare(p), 1);
    let ob = PyObject::try_from_owned_ptr(&py, p).unwrap();
    assert_eq!(ob.as_ptr(), p);
    let r = ob.track(&mut py);
    assert!(!py.owns(p));
    assert_eq!(py.spare(p), 0);
    assert!(PyObject::try_from_owned_ptr(&py, p).is_none());
    assert!(PyObject::try_from_owned_ptr(&py, Ptr::Null).is_none());
    assert!(PyObject::try_from_owned_ptr(&py, Ptr::At(9)).is_none());
    let again = r.to_owned(&mut py);
    assert!(py.owns(p));
    assert_eq!(py.spare(p), 1);
    again.release(&mut py);
    assert!(!py.owns(p));
}

#[test]
fn try_from_borrowed_ptr_wraps_objects_in_use_only() {
    let mut py = Python::acquire(Runtime::new());
    let a = 5i32.to_object(&mut py);
    let p = a.as_ptr();
    assert!(py.is_live(p));
    assert_eq!(PyObjectRef::try_from_borrowed_ptr(&py, p).unwrap().as_ptr(), p);
    a.release(&mut py);
    assert!(!py.is_live(p));
    assert!(PyObjectRef::try_from_borrowed_ptr(&py, p).is_none());
    assert!(PyObjectRef::try_from_borrowed_ptr(&py, Ptr::Null).is_none());
    assert!(PyObjectRef::try_from_borrowed_ptr(&py, Ptr::At(7)).is_none());
    assert!(!py.is_live(Ptr::Null));
}

#[test]
fn references_of_sequences_are_not_spare() {
    let mut py = Python::acquire(Runtime::new());
    let list = PyList::new(&mut py, &[7i32, 7, 8]);
    let first = py.runtime().list_get_item(list.as_ptr(), 0);
    assert_eq!(py.runtime().held(first), 1);
    assert_eq!(py.runtime().held(list.as_ptr()), 0);
    assert_eq!(py.spare(first), 0);
    assert_eq!(py.spare(list.as_ptr()), 0);
    assert!(!py.owns(first));
    let kept = list.get_parked_item(&mut py, 0);
    assert_eq!(py.spare(first), 1);
    list.get_item(&mut py, 0);
    list.get_item(&mut py, 0);
    assert_eq!(py.runtime().refcnt(first), 4);
    assert_eq!(py.spare(first), 1);
    kept.release(&mut py);
    assert_eq!(py.spare(first), 0);
}

#[test]
fn held_counts_every_slot_of_every_sequence() {
    let mut rt = Runtime::new();
    let a = rt.int_new(1);
    let l = rt.list_new(3);
    let m = rt.list_new(1);
    rt.incref(a);
    rt.incref(a);
    assert_eq!(rt.held(a), 0);
    rt.list_set_item(l, 0, a);
    rt.list_set_item(l, 2, a);
    assert_eq!(rt.held(a), 2);
    rt.list_set_item(m, 0, a);
    assert_eq!(rt.held(a), 3);
    assert_eq!(rt.refcnt(a), 3);
    assert_eq!(rt.held(l), 0);
}

#[test]
fn arena_counts_its_references() {
    let mut py = Python::acquire(Runtime::new());
    let a = 5i32.to_object(&mut py);
    let b = 6i32.to_object(&mut py);
    let extra = a.as_ref().to_owned(&mut py);
    let mut rt = py.release();
    let mut arena = TrackedArena::new();
    assert_eq!(arena.count(Ptr::At(0)), 0);
    arena.track(a);
    arena.track(b);
    arena.track(extra);
    assert_eq!(arena.count(Ptr::At(0)), 2);
    assert_eq!(arena.count(Ptr::At(1)), 1);
    assert_eq!(arena.count(Ptr::At(2)), 0);
    assert_eq!(arena.count(Ptr::Null), 0);
    arena.drop_all(&mut rt);
    assert_eq!(arena.count(Ptr::At(0)), 0);
    assert_eq!(rt.refcnt(Ptr::At(0)), 0);
}
