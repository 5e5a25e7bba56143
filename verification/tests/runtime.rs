use pylist::err::{error_on_minusone, ErrorKind, PyErr};
use pylist::ptr::Ptr;
use pylist::runtime::Runtime;
use pylist::token::Python;

#[test]
fn new_runtime_has_no_objects() {
    let rt = Runtime::new();
    assert!(!rt.contains(Ptr::At(0)));
    assert!(!rt.contains(Ptr::Null));
    assert!(!rt.err_occurred());
}

#[test]
fn null_is_null() {
    assert!(Ptr::Null.is_null());
    assert!(!Ptr::At(3).is_null());
}

#[test]
fn int_new_gives_next_address_and_one_reference() {
    let mut rt = Runtime::new();
    let a = rt.int_new(17);
    let b = rt.int_new(-4);
    assert_eq!(a, Ptr::At(0));
    assert_eq!(b, Ptr::At(1));
    assert!(rt.contains(a));
    assert!(rt.int_check(a));
    assert!(!rt.list_check(a));
    assert_eq!(rt.int_value(a), 17);
    assert_eq!(rt.int_value(b), -4);
    assert_eq!(rt.refcnt(a), 1);
    assert!(!rt.contains(Ptr::At(2)));
}

#[test]
fn list_new_has_empty_slots() {
    let mut rt = Runtime::new();
    let l = rt.list_new(3);
    assert_eq!(l, Ptr::At(0));
    assert!(rt.list_check(l));
    assert!(!rt.int_check(l));
    assert_eq!(rt.list_size(l), 3);
    assert_eq!(rt.list_get_item(l, 0), Ptr::Null);
    assert_eq!(rt.list_get_item(l, 2), Ptr::Null);
    assert_eq!(rt.refcnt(l), 1);
}

#[test]
fn list_new_negative_signals_system_error() {
    let mut rt = Runtime::new();
    let l = rt.list_new(-1);
    assert_eq!(l, Ptr::Null);
    assert!(rt.err_occurred());
    assert_eq!(rt.err_fetch(), Some(ErrorKind::SystemError));
    assert!(!rt.err_occurred());
    assert_eq!(rt.err_fetch(), None);
    assert!(!rt.contains(Ptr::At(0)));
}

#[test]
fn checks_of_what_is_no_object() {
    let rt = Runtime::new();
    assert!(!rt.list_check(Ptr::Null));
    assert!(!rt.int_check(Ptr::Null));
    assert!(!rt.list_check(Ptr::At(5)));
    assert!(!rt.int_check(Ptr::At(5)));
}

#[test]
fn incref_and_decref_move_the_count_by_one() {
    let mut rt = Runtime::new();
    let a = rt.int_new(1);
    rt.incref(a);
    assert_eq!(rt.refcnt(a), 2);
    rt.incref(a);
    assert_eq!(rt.refcnt(a), 3);
    rt.decref(a);
    assert_eq!(rt.refcnt(a), 2);
    rt.decref(a);
    rt.decref(a);
    assert_eq!(rt.refcnt(a), 0);
    assert!(rt.contains(a));
    assert_eq!(rt.int_value(a), 1);
}

#[test]
fn list_set_item_takes_the_reference_and_gives_up_the_old_one() {
    let mut rt = Runtime::new();
    let l = rt.list_new(2);
    let a = rt.int_new(10);
    let b = rt.int_new(20);
    assert_eq!(rt.list_set_item(l, 0, a), 0);
    assert_eq!(rt.list_get_item(l, 0), a);
    assert_eq!(rt.list_get_item(l, 1), Ptr::Null);
    assert_eq!(rt.refcnt(a), 1);
    assert_eq!(rt.list_set_item(l, 0, b), 0);
    assert_eq!(rt.list_get_item(l, 0), b);
    assert_eq!(rt.refcnt(a), 0);
    assert_eq!(rt.refcnt(b), 1);
    assert_eq!(rt.list_size(l), 2);
    assert!(!rt.err_occurred());
}

#[test]
fn list_set_item_out_of_range_gives_up_the_item() {
    let mut rt = Runtime::new();
    let l = rt.list_new(2);
    let a = rt.int_new(10);
    assert_eq!(rt.list_set_item(l, 2, a), -1);
    assert_eq!(rt.refcnt(a), 0);
    assert_eq!(rt.err_fetch(), Some(ErrorKind::IndexError));
    let b = rt.int_new(11);
    assert_eq!(rt.list_set_item(l, -1, b), -1);
    assert_eq!(rt.refcnt(b), 0);
    assert_eq!(rt.err_fetch(), Some(ErrorKind::IndexError));
    assert_eq!(rt.list_get_item(l, 0), Ptr::Null);
    assert_eq!(rt.list_get_item(l, 1), Ptr::Null);
}

#[test]
fn list_set_item_takes_null() {
    let mut rt = Runtime::new();
    let l = rt.list_new(1);
    let a = rt.int_new(10);
    assert_eq!(rt.list_set_item(l, 0, a), 0);
    assert_eq!(rt.list_set_item(l, 0, Ptr::Null), 0);
    assert_eq!(rt.list_get_item(l, 0), Ptr::Null);
    assert_eq!(rt.refcnt(a), 0);
}

#[test]
fn list_insert_moves_the_rest_up() {
    let mut rt = Runtime::new();
    let l = rt.list_new(0);
    let a = rt.int_new(1);
    let b = rt.int_new(2);
    let c = rt.int_new(3);
    assert_eq!(rt.list_insert(l, 0, a), 0);
    assert_eq!(rt.list_insert(l, 1, c), 0);
    assert_eq!(rt.list_insert(l, 1, b), 0);
    assert_eq!(rt.list_size(l), 3);
    assert_eq!(rt.list_get_item(l, 0), a);
    assert_eq!(rt.list_get_item(l, 1), b);
    assert_eq!(rt.list_get_item(l, 2), c);
    assert_eq!(rt.refcnt(a), 1);
    assert_eq!(rt.refcnt(b), 1);
    assert_eq!(rt.refcnt(c), 1);
}

#[test]
fn list_insert_out_of_range_signals_index_error() {
    let mut rt = Runtime::new();
    let l = rt.list_new(1);
    let a = rt.int_new(1);
    assert_eq!(rt.list_insert(l, 2, a), -1);
    assert_eq!(rt.refcnt(a), 0);
    assert_eq!(rt.err_fetch(), Some(ErrorKind::IndexError));
    let b = rt.int_new(2);
    assert_eq!(rt.list_insert(l, -1, b), -1);
    assert_eq!(rt.err_fetch(), Some(ErrorKind::IndexError));
    assert_eq!(rt.list_size(l), 1);
}

#[test]
fn list_insert_of_null_signals_system_error() {
    let mut rt = Runtime::new();
    let l = rt.list_new(1);
    assert_eq!(rt.list_insert(l, 0, Ptr::Null), -1);
    assert_eq!(rt.err_fetch(), Some(ErrorKind::SystemError));
    assert_eq!(rt.list_size(l), 1);
}

#[test]
fn error_on_minusone_fetches_the_error() {
    let mut rt = Runtime::new();
    let l = rt.list_new(0);
    let a = rt.int_new(1);
    let status = rt.list_set_item(l, 0, a);
    let mut py = Python::acquire(rt);
    assert_eq!(error_on_minusone(&mut py, status), Err(PyErr { kind: ErrorKind::IndexError }));
    assert!(!py.runtime().err_occurred());
}

#[test]
fn error_on_minusone_passes_other_statuses() {
    let mut py = Python::acquire(Runtime::new());
    assert_eq!(error_on_minusone(&mut py, 0), Ok(()));
    assert_eq!(error_on_minusone(&mut py, 1), Ok(()));
}

#[test]
fn fetch_without_error_is_a_system_error() {
    let mut py = Python::acquire(Runtime::new());
    assert_eq!(PyErr::fetch(&mut py), PyErr { kind: ErrorKind::SystemError });
    assert_eq!(error_on_minusone(&mut py, -1), Err(PyErr { kind: ErrorKind::SystemError }));
}
