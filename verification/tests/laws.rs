use pylist::conversion::{IntoPyObject, ToPyObject};
use pylist::err::{ErrorKind, ExtractError, PyErr};
use pylist::list::PyList;
use pylist::ptr::Ptr;
use pylist::runtime::Runtime;
use pylist::token::Python;

#[test]
fn round_trip_of_numbers() {
    let mut py = Python::acquire(Runtime::new());
    let v: Vec<i32> = vec![0, -1, 2147483647, -2147483648, 42];
    let ob = v.to_object(&mut py);
    assert_eq!(ob.extract::<Vec<i32>>(&py), Ok(v));
    let w: Vec<i64> = vec![9223372036854775807, -9223372036854775808, 0];
    let ob = w.to_object(&mut py);
    assert_eq!(ob.extract::<Vec<i64>>(&py), Ok(w));
}

#[test]
fn round_trip_of_the_empty_sequence() {
    let mut py = Python::acquire(Runtime::new());
    let v: Vec<i32> = Vec::new();
    let ob = v.to_object(&mut py);
    assert_eq!(ob.extract::<Vec<i32>>(&py), Ok(Vec::new()));
    let list = PyList::downcast_from(&py, &ob).unwrap();
    assert_eq!(list.len(&py), 0);
}

#[test]
fn round_trip_of_nested_sequences() {
    let mut py = Python::acquire(Runtime::new());
    let v: Vec<Vec<i32>> = vec![vec![1, 2], vec![], vec![3]];
    let ob = v.to_object(&mut py);
    assert_eq!(ob.extract::<Vec<Vec<i32>>>(&py), Ok(v));
}

#[test]
fn round_trip_of_into_object() {
    let mut py = Python::acquire(Runtime::new());
    let v: Vec<Vec<i64>> = vec![vec![7, 8, 9], vec![10]];
    let ob = v.clone().into_object(&mut py);
    assert_eq!(ob.extract::<Vec<Vec<i64>>>(&py), Ok(v));
}

#[test]
fn slice_to_object_fills_in_order() {
    let mut py = Python::acquire(Runtime::new());
    let v = [4i32, 5, 6];
    let ob = v[..].to_object(&mut py);
    assert_eq!(ob.as_ptr(), Ptr::At(0));
    let rt = py.runtime();
    assert_eq!(rt.list_get_item(ob.as_ptr(), 0), Ptr::At(1));
    assert_eq!(rt.list_get_item(ob.as_ptr(), 1), Ptr::At(2));
    assert_eq!(rt.list_get_item(ob.as_ptr(), 2), Ptr::At(3));
    assert_eq!(rt.int_value(Ptr::At(1)), 4);
    assert_eq!(rt.int_value(Ptr::At(3)), 6);
    assert_eq!(rt.refcnt(Ptr::At(2)), 1);
    assert_eq!(ob.get_refcnt(&py), 1);
    assert!(!rt.err_occurred());
}

#[test]
fn new_has_the_length_of_its_elements() {
    let mut py = Python::acquire(Runtime::new());
    for n in 0..6usize {
        let v: Vec<i32> = (0..n as i32).collect();
        let list = PyList::new(&mut py, &v);
        assert_eq!(list.len(&py), n);
    }
}

#[test]
fn new_goes_to_the_arena() {
    let mut py = Python::acquire(Runtime::new());
    let list = PyList::new(&mut py, &[1i32, 2]);
    assert_eq!(py.arena_len(), 1);
    assert_eq!(list.as_ref().get_refcnt(&py), 1);
    let rt = py.release();
    assert_eq!(rt.refcnt(list.as_ptr()), 0);
}

#[test]
fn get_item_of_new_reads_back_each_element() {
    let mut py = Python::acquire(Runtime::new());
    let v = vec![11i32, 22, 33, 44, 55];
    let list = PyList::new(&mut py, &v);
    for i in 0..v.len() {
        let item = list.get_item(&mut py, i as isize);
        assert_eq!(item.extract::<i32>(&py), Ok(v[i]));
    }
}

#[test]
fn get_item_adds_a_reference_held_by_the_arena() {
    let mut py = Python::acquire(Runtime::new());
    let list = PyList::new(&mut py, &[1i32, 2]);
    let before = py.arena_len();
    let item = list.get_item(&mut py, 0);
    assert_eq!(py.arena_len(), before + 1);
    assert_eq!(item.get_refcnt(&py), 2);
    let again = list.get_item(&mut py, 0);
    assert_eq!(again.as_ptr(), item.as_ptr());
    assert_eq!(item.get_refcnt(&py), 3);
}

#[test]
fn get_parked_item_adds_a_reference_for_the_caller() {
    let mut py = Python::acquire(Runtime::new());
    let list = PyList::new(&mut py, &[1i32, 2]);
    let before = py.arena_len();
    let item = list.get_parked_item(&mut py, 1);
    assert_eq!(py.arena_len(), before);
    assert_eq!(item.get_refcnt(&py), 2);
    item.release(&mut py);
    let item = list.get_item(&mut py, 1);
    assert_eq!(item.get_refcnt(&py), 2);
}

#[test]
fn set_item_leaves_the_other_slots() {
    let mut py = Python::acquire(Runtime::new());
    let v = vec![2i32, 3, 5, 7];
    let list = PyList::new(&mut py, &v);
    let before: Vec<Ptr> =
        (0..4).map(|i| py.runtime().list_get_item(list.as_ptr(), i)).collect();
    assert_eq!(list.set_item(&mut py, 2, 42i32), Ok(()));
    assert_eq!(list.len(&py), 4);
    for i in 0..4isize {
        let now = py.runtime().list_get_item(list.as_ptr(), i);
        if i == 2 {
            assert_ne!(now, before[i as usize]);
        } else {
            assert_eq!(now, before[i as usize]);
        }
    }
    assert_eq!(list.as_ref().extract::<Vec<i32>>(&py), Ok(vec![2, 3, 42, 7]));
    assert_eq!(py.runtime().refcnt(before[2]), 0);
}

#[test]
fn scenario_set_item() {
    let mut py = Python::acquire(Runtime::new());
    let list = PyList::new(&mut py, &[2i32, 3, 5, 7]);
    list.set_item(&mut py, 0, 42i32).unwrap();
    assert_eq!(list.get_item(&mut py, 0).extract::<i32>(&py), Ok(42));
    assert_eq!(list.get_item(&mut py, 1).extract::<i32>(&py), Ok(3));
}

#[test]
fn scenario_new() {
    let mut py = Python::acquire(Runtime::new());
    let list = PyList::new(&mut py, &[2i32, 3, 5, 7]);
    assert_eq!(list.len(&py), 4);
    assert_eq!(list.get_item(&mut py, 0).extract::<i32>(&py), Ok(2));
    assert_eq!(list.get_item(&mut py, 3).extract::<i32>(&py), Ok(7));
}

#[test]
fn scenario_insert_item() {
    let mut py = Python::acquire(Runtime::new());
    let list = PyList::new(&mut py, &[2i32, 3, 5, 7]);
    list.insert_item(&mut py, 0, 42i32).unwrap();
    assert_eq!(list.len(&py), 5);
    assert_eq!(list.get_item(&mut py, 0).extract::<i32>(&py), Ok(42));
    assert_eq!(list.get_item(&mut py, 1).extract::<i32>(&py), Ok(2));
}

#[test]
fn set_item_out_of_range_is_an_index_error() {
    let mut py = Python::acquire(Runtime::new());
    let list = PyList::new(&mut py, &[2i32, 3, 5, 7]);
    assert_eq!(list.set_item(&mut py, 4, 1i32), Err(PyErr { kind: ErrorKind::IndexError }));
    assert_eq!(list.set_item(&mut py, -1, 1i32), Err(PyErr { kind: ErrorKind::IndexError }));
    assert!(!py.runtime().err_occurred());
    assert_eq!(list.as_ref().extract::<Vec<i32>>(&py), Ok(vec![2, 3, 5, 7]));
}

#[test]
fn set_item_of_a_sequence() {
    let mut py = Python::acquire(Runtime::new());
    let list = PyList::new(&mut py, &[vec![1i32], vec![2, 3]]);
    assert_eq!(list.set_item(&mut py, 0, vec![9i32, 8, 7]), Ok(()));
    assert_eq!(
        list.as_ref().extract::<Vec<Vec<i32>>>(&py),
        Ok(vec![vec![9, 8, 7], vec![2, 3]])
    );
}

#[test]
fn insert_item_moves_the_rest_up_in_order() {
    let mut py = Python::acquire(Runtime::new());
    let list = PyList::new(&mut py, &[2i32, 3, 5, 7]);
    let before: Vec<Ptr> =
        (0..4).map(|i| py.runtime().list_get_item(list.as_ptr(), i)).collect();
    assert_eq!(list.insert_item(&mut py, 2, 42i32), Ok(()));
    assert_eq!(list.len(&py), 5);
    let after: Vec<Ptr> =
        (0..5).map(|i| py.runtime().list_get_item(list.as_ptr(), i)).collect();
    assert_eq!(after[0], before[0]);
    assert_eq!(after[1], before[1]);
    assert_eq!(after[3], before[2]);
    assert_eq!(after[4], before[3]);
    assert_eq!(list.as_ref().extract::<Vec<i32>>(&py), Ok(vec![2, 3, 42, 5, 7]));
}

#[test]
fn insert_item_at_the_end_appends() {
    let mut py = Python::acquire(Runtime::new());
    let list = PyList::empty(&mut py);
    assert_eq!(list.len(&py), 0);
    assert_eq!(list.insert_item(&mut py, 0, 1i32), Ok(()));
    assert_eq!(list.insert_item(&mut py, 1, 2i32), Ok(()));
    assert_eq!(list.insert_item(&mut py, 2, 3i32), Ok(()));
    assert_eq!(list.as_ref().extract::<Vec<i32>>(&py), Ok(vec![1, 2, 3]));
}

#[test]
fn insert_item_out_of_range_is_an_index_error() {
    let mut py = Python::acquire(Runtime::new());
    let list = PyList::new(&mut py, &[2i32, 3]);
    assert_eq!(list.insert_item(&mut py, 3, 1i32), Err(PyErr { kind: ErrorKind::IndexError }));
    assert_eq!(list.insert_item(&mut py, -1, 1i32), Err(PyErr { kind: ErrorKind::IndexError }));
    assert!(!py.runtime().err_occurred());
    assert_eq!(list.len(&py), 2);
}

#[test]
fn get_item_checked_at_the_length_is_an_index_error() {
    let mut py = Python::acquire(Runtime::new());
    let list = PyList::new(&mut py, &[2i32, 3, 5, 7]);
    let n = py.arena_len();
    assert_eq!(
        list.get_item_checked(&mut py, 4).map(|r| r.as_ptr()),
        Err(PyErr { kind: ErrorKind::IndexError })
    );
    assert_eq!(
        list.get_item_checked(&mut py, -1).map(|r| r.as_ptr()),
        Err(PyErr { kind: ErrorKind::IndexError })
    );
    assert_eq!(py.arena_len(), n);
    let item = list.get_item_checked(&mut py, 3).unwrap();
    assert_eq!(item.extract::<i32>(&py), Ok(7));
    assert_eq!(py.arena_len(), n + 1);
}

#[test]
fn get_item_checked_of_an_empty_slot_is_a_system_error() {
    let mut rt = Runtime::new();
    let l = rt.list_new(1);
    let mut py = Python::acquire(rt);
    let ob = pylist::handle::PyObject::from_owned_ptr(&py, l);
    let list = PyList::downcast_from(&py, &ob).unwrap();
    assert_eq!(
        list.get_item_checked(&mut py, 0).map(|r| r.as_ptr()),
        Err(PyErr { kind: ErrorKind::SystemError })
    );
}

#[test]
fn iter_yields_the_elements_in_order_and_then_nothing() {
    let mut py = Python::acquire(Runtime::new());
    let v = vec![10i32, 20, 30];
    let list = PyList::new(&mut py, &v);
    let mut it = list.iter();
    let mut seen = Vec::new();
    while let Some(el) = it.next(&mut py) {
        seen.push(el.extract::<i32>(&py).unwrap());
    }
    assert_eq!(seen, v);
    assert!(it.next(&mut py).is_none());
    assert!(it.next(&mut py).is_none());
}

#[test]
fn iter_of_an_empty_sequence_yields_nothing() {
    let mut py = Python::acquire(Runtime::new());
    let list = PyList::empty(&mut py);
    let mut it = list.iter();
    assert!(it.next(&mut py).is_none());
}

#[test]
fn iter_sees_the_sequence_grow() {
    let mut py = Python::acquire(Runtime::new());
    let list = PyList::new(&mut py, &[1i32]);
    let mut it = list.iter();
    assert_eq!(it.next(&mut py).unwrap().extract::<i32>(&py), Ok(1));
    assert!(it.next(&mut py).is_none());
    list.insert_item(&mut py, 1, 2i32).unwrap();
    assert_eq!(it.next(&mut py).unwrap().extract::<i32>(&py), Ok(2));
    assert!(it.next(&mut py).is_none());
}

#[test]
fn downcast_of_a_number_is_a_kind_mismatch() {
    let mut py = Python::acquire(Runtime::new());
    let n = 5i32.to_object(&mut py);
    assert_eq!(
        PyList::downcast_from(&py, &n).map(|l| l.as_ptr()),
        Err(ExtractError::KindMismatch)
    );
}
