use pylist::conversion::ToPyObject;
use pylist::list::PyList;
use pylist::runtime::Runtime;
use pylist::token::Python;

#[test]
fn test_new() {
    let mut py = Python::acquire(Runtime::new());
    let v = vec![2, 3, 5, 7];
    let list = PyList::new(&mut py, &v);
    assert_eq!(2, list.get_item(&mut py, 0).extract::<i32>(&py).unwrap());
    assert_eq!(3, list.get_item(&mut py, 1).extract::<i32>(&py).unwrap());
    assert_eq!(5, list.get_item(&mut py, 2).extract::<i32>(&py).unwrap());
    assert_eq!(7, list.get_item(&mut py, 3).extract::<i32>(&py).unwrap());
}

#[test]
fn test_len() {
    let mut py = Python::acquire(Runtime::new());
    let v = vec![1, 2, 3, 4];
    let ob = v.to_object(&mut py);
    let list = PyList::downcast_from(&py, &ob).unwrap();
    assert_eq!(4, list.len(&py));
}

#[test]
fn test_get_item() {
    let mut py = Python::acquire(Runtime::new());
    let v = vec![2, 3, 5, 7];
    let ob = v.to_object(&mut py);
    let list = PyList::downcast_from(&py, &ob).unwrap();
    assert_eq!(2, list.get_item(&mut py, 0).extract::<i32>(&py).unwrap());
    assert_eq!(3, list.get_item(&mut py, 1).extract::<i32>(&py).unwrap());
    assert_eq!(5, list.get_item(&mut py, 2).extract::<i32>(&py).unwrap());
    assert_eq!(7, list.get_item(&mut py, 3).extract::<i32>(&py).unwrap());
}

#[test]
fn test_get_parked_item() {
    let mut py = Python::acquire(Runtime::new());
    let v = vec![2, 3, 5, 7];
    let ob = v.to_object(&mut py);
    let list = PyList::downcast_from(&py, &ob).unwrap();
    assert_eq!(2, list.get_parked_item(&mut py, 0).extract::<i32>(&py).unwrap());
    assert_eq!(3, list.get_parked_item(&mut py, 1).extract::<i32>(&py).unwrap());
    assert_eq!(5, list.get_parked_item(&mut py, 2).extract::<i32>(&py).unwrap());
    assert_eq!(7, list.get_parked_item(&mut py, 3).extract::<i32>(&py).unwrap());
}

#[test]
fn test_set_item() {
    let mut py = Python::acquire(Runtime::new());
    let v = vec![2, 3, 5, 7];
    let ob = v.to_object(&mut py);
    let list = PyList::downcast_from(&py, &ob).unwrap();
    let val = 42i32;
    assert_eq!(2, list.get_item(&mut py, 0).extract::<i32>(&py).unwrap());
    list.set_item(&mut py, 0, val).unwrap();
    assert_eq!(42, list.get_item(&mut py, 0).extract::<i32>(&py).unwrap());
}

#[test]
fn test_insert_item() {
    let mut py = Python::acquire(Runtime::new());
    let v = vec![2, 3, 5, 7];
    let ob = v.to_object(&mut py);
    let list = PyList::downcast_from(&py, &ob).unwrap();
    let val = 42i32;
    assert_eq!(4, list.len(&py));
    assert_eq!(2, list.get_item(&mut py, 0).extract::<i32>(&py).unwrap());
    list.insert_item(&mut py, 0, val).unwrap();
    assert_eq!(5, list.len(&py));
    assert_eq!(42, list.get_item(&mut py, 0).extract::<i32>(&py).unwrap());
    assert_eq!(2, list.get_item(&mut py, 1).extract::<i32>(&py).unwrap());
}

#[test]
fn test_iter() {
    let mut py = Python::acquire(Runtime::new());
    let v = vec![2, 3, 5, 7];
    let ob = v.to_object(&mut py);
    let list = PyList::downcast_from(&py, &ob).unwrap();
    let mut idx = 0;
    let mut it = list.iter();
    while let Some(el) = it.next(&mut py) {
        assert_eq!(v[idx], el.extract::<i32>(&py).unwrap());
        idx += 1;
    }
    assert_eq!(idx, v.len());
}

#[test]
fn test_extract() {
    let mut py = Python::acquire(Runtime::new());
    let v = vec![2, 3, 5, 7];
    let ob = v.to_object(&mut py);
    let list = PyList::downcast_from(&py, &ob).unwrap();
    let v2 = list.as_ref().extract::<Vec<i32>>(&py).unwrap();
    assert_eq!(v, v2);
}
