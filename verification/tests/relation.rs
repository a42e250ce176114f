use pintree::PinTree;

#[test]
fn test_base() {
    let mut pt = PinTree::<i32>::new();

    let a = &pt.node(1);
    let b = &pt.node(2);
    let c = &pt.node(3);

    pt.set_parent(b, a);
    pt.set_parent(c, a);

    assert_eq!(pt.is_parent(b, a), true);
    assert_eq!(pt.is_child(a, c), true);
}

#[test]
fn test_circular_ref() {
    let mut pt = PinTree::<i32>::new();

    let a = &pt.node(1);
    let b = &pt.node(2);
    let c = &pt.node(3);

    pt.set_parent(b, a);
    pt.set_parent(a, c);
    pt.set_parent(c, b);

    assert_eq!(pt.is_parent(b, a), true);
    assert_eq!(pt.is_parent(a, c), true);
    assert_eq!(pt.is_parent(c, b), true);

    let d = &pt.node(0);
    pt.set_parent(d, d);
    assert_eq!(pt.is_parent(d, d), true);
}

#[test]
fn test_unset() {
    let mut pt = PinTree::<i32>::new();

    let a = &pt.node(1);
    let b = &pt.node(2);

    assert_eq!(pt.is_parent(b, a), false);

    pt.set_parent(b, a);
    assert_eq!(pt.is_parent(b, a), true);

    pt.unset_parent(b, a);
    assert_eq!(pt.is_parent(b, a), false);
}

#[test]
fn test_get_val() {
    let mut pt = PinTree::<i32>::new();

    let a = &pt.node(1);

    assert_eq!(*a.value(), 1);
}

#[test]
fn test_remove() {
    let mut pt = PinTree::<i32>::new();

    let a = &pt.node(1);
    let b = &pt.node(2);

    assert_eq!(pt.is_parent(b, a), false);

    pt.set_parent(b, a);
    assert_eq!(pt.is_parent(b, a), true);

    pt.remove(a);
    assert_eq!(pt.is_parent(b, a), false);
}

#[test]
fn test_check_get() {
    let mut pt = PinTree::<i32>::new();

    let a = &pt.node(1);
    let b = &pt.node(2);

    pt.set_parent(b, a);

    assert_eq!(pt.get_parent(b).unwrap(), a);
    assert_eq!(&pt.get_childs(a)[0], b);
}

use std::sync::Mutex;
#[test]
fn test_mutex() {
    let mut pt = PinTree::<Mutex<i32>>::new();

    let a = pt.node(Mutex::new(1));
    let mut x = a.value().lock().unwrap();
    assert_eq!(*x, 1);
    *x = 2;
    assert_eq!(*x, 2);
}
