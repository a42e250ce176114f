use pintree::{PinNode, PinTree};

#[test]
fn test_identity_not_value() {
    let a = PinNode::new(5);
    let b = PinNode::new(5);
    assert!(a != b);
    assert!(a.clone() == a);
    assert!(b.clone() == b);
}

#[test]
fn test_adopt_idempotent() {
    let mut pt = PinTree::<i32>::new();
    let n = PinNode::new(7);

    assert_eq!(pt.node_from(n.clone()), true);
    assert_eq!(pt.node_from(n.clone()), false);
    assert!(pt.has(&n));
}

#[test]
fn test_auto_register() {
    let mut pt = PinTree::<i32>::new();
    let x = PinNode::new(1);
    let p = PinNode::new(2);

    assert!(!pt.has(&x));
    assert!(!pt.has(&p));
    assert_eq!(pt.set_parent(&x, &p), true);
    assert!(pt.has(&x));
    assert!(pt.has(&p));
}

#[test]
fn test_reparent_overwrites() {
    let mut pt = PinTree::<i32>::new();
    let x = &pt.node(0);
    let p1 = &pt.node(1);
    let p2 = &pt.node(2);

    assert_eq!(pt.set_parent(x, p1), true);
    assert_eq!(pt.set_parent(x, p2), true);

    assert_eq!(pt.is_parent(x, p1), false);
    assert_eq!(pt.is_parent(x, p2), true);
    assert_eq!(pt.is_child(p1, x), false);
    assert_eq!(pt.is_child(p2, x), true);
    assert!(pt.get_childs(p1).is_empty());
}

#[test]
fn test_set_parent_noop() {
    let mut pt = PinTree::<i32>::new();
    let x = &pt.node(0);
    let p = &pt.node(1);

    assert_eq!(pt.set_parent(x, p), true);
    assert_eq!(pt.set_parent(x, p), false);
    assert_eq!(pt.is_parent(x, p), true);
}

#[test]
fn test_query_symmetry() {
    let mut pt = PinTree::<i32>::new();
    let a = &pt.node(1);
    let b = &pt.node(2);
    let c = &pt.node(3);

    pt.set_parent(b, a);

    assert_eq!(pt.is_parent(b, a), pt.is_child(a, b));
    assert_eq!(pt.is_parent(c, a), pt.is_child(a, c));
    assert_eq!(pt.is_parent(a, b), pt.is_child(b, a));
}

#[test]
fn test_remove_severs_edges() {
    let mut pt = PinTree::<i32>::new();
    let a = &pt.node(1);
    let b = &pt.node(2);

    pt.set_parent(b, a);
    assert_eq!(pt.remove(a), true);

    assert_eq!(pt.is_parent(b, a), false);
    assert!(pt.get_parent(b).is_none());
    assert!(!pt.has(a));
    assert!(pt.has(b));
    assert_eq!(pt.remove(a), false);
}

#[test]
fn test_unset_requires_relation() {
    let mut pt = PinTree::<i32>::new();
    let x = &pt.node(1);
    let p = &pt.node(2);
    let q = &pt.node(3);

    assert_eq!(pt.unset_parent(x, p), false);

    pt.set_parent(x, p);
    assert_eq!(pt.unset_parent(x, q), false);
    assert_eq!(pt.is_parent(x, p), true);
    assert_eq!(pt.is_child(p, x), true);

    assert_eq!(pt.unset_parent(x, p), true);
    assert_eq!(pt.is_parent(x, p), false);
    assert_eq!(pt.is_child(p, x), false);
}

#[test]
fn test_end_to_end() {
    let mut pt = PinTree::<i32>::new();
    let a = &pt.node(1);
    let b = &pt.node(2);
    let c = &pt.node(3);

    assert_eq!(pt.set_parent(b, a), true);
    assert_eq!(pt.set_parent(c, a), true);

    assert_eq!(pt.is_parent(b, a), true);
    assert_eq!(pt.is_child(a, c), true);

    let kids = pt.get_childs(a);
    assert_eq!(kids.len(), 2);
    assert!(kids.iter().any(|k| k == b));
    assert!(kids.iter().any(|k| k == c));

    assert_eq!(pt.get_parent(b).unwrap(), a);
}

#[test]
fn test_get_childs_empty() {
    let mut pt = PinTree::<i32>::new();
    let a = &pt.node(1);
    let lone = PinNode::new(9);

    assert!(pt.get_childs(a).is_empty());
    assert!(pt.get_childs(&lone).is_empty());
}
