use morphing::edge::Edge;
use morphing::edge_set::EdgeSet;

#[test]
fn edge_new_keeps_endpoints() {
    let e = Edge::new(3, 7);
    assert_eq!(e.from, 3);
    assert_eq!(e.to, 7);
}

#[test]
fn norm_orders_endpoints() {
    let e = Edge::new(7, 3).norm().unwrap();
    assert_eq!((e.from, e.to), (3, 7));
    let e = Edge::new(3, 7).norm().unwrap();
    assert_eq!((e.from, e.to), (3, 7));
}

#[test]
fn norm_rejects_self_loop() {
    assert!(Edge::new(5, 5).norm().is_none());
}

#[test]
fn add_is_order_insensitive() {
    let mut a = EdgeSet::new();
    let mut b = EdgeSet::new();
    assert!(a.add(2, 9));
    assert!(b.add(9, 2));
    let va = a.iter();
    let vb = b.iter();
    assert_eq!(va.len(), 1);
    assert_eq!(vb.len(), 1);
    assert_eq!((va[0].from, va[0].to), (2, 9));
    assert_eq!((vb[0].from, vb[0].to), (2, 9));
}

#[test]
fn double_insert_leaves_size_unchanged() {
    let mut s = EdgeSet::new();
    assert!(s.add(1, 4));
    assert_eq!(s.iter().len(), 1);
    assert!(!s.add(1, 4));
    assert_eq!(s.iter().len(), 1);
    assert!(!s.add(4, 1));
    assert_eq!(s.iter().len(), 1);
}

#[test]
fn add_rejects_self_loop() {
    let mut s = EdgeSet::new();
    assert!(!s.add(6, 6));
    assert!(s.iter().is_empty());
}

#[test]
fn insert_normalizes() {
    let mut s = EdgeSet::new();
    assert!(s.insert(&Edge::new(8, 2)));
    assert!(!s.insert(&Edge::new(2, 8)));
    let v = s.iter();
    assert_eq!(v.len(), 1);
    assert_eq!((v[0].from, v[0].to), (2, 8));
}

#[test]
fn iter_is_sorted() {
    let mut s = EdgeSet::new();
    s.add(5, 1);
    s.add(0, 9);
    s.add(1, 2);
    s.add(0, 3);
    let v = s.iter();
    let pairs: Vec<(usize, usize)> = v.iter().map(|e| (e.from, e.to)).collect();
    assert_eq!(pairs, vec![(0, 3), (0, 9), (1, 2), (1, 5)]);
}

#[test]
fn remove_deletes_canonical_member() {
    let mut s = EdgeSet::new();
    s.add(1, 2);
    s.add(3, 4);
    assert!(s.remove(&Edge::new(2, 1)));
    let v = s.iter();
    assert_eq!(v.len(), 1);
    assert_eq!((v[0].from, v[0].to), (3, 4));
    assert!(!s.remove(&Edge::new(1, 2)));
    assert!(!s.remove(&Edge::new(7, 7)));
    assert_eq!(s.iter().len(), 1);
}
