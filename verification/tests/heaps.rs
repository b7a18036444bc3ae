use ric3::heap::BinaryHeap;
use ric3::lit::Var;
use ric3::vsids::{Bucket, Vsids};

#[test]
fn heap_pops_most_active_first() {
    let act: Vec<u64> = vec![5, 1, 9, 3];
    let mut h = BinaryHeap::new();
    h.reserve(Var(3));
    for v in 0..4 {
        h.push(Var(v), &act);
    }
    assert!(h.contains(Var(2)));
    assert_eq!(h.pop(&act), Some(Var(2)));
    assert!(!h.contains(Var(2)));
    assert_eq!(h.pop(&act), Some(Var(0)));
    assert_eq!(h.pop(&act), Some(Var(3)));
    assert_eq!(h.pop(&act), Some(Var(1)));
    assert_eq!(h.pop(&act), None);
    assert!(h.is_empty());
}

#[test]
fn heap_clear() {
    let act: Vec<u64> = vec![1, 2];
    let mut h = BinaryHeap::new();
    h.reserve(Var(1));
    h.push(Var(0), &act);
    h.push(Var(1), &act);
    h.clear();
    assert!(h.is_empty());
    assert_eq!(h.pop(&act), None);
}

#[test]
fn bucket_pops_lowest_bucket() {
    let mut b = Bucket::new();
    b.reserve(Var(4));
    b.push(Var(1), 3);
    b.push(Var(2), 1);
    b.push(Var(4), 1);
    let first = b.pop().unwrap();
    assert!(first == Var(2) || first == Var(4));
    let second = b.pop().unwrap();
    assert!(second == Var(2) || second == Var(4));
    assert_ne!(first, second);
    assert_eq!(b.pop(), Some(Var(1)));
    assert_eq!(b.pop(), None);
}

#[test]
fn vsids_heap_mode() {
    let act: Vec<u64> = vec![2, 8, 4];
    let mut v = Vsids::new();
    v.enable_bucket = false;
    v.reserve(Var(2));
    v.push(Var(0), &act);
    v.push(Var(1), &act);
    v.push(Var(2), &act);
    assert_eq!(v.pop(&act), Some(Var(1)));
    assert_eq!(v.pop(&act), Some(Var(2)));
    assert_eq!(v.pop(&act), Some(Var(0)));
    assert_eq!(v.pop(&act), None);
}
