use ric3::cube::Lemma;
use ric3::lit::Lit;
use ric3::proofoblig::{compare_lits, compare_po, witness_chain, Order, ProofObligation, ProofObligationQueue};

fn po(frame: usize, lemma: &[u32], depth: usize) -> ProofObligation {
    ProofObligation::new(frame, Lemma::new(lemma.iter().map(|c| Lit(*c)).collect()), Vec::new(), depth, None)
}

#[test]
fn order_prefers_lower_frame_last() {
    assert_eq!(compare_po(&po(2, &[2], 0), &po(1, &[2], 0)), Order::Less);
    assert_eq!(compare_po(&po(1, &[2], 0), &po(1, &[2], 1)), Order::Less);
    assert_eq!(compare_po(&po(1, &[2, 4], 0), &po(1, &[2], 0)), Order::Less);
    assert_eq!(compare_po(&po(1, &[4], 0), &po(1, &[2], 0)), Order::Less);
    assert_eq!(compare_po(&po(1, &[2], 0), &po(1, &[2], 0)), Order::Equal);
    let mut removed = po(1, &[2], 0);
    removed.removed = true;
    assert_eq!(compare_po(&po(1, &[2], 0), &removed), Order::Less);
    assert_eq!(compare_po(&removed, &po(1, &[2], 0)), Order::Greater);
}

#[test]
fn lexicographic_literals() {
    let a = vec![Lit(2), Lit(4)];
    let b = vec![Lit(2), Lit(5)];
    let c = vec![Lit(2)];
    assert_eq!(compare_lits(&a, &b), Order::Less);
    assert_eq!(compare_lits(&b, &a), Order::Greater);
    assert_eq!(compare_lits(&c, &a), Order::Less);
    assert_eq!(compare_lits(&a, &a.clone()), Order::Equal);
}

#[test]
fn queue_pops_lowest_frame_deepest_first() {
    let mut q = ProofObligationQueue::new();
    q.add(po(3, &[2], 0));
    q.add(po(1, &[4], 0));
    q.add(po(1, &[6], 2));
    assert_eq!(q.num, vec![0, 2, 0, 1]);
    assert!(q.pop(0).is_none());
    let p = q.peak().unwrap();
    assert_eq!((p.frame, p.depth), (1, 2));
    let p = q.pop(1).unwrap();
    assert_eq!((p.frame, p.depth), (1, 2));
    let p = q.pop(5).unwrap();
    assert_eq!((p.frame, p.depth), (1, 0));
    assert_eq!(q.num, vec![0, 0, 0, 1]);
    assert!(q.pop(2).is_none());
    let p = q.pop(3).unwrap();
    assert_eq!(p.frame, 3);
    assert!(q.pop(10).is_none());
    assert!(q.peak().is_none());
}

#[test]
fn queue_remove_and_clear() {
    let mut q = ProofObligationQueue::new();
    q.add(po(2, &[2], 0));
    q.add(po(2, &[4], 0));
    assert!(q.remove(&po(2, &[4], 0)));
    assert!(!q.remove(&po(2, &[4], 0)));
    assert_eq!(q.num, vec![0, 0, 1]);
    q.clear();
    assert!(q.obligations.is_empty());
    assert_eq!(q.num, vec![0, 0, 0]);
}

#[test]
fn push_to_moves_frame() {
    let mut p = po(1, &[2], 3);
    p.push_to(4);
    assert_eq!(p.frame, 4);
    assert_eq!(p.depth, 3);
}

#[test]
fn witness_follows_next() {
    let mut all = vec![po(0, &[2], 0), po(1, &[4], 1), po(2, &[6], 2)];
    all[1].next = Some(0);
    all[2].next = Some(1);
    assert_eq!(witness_chain(&all, 2), vec![2, 1, 0]);
    assert_eq!(witness_chain(&all, 0), vec![0]);
}
