use ric3::cdb::{Allocator, CRef, ClauseDB, ClauseKind};
use ric3::lit::Lit;

#[test]
fn allocate_and_read_clauses() {
    let mut a = Allocator::new();
    let c = a.alloc_clause(&[Lit(2), Lit(5), Lit(7)], false, true);
    assert_eq!(c, CRef(0));
    assert_eq!(a.clause_len_of(c), 3);
    assert_eq!(a.lit(c, 1), Lit(5));
    assert!(a.is_learnt(c));
    assert!(!a.is_trans(c));
    assert_eq!(a.act_bits(c), 0);
    // header, three literals and the activity word
    assert_eq!(a.len(), 5);
    let d = a.alloc_clause(&[Lit(4)], true, false);
    assert_eq!(d, CRef(5));
    assert!(a.is_trans(d));
    assert_eq!(a.len(), 7);
}

#[test]
fn clause_flags_and_swaps() {
    let mut a = Allocator::new();
    let c = a.alloc_clause(&[Lit(2), Lit(5), Lit(7)], false, false);
    a.mark(c);
    assert!(a.is_marked(c));
    a.unmark(c);
    assert!(!a.is_marked(c));
    a.swap(c, 0, 2);
    assert_eq!(a.lit(c, 0), Lit(7));
    assert_eq!(a.lit(c, 2), Lit(2));
    a.swap_remove(c, 0);
    assert_eq!(a.clause_len_of(c), 2);
    assert_eq!(a.lit(c, 0), Lit(2));
    assert_eq!(a.lit(c, 1), Lit(5));
    a.remove(c);
    assert!(a.is_removed(c));
}

#[test]
fn reloc_copies_clause() {
    let mut a = Allocator::new();
    let _ = a.alloc_clause(&[Lit(8)], false, false);
    let c = a.alloc_clause(&[Lit(2), Lit(5)], false, true);
    let mut to = Allocator::new();
    let d = a.reloc(c, &mut to);
    assert_eq!(d, CRef(0));
    assert_eq!(to.clause_len_of(d), 2);
    assert_eq!(to.lit(d, 1), Lit(5));
    assert!(to.is_learnt(d));
    // a second relocation finds the forwarded copy
    let e = a.reloc(c, &mut to);
    assert_eq!(e, d);
}

#[test]
fn clause_db_lists() {
    let mut db = ClauseDB::new();
    let a = db.alloc_clause(&[Lit(2), Lit(4)], ClauseKind::Lemma);
    let b = db.alloc_clause(&[Lit(6), Lit(8)], ClauseKind::Learnt);
    let c = db.alloc_clause(&[Lit(3), Lit(9)], ClauseKind::Trans);
    assert_eq!(db.lemmas, vec![a]);
    assert_eq!(db.learnt, vec![b]);
    assert_eq!(db.trans, vec![c]);
    assert_eq!(db.num_lemma(), 1);
    assert_eq!(db.num_leanrt(), 1);
    assert!(db.allocator.is_learnt(b));
    assert!(db.allocator.is_trans(c));
}
