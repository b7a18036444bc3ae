use ric3::cdb::{CRef, ClauseKind};
use ric3::domain::Domain;
use ric3::lit::{Lbool, Lit, Var};
use ric3::model::Model;
use ric3::solver::Solver;
use ric3::value::Value;

fn solver_with_vars(n: usize) -> Solver {
    let mut s = Solver::new(7);
    for _ in 0..n {
        s.new_var();
    }
    s
}

#[test]
fn new_var_reserves_activator() {
    let mut s = Solver::new(0);
    assert_eq!(s.new_var(), Var(0));
    assert_eq!(s.new_var(), Var(1));
    assert_eq!(s.num_var(), 2);
    assert_eq!(s.sat_value(Lit(4)), None);
}

#[test]
fn unit_clause_propagates() {
    let mut s = solver_with_vars(4);
    let c = s.add_clause_inner(&vec![Lit(2), Lit(4)], ClauseKind::Trans);
    assert_ne!(c, CRef::none());
    assert_eq!(s.cdb.trans, vec![c]);
    let r = s.add_clause_inner(&vec![Lit(3)], ClauseKind::Trans);
    assert_eq!(r, CRef::none());
    assert_eq!(s.sat_value(Lit(3)), Some(true));
    assert_eq!(s.sat_value(Lit(2)), Some(false));
    assert_eq!(s.sat_value(Lit(4)), Some(true));
    assert!(!s.trivial_unsat);
    assert!(s.clause_satisfied(c));
}

#[test]
fn satisfied_and_false_literals_are_simplified() {
    let mut s = solver_with_vars(4);
    s.add_clause_inner(&vec![Lit(2)], ClauseKind::Trans);
    // a clause with a true literal is dropped
    assert_eq!(s.add_clause_inner(&vec![Lit(2), Lit(6)], ClauseKind::Trans), CRef::none());
    assert!(s.cdb.trans.is_empty());
    assert_eq!(s.simplify_clause(&vec![Lit(3), Lit(6), Lit(7)]), Some(vec![Lit(6), Lit(7)]));
    assert_eq!(s.simplify_clause(&vec![Lit(3), Lit(2)]), None);
    // the false literal is left out of the stored clause
    let c = s.add_clause_inner(&vec![Lit(3), Lit(6), Lit(5)], ClauseKind::Lemma);
    assert_eq!(s.cdb.lemmas, vec![c]);
    assert_eq!(s.cdb.allocator.clause_len_of(c), 2);
    assert_eq!(s.cdb.allocator.lit(c, 0), Lit(6));
    assert_eq!(s.cdb.allocator.lit(c, 1), Lit(5));
}

#[test]
fn conflicting_units_make_trivially_unsat() {
    let mut s = solver_with_vars(4);
    s.add_clause_inner(&vec![Lit(3), Lit(4)], ClauseKind::Trans);
    s.add_clause_inner(&vec![Lit(2)], ClauseKind::Trans);
    assert_eq!(s.sat_value(Lit(4)), Some(true));
    assert!(!s.trivial_unsat);
    s.add_clause_inner(&vec![Lit(5)], ClauseKind::Trans);
    assert!(s.trivial_unsat);
}

#[test]
fn activator_clauses_are_temporary() {
    let mut s = solver_with_vars(4);
    let a = s.constrain_act.lit();
    let c = s.add_clause_inner(&vec![Lit(2), a], ClauseKind::Lemma);
    assert_eq!(s.cdb.temporary, vec![c]);
    assert!(s.cdb.lemmas.is_empty());
    s.clean_temporary();
    assert!(s.cdb.temporary.is_empty());
    assert!(s.cdb.allocator.is_removed(c));
}

#[test]
fn detach_frees_clause() {
    let mut s = solver_with_vars(4);
    let c = s.attach_clause(&vec![Lit(2), Lit(5), Lit(6)], ClauseKind::Learnt);
    assert_eq!(s.cdb.learnt, vec![c]);
    s.detach_clause(c);
    assert!(s.cdb.allocator.is_removed(c));
    // the clause no longer propagates
    s.add_clause_inner(&vec![Lit(3)], ClauseKind::Trans);
    s.add_clause_inner(&vec![Lit(4)], ClauseKind::Trans);
    assert_eq!(s.sat_value(Lit(6)), None);
}

#[test]
fn decide_uses_saved_phase() {
    let mut s = solver_with_vars(4);
    let act: Vec<u64> = vec![0; 8];
    assert!(!s.decide(&act));
    s.phase_saving[3] = Lbool::new_false();
    s.vsids.push(Var(3), &act);
    assert!(s.decide(&act));
    assert_eq!(s.sat_value(Lit(7)), Some(true));
    assert_eq!(s.pos_in_trail, vec![0]);
    assert_eq!(s.trail, vec![Lit(7)]);
}

#[test]
fn decide_skips_assigned_variables() {
    let mut s = solver_with_vars(4);
    let act: Vec<u64> = vec![0; 8];
    s.add_clause_inner(&vec![Lit(4)], ClauseKind::Trans);
    s.vsids.push(Var(2), &act);
    assert!(!s.decide(&act));
    assert_eq!(s.trail, vec![Lit(4)]);
}

#[test]
fn decide_serves_buckets_last_in_first_out() {
    let mut s = solver_with_vars(4);
    let act: Vec<u64> = vec![0; 8];
    s.add_clause_inner(&vec![Lit(6)], ClauseKind::Trans);
    s.phase_saving[1] = Lbool::new_true();
    s.phase_saving[2] = Lbool::new_true();
    s.vsids.push(Var(1), &act);
    s.vsids.push(Var(2), &act);
    s.vsids.push(Var(3), &act);
    // 3 comes first but is assigned; 2 is next
    assert!(s.decide(&act));
    assert_eq!(s.trail, vec![Lit(6), Lit(4)]);
}

#[test]
fn constraint_domain_is_closed() {
    let mut d = Domain::new();
    d.reserve(Var(5));
    let mut v = Value::new();
    v.reserve(Var(5));
    v.set(Lit(4));
    let deps = vec![vec![], vec![], vec![Var(1)], vec![Var(2), Var(4)], vec![], vec![]];
    d.calculate_constrain(&vec![Lit(7)], &deps, &v);
    // 3 depends on 2 and 4, 2 on 1; 2 is assigned
    assert_eq!(d.domain.set, vec![Var(1), Var(3), Var(4)]);
    assert_eq!(d.fixed, 3);
}

#[test]
fn solver_from_model() {
    let m = Model::from_parts(
        vec![Var(1)],
        vec![Var(2)],
        vec![Lit(6)],
        vec![Lit(5)],
        vec![Lit(6)],
        vec![Lit(2)],
        vec![vec![Lit(3), Lit(6)], vec![Lit(2), Lit(7)]],
        4,
        vec![vec![], vec![], vec![], vec![Var(1)]],
    );
    let s = Solver::from_model(0, &m, true);
    assert_eq!(s.constrain_act, Var(4));
    // the constraint makes 1 true, so 3 is true
    assert_eq!(s.sat_value(Lit(2)), Some(true));
    assert_eq!(s.sat_value(Lit(6)), Some(true));
    assert!(!s.trivial_unsat);
    let t = Solver::from_model(0, &m, false);
    assert_eq!(t.sat_value(Lit(2)), None);
}

#[test]
fn solver_domain_is_the_unassigned_part_of_the_constraint_closure() {
    // 3 is a constraint and depends on 1 and 2; a unit clause fixes 1,
    // and the clause over 1, 2 and 3 is then satisfied
    let m = Model::from_parts(
        vec![],
        vec![],
        vec![],
        vec![],
        vec![],
        vec![Lit(6)],
        vec![vec![Lit(2)], vec![Lit(7), Lit(4), Lit(2)]],
        4,
        vec![vec![], vec![], vec![], vec![Var(1), Var(2)]],
    );
    let s = Solver::from_model(0, &m, true);
    assert!(!s.trivial_unsat);
    assert_eq!(s.domain.domain.set, vec![Var(2)]);
    assert_eq!(s.domain.fixed, 1);
}

#[test]
fn verify_checks_model() {
    let mut s = solver_with_vars(4);
    s.add_clause_inner(&vec![Lit(2), Lit(4)], ClauseKind::Trans);
    // nothing in the domain: every clause has a literal outside it
    assert!(s.verify(&vec![]));
    s.domain.reserve(Var(4));
    s.domain.add_domain(Var(1));
    s.domain.add_domain(Var(2));
    assert!(!s.verify(&vec![]));
    s.add_clause_inner(&vec![Lit(4)], ClauseKind::Trans);
    assert!(s.verify(&vec![Lit(4)]));
    assert!(!s.verify(&vec![Lit(2)]));
}

#[test]
fn satisfied_clauses_are_dropped_and_false_tails_trimmed() {
    let mut s = solver_with_vars(6);
    let c1 = s.add_clause_inner(&vec![Lit(4), Lit(6)], ClauseKind::Lemma);
    let c2 = s.add_clause_inner(&vec![Lit(6), Lit(8), Lit(3)], ClauseKind::Lemma);
    assert_eq!(s.cdb.allocator.clause_len_of(c2), 3);
    s.add_clause_inner(&vec![Lit(2)], ClauseKind::Trans);
    s.add_clause_inner(&vec![Lit(4)], ClauseKind::Trans);
    assert!(s.clause_satisfied(c1));
    assert!(!s.clause_satisfied(c2));
    let kept = s.simplify_satisfied_clauses(vec![c1, c2]);
    assert_eq!(kept, vec![c2]);
    assert!(s.cdb.allocator.is_removed(c1));
    assert!(!s.cdb.allocator.is_removed(c2));
    assert_eq!(s.cdb.allocator.clause_len_of(c2), 2);
    assert_eq!(s.cdb.allocator.lit(c2, 0), Lit(6));
    assert_eq!(s.cdb.allocator.lit(c2, 1), Lit(8));
}

#[test]
fn simplify_satisfied_updates_lists_once_per_assignment() {
    let mut s = solver_with_vars(6);
    let c1 = s.add_clause_inner(&vec![Lit(4), Lit(6)], ClauseKind::Lemma);
    let c2 = s.add_clause_inner(&vec![Lit(6), Lit(8), Lit(3)], ClauseKind::Lemma);
    let t1 = s.add_clause_inner(&vec![Lit(7), Lit(9)], ClauseKind::Trans);
    assert_eq!(s.simplify.last_num_assign, 0);
    s.add_clause_inner(&vec![Lit(2)], ClauseKind::Trans);
    s.add_clause_inner(&vec![Lit(4)], ClauseKind::Trans);
    assert_eq!(s.trail.len(), 2);
    assert_eq!((s.cdb.lemmas.clone(), s.cdb.trans.clone(), s.cdb.learnt.clone()), (vec![c1, c2], vec![t1], vec![]));
    assert!(!s.clause_satisfied(c2));
    s.simplify_satisfied();
    assert_eq!(s.simplify.last_num_assign, 2);
    assert_eq!(s.cdb.lemmas, vec![c2]);
    assert_eq!(s.cdb.trans, vec![t1]);
    assert!(s.cdb.allocator.is_removed(c1));
    assert_eq!(s.cdb.allocator.clause_len_of(c2), 2);
    // nothing was assigned since: a second call changes nothing
    s.simplify_satisfied();
    assert_eq!(s.cdb.lemmas, vec![c2]);
    assert_eq!(s.simplify.last_num_assign, 2);
}

#[test]
fn trivial_predecessor_reads_fixed_latches() {
    let mut s = solver_with_vars(4);
    s.add_clause_inner(&vec![Lit(2)], ClauseKind::Trans);
    s.add_clause_inner(&vec![Lit(5)], ClauseKind::Trans);
    let cube = s.trivial_predecessor(&vec![Var(1), Var(2), Var(3)]);
    assert_eq!(cube, vec![Lit(2), Lit(5)]);
    assert!(s.trivial_predecessor(&vec![Var(3), Var(4)]).is_empty());
}

#[test]
fn garbage_collect_moves_clauses_in_use() {
    let mut s = solver_with_vars(6);
    let act = s.constrain_act.lit();
    assert_eq!(act, Lit(12));
    let t1 = s.add_clause_inner(&vec![Lit(6), Lit(8), act], ClauseKind::Lemma);
    let t2 = s.add_clause_inner(&vec![Lit(3), Lit(5), act], ClauseKind::Lemma);
    let c = s.add_clause_inner(&vec![Lit(2), Lit(4)], ClauseKind::Trans);
    assert_eq!(s.cdb.temporary, vec![t1, t2]);
    assert_eq!(c, CRef(8));
    assert_eq!(s.cdb.allocator.len(), 11);
    // a small waste leaves the arena as it is
    s.garbage_collect();
    assert_eq!(s.cdb.trans, vec![CRef(8)]);
    s.clean_temporary();
    assert_eq!(s.cdb.allocator.wasted, 8);
    s.garbage_collect();
    assert_eq!(s.cdb.allocator.wasted, 0);
    assert_eq!(s.cdb.allocator.len(), 3);
    assert_eq!(s.cdb.trans, vec![CRef(0)]);
    assert_eq!(s.cdb.allocator.clause_len_of(CRef(0)), 2);
    assert_eq!(s.cdb.allocator.lit(CRef(0), 0), Lit(2));
    assert_eq!(s.cdb.allocator.lit(CRef(0), 1), Lit(4));
    // the moved clause still propagates
    s.add_clause_inner(&vec![Lit(3)], ClauseKind::Trans);
    assert_eq!(s.sat_value(Lit(4)), Some(true));
}

#[test]
fn reason_clauses_are_locked() {
    let mut s = solver_with_vars(6);
    let c = s.add_clause_inner(&vec![Lit(2), Lit(4)], ClauseKind::Trans);
    let d = s.add_clause_inner(&vec![Lit(6), Lit(8)], ClauseKind::Trans);
    assert!(!s.locked(c));
    s.add_clause_inner(&vec![Lit(3)], ClauseKind::Trans);
    assert_eq!(s.sat_value(Lit(4)), Some(true));
    assert_eq!(s.cdb.allocator.lit(c, 0), Lit(4));
    assert!(s.locked(c));
    assert!(!s.locked(d));
    s.unset_domain();
    assert!(!s.temporary_domain);
}

#[test]
fn strengthened_clause_is_watched_anew() {
    let mut s = solver_with_vars(6);
    let c = s.add_clause_inner(&vec![Lit(2), Lit(4), Lit(6), Lit(8)], ClauseKind::Lemma);
    s.strengthen_clause(c, Lit(4));
    assert_eq!(s.cdb.allocator.clause_len_of(c), 3);
    assert_eq!(s.cdb.allocator.lit(c, 0), Lit(2));
    assert_eq!(s.cdb.allocator.lit(c, 1), Lit(8));
    assert_eq!(s.cdb.allocator.lit(c, 2), Lit(6));
    s.add_clause_inner(&vec![Lit(3)], ClauseKind::Trans);
    s.add_clause_inner(&vec![Lit(7)], ClauseKind::Trans);
    assert_eq!(s.sat_value(Lit(8)), Some(true));
}

#[test]
fn prepare_vsids_queues_unassigned_domain() {
    let mut s = solver_with_vars(6);
    s.add_clause_inner(&vec![Lit(2)], ClauseKind::Trans);
    s.domain.insert(Var(1));
    s.domain.insert(Var(3));
    let act = vec![0u64; 7];
    assert!(!s.prepared_vsids);
    s.prepare_vsids(&act);
    assert!(s.prepared_vsids);
    assert_eq!(s.vsids.pop(&act), Some(Var(3)));
    assert_eq!(s.vsids.pop(&act), None);
    // prepared already: nothing is queued again
    s.prepare_vsids(&act);
    assert_eq!(s.vsids.pop(&act), None);
}

fn lits_of(s: &Solver, c: CRef) -> Vec<Lit> {
    let mut v = Vec::new();
    for k in 0..s.cdb.allocator.clause_len_of(c) {
        v.push(s.cdb.allocator.lit(c, k));
    }
    v
}

#[test]
fn simplify_subsume_drops_subsumed() {
    let mut s = solver_with_vars(8);
    let a = s.add_clause_inner(&vec![Lit(2), Lit(4)], ClauseKind::Lemma);
    let b = s.add_clause_inner(&vec![Lit(2), Lit(4), Lit(6)], ClauseKind::Lemma);
    let r = s.simplify_subsume(vec![b, a]);
    assert_eq!(r, vec![a]);
    assert!(s.cdb.allocator.is_removed(b));
    assert_eq!(lits_of(&s, a), vec![Lit(2), Lit(4)]);
}

#[test]
fn simplify_subsume_strengthens_longer() {
    let mut s = solver_with_vars(8);
    let a = s.add_clause_inner(&vec![Lit(2), Lit(4)], ClauseKind::Lemma);
    let b = s.add_clause_inner(&vec![Lit(2), Lit(5), Lit(6)], ClauseKind::Lemma);
    let c = s.add_clause_inner(&vec![Lit(4), Lit(8)], ClauseKind::Lemma);
    let r = s.simplify_subsume(vec![a, b, c]);
    assert_eq!(r, vec![a, c, b]);
    assert_eq!(lits_of(&s, b), vec![Lit(2), Lit(6)]);
    assert_eq!(lits_of(&s, a), vec![Lit(2), Lit(4)]);
}

#[test]
fn simplify_subsume_resolves_equal() {
    let mut s = solver_with_vars(8);
    let c1 = s.add_clause_inner(&vec![Lit(2), Lit(8)], ClauseKind::Lemma);
    let c2 = s.add_clause_inner(&vec![Lit(2), Lit(10)], ClauseKind::Lemma);
    let a = s.add_clause_inner(&vec![Lit(2), Lit(4), Lit(6)], ClauseKind::Lemma);
    let b = s.add_clause_inner(&vec![Lit(3), Lit(4), Lit(6)], ClauseKind::Lemma);
    let r = s.simplify_subsume(vec![a, b, c1, c2]);
    assert_eq!(r, vec![c1, c2, a]);
    assert!(s.cdb.allocator.is_removed(b));
    assert_eq!(lits_of(&s, a), vec![Lit(6), Lit(4)]);
}

#[test]
fn clean_leanrt_drops_inactive_long_clauses() {
    let mut s = solver_with_vars(6);
    s.add_clause_inner(&vec![Lit(2), Lit(4)], ClauseKind::Trans);
    let l0 = s.add_clause_inner(&vec![Lit(2), Lit(6), Lit(8)], ClauseKind::Learnt);
    let l1 = s.add_clause_inner(&vec![Lit(4), Lit(6), Lit(10)], ClauseKind::Learnt);
    let l2 = s.add_clause_inner(&vec![Lit(3), Lit(5)], ClauseKind::Learnt);
    let l3 = s.add_clause_inner(&vec![Lit(5), Lit(7), Lit(9)], ClauseKind::Learnt);
    assert_eq!(s.cdb.allocator.len(), 22);
    // too few learnt clauses: nothing happens
    let mut t = solver_with_vars(6);
    t.add_clause_inner(&vec![Lit(2), Lit(4)], ClauseKind::Trans);
    t.add_clause_inner(&vec![Lit(6), Lit(8)], ClauseKind::Trans);
    let u = t.add_clause_inner(&vec![Lit(3), Lit(5), Lit(7)], ClauseKind::Learnt);
    t.clean_leanrt(false, vec![u]);
    assert_eq!(t.cdb.learnt, vec![u]);
    assert_eq!(t.cdb.allocator.wasted, 0);
    // the two least active long clauses go, and the arena is compacted
    s.clean_leanrt(false, vec![l3, l2, l1, l0]);
    assert_eq!(s.cdb.learnt.len(), 2);
    assert_eq!(s.cdb.allocator.wasted, 0);
    assert_eq!(s.cdb.allocator.len(), 12);
    let a = s.cdb.learnt[0];
    let b = s.cdb.learnt[1];
    assert_eq!(s.cdb.allocator.clause_len_of(a), 3);
    assert_eq!(s.cdb.allocator.lit(a, 0), Lit(5));
    assert_eq!(s.cdb.allocator.lit(a, 2), Lit(9));
    assert_eq!(s.cdb.allocator.clause_len_of(b), 2);
    assert_eq!(s.cdb.allocator.lit(b, 1), Lit(5));
}

#[test]
fn unit_propagation_reaches_its_fixpoint() {
    let mut s = solver_with_vars(6);
    s.add_clause_inner(&vec![Lit(3), Lit(4)], ClauseKind::Trans);
    s.add_clause_inner(&vec![Lit(5), Lit(6)], ClauseKind::Trans);
    s.add_clause_inner(&vec![Lit(7), Lit(9), Lit(8)], ClauseKind::Trans);
    s.add_clause_inner(&vec![Lit(2)], ClauseKind::Trans);
    assert_eq!(s.sat_value(Lit(4)), Some(true));
    assert_eq!(s.sat_value(Lit(6)), Some(true));
    // the third clause still has two literals that are not false
    assert_eq!(s.sat_value(Lit(9)), None);
    assert_eq!(s.sat_value(Lit(8)), None);
    assert!(!s.trivial_unsat);
    assert_eq!(s.propagate(), CRef::none());
}
