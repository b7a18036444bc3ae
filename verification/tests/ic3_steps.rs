use ric3::cube::Lemma;
use ric3::frame::FrameLemma;
use ric3::ic3_step::{
    inn_order, pred_order, PredOrder,
    down_precheck, down_step, pred_inputs, pred_latches, xor_candidates, xor_def_clauses, xor_next, xor_pair,
    xor_try,
};
use ric3::lit::{Lit, Var};
use ric3::model::Model;
use ric3::solver::Solver;

fn v(x: u32) -> Var {
    Var(x)
}

fn small_model() -> Model {
    // latches 1 and 2 with next states 3 and !4; initial values 1 = false, 2 = true
    Model::from_parts(
        vec![],
        vec![v(1), v(2)],
        vec![Lit(6), Lit(9)],
        vec![Lit(3), Lit(4)],
        vec![Lit(10)],
        vec![],
        vec![vec![Lit(2), Lit(6)]],
        6,
        vec![vec![], vec![], vec![], vec![], vec![], vec![]],
    )
}

#[test]
fn down_precheck_stops_on_initial_cubes() {
    let m = small_model();
    assert!(down_precheck(&m, &vec![Lit(3)], &vec![]));
    assert!(!down_precheck(&m, &vec![Lit(2)], &vec![]));
}

#[test]
fn down_precheck_stops_on_recorded_pairs() {
    let m = small_model();
    let cube = vec![Lit(2), Lit(5)];
    let kept = vec![(Lemma::new(vec![Lit(6)]), Lemma::new(vec![Lit(8), Lit(5), Lit(2)]))];
    assert!(down_precheck(&m, &cube, &kept));
    let both = vec![(Lemma::new(vec![Lit(2), Lit(5), Lit(6)]), Lemma::new(vec![Lit(2), Lit(5)]))];
    assert!(!down_precheck(&m, &cube, &both));
    let neither = vec![(Lemma::new(vec![Lit(6)]), Lemma::new(vec![Lit(8)]))];
    assert!(!down_precheck(&m, &cube, &neither));
}

#[test]
fn pred_inputs_reads_assigned_inputs() {
    let m = Model::from_parts(
        vec![Var(1)],
        vec![Var(2)],
        vec![Lit(6)],
        vec![Lit(5)],
        vec![Lit(6)],
        vec![Lit(2)],
        vec![vec![Lit(3), Lit(6)], vec![Lit(2), Lit(7)]],
        4,
        vec![vec![], vec![], vec![], vec![Var(1)]],
    );
    let s = Solver::from_model(0, &m, true);
    assert_eq!(pred_inputs(&s, &m), vec![Lit(2)]);
    let t = Solver::from_model(0, &m, false);
    assert_eq!(pred_inputs(&t, &m), vec![]);
    // without the constraint, both transition clauses are loaded
    assert_eq!(t.cdb.trans.len(), 2);
}

#[test]
fn xor_pairs_are_keyed_by_variable_and_sign() {
    assert_eq!(xor_pair(Lit(7), Lit(4)), (Lit(4), Lit(7)));
    assert_eq!(xor_pair(Lit(5), Lit(9)), (Lit(4), Lit(8)));
    assert_eq!(xor_pair(Lit(9), Lit(5)), (Lit(4), Lit(8)));
}

#[test]
fn xor_try_replaces_or_negates() {
    let lemma = vec![Lit(2), Lit(4), Lit(6)];
    assert_eq!(xor_try(&lemma, 0, 2, Some(Lit(10))), vec![Lit(10), Lit(4)]);
    assert_eq!(xor_try(&lemma, 0, 2, None), vec![Lit(3), Lit(4), Lit(7)]);
}

#[test]
fn xor_definition_clauses() {
    let r = xor_def_clauses(Lit(2), Lit(5), Lit(8));
    assert_eq!(
        r,
        vec![
            vec![Lit(3), Lit(4), Lit(8)],
            vec![Lit(2), Lit(5), Lit(8)],
            vec![Lit(3), Lit(5), Lit(9)],
            vec![Lit(2), Lit(4), Lit(9)],
        ]
    );
}

#[test]
fn xor_candidates_come_from_frame_lemmas_over_lemma_vars() {
    let lemma = vec![Lit(2), Lit(4), Lit(6)];
    let frame = vec![
        FrameLemma { lemma: Lemma::new(vec![Lit(3), Lit(4)]), po: None },
        FrameLemma { lemma: Lemma::new(vec![Lit(7), Lit(8)]), po: None },
    ];
    assert_eq!(xor_candidates(&frame, &lemma), vec![true, false, false]);
    assert_eq!(xor_candidates(&vec![], &lemma), vec![false, false, false]);
}

#[test]
fn down_step_cuts_the_cube_and_records_the_pair() {
    let cube = vec![Lit(2), Lit(5), Lit(6), Lit(8)];
    let keep = vec![Lit(6)];
    // 2: true and fixed (stays); 5: true but could be unassigned (goes);
    // 6: kept and true (stays); 8: false (goes)
    let vals = vec![Some(true), Some(true), Some(true), Some(false)];
    let flips = vec![false, true, false, false];
    let full = vec![Lit(2), Lit(4), Lit(6)];
    let full_vals = vec![Some(true), Some(false), None];
    let full_flips = vec![false, false, false];
    let next_vals = vec![None, Some(true), Some(false)];
    let (c, stop, (s, t)) = down_step(&cube, &keep, &vals, &flips, &full, &full_vals, &full_flips, &next_vals);
    assert_eq!(c, vec![Lit(2), Lit(6)]);
    assert!(!stop);
    assert_eq!(*s.cube(), vec![Lit(2), Lit(5)]);
    assert_eq!(*t.cube(), vec![Lit(4), Lit(7)]);
}

#[test]
fn down_step_stops_when_a_kept_literal_is_lost() {
    let cube = vec![Lit(2), Lit(4), Lit(6)];
    let keep = vec![Lit(4)];
    let vals = vec![Some(true), Some(false), Some(true)];
    let flips = vec![false, false, false];
    let (c, stop, (s, t)) = down_step(&cube, &keep, &vals, &flips, &vec![], &vec![], &vec![], &vec![]);
    assert_eq!(c, vec![Lit(2)]);
    assert!(stop);
    assert!(s.cube().is_empty());
    assert!(t.cube().is_empty());
}

#[test]
fn pred_latches_keeps_assigned_domain_latches() {
    let latchs = vec![v(1), v(2), v(3), v(4)];
    let in_dom = vec![true, true, false, true];
    let vals = vec![Some(false), Some(true), Some(true), Some(true)];
    let in_cls = vec![false, true, false, false];
    let flips = vec![false, true, false, true];
    // 1: fixed, false -> !1; 2: in the cube -> 2; 3: outside the domain; 4: could be unassigned
    assert_eq!(pred_latches(&latchs, &in_dom, &vals, &in_cls, &flips), vec![Lit(3), Lit(4)]);
}

#[test]
fn xor_next_scans_pairs_in_order() {
    let lemma = vec![Lit(2), Lit(4), Lit(6)];
    let known = vec![(Lit(4), Lit(6))];
    assert_eq!(xor_next(&lemma, &known, false, 0, 1), Some((1, 2)));
    assert_eq!(xor_next(&lemma, &known, true, 0, 2), Some((0, 2)));
    assert_eq!(xor_next(&lemma, &known, true, 1, 3), None);
    assert_eq!(xor_next(&lemma, &known, false, 1, 3), None);
    // negative first literal: the key is taken with both negated
    let neg = vec![Lit(3), Lit(5)];
    assert_eq!(xor_next(&neg, &vec![(Lit(2), Lit(4))], false, 0, 0), Some((0, 1)));
}

#[test]
fn predecessor_reorderings_follow_the_schedule() {
    assert_eq!(pred_order(0, true), PredOrder::Inn);
    assert_eq!(pred_order(1, true), PredOrder::Activity);
    assert_eq!(pred_order(2, true), PredOrder::Reverse);
    assert_eq!(pred_order(3, true), PredOrder::Shuffle);
    assert_eq!(pred_order(0, false), PredOrder::Activity);
    assert_eq!(pred_order(1, false), PredOrder::Reverse);
    assert_eq!(pred_order(2, false), PredOrder::Shuffle);
    assert_eq!(pred_order(9, false), PredOrder::Shuffle);
}

#[test]
fn inn_order_sorts_largest_first() {
    assert_eq!(inn_order(&vec![Lit(4), Lit(9), Lit(2), Lit(7)]), vec![Lit(9), Lit(7), Lit(4), Lit(2)]);
    assert!(inn_order(&vec![]).is_empty());
}
