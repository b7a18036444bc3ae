use ric3::kind::Kind;
use ric3::bmc::{BmcAnswer, BmcQuery, BMC};
use ric3::imc::{ClauseLabel, IMC};
use ric3::args::Args;
use ric3::options::Options;

#[test]
fn bmc_incremental_schedule() {
    let mut o = Options::new("m.aig".to_string());
    o.step = 3;
    let mut b = BMC::new(o);
    assert_eq!(b.query(), BmcQuery::Incremental { from: 0, depth: 2 });
    assert_eq!(b.answer(BmcAnswer::Unsat), None);
    assert_eq!(b.query(), BmcQuery::Incremental { from: 3, depth: 5 });
    assert_eq!(b.answer(BmcAnswer::Sat), Some(false));
}

#[test]
fn bmc_fresh_schedule_with_timeout() {
    let mut o = Options::new("m.aig".to_string());
    o.step = 2;
    o.bmc.bmc_kissat = true;
    o.bmc.time_limit = Some(10);
    let mut b = BMC::new(o);
    assert_eq!(b.query(), BmcQuery::Fresh { depth: 2, time_limit: Some(10) });
    assert_eq!(b.answer(BmcAnswer::Timeout), None);
    assert_eq!(b.query(), BmcQuery::Fresh { depth: 4, time_limit: Some(10) });
}

#[test]
fn imc_labels_and_answers() {
    let mut m = IMC::new(Args::new());
    assert_eq!(m.step_label(0), ClauseLabel::B);
    assert_eq!(m.answer(false), None);
    assert_eq!(m.answer(false), None);
    assert_eq!(m.step_label(1), ClauseLabel::A);
    assert_eq!(m.step_label(2), ClauseLabel::B);
    assert_eq!(m.answer(true), Some(true));
}

#[test]
fn kind_rounds() {

    let mut o = Options::new("m.aig".to_string());
    o.step = 2;
    let mut k = Kind::new(o);
    let r = k.round();
    assert_eq!((r.load_from, r.load_to, r.assume_from, r.depth), (1, 1, 0, 2));
    assert_eq!(r.bmc_depth, Some(1));
    assert_eq!(r.block_to, None);
    assert!(!r.fresh_solver && !r.bad_as_units);
    assert_eq!(k.bmc_answer(false), None);
    assert_eq!(k.induction_answer(true), None);
    let r = k.round();
    assert_eq!((r.load_from, r.load_to, r.assume_from, r.depth), (3, 3, 2, 4));
    assert_eq!(k.bmc_answer(true), Some(false));
    assert_eq!(k.induction_answer(false), Some(true));
}

#[test]
fn kind_fresh_solver_rounds() {

    let mut o = Options::new("m.aig".to_string());
    o.kind.kind_kissat = true;
    o.kind.no_bmc = true;
    let mut k = Kind::new(o);
    let r = k.round();
    assert!(r.fresh_solver && r.bad_as_units);
    assert_eq!(r.bmc_depth, None);
    assert_eq!(r.block_to, None);
    k.induction_answer(true);
    k.induction_answer(true);
    let r = k.round();
    assert_eq!(r.depth, 3);
    assert_eq!(r.block_to, Some(1));
}
