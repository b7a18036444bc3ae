use ric3::cube::{ordered_subsume, sort_cube, Lemma};
use ric3::lit::Lit;
use ric3::mic::{contains_lit, handle_down_success, DropVarParameter, MicType};
use ric3::options::Options;

fn lits(codes: &[u32]) -> Vec<Lit> {
    codes.iter().map(|c| Lit(*c)).collect()
}

#[test]
fn sort_and_subsume() {
    let mut c = lits(&[9, 2, 5, 2]);
    sort_cube(&mut c);
    assert_eq!(c, lits(&[2, 2, 5, 9]));
    assert!(ordered_subsume(&lits(&[2, 9]), &lits(&[2, 5, 9])));
    assert!(!ordered_subsume(&lits(&[3, 9]), &lits(&[2, 5, 9])));
    assert!(!ordered_subsume(&lits(&[2, 5, 9]), &lits(&[2, 9])));
}

#[test]
fn lemma_subsumption() {
    let a = Lemma::new(lits(&[8, 4]));
    let b = Lemma::new(lits(&[4, 6, 8]));
    assert_eq!(a.cube, lits(&[4, 8]));
    assert!(a.subsume(&b));
    assert!(!b.subsume(&a));
    assert!(a.subsume(&a));
    assert!(a.eq(&Lemma::new(lits(&[4, 8]))));
    assert!(!a.eq(&b));
    assert_eq!(a.len(), 2);
    assert_eq!(a.clone_lemma().cube, a.cube);
}

#[test]
fn drop_variable_parameters() {
    let p = DropVarParameter::new(2, 5, 3);
    let q = p.sub_level();
    assert_eq!((q.limit, q.max, q.level), (2, 5, 2));
    let mut o = Options::new("m.aig".to_string());
    assert_eq!(MicType::from_options(&o), MicType::DropVar(DropVarParameter::new(0, 0, 0)));
    o.ic3.ctg = true;
    assert_eq!(MicType::from_options(&o), MicType::DropVar(DropVarParameter::new(1, 3, 1)));
}

#[test]
fn down_success_keeps_order() {
    let cube = lits(&[2, 4, 6, 8, 10]);
    assert!(contains_lit(&cube, Lit(6)));
    assert!(!contains_lit(&cube, Lit(7)));
    let (c, i) = handle_down_success(cube.clone(), 2, lits(&[10, 2, 8]));
    assert_eq!(c, lits(&[2, 8, 10]));
    assert_eq!(i, 1);
    let (c, i) = handle_down_success(cube, 1, lits(&[2, 6]));
    assert_eq!(c, lits(&[2, 6]));
    assert_eq!(i, 1);
}
