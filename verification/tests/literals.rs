use ric3::lit::{Lbool, Lit, Var};

#[test]
fn literal_packing() {
    let l = Lit::new(Var(3), true);
    assert_eq!(l, Lit(6));
    let n = Lit::new(Var(3), false);
    assert_eq!(n, Lit(7));
    assert_eq!(l.var_of(), Var(3));
    assert!(l.is_positive());
    assert!(!n.is_positive());
    assert_eq!(l.not(), n);
    assert_eq!(n.not(), l);
    assert_eq!(l.not().not(), l);
    assert_eq!(l.not_if(true), n);
    assert_eq!(l.not_if(false), l);
    assert_eq!(Var(5).lit(), Lit(10));
}

#[test]
fn three_valued() {
    let t = Lbool::new_true();
    let f = Lbool::new_false();
    let u = Lbool::new_none();
    assert!(t.is_true() && !t.is_false() && !t.is_none());
    assert!(f.is_false());
    assert!(u.is_none());
    assert!(t.not().is_false());
    assert!(f.not().is_true());
    assert!(u.not().is_none());
    assert_eq!(Lbool::from_bool(true).to_option(), Some(true));
    assert_eq!(Lbool::from_bool(false).to_option(), Some(false));
    assert_eq!(u.to_option(), None);
}
