use ric3::activity::Activity;
use ric3::lit::Lit;

#[test]
fn sort_by_activity_is_stable() {
    let mut a = Activity::new(5);
    a.pump_activity(&Lit(2));
    a.pump_activity(&Lit(2));
    a.pump_activity(&Lit(7));
    assert_eq!(a.var_activity(&Lit(3)), 2);
    assert_eq!(a.var_activity(&Lit(6)), 1);
    let cube = vec![Lit(2), Lit(8), Lit(6), Lit(4), Lit(9)];
    let r = a.sort_by_activity_ascending(cube);
    assert_eq!(r, vec![Lit(8), Lit(4), Lit(9), Lit(6), Lit(2)]);
}
