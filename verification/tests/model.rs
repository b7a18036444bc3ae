use ric3::lit::{Lit, Var};
use ric3::model::{compress_deps, Model};

fn v(x: u32) -> Var {
    Var(x)
}

#[test]
fn compress_dependencies_to_cnf_vars() {
    // 3 depends on 1 and 2, 4 on 3; only 1, 2 and 4 occur in the clauses
    let deps = vec![vec![], vec![], vec![], vec![v(1), v(2)], vec![v(3), v(1)]];
    let cnf = vec![vec![Lit(2), Lit(5)], vec![Lit(8)]];
    let r = compress_deps(deps, &cnf);
    assert_eq!(r[4], vec![v(1), v(2)]);
    assert!(r[3].is_empty());
    assert!(r[1].is_empty());
    assert!(r[0].is_empty());
}

#[test]
fn compress_keeps_direct_domain_dependencies() {
    let deps = vec![vec![], vec![], vec![v(1)], vec![v(2), v(1)]];
    let cnf = vec![vec![Lit(2), Lit(4), Lit(6)]];
    let r = compress_deps(deps, &cnf);
    assert_eq!(r[3], vec![v(1), v(2)]);
    assert_eq!(r[2], vec![v(1)]);
}

#[test]
fn compress_follows_dependencies_toward_higher_indices() {
    // 1 -> 2 -> 3 -> 4, where only 1 and 4 occur in the clauses
    let deps = vec![vec![], vec![v(2)], vec![v(3)], vec![v(4)], vec![]];
    let cnf = vec![vec![v(1).lit(), v(4).lit()]];
    let r = compress_deps(deps, &cnf);
    assert_eq!(r, vec![vec![], vec![v(4)], vec![], vec![], vec![]]);
}

fn small_model() -> Model {
    // latches 1 and 2 with next states 3 and !4; initial values 1 = false, 2 = true
    Model::from_parts(
        vec![],
        vec![v(1), v(2)],
        vec![Lit(6), Lit(9)],
        vec![Lit(3), Lit(4)],
        vec![Lit(10)],
        vec![],
        vec![vec![Lit(2), Lit(6)]],
        6,
        vec![vec![], vec![], vec![], vec![], vec![], vec![]],
    )
}

#[test]
fn next_state_literals() {
    let m = small_model();
    assert_eq!(m.lit_next(Lit(2)), Lit(6));
    assert_eq!(m.lit_next(Lit(3)), Lit(7));
    assert_eq!(m.lit_next(Lit(4)), Lit(9));
    assert_eq!(m.lit_next(Lit(5)), Lit(8));
    assert_eq!(m.cube_next(&vec![Lit(3), Lit(4)]), vec![Lit(7), Lit(9)]);
}

#[test]
fn cube_meets_initial_states() {
    let m = small_model();
    assert!(m.cube_subsume_init(&vec![Lit(3)]));
    assert!(m.cube_subsume_init(&vec![Lit(3), Lit(4), Lit(10)]));
    assert!(!m.cube_subsume_init(&vec![Lit(2)]));
    assert!(!m.cube_subsume_init(&vec![Lit(3), Lit(5)]));
}

#[test]
fn init_unit_cubes() {
    let m = small_model();
    assert_eq!(m.inits(), vec![vec![Lit(2)], vec![Lit(5)]]);
}
