use maximal_lottery::rational::Rational;
use maximal_lottery::simplex::{solve_lp, Tableau};

fn r(i: i64) -> Rational {
    Rational::from_integer(i)
}

fn row(values: &[i64]) -> Vec<Rational> {
    values.iter().map(|v| r(*v)).collect()
}

#[test]
fn simplex_new_is_zero() {
    let t = Tableau::new(2, 3);
    assert_eq!(t.n_rows(), 2);
    assert_eq!(t.n_cols(), 3);
    assert_eq!(t.b, row(&[0, 0]));
    assert_eq!(t.c, row(&[0, 0, 0]));
    assert!(t.basis.is_empty());
    for line in &t.a {
        assert_eq!(line, &row(&[0, 0, 0]));
    }
}

#[test]
fn simplex_no_rows_has_no_columns() {
    let t = Tableau::new(0, 4);
    assert_eq!(t.n_rows(), 0);
    assert_eq!(t.n_cols(), 0);
}

#[test]
fn simplex_basic_solution_and_objective() {
    let t = Tableau {
        a: vec![row(&[1, 0, 4]), row(&[0, 1, 5])],
        b: row(&[2, 3]),
        c: row(&[5, 7, 1]),
        basis: vec![0, 1],
    };
    assert_eq!(t.primal_solution(), row(&[2, 3, 0]));
    assert_eq!(t.objective_value(), r(31));
}

#[test]
fn simplex_basic_solution_follows_basis_order() {
    let t = Tableau {
        a: vec![row(&[0, 0, 1]), row(&[1, 0, 0])],
        b: row(&[6, 9]),
        c: row(&[1, 1, 2]),
        basis: vec![2, 0],
    };
    assert_eq!(t.primal_solution(), row(&[9, 0, 6]));
    assert_eq!(t.objective_value(), r(21));
}

#[test]
fn simplex_optimize_pivots_to_optimum() {
    // maximise 3x + 2y subject to x + y + s = 4, x + t = 3
    let mut t = Tableau {
        a: vec![row(&[1, 1, 1, 0]), row(&[1, 0, 0, 1])],
        b: row(&[4, 3]),
        c: row(&[3, 2, 0, 0]),
        basis: vec![2, 3],
    };
    assert!(t.optimize());
    assert_eq!(t.primal_solution(), row(&[3, 1, 0, 0]));
    assert_eq!(t.objective_value(), r(11));
}

#[test]
fn simplex_optimize_reports_unbounded() {
    // maximise x subject to -x + s = 1
    let mut t = Tableau {
        a: vec![row(&[-1, 1])],
        b: row(&[1]),
        c: row(&[1, 0]),
        basis: vec![1],
    };
    assert!(!t.optimize());
}

#[test]
fn simplex_solve_lp_no_rows() {
    let a: Vec<Vec<Rational>> = Vec::new();
    assert_eq!(solve_lp(&a, &[], 3, &[]), Some(Vec::new()));
}

#[test]
fn simplex_solve_lp_maximises_first_variable() {
    let a = vec![row(&[1, 1])];
    let b = row(&[1]);
    let x = solve_lp(&a, &b, 2, &row(&[1, 0])).unwrap();
    assert_eq!(x, row(&[1, 0]));
}

#[test]
fn simplex_solve_lp_maximises_second_variable() {
    let a = vec![row(&[1, 1])];
    let b = row(&[1]);
    let x = solve_lp(&a, &b, 2, &row(&[0, 1])).unwrap();
    assert_eq!(x, row(&[0, 1]));
}

#[test]
fn simplex_solve_lp_truncates_to_original_variables() {
    let a = vec![row(&[2, 1])];
    let b = row(&[4]);
    let x = solve_lp(&a, &b, 1, &row(&[1])).unwrap();
    assert_eq!(x, row(&[2]));
}

#[test]
fn simplex_solve_lp_detects_infeasible() {
    let a = vec![row(&[1, 1]), row(&[1, 1])];
    let b = row(&[1, 2]);
    assert_eq!(solve_lp(&a, &b, 2, &row(&[1, 1])), None);
}

#[test]
fn simplex_solve_lp_solves_equalities() {
    // x + y = 3, x - y = 1 has the single solution x = 2, y = 1.
    let a = vec![row(&[1, 1]), row(&[1, -1])];
    let b = row(&[3, 1]);
    let x = solve_lp(&a, &b, 2, &row(&[0, 0])).unwrap();
    assert_eq!(x, row(&[2, 1]));
}

#[test]
fn simplex_solve_lp_keeps_the_only_solution_against_the_objective() {
    // x = 1 is the only non-negative solution, although the objective
    // prefers a smaller x.
    let a = vec![row(&[1])];
    let b = row(&[1]);
    assert_eq!(solve_lp(&a, &b, 1, &row(&[-1])), Some(row(&[1])));
}

#[test]
fn simplex_optimize_does_not_lower_the_objective() {
    let mut t = Tableau {
        a: vec![row(&[1, 1, 1, 0]), row(&[1, 0, 0, 1])],
        b: row(&[4, 3]),
        c: row(&[3, 2, 0, 0]),
        basis: vec![2, 3],
    };
    let before = t.objective_value();
    assert!(t.optimize());
    assert!(before.less_than(&t.objective_value()));
}

fn q(n: i64, d: i64) -> Rational {
    Rational::new(n, d)
}

#[test]
fn simplex_optimize_stops_where_the_rule_cycles() {
    // From this degenerate tableau the pivot rule comes back to the basis
    // [2, 4, 0] after six more pivots; the method stops there.
    let mut t = Tableau {
        a: vec![
            vec![r(-2), r(1), r(1), r(0), r(0), r(-2), r(-2)],
            vec![r(0), r(0), q(-1, 2), r(0), r(1), r(-1), q(-1, 3)],
            vec![r(3), r(0), r(1), r(1), r(0), q(-1, 2), q(-1, 3)],
        ],
        b: row(&[0, 0, 0]),
        c: row(&[0, 0, 3, 0, 0, -3, 0]),
        basis: vec![1, 4, 3],
    };
    assert!(!t.optimize());
    assert_eq!(t.basis, vec![2, 4, 0]);
    assert_eq!(t.b, row(&[0, 0, 0]));
}

#[test]
fn simplex_solve_lp_ends_on_a_degenerate_system() {
    let a = vec![
        vec![r(0), r(0), r(3), q(-3, 2), r(-1)],
        vec![r(0), q(3, 2), q(1, 2), r(0), r(-3)],
        vec![q(1, 2), r(-1), r(1), r(1), q(-3, 2)],
    ];
    let b = row(&[0, 0, 0]);
    let x = solve_lp(&a, &b, 5, &row(&[-2, -1, -3, -3, 2])).unwrap();
    assert_eq!(x, row(&[0, 0, 0, 0, 0]));
}
