use maximal_lottery::maximal_lottery::{maximal_lottery, LotteryMethod, MaximalLotteryError};
use maximal_lottery::profile::{Candidate, Lottery, MarginMatrix};
use maximal_lottery::rational::Rational;
use maximal_lottery::solver::{CentroidSolver, LotterySolver};

fn total(values: &[Rational]) -> Rational {
    let mut sum = Rational::zero();
    for v in values {
        sum = sum.add(v);
    }
    sum
}

fn payoff(column: usize, margins: &[Vec<i64>], p: &[Rational]) -> Rational {
    let mut sum = Rational::zero();
    for i in 0..p.len() {
        sum = sum.add(&p[i].mul(&Rational::from_integer(margins[i][column])));
    }
    sum
}

fn row_payoff(row: &[i64], p: &[Rational]) -> Rational {
    let mut sum = Rational::zero();
    for j in 0..p.len() {
        sum = sum.add(&p[j].mul(&Rational::from_integer(row[j])));
    }
    sum
}

fn matrix(m: Vec<Vec<i64>>) -> MarginMatrix {
    MarginMatrix::from_vec(m).unwrap()
}

#[test]
fn maximal_lottery_test_single_candidate() {
    let margins = vec![vec![0i64]];
    let result = maximal_lottery(&margins, LotteryMethod::Centroid).unwrap();
    assert_eq!(result.len(), 1);
    assert_eq!(result[0], Rational::one());
}

#[test]
fn maximal_lottery_test_two_candidates_tie() {
    let margins = vec![vec![0, 0], vec![0, 0]];
    let result = maximal_lottery(&margins, LotteryMethod::Centroid).unwrap();
    assert_eq!(result.len(), 2);

    let half = Rational::new(1, 2);
    assert_eq!(result[0], half);
    assert_eq!(result[1], half);

    assert_eq!(total(&result), Rational::one());

    for j in 0..2 {
        assert!(payoff(j, &margins, &result).is_nonnegative());
    }
}

#[test]
fn maximal_lottery_test_condorcet_winner() {
    let margins = vec![vec![0, 10, 20], vec![-10, 0, 5], vec![-20, -5, 0]];
    let result = maximal_lottery(&margins, LotteryMethod::Centroid).unwrap();
    assert_eq!(result[0], Rational::one());
    assert_eq!(result[1], Rational::zero());
    assert_eq!(result[2], Rational::zero());
}

#[test]
fn maximal_lottery_test_wikipedia_example() {
    let margins = vec![vec![0, 1, -1], vec![-1, 0, 1], vec![1, -1, 0]];

    let result = maximal_lottery(&margins, LotteryMethod::Centroid).unwrap();
    assert_eq!(result.len(), 3);

    assert_eq!(total(&result), Rational::one());

    let third = Rational::new(1, 3);
    for p in &result {
        assert_eq!(*p, third);
    }

    for j in 0..3 {
        assert!(payoff(j, &margins, &result).is_nonnegative());
    }
}

#[test]
fn maximal_lottery_test_empty() {
    let margins: Vec<Vec<i64>> = vec![];
    assert!(maximal_lottery(&margins, LotteryMethod::Centroid).is_err());
}

#[test]
fn empty_margins_error_variant() {
    let margins: Vec<Vec<i64>> = vec![];
    assert_eq!(
        maximal_lottery(&margins, LotteryMethod::Centroid).unwrap_err(),
        MaximalLotteryError::NoCandidates
    );
}

#[test]
fn centroid_test_single_candidate() {
    let matrix = matrix(vec![vec![0i64]]);
    let result = CentroidSolver.solve(&matrix).unwrap();
    assert_eq!(result.len(), 1);
    assert_eq!(result.get(Candidate(0)).unwrap(), &Rational::one());
}

#[test]
fn centroid_test_two_candidates_tie() {
    let matrix = matrix(vec![vec![0, 0], vec![0, 0]]);
    let result = CentroidSolver.solve(&matrix).unwrap();
    assert_eq!(result.len(), 2);

    let half = Rational::new(1, 2);
    assert_eq!(result.get(Candidate(0)).unwrap(), &half);
    assert_eq!(result.get(Candidate(1)).unwrap(), &half);

    assert_eq!(total(result.probabilities()), Rational::one());

    for row in matrix.margins().iter().take(2) {
        assert!(row_payoff(row, result.probabilities()).is_nonnegative());
    }
}

#[test]
fn centroid_test_condorcet_winner() {
    let matrix = matrix(vec![vec![0, 10, 20], vec![-10, 0, 5], vec![-20, -5, 0]]);
    let result = CentroidSolver.solve(&matrix).unwrap();
    assert_eq!(result.get(Candidate(0)).unwrap(), &Rational::one());
    assert_eq!(result.get(Candidate(1)).unwrap(), &Rational::zero());
    assert_eq!(result.get(Candidate(2)).unwrap(), &Rational::zero());
}

#[test]
fn centroid_test_wikipedia_example() {
    let matrix = matrix(vec![vec![0, 1, -1], vec![-1, 0, 1], vec![1, -1, 0]]);

    let result = CentroidSolver.solve(&matrix).unwrap();
    assert_eq!(result.len(), 3);

    assert_eq!(total(result.probabilities()), Rational::one());

    let third = Rational::new(1, 3);
    for p in result.probabilities() {
        assert_eq!(p, &third);
    }

    for row in matrix.margins().iter().take(3) {
        assert!(row_payoff(row, result.probabilities()).is_nonnegative());
    }
}

#[test]
fn centroid_test_empty() {
    let matrix = matrix(Vec::new());
    assert!(CentroidSolver.solve(&matrix).is_err());
}

#[test]
fn weighted_cycle_lottery() {
    // A beats B by 3, B beats C by 1, C beats A by 1: the maximal lottery is
    // (1/5, 1/5, 3/5).
    let matrix = matrix(vec![vec![0, 3, -1], vec![-3, 0, 1], vec![1, -1, 0]]);
    let result = CentroidSolver.solve(&matrix).unwrap();
    assert_eq!(result.get(Candidate(0)).unwrap(), &Rational::new(1, 5));
    assert_eq!(result.get(Candidate(1)).unwrap(), &Rational::new(1, 5));
    assert_eq!(result.get(Candidate(2)).unwrap(), &Rational::new(3, 5));
    assert_eq!(total(result.probabilities()), Rational::one());
    for j in 0..3 {
        assert!(payoff(j, matrix.margins(), result.probabilities()).is_nonnegative());
    }
}

#[test]
fn lottery_accessors() {
    let lottery = Lottery::new(vec![Rational::new(1, 4), Rational::new(3, 4)]);
    assert_eq!(lottery.len(), 2);
    assert!(!lottery.is_empty());
    assert!(lottery.get(Candidate(2)).is_none());
    assert_eq!(lottery.probabilities()[1], Rational::new(6, 8));
    let copy = lottery.clone();
    assert_eq!(copy, lottery);
    assert_eq!(lottery.into_inner().len(), 2);
    assert!(Lottery::default().is_empty());
}

#[test]
fn rational_arithmetic() {
    let a = Rational::new(1, 2);
    let b = Rational::new(-1, 3);
    assert_eq!(a.add(&b), Rational::new(1, 6));
    assert_eq!(a.sub(&b), Rational::new(5, 6));
    assert_eq!(a.mul(&b), Rational::new(-1, 6));
    assert_eq!(a.div(&b), Rational::new(-3, 2));
    assert_eq!(b.neg(), Rational::new(1, 3));
    assert!(a.equals(&Rational::new(2, 4)));
    assert!(b.less_than(&a));
    assert!(!a.less_than(&b));
    assert!(Rational::zero().is_zero());
    assert!(!b.is_nonnegative());
    assert!(a.is_positive());
    assert_eq!(Rational::from_count(3), Rational::from_integer(3));
    assert_eq!(Rational::new(4, -2), Rational::from_integer(-2));
}

#[test]
fn function_and_solver_agree() {
    let rows = vec![vec![0, 2, -1], vec![-2, 0, 3], vec![1, -3, 0]];
    let from_function = maximal_lottery(&rows, LotteryMethod::Centroid).unwrap();
    let from_solver = CentroidSolver.solve(&matrix(rows)).unwrap();
    assert_eq!(from_function.len(), from_solver.len());
    for k in 0..from_function.len() {
        assert!(from_function[k].equals(&from_solver.probabilities()[k]));
    }
}
