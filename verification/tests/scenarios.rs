use maximal_lottery::ballot::{PairPreference, PairwiseBallot};
use maximal_lottery::profile::{Candidate, PreferenceProfile};
use maximal_lottery::rational::Rational;
use maximal_lottery::solver::{CentroidSolver, LotterySolver};

fn ballot(prefs: [PairPreference; 3]) -> PairwiseBallot {
    let c = Candidate;
    PairwiseBallot::from_pairs(
        &[(c(0), c(1), prefs[0]), (c(0), c(2), prefs[1]), (c(1), c(2), prefs[2])],
        3,
    )
    .unwrap()
}

fn lottery_of(ballots: Vec<PairwiseBallot>) -> (Vec<Vec<i64>>, Vec<Rational>) {
    let profile = PreferenceProfile::try_new(ballots).unwrap();
    let margins = profile.tally_margins();
    let lottery = CentroidSolver.solve(&margins).unwrap();
    (margins.margins().to_vec(), lottery.probabilities().to_vec())
}

use PairPreference::{Abstain, Left, Right};

#[test]
fn scenario_three_voter_cycle_is_uniform() {
    let (margins, lottery) = lottery_of(vec![
        ballot([Left, Left, Left]),
        ballot([Right, Right, Left]),
        ballot([Left, Right, Right]),
    ]);
    assert_eq!(margins, vec![vec![0, 1, -1], vec![-1, 0, 1], vec![1, -1, 0]]);
    let third = Rational::new(1, 3);
    assert_eq!(lottery, vec![third.clone(), third.clone(), third]);
}

#[test]
fn scenario_majority_gives_condorcet_winner() {
    let a = ballot([Left, Left, Left]);
    let b = ballot([Right, Right, Left]);
    let (margins, lottery) = lottery_of(vec![a.clone(), a.clone(), a, b.clone(), b]);
    assert_eq!(margins, vec![vec![0, 1, 1], vec![-1, 0, 5], vec![-1, -5, 0]]);
    assert_eq!(lottery, vec![Rational::one(), Rational::zero(), Rational::zero()]);
}

#[test]
fn scenario_faithful_voting_centroid() {
    // Maximal lotteries: p1 = 0 and p0 >= p2, with extreme points (1, 0, 0)
    // and (1/2, 0, 1/2).
    let (margins, lottery) = lottery_of(vec![ballot([Left, Left, Left]), ballot([Left, Right, Left])]);
    assert_eq!(margins, vec![vec![0, 2, 0], vec![-2, 0, 2], vec![0, -2, 0]]);
    assert_eq!(lottery, vec![Rational::new(3, 4), Rational::zero(), Rational::new(1, 4)]);
}

#[test]
fn scenario_strategic_abstention_centroid() {
    // Maximal lotteries: p1 = 0 and p0 >= 2 * p2, with extreme points
    // (1, 0, 0) and (2/3, 0, 1/3).
    let (margins, lottery) = lottery_of(vec![ballot([Abstain, Left, Left]), ballot([Left, Right, Left])]);
    assert_eq!(margins, vec![vec![0, 1, 0], vec![-1, 0, 2], vec![0, -2, 0]]);
    assert_eq!(lottery, vec![Rational::new(5, 6), Rational::zero(), Rational::new(1, 6)]);
}
