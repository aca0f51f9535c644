use maximal_lottery::ballot::{PairPreference, PairwiseBallot, RankedBallot};
use maximal_lottery::compact::CompactBallot;
use maximal_lottery::error::Error;
use maximal_lottery::margins::tally_margins;
use maximal_lottery::maximal_lottery::condorcet_winner;
use maximal_lottery::profile::{Candidate, MarginMatrix, PreferenceProfile};
use maximal_lottery::types;

#[test]
fn test_empty_profile() {
    let profile = PreferenceProfile::<PairwiseBallot>::try_new(vec![]).unwrap();
    assert_eq!(profile.n_candidates(), 0);
}

#[test]
fn test_inconsistent_candidate_count() {
    let b1 = PairwiseBallot::new(3);
    let b2 = PairwiseBallot::new(4);
    assert!(PreferenceProfile::try_new(vec![b1, b2]).is_err());
}

#[test]
fn inconsistent_count_error_variant() {
    let b1 = RankedBallot::partial(&[Candidate(0)], 3).unwrap();
    let b2 = RankedBallot::partial(&[Candidate(0)], 2).unwrap();
    assert_eq!(
        PreferenceProfile::try_new(vec![b1, b2]).unwrap_err(),
        Error::InconsistentCandidateCount
    );
}

#[test]
fn profile_test_tally_empty() {
    let profile = PreferenceProfile::<PairwiseBallot>::try_new(vec![]).unwrap();
    let margins = profile.tally_margins();
    assert_eq!(margins.margins(), &Vec::<Vec<i64>>::new());
}

#[test]
fn profile_test_tally_single_ballot() {
    let n = 3;
    let ballot = PairwiseBallot::from_pairs(
        &[
            (Candidate(0), Candidate(1), PairPreference::Left),
            (Candidate(0), Candidate(2), PairPreference::Left),
            (Candidate(1), Candidate(2), PairPreference::Left),
        ],
        n,
    )
    .unwrap();
    let profile = PreferenceProfile::try_new(vec![ballot]).unwrap();
    let margins = profile.tally_margins();
    assert_eq!(margins.get(Candidate(0), Candidate(1)), Some(1));
    assert_eq!(margins.get(Candidate(1), Candidate(0)), Some(-1));
    assert_eq!(margins.get(Candidate(0), Candidate(2)), Some(1));
    assert_eq!(margins.get(Candidate(2), Candidate(0)), Some(-1));
    assert_eq!(margins.get(Candidate(1), Candidate(2)), Some(1));
    assert_eq!(margins.get(Candidate(2), Candidate(1)), Some(-1));
}

#[test]
fn test_margin_matrix_validation() {
    let valid = vec![vec![0, 1, -1], vec![-1, 0, 1], vec![1, -1, 0]];
    assert!(MarginMatrix::from_vec(valid).is_ok());

    let bad_diag = vec![vec![1, 0], vec![0, 0]];
    assert!(MarginMatrix::from_vec(bad_diag).is_err());

    let not_skew = vec![vec![0, 1], vec![1, 0]];
    assert!(MarginMatrix::from_vec(not_skew).is_err());
}

#[test]
fn invalid_margins_error_variant() {
    assert_eq!(
        MarginMatrix::from_vec(vec![vec![0, 1], vec![1, 0]]).unwrap_err(),
        Error::InvalidMargins
    );
    assert_eq!(
        MarginMatrix::from_vec(vec![vec![0, 0, 0], vec![0, 0]]).unwrap_err(),
        Error::InvalidMargins
    );
}

#[test]
fn profile_test_condorcet_winner() {
    let margins =
        MarginMatrix::from_vec(vec![vec![0, 1, 2], vec![-1, 0, 1], vec![-2, -1, 0]]).unwrap();
    assert_eq!(margins.condorcet_winner(), Some(Candidate(0)));
}

#[test]
fn profile_test_no_condorcet() {
    let margins =
        MarginMatrix::from_vec(vec![vec![0, 1, -1], vec![-1, 0, 1], vec![1, -1, 0]]).unwrap();
    assert_eq!(margins.condorcet_winner(), None);
}

#[test]
fn test_condorcet_winner_func() {
    let margins = vec![vec![0, 1, 2], vec![-1, 0, 1], vec![-2, -1, 0]];
    assert_eq!(condorcet_winner(&margins), Some(0));
}

#[test]
fn maximal_lottery_test_no_condorcet() {
    let margins = vec![vec![0, 1, -1], vec![-1, 0, 1], vec![1, -1, 0]];
    assert_eq!(condorcet_winner(&margins), None);
}

#[test]
fn margin_matrix_accessors() {
    let margins = MarginMatrix::from_vec(vec![vec![0, 3], vec![-3, 0]]).unwrap();
    assert_eq!(margins.n_candidates(), 2);
    assert_eq!(margins.get(Candidate(0), Candidate(2)), None);
    assert_eq!(margins.get(Candidate(2), Candidate(0)), None);
    assert_eq!(margins.margins()[1][0], -3);
    let copy = margins.clone();
    assert_eq!(copy, margins);
}

#[test]
fn margins_are_skew_symmetric_for_ranked_ballots() {
    let n = 4;
    let ballots = vec![
        RankedBallot::total(&[Candidate(3), Candidate(1), Candidate(0), Candidate(2)], n).unwrap(),
        RankedBallot::partial(&[Candidate(2), Candidate(3)], n).unwrap(),
        RankedBallot::partial(&[Candidate(1)], n).unwrap(),
    ];
    let profile = PreferenceProfile::try_new(ballots).unwrap();
    assert_eq!(profile.ballots().len(), 3);
    let margins = profile.tally_margins();
    let m = margins.margins();
    for i in 0..n {
        for j in 0..n {
            assert_eq!(m[i][j], -m[j][i]);
        }
    }
    // 3 over 2: once (first ballot); 2 over 3: once (second ballot).
    assert_eq!(m[3][2], 0);
    // 3 over 0: once.
    assert_eq!(m[3][0], 1);
    // 1 over 2: once (first ballot).
    assert_eq!(m[1][2], 1);
}

#[test]
fn margins_test_tally_empty() {
    let margins = tally_margins(&[], 3);
    assert_eq!(margins, vec![vec![0; 3]; 3]);
}

#[test]
fn margins_test_tally_single_ballot() {
    let n = 3;
    let ballot = CompactBallot::from_pairs(
        &[
            (0, 1, PairPreference::Left),
            (0, 2, PairPreference::Left),
            (1, 2, PairPreference::Left),
        ],
        n,
    );
    let margins = tally_margins(&[ballot], n);
    assert_eq!(margins[0][1], 1);
    assert_eq!(margins[1][0], -1);
    assert_eq!(margins[0][2], 1);
    assert_eq!(margins[2][0], -1);
    assert_eq!(margins[1][2], 1);
    assert_eq!(margins[2][1], -1);
}

#[test]
fn bit_packed_profile() {
    let ballot = CompactBallot::from_pairs(&[(0, 1, PairPreference::Right)], 2);
    let profile = types::PreferenceProfile::new(2, vec![ballot.clone(), ballot]);
    let margins = tally_margins(&profile.ballots, profile.n);
    assert_eq!(margins, vec![vec![0, -2], vec![2, 0]]);
}

#[test]
fn candidate_conversions() {
    let c: Candidate = 4usize.into();
    assert_eq!(c, Candidate(4));
    let i: usize = c.into();
    assert_eq!(i, 4);
}

#[test]
fn ragged_margins_are_rejected() {
    assert_eq!(
        MarginMatrix::from_vec(vec![vec![0, 0, 0], vec![0, 0, 0], vec![]]).unwrap_err(),
        Error::InvalidMargins
    );
}

#[test]
fn minimum_margins_are_rejected() {
    assert_eq!(
        MarginMatrix::from_vec(vec![vec![0, i64::MIN], vec![i64::MIN, 0]]).unwrap_err(),
        Error::InvalidMargins
    );
}

#[test]
fn margins_add_over_joined_profiles() {
    let b1 = vec![
        RankedBallot::total(&[Candidate(0), Candidate(1), Candidate(2)], 3).unwrap(),
        RankedBallot::partial(&[Candidate(2)], 3).unwrap(),
    ];
    let b2 = vec![RankedBallot::total(&[Candidate(2), Candidate(1), Candidate(0)], 3).unwrap()];
    let mut joined = b1.clone();
    joined.extend(b2.clone());
    let m1 = PreferenceProfile::try_new(b1).unwrap().tally_margins();
    let m2 = PreferenceProfile::try_new(b2).unwrap().tally_margins();
    let m12 = PreferenceProfile::try_new(joined).unwrap().tally_margins();
    for i in 0..3 {
        for j in 0..3 {
            let (ci, cj) = (Candidate(i), Candidate(j));
            assert_eq!(
                m12.get(ci, cj).unwrap(),
                m1.get(ci, cj).unwrap() + m2.get(ci, cj).unwrap()
            );
        }
    }
    assert_eq!(m12.get(Candidate(0), Candidate(1)), Some(0));
    assert_eq!(m12.get(Candidate(2), Candidate(0)), Some(0));
    assert_eq!(m1.get(Candidate(2), Candidate(0)), Some(-1));
}
