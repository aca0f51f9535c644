use maximal_lottery::ballot::{Ballot, PairPreference, RankedBallot};
use maximal_lottery::error::Error;
use maximal_lottery::profile::Candidate;

#[test]
fn test_total_ranking() {
    let ballot = RankedBallot::total(&[Candidate(2), Candidate(0), Candidate(1)], 3).unwrap();
    assert_eq!(
        ballot.preference(Candidate(2), Candidate(0)),
        PairPreference::Left
    );
    assert_eq!(
        ballot.preference(Candidate(0), Candidate(1)),
        PairPreference::Left
    );
    assert_eq!(
        ballot.preference(Candidate(2), Candidate(1)),
        PairPreference::Left
    );
    assert_eq!(
        ballot.preference(Candidate(1), Candidate(2)),
        PairPreference::Right
    );
}

#[test]
fn test_partial_ranking_abstains() {
    let ballot = RankedBallot::partial(&[Candidate(0), Candidate(1)], 3).unwrap();
    assert_eq!(
        ballot.preference(Candidate(0), Candidate(1)),
        PairPreference::Left
    );
    assert_eq!(
        ballot.preference(Candidate(0), Candidate(2)),
        PairPreference::Abstain
    );
    assert_eq!(
        ballot.preference(Candidate(2), Candidate(1)),
        PairPreference::Abstain
    );
}

#[test]
fn test_duplicate_rejected() {
    assert!(RankedBallot::total(&[Candidate(0), Candidate(0), Candidate(1)], 3).is_err());
}

#[test]
fn test_out_of_range_rejected() {
    assert!(RankedBallot::total(&[Candidate(0), Candidate(1), Candidate(3)], 3).is_err());
}

#[test]
fn test_total_length_mismatch() {
    assert!(RankedBallot::total(&[Candidate(0), Candidate(1)], 3).is_err());
}

#[test]
fn ranked_errors_name_the_first_bad_entry() {
    assert_eq!(
        RankedBallot::total(&[Candidate(0), Candidate(1)], 3).unwrap_err(),
        Error::InvalidRankingLength(2, 3)
    );
    assert_eq!(
        RankedBallot::partial(&[Candidate(1), Candidate(1), Candidate(7)], 3).unwrap_err(),
        Error::DuplicateCandidate(Candidate(1))
    );
    assert_eq!(
        RankedBallot::partial(&[Candidate(7), Candidate(1), Candidate(1)], 3).unwrap_err(),
        Error::InvalidCandidate(Candidate(7), 3)
    );
}

#[test]
fn ranking_and_unranked_lists() {
    let ballot = RankedBallot::partial(&[Candidate(3), Candidate(1)], 5).unwrap();
    assert_eq!(ballot.ranking(), &[Candidate(3), Candidate(1)]);
    assert_eq!(ballot.unranked(), &[Candidate(0), Candidate(2), Candidate(4)]);
    assert_eq!(ballot.n_candidates(), 5);
    let full = RankedBallot::total(&[Candidate(1), Candidate(0)], 2).unwrap();
    assert!(full.unranked().is_empty());
}

#[test]
fn empty_partial_ranking_abstains_everywhere() {
    let ballot = RankedBallot::partial(&[], 3).unwrap();
    for i in 0..3 {
        for j in 0..3 {
            assert_eq!(
                ballot.preference(Candidate(i), Candidate(j)),
                PairPreference::Abstain
            );
        }
    }
}

#[test]
fn partial_lists_the_missing_candidates() {
    let ballot = RankedBallot::partial(&[Candidate(0), Candidate(1)], 3).unwrap();
    assert_eq!(ballot.unranked(), &[Candidate(2)]);
    let ballot = RankedBallot::partial(&[Candidate(3), Candidate(1)], 5).unwrap();
    assert_eq!(ballot.unranked(), &[Candidate(0), Candidate(2), Candidate(4)]);
}

#[test]
fn out_of_range_candidates_abstain() {
    let ballot = RankedBallot::total(&[Candidate(1), Candidate(0)], 2).unwrap();
    assert_eq!(ballot.preference(Candidate(0), Candidate(7)), PairPreference::Abstain);
    assert_eq!(ballot.preference(Candidate(9), Candidate(1)), PairPreference::Abstain);
}

#[test]
fn reversed_pairs_read_reversed() {
    let ballot = RankedBallot::partial(&[Candidate(2), Candidate(0)], 3).unwrap();
    for i in 0..3 {
        assert_eq!(ballot.preference(Candidate(i), Candidate(i)), PairPreference::Abstain);
        for j in 0..3 {
            assert_eq!(
                ballot.preference(Candidate(j), Candidate(i)),
                ballot.preference(Candidate(i), Candidate(j)).reversed()
            );
        }
    }
}

#[test]
fn ballot_grid_symbols() {
    let ballot = RankedBallot::partial(&[Candidate(1), Candidate(0)], 3).unwrap();
    let grid = maximal_lottery::ballot::preference_grid(&ballot);
    assert_eq!(grid, vec![vec!['-', '<', '.'], vec!['>', '-', '.'], vec!['.', '.', '-']]);
}
