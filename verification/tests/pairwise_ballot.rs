use maximal_lottery::ballot::{Ballot, PairPreference, PairwiseBallot};
use maximal_lottery::compact::{pair_index, CompactBallot};
use maximal_lottery::error::Error;
use maximal_lottery::profile::Candidate;

#[test]
fn pairwise_test_pair_index() {
    let n = 4;
    assert_eq!(pair_index(0, 1, n), 0);
    assert_eq!(pair_index(0, 2, n), 1);
    assert_eq!(pair_index(0, 3, n), 2);
    assert_eq!(pair_index(1, 2, n), 3);
    assert_eq!(pair_index(1, 3, n), 4);
    assert_eq!(pair_index(2, 3, n), 5);
}

#[test]
fn pairwise_test_tiny_ballot() {
    let n = 4;
    let mut ballot = PairwiseBallot::new(n);
    assert!(matches!(ballot.storage(), CompactBallot::Tiny(0)));

    ballot.set_preference(Candidate(0), Candidate(1), PairPreference::Left);
    assert_eq!(
        ballot.preference(Candidate(0), Candidate(1)),
        PairPreference::Left
    );
    assert_eq!(
        ballot.preference(Candidate(0), Candidate(2)),
        PairPreference::Abstain
    );

    ballot.set_preference(Candidate(0), Candidate(1), PairPreference::Right);
    assert_eq!(
        ballot.preference(Candidate(0), Candidate(1)),
        PairPreference::Right
    );

    ballot.set_preference(Candidate(1), Candidate(2), PairPreference::Left);
    assert_eq!(
        ballot.preference(Candidate(1), Candidate(2)),
        PairPreference::Left
    );
}

#[test]
fn pairwise_test_from_pairs() {
    let n = 4;
    let ballot = PairwiseBallot::from_pairs(
        &[
            (Candidate(0), Candidate(1), PairPreference::Left),
            (Candidate(0), Candidate(2), PairPreference::Left),
            (Candidate(0), Candidate(3), PairPreference::Left),
            (Candidate(1), Candidate(2), PairPreference::Left),
            (Candidate(1), Candidate(3), PairPreference::Left),
            (Candidate(2), Candidate(3), PairPreference::Left),
        ],
        n,
    )
    .unwrap();
    assert_eq!(
        ballot.preference(Candidate(0), Candidate(1)),
        PairPreference::Left
    );
    assert_eq!(
        ballot.preference(Candidate(0), Candidate(3)),
        PairPreference::Left
    );
    assert_eq!(
        ballot.preference(Candidate(1), Candidate(2)),
        PairPreference::Left
    );
    assert_eq!(
        ballot.preference(Candidate(2), Candidate(3)),
        PairPreference::Left
    );
    assert_eq!(
        ballot.preference(Candidate(3), Candidate(0)),
        PairPreference::Right
    );
}

#[test]
fn pairwise_test_large_ballot() {
    let n = 10;
    let ballot = PairwiseBallot::new(n);
    assert!(matches!(ballot.storage(), CompactBallot::Large(_)));
}

#[test]
fn test_contradictory_pair_rejected() {
    let n = 2;
    let result = PairwiseBallot::from_pairs(
        &[
            (Candidate(0), Candidate(1), PairPreference::Left),
            (Candidate(1), Candidate(0), PairPreference::Left),
        ],
        n,
    );
    assert!(result.is_err());
}

#[test]
fn contradiction_reports_the_pair_in_order() {
    let result = PairwiseBallot::from_pairs(
        &[
            (Candidate(2), Candidate(0), PairPreference::Left),
            (Candidate(0), Candidate(2), PairPreference::Left),
        ],
        3,
    );
    assert_eq!(
        result.unwrap_err(),
        Error::ContradictoryPair(Candidate(0), Candidate(2))
    );
}

#[test]
fn out_of_range_reports_the_larger_candidate() {
    let result = PairwiseBallot::from_pairs(
        &[
            (Candidate(0), Candidate(1), PairPreference::Left),
            (Candidate(5), Candidate(1), PairPreference::Left),
        ],
        3,
    );
    assert_eq!(result.unwrap_err(), Error::InvalidCandidate(Candidate(5), 3));
}

#[test]
fn repeating_a_preference_is_accepted() {
    let ballot = PairwiseBallot::from_pairs(
        &[
            (Candidate(0), Candidate(1), PairPreference::Left),
            (Candidate(1), Candidate(0), PairPreference::Right),
            (Candidate(0), Candidate(1), PairPreference::Left),
        ],
        3,
    )
    .unwrap();
    assert_eq!(
        ballot.preference(Candidate(0), Candidate(1)),
        PairPreference::Left
    );
    // A pair that was set may not be cleared again.
    assert!(PairwiseBallot::from_pairs(
        &[
            (Candidate(0), Candidate(1), PairPreference::Left),
            (Candidate(0), Candidate(1), PairPreference::Abstain),
        ],
        3,
    )
    .is_err());
    assert_eq!(ballot.n_candidates(), 3);
}

#[test]
fn set_preference_leaves_other_pairs() {
    let n = 9;
    let mut ballot = PairwiseBallot::new(n);
    ballot.set_preference(Candidate(8), Candidate(3), PairPreference::Left);
    ballot.set_preference(Candidate(1), Candidate(2), PairPreference::Right);
    for i in 0..n {
        for j in 0..n {
            let expected = match (i, j) {
                (8, 3) => PairPreference::Left,
                (3, 8) => PairPreference::Right,
                (1, 2) => PairPreference::Right,
                (2, 1) => PairPreference::Left,
                _ => PairPreference::Abstain,
            };
            assert_eq!(ballot.preference(Candidate(i), Candidate(j)), expected);
        }
    }
}
