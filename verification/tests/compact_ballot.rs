use maximal_lottery::compact::{
    ballot_bits, max_n_u32, max_n_u64, num_pairs, pair_index, CompactBallot, PairPreference,
};

#[test]
fn ballot_test_pair_index() {
    let n = 4;
    assert_eq!(pair_index(0, 1, n), 0);
    assert_eq!(pair_index(0, 2, n), 1);
    assert_eq!(pair_index(0, 3, n), 2);
    assert_eq!(pair_index(1, 2, n), 3);
    assert_eq!(pair_index(1, 3, n), 4);
    assert_eq!(pair_index(2, 3, n), 5);
}

#[test]
fn ballot_test_tiny_ballot() {
    let n = 4;
    let mut ballot = CompactBallot::new(n);
    assert!(matches!(ballot, CompactBallot::Tiny(0)));

    ballot.set_preference(0, 1, n, PairPreference::Left);
    assert_eq!(ballot.preference(0, 1, n), PairPreference::Left);
    assert_eq!(ballot.preference(0, 2, n), PairPreference::Abstain);

    ballot.set_preference(0, 1, n, PairPreference::Right);
    assert_eq!(ballot.preference(0, 1, n), PairPreference::Right);

    ballot.set_preference(1, 2, n, PairPreference::Left);
    assert_eq!(ballot.preference(1, 2, n), PairPreference::Left);
}

#[test]
fn ballot_test_from_pairs() {
    let n = 4;
    let ballot = CompactBallot::from_pairs(
        &[
            (0, 1, PairPreference::Left),
            (0, 2, PairPreference::Left),
            (0, 3, PairPreference::Left),
            (1, 2, PairPreference::Left),
            (1, 3, PairPreference::Left),
            (2, 3, PairPreference::Left),
        ],
        n,
    );
    assert_eq!(ballot.preference(0, 1, n), PairPreference::Left);
    assert_eq!(ballot.preference(0, 3, n), PairPreference::Left);
    assert_eq!(ballot.preference(1, 2, n), PairPreference::Left);
    assert_eq!(ballot.preference(2, 3, n), PairPreference::Left);
    assert_eq!(ballot.preference(3, 0, n), PairPreference::Right);
}

#[test]
fn ballot_test_large_ballot() {
    let n = 10;
    let ballot = CompactBallot::new(n);
    assert!(matches!(ballot, CompactBallot::Large(_)));
}

#[test]
fn pair_counts() {
    assert_eq!(num_pairs(0), 0);
    assert_eq!(num_pairs(1), 0);
    assert_eq!(num_pairs(4), 6);
    assert_eq!(num_pairs(10), 45);
    assert_eq!(ballot_bits(4), 12);
    assert_eq!(ballot_bits(10), 90);
}

#[test]
fn packing_limits() {
    assert_eq!(max_n_u32(), 6);
    assert_eq!(max_n_u64(), 8);
}

#[test]
fn small_and_large_ballots_keep_every_pair() {
    // 6 candidates: 30 bits, u32; 7 candidates: 42 bits, u64; 10: bit vector.
    for n in [6usize, 7, 10] {
        let mut pairs = Vec::new();
        for i in 0..n {
            for j in (i + 1)..n {
                let pref = match (i + 2 * j) % 3 {
                    0 => PairPreference::Abstain,
                    1 => PairPreference::Left,
                    _ => PairPreference::Right,
                };
                pairs.push((i, j, pref));
            }
        }
        let ballot = CompactBallot::from_pairs(&pairs, n);
        match n {
            6 => assert!(matches!(ballot, CompactBallot::Tiny(_))),
            7 => assert!(matches!(ballot, CompactBallot::Small(_))),
            _ => assert!(matches!(ballot, CompactBallot::Large(_))),
        }
        for &(i, j, pref) in &pairs {
            assert_eq!(ballot.preference(i, j, n), pref);
            let reversed = match pref {
                PairPreference::Left => PairPreference::Right,
                PairPreference::Right => PairPreference::Left,
                PairPreference::Abstain => PairPreference::Abstain,
            };
            assert_eq!(ballot.preference(j, i, n), reversed);
        }
        assert_eq!(ballot.preference(2, 2, n), PairPreference::Abstain);
    }
}

#[test]
fn later_entries_override_earlier_ones() {
    let n = 3;
    let ballot = CompactBallot::from_pairs(
        &[(0, 1, PairPreference::Left), (0, 1, PairPreference::Right)],
        n,
    );
    assert_eq!(ballot.preference(0, 1, n), PairPreference::Right);
    assert_eq!(ballot.preference(1, 2, n), PairPreference::Abstain);
}

#[test]
fn compact_reversed_pairs_read_reversed() {
    let ballot = CompactBallot::from_pairs(
        &[(0, 1, PairPreference::Left), (1, 3, PairPreference::Right), (0, 2, PairPreference::Abstain)],
        4,
    );
    for i in 0..4 {
        assert_eq!(ballot.preference(i, i, 4), PairPreference::Abstain);
        for j in 0..4 {
            assert_eq!(ballot.preference(j, i, 4), ballot.preference(i, j, 4).reversed());
        }
    }
    let fresh = CompactBallot::new(4);
    for i in 0..4 {
        for j in 0..4 {
            assert_eq!(fresh.preference(i, j, 4), PairPreference::Abstain);
        }
    }
}
