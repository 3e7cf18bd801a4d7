use rcir::BallotError;
use rcir::Poll;
use rcir::PollResult;

fn summary(rounds: &[PollResult]) -> Vec<(u64, usize, Vec<(u64, usize)>, usize)> {
    rounds
        .iter()
        .map(|r| (r.loser, r.votes, r.results.clone(), r.round))
        .collect()
}

#[test]
fn all_permutations_accepted() {
    let perms: [[u64; 3]; 6] = [
        [1, 2, 3],
        [1, 3, 2],
        [2, 1, 3],
        [2, 3, 1],
        [3, 1, 2],
        [3, 2, 1],
    ];
    for perm in perms.iter() {
        let mut poll = Poll::new(vec![1, 2, 3]);
        assert_eq!(poll.add_ballot(perm.to_vec()), Ok(()));
    }
}

#[test]
fn missing_candidate_rejected() {
    // candidates {A, B, C} as {1, 2, 3}: the ballot [A, B] omits C
    let mut poll = Poll::new(vec![1, 2, 3]);
    assert_eq!(
        poll.add_ballot(vec![1, 2]),
        Err(BallotError::MissingCandidate(3))
    );
}

#[test]
fn duplicate_candidate_rejected() {
    // [A, B, A] against {A, B, C} fails on the repeat of A, before the
    // omission of C is ever considered
    let mut poll = Poll::new(vec![1, 2, 3]);
    assert_eq!(
        poll.add_ballot(vec![1, 2, 1]),
        Err(BallotError::DuplicateCandidate(1))
    );
    assert_eq!(
        poll.add_ballot(vec![2, 2]),
        Err(BallotError::DuplicateCandidate(2))
    );
}

#[test]
fn extra_candidate_rejected() {
    let mut poll = Poll::new(vec![1, 2, 3]);
    assert_eq!(
        poll.add_ballot(vec![1, 9, 2]),
        Err(BallotError::ExtraCandidate(9))
    );
    // an unregistered entry is reported even if it repeats
    assert_eq!(
        poll.add_ballot(vec![9, 9, 9]),
        Err(BallotError::ExtraCandidate(9))
    );
}

#[test]
fn rejection_leaves_poll_unchanged() {
    let mut poll = Poll::new(vec![1, 2]);
    assert_eq!(poll.add_ballot(vec![1, 2]), Ok(()));
    assert_eq!(
        poll.add_ballot(vec![2, 1, 1]),
        Err(BallotError::DuplicateCandidate(1))
    );
    // only the accepted ballot counts
    let mut it = poll.start_rounds();
    let first = it.next().unwrap();
    let total: usize = first.results.iter().map(|p| p.1).sum();
    assert_eq!(total, 1);
}

#[test]
fn example_three_candidates() {
    // candidates {A, B, C} as {1, 2, 3}; ballots [A,B,C], [B,A,C], [C,B,A]
    let mut poll = Poll::new(vec![1, 2, 3]);
    assert_eq!(poll.add_ballot(vec![1, 2, 3]), Ok(()));
    assert_eq!(poll.add_ballot(vec![2, 1, 3]), Ok(()));
    assert_eq!(poll.add_ballot(vec![3, 2, 1]), Ok(()));

    let mut it = poll.start_rounds();

    // round 1: A=1, B=1, C=1; the tie-break eliminates the earliest in
    // table order, A
    let r1 = it.next().unwrap();
    assert_eq!(r1.round, 1);
    assert_eq!(r1.results, vec![(1, 1), (2, 1), (3, 1)]);
    assert_eq!(r1.loser, 1);
    assert_eq!(r1.votes, 1);

    // round 2: ballots [B,C], [B,C], [C,B]: B=2, C=1, C out
    let r2 = it.next().unwrap();
    assert_eq!(r2.round, 2);
    assert_eq!(r2.results, vec![(2, 2), (3, 1)]);
    assert_eq!(r2.loser, 3);
    assert_eq!(r2.votes, 1);

    // round 3: every ballot reads [B]: B=3, B out — the implicit winner
    let r3 = it.next().unwrap();
    assert_eq!(r3.round, 3);
    assert_eq!(r3.results, vec![(2, 3)]);
    assert_eq!(r3.loser, 2);
    assert_eq!(r3.votes, 3);

    // the ballots are exhausted: no further round
    assert!(it.next().is_none());
}

#[test]
fn tally_conservation_each_round() {
    let mut poll = Poll::new(vec![10, 20, 30, 40]);
    let ballots: [[u64; 4]; 5] = [
        [10, 20, 30, 40],
        [20, 10, 40, 30],
        [20, 30, 10, 40],
        [40, 30, 20, 10],
        [30, 40, 20, 10],
    ];
    for b in ballots.iter() {
        assert_eq!(poll.add_ballot(b.to_vec()), Ok(()));
    }
    let mut it = poll.start_rounds();
    let rounds = it.collect_rounds();
    assert_eq!(rounds.len(), 4);
    for r in rounds.iter() {
        let total: usize = r.results.iter().map(|p| p.1).sum();
        assert_eq!(total, 5);
    }
}

#[test]
fn round_numbers_and_shrinkage() {
    let mut poll = Poll::new(vec![1, 2, 3, 4, 5]);
    assert_eq!(poll.add_ballot(vec![5, 4, 3, 2, 1]), Ok(()));
    assert_eq!(poll.add_ballot(vec![4, 5, 1, 2, 3]), Ok(()));
    let mut it = poll.start_rounds();
    let rounds = it.collect_rounds();
    assert_eq!(rounds.len(), 5);
    for (i, r) in rounds.iter().enumerate() {
        assert_eq!(r.round, i + 1);
        assert_eq!(r.results.len(), 5 - i);
    }
}

#[test]
fn termination_with_no_ballots() {
    // with zero ballots every round tallies all zeros and the tie-break
    // walks the table in order, one elimination per round
    let mut it = Poll::new(vec![4, 5, 6]).start_rounds();
    let rounds = it.collect_rounds();
    assert_eq!(rounds.len(), 3);
    assert_eq!(rounds[0].loser, 4);
    assert_eq!(rounds[1].loser, 5);
    assert_eq!(rounds[2].loser, 6);
    for r in rounds.iter() {
        assert_eq!(r.votes, 0);
        assert!(r.results.iter().all(|p| p.1 == 0));
    }
}

#[test]
fn empty_candidate_table_yields_no_rounds() {
    let poll = Poll::new(Vec::new());
    let mut it = poll.start_rounds();
    assert!(it.next().is_none());
    let mut it2 = poll.start_rounds();
    assert_eq!(it2.collect_rounds().len(), 0);
}

#[test]
fn single_candidate_election() {
    let mut poll = Poll::new(vec![7]);
    assert_eq!(poll.add_ballot(vec![7]), Ok(()));
    assert_eq!(poll.add_ballot(vec![7]), Ok(()));
    let mut it = poll.start_rounds();
    let r1 = it.next().unwrap();
    assert_eq!(r1.loser, 7);
    assert_eq!(r1.votes, 2);
    assert_eq!(r1.round, 1);
    assert!(it.next().is_none());
}

#[test]
fn tabulation_is_idempotent() {
    let mut poll = Poll::new(vec![1, 2, 3, 4]);
    assert_eq!(poll.add_ballot(vec![2, 1, 4, 3]), Ok(()));
    assert_eq!(poll.add_ballot(vec![3, 4, 1, 2]), Ok(()));
    assert_eq!(poll.add_ballot(vec![2, 3, 4, 1]), Ok(()));
    let first = summary(&poll.start_rounds().collect_rounds());
    let second = summary(&poll.start_rounds().collect_rounds());
    assert_eq!(first, second);
    assert_eq!(first.len(), 4);
}

#[test]
fn generated_ballots_are_permutations() {
    let candidates: Vec<u64> = vec![3, 1, 4, 15, 9, 2, 6];
    let poll = Poll::new(candidates.clone());
    let mut sorted_candidates = candidates;
    sorted_candidates.sort();
    for _ in 0..50 {
        let ballot = poll.generate_ballot();
        let mut sorted_ballot = ballot.clone();
        sorted_ballot.sort();
        assert_eq!(sorted_ballot, sorted_candidates);
    }
}

#[test]
fn generated_ballots_validate() {
    let mut poll = Poll::new(vec![0, 1, 2, 3, 4, 5, 6, 7, 8, 9]);
    for _ in 0..100 {
        let ballot = poll.generate_ballot();
        assert_eq!(poll.add_ballot(ballot), Ok(()));
    }
    let mut it = poll.start_rounds();
    let rounds = it.collect_rounds();
    assert_eq!(rounds.len(), 10);
    for (i, r) in rounds.iter().enumerate() {
        assert_eq!(r.round, i + 1);
        let total: usize = r.results.iter().map(|p| p.1).sum();
        assert_eq!(total, 100);
    }
}
