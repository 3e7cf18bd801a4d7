//! The poll: a fixed, duplicate-free table of candidate ids and the
//! accumulated list of accepted ballots. Submission validates each ballot
//! against the table; tabulation runs on a snapshot, leaving the poll
//! untouched.

use vstd::prelude::*;

use rand::seq::SliceRandom;

use crate::ballot::ballot_verdict;
use crate::ballot::entry_ok;
use crate::ballot::is_permutation_of;
use crate::ballot::lemma_missing_prefix;
use crate::ballot::lemma_scan_prefix;
use crate::ballot::lemma_validation_complete;
use crate::ballot::BallotError;
use crate::rounds::copy_ids;
use crate::rounds::PollRound;
use crate::rounds::RoundIterator;

verus! {

/// An election in progress: the candidate table and the ballots accepted so
/// far.
pub struct Poll {
    pub candidates: Vec<u64>,
    pub ballots: Vec<Vec<u64>>,
}

/// Relies on rand's `SliceRandom::shuffle` (driven by `rand::thread_rng`): a
/// Fisher-Yates shuffle permutes the slice in place by swaps, so the result
/// holds exactly the given ids with the same multiplicities, in an order
/// drawn from the generator.
#[verifier::external_body]
fn shuffled(ids: Vec<u64>) -> (r: Vec<u64>)
    ensures
        r@.to_multiset() == ids@.to_multiset(),
{
    let mut w = ids;
    w.shuffle(&mut rand::thread_rng());
    w
}

impl Poll {
    /// The stored ballots as mathematical sequences.
    pub open spec fn ballot_views(&self) -> Seq<Seq<u64>> {
        self.ballots@.map_values(|b: Vec<u64>| b@)
    }

    /// Well-formed poll: the candidate table is duplicate-free and every
    /// stored ballot ranks exactly the candidates.
    pub open spec fn wf(&self) -> bool {
        &&& self.candidates@.no_duplicates()
        &&& forall|i: int|
            0 <= i < self.ballots@.len() ==> is_permutation_of(
                (#[trigger] self.ballots@[i])@,
                self.candidates@,
            )
    }

    /// Open a poll over the given candidate table, with no ballots yet. The
    /// caller supplies the table free of duplicates, as a set would.
    pub fn new(candidates: Vec<u64>) -> (p: Poll)
        requires
            candidates@.no_duplicates(),
        ensures
            p.wf(),
            p.candidates@ == candidates@,
            p.ballots@.len() == 0,
    {
        Poll { candidates, ballots: Vec::new() }
    }

    /// Produce one complete ranking of the candidates, shuffled uniformly at
    /// random so that repeated ballots carry no table-order bias. Whatever
    /// order comes back, the result is a permutation of the candidate table,
    /// so submitting it always succeeds.
    pub fn generate_ballot(&self) -> (r: Vec<u64>)
        ensures
            r@.to_multiset() == self.candidates@.to_multiset(),
    {
        shuffled(copy_ids(&self.candidates))
    }

    /// Validate one ballot and, if it is a permutation of the candidate
    /// table, store it. A ballot naming an unregistered candidate is
    /// rejected as `ExtraCandidate`, one ranking a candidate twice as
    /// `DuplicateCandidate`, one omitting a candidate as `MissingCandidate`
    /// — always reporting the first offence found, and leaving the poll
    /// unchanged on rejection.
    pub fn add_ballot(&mut self, ballot: Vec<u64>) -> (r: Result<(), BallotError>)
        requires
            old(self).wf(),
        ensures
            final(self).wf(),
            r == ballot_verdict(old(self).candidates@, ballot@),
            (r is Ok) <==> is_permutation_of(ballot@, old(self).candidates@),
            final(self).candidates@ == old(self).candidates@,
            r is Ok ==> final(self).ballot_views() == old(self).ballot_views().push(ballot@),
            r is Err ==> *final(self) == *old(self),
    {
        let ghost cands = self.candidates@;
        proof {
            lemma_validation_complete(cands, ballot@);
        }
        let n = self.candidates.len();
        let bl = ballot.len();

        // A per-call "seen" flag for every registered candidate.
        let mut seen: Vec<bool> = Vec::new();
        let mut k: usize = 0;
        while k < n
            invariant
                k <= n,
                seen@.len() == k,
                forall|t: int| 0 <= t < k ==> !(#[trigger] seen@[t]),
            decreases n - k,
        {
            seen.push(false);
            k = k + 1;
        }

        // Walk the ballot: every entry must name a registered, not yet seen
        // candidate.
        let mut i: usize = 0;
        while i < bl
            invariant
                i <= bl,
                bl == ballot@.len(),
                n == self.candidates@.len(),
                *self == *old(self),
                old(self).wf(),
                cands == self.candidates@,
                cands.no_duplicates(),
                seen@.len() == n,
                forall|k2: int| 0 <= k2 < i ==> entry_ok(cands, ballot@, k2),
                forall|t: int|
                    0 <= t < n ==> ((#[trigger] seen@[t]) <==> exists|j: int|
                        0 <= j < i && ballot@[j] == cands[t]),
            decreases bl - i,
        {
            let v = ballot[i];
            match crate::rounds::find_candidate(&self.candidates, v) {
                None => {
                    proof {
                        lemma_scan_prefix(cands, ballot@, i as int);
                        lemma_validation_complete(cands, ballot@);
                    }
                    return Err(BallotError::ExtraCandidate(v));
                },
                Some(idx) => {
                    if seen[idx] {
                        proof {
                            lemma_scan_prefix(cands, ballot@, i as int);
                            let j = choose|j: int| 0 <= j < i && ballot@[j] == cands[idx as int];
                            assert(0 <= j < i && ballot@[j] == ballot@[i as int]);
                            lemma_validation_complete(cands, ballot@);
                        }
                        return Err(BallotError::DuplicateCandidate(v));
                    }
                    seen.set(idx, true);
                    proof {
                        assert(entry_ok(cands, ballot@, i as int)) by {
                            assert(cands.contains(ballot@[i as int])) by {
                                assert(cands[idx as int] == v);
                            }
                            assert forall|j: int| 0 <= j < i implies ballot@[j] != ballot@[i as int] by {
                                if ballot@[j] == ballot@[i as int] {
                                    assert(seen@[idx as int]);
                                }
                            }
                        }
                        assert forall|t: int|
                            0 <= t < n implies ((#[trigger] seen@[t]) <==> exists|j: int|
                            0 <= j < i + 1 && ballot@[j] == cands[t]) by {
                            if t == idx {
                                assert(ballot@[i as int] == cands[t]);
                                assert(seen@[t]);
                            } else {
                                assert(cands[t] != cands[idx as int]);
                                if seen@[t] {
                                    let j = choose|j: int| 0 <= j < i && ballot@[j] == cands[t];
                                    assert(0 <= j < i + 1 && ballot@[j] == cands[t]);
                                }
                                if exists|j: int| 0 <= j < i + 1 && ballot@[j] == cands[t] {
                                    let j = choose|j: int|
                                        0 <= j < i + 1 && ballot@[j] == cands[t];
                                    assert(ballot@[i as int] == cands[idx as int]);
                                    assert(j < i);
                                }
                            }
                        }
                    }
                },
            }
            i = i + 1;
        }

        // Every registered candidate must have been seen somewhere.
        let mut k2: usize = 0;
        while k2 < n
            invariant
                k2 <= n,
                bl == ballot@.len(),
                n == self.candidates@.len(),
                *self == *old(self),
                old(self).wf(),
                cands == self.candidates@,
                cands.no_duplicates(),
                seen@.len() == n,
                forall|c: int| 0 <= c < bl ==> entry_ok(cands, ballot@, c),
                forall|t: int|
                    0 <= t < n ==> ((#[trigger] seen@[t]) <==> exists|j: int|
                        0 <= j < bl && ballot@[j] == cands[t]),
                forall|m2: int| 0 <= m2 < k2 ==> ballot@.contains(#[trigger] cands[m2]),
            decreases n - k2,
        {
            if !seen[k2] {
                proof {
                    lemma_scan_prefix(cands, ballot@, bl as int);
                    lemma_missing_prefix(cands, ballot@, k2 as int);
                    assert(!ballot@.contains(cands[k2 as int])) by {
                        if ballot@.contains(cands[k2 as int]) {
                            let j = choose|j: int|
                                0 <= j < bl && ballot@[j] == cands[k2 as int];
                            assert(seen@[k2 as int]);
                        }
                    }
                    lemma_validation_complete(cands, ballot@);
                }
                return Err(BallotError::MissingCandidate(self.candidates[k2]));
            }
            proof {
                assert(seen@[k2 as int]);
                let j = choose|j: int| 0 <= j < bl && ballot@[j] == cands[k2 as int];
                assert(ballot@.contains(cands[k2 as int]));
            }
            k2 = k2 + 1;
        }

        proof {
            lemma_scan_prefix(cands, ballot@, bl as int);
            lemma_missing_prefix(cands, ballot@, n as int);
        }
        let ghost before = *self;
        self.ballots.push(ballot);
        proof {
            assert(self.ballot_views() =~= before.ballot_views().push(ballot@));
            assert forall|i2: int|
                0 <= i2 < self.ballots@.len() implies is_permutation_of(
                (#[trigger] self.ballots@[i2])@,
                cands,
            ) by {
                if i2 < before.ballots@.len() {
                    assert(self.ballots@[i2] == before.ballots@[i2]);
                } else {
                    assert(self.ballots@[i2]@ == ballot@);
                }
            }
        }
        Ok(())
    }

    /// Begin tabulation on a snapshot of the accepted ballots; the poll is
    /// read-only to the rounds and can be tabulated again later.
    pub fn start_rounds(&self) -> (r: RoundIterator)
        requires
            self.wf(),
        ensures
            r.wf(),
            r.curr_round.candidates@ == self.candidates@,
            r.curr_round.ballot_views() == self.ballot_views(),
            r.curr_round.last_round == 0,
    {
        PollRound::first_round(self)
    }
}

} // verus!
