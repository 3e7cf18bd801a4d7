//! The elimination engine: round-by-round tallies over a snapshot of the
//! poll's ballots. Each round counts every ballot's current first preference,
//! eliminates the candidate with the fewest votes — on a tie, the earliest
//! such candidate in table order, a documented deterministic rule — and
//! rewrites the state with that candidate struck from the survivor table and
//! from every ballot.

use vstd::prelude::*;

use crate::ballot::is_permutation_of;
use crate::ballot::lemma_permutation_properties;
use crate::poll::Poll;

verus! {

broadcast use vstd::seq_lib::group_to_multiset_ensures, vstd::multiset::group_multiset_axioms;

/// The outcome of one elimination round.
pub struct PollResult {
    /// The candidate eliminated this round.
    pub loser: u64,
    /// The loser's first-preference vote count at elimination.
    pub votes: usize,
    /// Every surviving candidate of this round, in table order, with its
    /// first-preference vote count.
    pub results: Vec<(u64, usize)>,
    /// The 1-based round number.
    pub round: usize,
}

/// The state a round starts from: the surviving candidates, every ballot
/// trimmed to those survivors, and the number of the round just finished.
pub struct PollRound {
    pub candidates: Vec<u64>,
    pub ballots: Vec<Vec<u64>>,
    pub last_round: usize,
}

/// Pulls one round after another out of the engine until the election is
/// over.
pub struct RoundIterator {
    pub curr_round: PollRound,
}

/// How many ballots currently rank `c` first.
pub open spec fn first_pref_count(ballots: Seq<Seq<u64>>, c: u64) -> nat
    decreases ballots.len(),
{
    if ballots.len() == 0 {
        0
    } else {
        first_pref_count(ballots.drop_last(), c) + (if ballots.last().len() > 0
            && ballots.last()[0] == c {
            1nat
        } else {
            0nat
        })
    }
}

/// The position of the round's loser in the candidate table: scanning the
/// table left to right, the first candidate whose tally is strictly smaller
/// than every tally before it and no larger than any after it.
pub open spec fn loser_index(cands: Seq<u64>, ballots: Seq<Seq<u64>>) -> int
    decreases cands.len(),
{
    if cands.len() <= 1 {
        0
    } else {
        let r = loser_index(cands.drop_last(), ballots);
        if first_pref_count(ballots, cands.last()) < first_pref_count(ballots, cands[r]) {
            cands.len() - 1
        } else {
            r
        }
    }
}

/// The candidate eliminated from this state.
pub open spec fn round_loser(cands: Seq<u64>, ballots: Seq<Seq<u64>>) -> u64 {
    cands[loser_index(cands, ballots)]
}

/// A ballot with every entry equal to `loser` dropped, order preserved.
pub open spec fn strike(b: Seq<u64>, loser: u64) -> Seq<u64>
    decreases b.len(),
{
    if b.len() == 0 {
        Seq::empty()
    } else if b.last() == loser {
        strike(b.drop_last(), loser)
    } else {
        strike(b.drop_last(), loser).push(b.last())
    }
}

/// Every ballot with the loser struck.
pub open spec fn strike_all(ballots: Seq<Seq<u64>>, loser: u64) -> Seq<Seq<u64>> {
    ballots.map_values(|b: Seq<u64>| strike(b, loser))
}

/// The candidate table with this round's loser removed.
pub open spec fn surviving(cands: Seq<u64>, ballots: Seq<Seq<u64>>) -> Seq<u64> {
    cands.remove(loser_index(cands, ballots))
}

/// The full tally of a round: every surviving candidate, in table order,
/// paired with its first-preference count.
pub open spec fn tally_pairs(cands: Seq<u64>, ballots: Seq<Seq<u64>>) -> Seq<(u64, nat)> {
    Seq::new(cands.len(), |k: int| (cands[k], first_pref_count(ballots, cands[k])))
}

/// The sum of the vote counts in a tally snapshot.
pub open spec fn pair_sum(results: Seq<(u64, usize)>) -> int
    decreases results.len(),
{
    if results.len() == 0 {
        0
    } else {
        pair_sum(results.drop_last()) + results.last().1
    }
}

/// The sum of the first-preference counts of the candidates in `cands`.
pub open spec fn count_sum(cands: Seq<u64>, ballots: Seq<Seq<u64>>) -> nat
    decreases cands.len(),
{
    if cands.len() == 0 {
        0
    } else {
        count_sum(cands.drop_last(), ballots) + first_pref_count(ballots, cands.last())
    }
}

/// What a yielded result must report about the state it was computed from:
/// the loser and its votes, the round number, the full tally in table order,
/// and the tally summing to the ballot count.
pub open spec fn reports_round(
    cands: Seq<u64>,
    bv: Seq<Seq<u64>>,
    number: int,
    res: PollResult,
) -> bool {
    &&& res.loser == round_loser(cands, bv)
    &&& res.votes as nat == first_pref_count(bv, round_loser(cands, bv))
    &&& res.round == number
    &&& res.results@.len() == cands.len()
    &&& (forall|k: int|
        0 <= k < cands.len() ==> (#[trigger] res.results@[k]).0 == cands[k]
            && res.results@[k].1 as nat == first_pref_count(bv, cands[k]))
    &&& pair_sum(res.results@) == bv.len()
}

/// The loser's position is in range, its tally is a minimum, and every
/// earlier candidate's tally is strictly larger.
pub proof fn lemma_loser_index_props(cands: Seq<u64>, ballots: Seq<Seq<u64>>)
    requires
        cands.len() > 0,
    ensures
        0 <= loser_index(cands, ballots) < cands.len(),
        forall|j: int|
            0 <= j < cands.len() ==> first_pref_count(ballots, round_loser(cands, ballots))
                <= first_pref_count(ballots, #[trigger] cands[j]),
        forall|j: int|
            0 <= j < loser_index(cands, ballots) ==> first_pref_count(ballots, #[trigger] cands[j])
                > first_pref_count(ballots, round_loser(cands, ballots)),
    decreases cands.len(),
{
    if cands.len() > 1 {
        let prefix = cands.drop_last();
        lemma_loser_index_props(prefix, ballots);
        let r = loser_index(prefix, ballots);
        assert(forall|j: int| 0 <= j < prefix.len() ==> prefix[j] == cands[j]);
        assert(round_loser(prefix, ballots) == cands[r]);
        let li = loser_index(cands, ballots);
        if first_pref_count(ballots, cands.last()) < first_pref_count(ballots, cands[r]) {
            assert(li == cands.len() - 1);
            assert(cands[li] == cands.last());
        } else {
            assert(li == r);
        }
    }
}

/// A candidate's first-preference count never exceeds the number of ballots.
proof fn lemma_count_le_len(ballots: Seq<Seq<u64>>, c: u64)
    ensures
        first_pref_count(ballots, c) <= ballots.len(),
    decreases ballots.len(),
{
    if ballots.len() > 0 {
        lemma_count_le_len(ballots.drop_last(), c);
    }
}

/// Removing one entry from a duplicate-free sequence leaves it
/// duplicate-free.
proof fn lemma_remove_no_duplicates(cands: Seq<u64>, li: int)
    requires
        cands.no_duplicates(),
        0 <= li < cands.len(),
    ensures
        cands.remove(li).no_duplicates(),
{
    cands.remove_ensures(li);
    let r = cands.remove(li);
    assert forall|p: int, q: int| 0 <= p < r.len() && 0 <= q < r.len() && p != q implies r[p]
        != r[q] by {
        assert(r[p] == if p < li { cands[p] } else { cands[p + 1] });
        assert(r[q] == if q < li { cands[q] } else { cands[q + 1] });
    }
}

/// Striking a value removes every occurrence of it and nothing else.
proof fn lemma_strike_multiset(s: Seq<u64>, v: u64)
    ensures
        strike(s, v).to_multiset().count(v) == 0,
        forall|x: u64| x != v ==> strike(s, v).to_multiset().count(x) == s.to_multiset().count(x),
    decreases s.len(),
{
    if s.len() == 0 {
        assert(!strike(s, v).contains(v));
    } else {
        let dl = s.drop_last();
        lemma_strike_multiset(dl, v);
        assert(s =~= dl.push(s.last()));
        assert(s.to_multiset() == dl.to_multiset().insert(s.last()));
        if s.last() == v {
            assert(strike(s, v) == strike(dl, v));
        } else {
            assert(strike(s, v) == strike(dl, v).push(s.last()));
            assert(strike(s, v).to_multiset() == strike(dl, v).to_multiset().insert(s.last()));
        }
    }
}

/// Striking the round's loser from a permutation of the survivors leaves a
/// permutation of the survivors that remain.
proof fn lemma_strike_permutation(cands: Seq<u64>, b: Seq<u64>, li: int)
    requires
        cands.no_duplicates(),
        is_permutation_of(b, cands),
        0 <= li < cands.len(),
    ensures
        is_permutation_of(strike(b, cands[li]), cands.remove(li)),
{
    let v = cands[li];
    lemma_strike_multiset(b, v);
    cands.lemma_multiset_has_no_duplicates();
    assert(cands.contains(v));
    assert(cands.to_multiset().count(v) == 1);
    assert(cands.remove(li).to_multiset() == cands.to_multiset().remove(v));
    assert forall|x: u64|
        strike(b, v).to_multiset().count(x) == cands.remove(li).to_multiset().count(x) by {
        if x == v {
        } else {
            assert(strike(b, v).to_multiset().count(x) == b.to_multiset().count(x));
        }
    }
    assert(strike(b, v).to_multiset() =~= cands.remove(li).to_multiset());
}

/// Appending one ballot raises the tally sum by one exactly when the new
/// ballot's first preference is a surviving candidate.
proof fn lemma_count_sum_drop(cands: Seq<u64>, ballots: Seq<Seq<u64>>)
    requires
        cands.no_duplicates(),
        ballots.len() > 0,
    ensures
        count_sum(cands, ballots) == count_sum(cands, ballots.drop_last()) + (if ballots.last().len()
            > 0 && cands.contains(ballots.last()[0]) {
            1int
        } else {
            0int
        }),
    decreases cands.len(),
{
    if cands.len() > 0 {
        let dc = cands.drop_last();
        assert(dc.no_duplicates()) by {
            assert(forall|p: int| 0 <= p < dc.len() ==> dc[p] == cands[p]);
        }
        lemma_count_sum_drop(dc, ballots);
        if ballots.last().len() > 0 {
            let v = ballots.last()[0];
            // the new vote counts toward exactly one of: the last table entry,
            // or some earlier entry — never both, the table being duplicate-free
            if cands.last() == v {
                if dc.contains(v) {
                    let i = choose|i: int| 0 <= i < dc.len() && dc[i] == v;
                    assert(cands[i] == v && cands[cands.len() - 1] == v);
                    assert(false);
                }
                assert(cands.contains(v)) by {
                    assert(cands[cands.len() - 1] == v);
                }
            } else {
                assert(cands.contains(v) <==> dc.contains(v)) by {
                    if cands.contains(v) {
                        let i = choose|i: int| 0 <= i < cands.len() && cands[i] == v;
                        assert(i < cands.len() - 1);
                        assert(dc[i] == v);
                    }
                    if dc.contains(v) {
                        let i = choose|i: int| 0 <= i < dc.len() && dc[i] == v;
                        assert(cands[i] == v);
                    }
                }
            }
        }
    }
}

/// Tally conservation: when every ballot is non-empty and led by a surviving
/// candidate, the per-candidate first-preference counts sum to the number of
/// ballots — every ballot contributes exactly one vote.
pub proof fn lemma_tally_conservation(cands: Seq<u64>, ballots: Seq<Seq<u64>>)
    requires
        cands.no_duplicates(),
        forall|i: int|
            0 <= i < ballots.len() ==> (#[trigger] ballots[i]).len() > 0 && cands.contains(
                ballots[i][0],
            ),
    ensures
        count_sum(cands, ballots) == ballots.len(),
    decreases ballots.len(),
{
    if ballots.len() == 0 {
        lemma_count_sum_empty(cands, ballots);
    } else {
        let db = ballots.drop_last();
        assert(forall|i: int| 0 <= i < db.len() ==> db[i] == ballots[i]);
        lemma_tally_conservation(cands, db);
        lemma_count_sum_drop(cands, ballots);
        assert(ballots.last() == ballots[ballots.len() - 1]);
    }
}

/// With no ballots, every tally is zero.
proof fn lemma_count_sum_empty(cands: Seq<u64>, ballots: Seq<Seq<u64>>)
    requires
        ballots.len() == 0,
    ensures
        count_sum(cands, ballots) == 0,
    decreases cands.len(),
{
    if cands.len() > 0 {
        lemma_count_sum_empty(cands.drop_last(), ballots);
    }
}

/// A tally snapshot whose entries match the per-candidate counts sums to the
/// same total.
proof fn lemma_pair_sum_matches(cands: Seq<u64>, ballots: Seq<Seq<u64>>, results: Seq<(u64, usize)>)
    requires
        results.len() == cands.len(),
        forall|k: int|
            0 <= k < results.len() ==> (#[trigger] results[k]).1 as nat == first_pref_count(
                ballots,
                cands[k],
            ),
    ensures
        pair_sum(results) == count_sum(cands, ballots),
    decreases cands.len(),
{
    if cands.len() > 0 {
        let dc = cands.drop_last();
        let dr = results.drop_last();
        assert(forall|k: int| 0 <= k < dc.len() ==> dc[k] == cands[k]);
        assert(forall|k: int| 0 <= k < dr.len() ==> dr[k] == results[k]);
        lemma_pair_sum_matches(dc, ballots, dr);
        assert(results.last() == results[results.len() - 1]);
        assert(results.last().1 as nat == first_pref_count(ballots, cands.last()));
    }
}

/// Everything one round reports, as mathematical values: the loser, its vote
/// count, the full tally in table order, and the round number.
pub open spec fn round_record(cands: Seq<u64>, ballots: Seq<Seq<u64>>, number: int) -> (
    u64,
    nat,
    Seq<(u64, nat)>,
    int,
) {
    (
        round_loser(cands, ballots),
        first_pref_count(ballots, round_loser(cands, ballots)),
        tally_pairs(cands, ballots),
        number,
    )
}

/// The complete sequence of round records that tabulation of a state yields,
/// numbering its rounds from `base + 1` on.
pub open spec fn round_records(cands: Seq<u64>, ballots: Seq<Seq<u64>>, base: int) -> Seq<
    (u64, nat, Seq<(u64, nat)>, int),
>
    decreases cands.len(),
    via round_records_decreases
{
    if cands.len() == 0 {
        Seq::empty()
    } else {
        seq![round_record(cands, ballots, base + 1)] + round_records(
            surviving(cands, ballots),
            strike_all(ballots, round_loser(cands, ballots)),
            base + 1,
        )
    }
}

#[via_fn]
proof fn round_records_decreases(cands: Seq<u64>, ballots: Seq<Seq<u64>>, base: int) {
    if cands.len() > 0 {
        lemma_loser_index_props(cands, ballots);
    }
}

/// What a yielded result reports, as a record.
pub open spec fn result_record(res: PollResult) -> (u64, nat, Seq<(u64, nat)>, int) {
    (
        res.loser,
        res.votes as nat,
        res.results@.map_values(|p: (u64, usize)| (p.0, p.1 as nat)),
        res.round as int,
    )
}

/// The records of a whole sequence of yielded results.
pub open spec fn result_records(v: Seq<PollResult>) -> Seq<(u64, nat, Seq<(u64, nat)>, int)> {
    v.map_values(|res: PollResult| result_record(res))
}

/// A result that reports a round correctly has that round's record.
proof fn lemma_reported_record(
    cands: Seq<u64>,
    ballots: Seq<Seq<u64>>,
    number: int,
    res: PollResult,
)
    requires
        reports_round(cands, ballots, number, res),
    ensures
        result_record(res) == round_record(cands, ballots, number),
{
    assert(result_record(res).2 =~= round_record(cands, ballots, number).2);
}

/// Termination: tabulation from a state with `n` surviving candidates yields
/// exactly `n` rounds before the sequence ends.
pub proof fn lemma_termination(cands: Seq<u64>, ballots: Seq<Seq<u64>>, base: int)
    ensures
        round_records(cands, ballots, base).len() == cands.len(),
    decreases cands.len(),
{
    if cands.len() > 0 {
        lemma_loser_index_props(cands, ballots);
        lemma_termination(
            surviving(cands, ballots),
            strike_all(ballots, round_loser(cands, ballots)),
            base + 1,
        );
    }
}

/// Monotonic shrinkage: round numbers climb by exactly one, starting at
/// `base + 1`, and each round's tally covers exactly one candidate fewer
/// than the round before — the survivor count strictly decreases by one.
pub proof fn lemma_monotonic_shrinkage(cands: Seq<u64>, ballots: Seq<Seq<u64>>, base: int)
    ensures
        forall|i: int|
            0 <= i < round_records(cands, ballots, base).len() ==> (#[trigger] round_records(
                cands,
                ballots,
                base,
            )[i]).3 == base + 1 + i && round_records(cands, ballots, base)[i].2.len() == cands.len()
                - i,
    decreases cands.len(),
{
    if cands.len() > 0 {
        lemma_loser_index_props(cands, ballots);
        let rest = round_records(
            surviving(cands, ballots),
            strike_all(ballots, round_loser(cands, ballots)),
            base + 1,
        );
        lemma_monotonic_shrinkage(
            surviving(cands, ballots),
            strike_all(ballots, round_loser(cands, ballots)),
            base + 1,
        );
        assert forall|i: int|
            0 <= i < round_records(cands, ballots, base).len() implies (#[trigger] round_records(
            cands,
            ballots,
            base,
        )[i]).3 == base + 1 + i && round_records(cands, ballots, base)[i].2.len() == cands.len()
            - i by {
            if i > 0 {
                assert(round_records(cands, ballots, base)[i] == rest[i - 1]);
            }
        }
    }
}

/// Idempotent tabulation: the round records are a pure function of the
/// stored candidates and ballots, so tabulating the same unmodified poll
/// twice yields identical results round for round.
pub proof fn lemma_tabulation_idempotent(
    cands1: Seq<u64>,
    ballots1: Seq<Seq<u64>>,
    cands2: Seq<u64>,
    ballots2: Seq<Seq<u64>>,
    base: int,
)
    requires
        cands1 == cands2,
        ballots1 == ballots2,
    ensures
        round_records(cands1, ballots1, base) == round_records(cands2, ballots2, base),
{
}

/// Linear search for a candidate's position in the table.
pub(crate) fn find_candidate(cands: &Vec<u64>, x: u64) -> (r: Option<usize>)
    ensures
        match r {
            Some(idx) => idx < cands@.len() && cands@[idx as int] == x,
            None => !cands@.contains(x),
        },
{
    let n = cands.len();
    let mut i: usize = 0;
    while i < n
        invariant
            i <= n,
            n == cands@.len(),
            forall|j: int| 0 <= j < i ==> cands@[j] != x,
        decreases n - i,
    {
        if cands[i] == x {
            return Some(i);
        }
        i = i + 1;
    }
    proof {
        if cands@.contains(x) {
            let j = choose|j: int| 0 <= j < cands@.len() && cands@[j] == x;
            assert(false);
        }
    }
    None
}

/// Copy a table of candidate ids.
pub(crate) fn copy_ids(v: &Vec<u64>) -> (r: Vec<u64>)
    ensures
        r@ == v@,
{
    let n = v.len();
    let mut r: Vec<u64> = Vec::new();
    let mut i: usize = 0;
    while i < n
        invariant
            i <= n,
            n == v@.len(),
            r@ == v@.subrange(0, i as int),
        decreases n - i,
    {
        r.push(v[i]);
        proof {
            assert(r@ =~= v@.subrange(0, i + 1));
        }
        i = i + 1;
    }
    proof {
        assert(v@.subrange(0, n as int) =~= v@);
    }
    r
}

/// Copy a collection of ballots.
pub(crate) fn copy_ballots(v: &Vec<Vec<u64>>) -> (r: Vec<Vec<u64>>)
    ensures
        r@.len() == v@.len(),
        forall|i: int| 0 <= i < v@.len() ==> (#[trigger] r@[i])@ == v@[i]@,
{
    let n = v.len();
    let mut r: Vec<Vec<u64>> = Vec::new();
    let mut i: usize = 0;
    while i < n
        invariant
            i <= n,
            n == v@.len(),
            r@.len() == i,
            forall|j: int| 0 <= j < i ==> (#[trigger] r@[j])@ == v@[j]@,
        decreases n - i,
    {
        let b = copy_ids(&v[i]);
        r.push(b);
        i = i + 1;
    }
    r
}

/// Drop every entry equal to `loser` from a ballot, preserving order.
fn strike_ballot(b: &Vec<u64>, loser: u64) -> (r: Vec<u64>)
    ensures
        r@ == strike(b@, loser),
{
    let n = b.len();
    let mut r: Vec<u64> = Vec::new();
    let mut i: usize = 0;
    proof {
        assert(b@.subrange(0, 0) =~= Seq::<u64>::empty());
        assert(r@ =~= strike(b@.subrange(0, 0), loser));
    }
    while i < n
        invariant
            i <= n,
            n == b@.len(),
            r@ == strike(b@.subrange(0, i as int), loser),
        decreases n - i,
    {
        proof {
            let s1 = b@.subrange(0, i + 1);
            assert(s1.drop_last() =~= b@.subrange(0, i as int));
            assert(s1.last() == b@[i as int]);
        }
        if b[i] != loser {
            r.push(b[i]);
        }
        i = i + 1;
    }
    proof {
        assert(b@.subrange(0, n as int) =~= b@);
    }
    r
}

impl PollRound {
    /// The stored ballots as mathematical sequences.
    pub open spec fn ballot_views(&self) -> Seq<Seq<u64>> {
        self.ballots@.map_values(|b: Vec<u64>| b@)
    }

    /// Well-formed round state: the survivor table is duplicate-free, every
    /// ballot ranks exactly the survivors (so all ballots shrink in
    /// lockstep), and the round counter cannot run out of room.
    pub open spec fn wf(&self) -> bool {
        &&& self.candidates@.no_duplicates()
        &&& forall|i: int|
            0 <= i < self.ballots@.len() ==> is_permutation_of(
                (#[trigger] self.ballots@[i])@,
                self.candidates@,
            )
        &&& self.last_round + self.candidates@.len() <= usize::MAX
    }

    /// Start the round sequence for a poll, on a snapshot of its ballots:
    /// the poll itself is left untouched.
    pub fn first_round(poll: &Poll) -> (r: RoundIterator)
        requires
            poll.wf(),
        ensures
            r.wf(),
            r.curr_round.candidates@ == poll.candidates@,
            r.curr_round.ballot_views() == poll.ballot_views(),
            r.curr_round.last_round == 0,
    {
        let n = poll.candidates.len();
        let candidates = copy_ids(&poll.candidates);
        let ballots = copy_ballots(&poll.ballots);
        let r = RoundIterator {
            curr_round: PollRound { candidates, ballots, last_round: 0 },
        };
        proof {
            assert(n <= usize::MAX);
            assert forall|i: int|
                0 <= i < r.curr_round.ballots@.len() implies is_permutation_of(
                (#[trigger] r.curr_round.ballots@[i])@,
                r.curr_round.candidates@,
            ) by {
                assert(r.curr_round.ballots@[i]@ == poll.ballots@[i]@);
            }
            assert(r.curr_round.ballot_views() =~= poll.ballot_views());
        }
        r
    }

    /// Play one round: tally first preferences, report and eliminate the
    /// loser, and build the next state. Returns nothing exactly when no
    /// candidate survives — under the lockstep invariant that is also the
    /// point where the ballots have run out of entries.
    pub fn next_round(&self) -> (r: Option<(PollResult, PollRound)>)
        requires
            self.wf(),
        ensures
            (r is None) <==> self.candidates@.len() == 0,
            (r matches Some(pair) ==> {
                let cands = self.candidates@;
                let bv = self.ballot_views();
                &&& reports_round(cands, bv, self.last_round + 1, pair.0)
                &&& pair.1.wf()
                &&& pair.1.candidates@ == surviving(cands, bv)
                &&& pair.1.ballot_views() == strike_all(bv, round_loser(cands, bv))
                &&& pair.1.last_round == self.last_round + 1
                &&& pair.1.candidates@.len() == cands.len() - 1
            }),
    {
        let n = self.candidates.len();
        if n == 0 {
            return None;
        }
        let m = self.ballots.len();
        let ghost cands = self.candidates@;
        let ghost bv = self.ballot_views();
        proof {
            assert(bv.len() == m);
            assert(forall|i: int| 0 <= i < m ==> bv[i] == self.ballots@[i]@);
        }

        // A zero tally for every surviving candidate.
        let mut tallies: Vec<usize> = Vec::new();
        let mut k: usize = 0;
        while k < n
            invariant
                k <= n,
                tallies@.len() == k,
                forall|t: int| 0 <= t < k ==> tallies@[t] == 0,
            decreases n - k,
        {
            tallies.push(0);
            k = k + 1;
        }

        // Every ballot contributes one vote to its current first preference.
        let mut bi: usize = 0;
        while bi < m
            invariant
                bi <= m,
                m == self.ballots@.len(),
                n == self.candidates@.len(),
                n > 0,
                cands == self.candidates@,
                bv == self.ballot_views(),
                self.wf(),
                tallies@.len() == n,
                forall|t: int|
                    0 <= t < n ==> (#[trigger] tallies@[t]) as nat == first_pref_count(
                        bv.subrange(0, bi as int),
                        cands[t],
                    ),
            decreases m - bi,
        {
            let ghost prefix = bv.subrange(0, bi as int);
            proof {
                assert(self.ballots@[bi as int]@ == bv[bi as int]);
                lemma_permutation_properties(cands, bv[bi as int]);
            }
            let vote = self.ballots[bi][0];
            let idx = match find_candidate(&self.candidates, vote) {
                Some(idx) => idx,
                None => {
                    proof {
                        assert(cands.contains(bv[bi as int][0]));
                    }
                    vstd::pervasive::unreached()
                },
            };
            let cur = tallies[idx];
            proof {
                lemma_count_le_len(prefix, cands[idx as int]);
            }
            tallies.set(idx, cur + 1);
            bi = bi + 1;
            proof {
                let next_prefix = bv.subrange(0, bi as int);
                assert(next_prefix.drop_last() =~= prefix);
                assert(next_prefix.last() == bv[bi - 1]);
                assert forall|t: int|
                    0 <= t < n implies (#[trigger] tallies@[t]) as nat == first_pref_count(
                        next_prefix,
                        cands[t],
                    ) by {
                    assert(first_pref_count(next_prefix, cands[t]) == first_pref_count(
                        prefix,
                        cands[t],
                    ) + (if next_prefix.last().len() > 0 && next_prefix.last()[0] == cands[t] {
                        1nat
                    } else {
                        0nat
                    }));
                    if t != idx {
                        assert(cands[t] != cands[idx as int]);
                    }
                }
            }
        }
        proof {
            assert(bv.subrange(0, m as int) =~= bv);
        }

        // The loser: the first candidate with the strictly smallest tally.
        let mut li: usize = 0;
        let mut j: usize = 1;
        proof {
            assert(loser_index(cands.subrange(0, 1), bv) == 0);
        }
        while j < n
            invariant
                1 <= j <= n,
                (li as int) < j,
                n == self.candidates@.len(),
                cands == self.candidates@,
                tallies@.len() == n,
                forall|t: int|
                    0 <= t < n ==> (#[trigger] tallies@[t]) as nat == first_pref_count(
                        bv,
                        cands[t],
                    ),
                li as int == loser_index(cands.subrange(0, j as int), bv),
            decreases n - j,
        {
            proof {
                let s0 = cands.subrange(0, j as int);
                let s1 = cands.subrange(0, j + 1);
                assert(s1.drop_last() =~= s0);
                assert(s1.last() == cands[j as int]);
                lemma_loser_index_props(s0, bv);
                assert(s1[li as int] == cands[li as int]);
            }
            if tallies[j] < tallies[li] {
                li = j;
            }
            j = j + 1;
        }
        proof {
            assert(cands.subrange(0, n as int) =~= cands);
            assert(li as int == loser_index(cands, bv));
            lemma_loser_index_props(cands, bv);
        }
        let loser = self.candidates[li];
        let votes = tallies[li];

        // The full tally snapshot, in table order.
        let mut results: Vec<(u64, usize)> = Vec::new();
        let mut t: usize = 0;
        while t < n
            invariant
                t <= n,
                n == self.candidates@.len(),
                cands == self.candidates@,
                tallies@.len() == n,
                forall|s: int|
                    0 <= s < n ==> (#[trigger] tallies@[s]) as nat == first_pref_count(
                        bv,
                        cands[s],
                    ),
                results@.len() == t,
                forall|s: int|
                    0 <= s < t ==> (#[trigger] results@[s]).0 == cands[s] && results@[s].1
                        as nat == first_pref_count(bv, cands[s]),
            decreases n - t,
        {
            results.push((self.candidates[t], tallies[t]));
            t = t + 1;
        }

        // The next state: the loser leaves the table and every ballot.
        let mut next_cands = copy_ids(&self.candidates);
        next_cands.remove(li);
        proof {
            lemma_remove_no_duplicates(cands, li as int);
        }

        let mut next_ballots: Vec<Vec<u64>> = Vec::new();
        let mut b2: usize = 0;
        while b2 < m
            invariant
                b2 <= m,
                m == self.ballots@.len(),
                bv == self.ballot_views(),
                self.wf(),
                loser == round_loser(cands, bv),
                cands == self.candidates@,
                next_ballots@.len() == b2,
                forall|s: int| 0 <= s < b2 ==> (#[trigger] next_ballots@[s])@ == strike(bv[s], loser),
            decreases m - b2,
        {
            proof {
                assert(self.ballots@[b2 as int]@ == bv[b2 as int]);
            }
            let nb = strike_ballot(&self.ballots[b2], loser);
            next_ballots.push(nb);
            b2 = b2 + 1;
        }

        let round_no = self.last_round + 1;
        let result = PollResult { loser, votes, results, round: round_no };
        let next = PollRound { candidates: next_cands, ballots: next_ballots, last_round: round_no };
        proof {
            // the reported tally sums to the number of ballots
            assert forall|i: int|
                0 <= i < bv.len() implies (#[trigger] bv[i]).len() > 0 && cands.contains(
                bv[i][0],
            ) by {
                assert(bv[i] == self.ballots@[i]@);
                lemma_permutation_properties(cands, bv[i]);
            }
            lemma_tally_conservation(cands, bv);
            lemma_pair_sum_matches(cands, bv, result.results@);

            // the next state is well-formed and is this state with the loser struck
            assert forall|i: int|
                0 <= i < next.ballots@.len() implies is_permutation_of(
                (#[trigger] next.ballots@[i])@,
                next.candidates@,
            ) by {
                assert(next.ballots@[i]@ == strike(bv[i], loser));
                assert(is_permutation_of(bv[i], cands));
                lemma_strike_permutation(cands, bv[i], li as int);
            }
            assert(next.ballot_views() =~= strike_all(bv, loser));
        }
        Some((result, next))
    }
}

impl RoundIterator {
    /// The iterator is ready to run: its current state is well-formed.
    pub open spec fn wf(&self) -> bool {
        self.curr_round.wf()
    }

    /// Advance by one elimination round, yielding its result, until the
    /// election is over.
    pub fn next(&mut self) -> (r: Option<PollResult>)
        requires
            old(self).wf(),
        ensures
            final(self).wf(),
            (r is None) <==> old(self).curr_round.candidates@.len() == 0,
            r is None ==> *final(self) == *old(self),
            (r matches Some(res) ==> {
                let cands = old(self).curr_round.candidates@;
                let bv = old(self).curr_round.ballot_views();
                &&& reports_round(cands, bv, old(self).curr_round.last_round + 1, res)
                &&& final(self).curr_round.candidates@ == surviving(cands, bv)
                &&& final(self).curr_round.ballot_views() == strike_all(
                    bv,
                    round_loser(cands, bv),
                )
                &&& final(self).curr_round.last_round == old(self).curr_round.last_round + 1
                &&& final(self).curr_round.candidates@.len() == cands.len() - 1
            }),
    {
        let round = self.curr_round.next_round();
        match round {
            Some((result, r)) => {
                self.curr_round = r;
                Some(result)
            },
            None => None,
        }
    }

    /// Pull rounds until the election is over, collecting every result. The
    /// collected records are exactly the tabulation of the starting state:
    /// one round per then-surviving candidate, so the whole run is fixed by
    /// the poll's stored candidates and ballots alone.
    pub fn collect_rounds(&mut self) -> (v: Vec<PollResult>)
        requires
            old(self).wf(),
        ensures
            final(self).wf(),
            v@.len() == old(self).curr_round.candidates@.len(),
            result_records(v@) == round_records(
                old(self).curr_round.candidates@,
                old(self).curr_round.ballot_views(),
                old(self).curr_round.last_round as int,
            ),
    {
        let ghost c0 = self.curr_round.candidates@;
        let ghost b0 = self.curr_round.ballot_views();
        let ghost r0 = self.curr_round.last_round as int;
        let ghost target = round_records(c0, b0, r0);
        let mut v: Vec<PollResult> = Vec::new();
        proof {
            assert(result_records(v@) =~= Seq::<(u64, nat, Seq<(u64, nat)>, int)>::empty());
        }
        loop
            invariant
                self.wf(),
                v@.len() + self.curr_round.candidates@.len() == c0.len(),
                result_records(v@) + round_records(
                    self.curr_round.candidates@,
                    self.curr_round.ballot_views(),
                    self.curr_round.last_round as int,
                ) == target,
                target == round_records(c0, b0, r0),
            ensures
                self.wf(),
                self.curr_round.candidates@.len() == 0,
                v@.len() == c0.len(),
                result_records(v@) + round_records(
                    self.curr_round.candidates@,
                    self.curr_round.ballot_views(),
                    self.curr_round.last_round as int,
                ) == target,
                target == round_records(c0, b0, r0),
            decreases self.curr_round.candidates@.len(),
        {
            let ghost cands = self.curr_round.candidates@;
            let ghost bv = self.curr_round.ballot_views();
            let ghost rn = self.curr_round.last_round as int;
            let ghost vprev = v@;
            match self.next() {
                None => {
                    break ;
                },
                Some(res) => {
                    v.push(res);
                    proof {
                        lemma_reported_record(cands, bv, rn + 1, res);
                        assert(result_records(v@) =~= result_records(vprev) + seq![
                            result_record(res),
                        ]);
                        assert(round_records(cands, bv, rn) == seq![
                            round_record(cands, bv, rn + 1),
                        ] + round_records(
                            surviving(cands, bv),
                            strike_all(bv, round_loser(cands, bv)),
                            rn + 1,
                        ));
                        assert(result_records(v@) + round_records(
                            self.curr_round.candidates@,
                            self.curr_round.ballot_views(),
                            self.curr_round.last_round as int,
                        ) =~= target);
                    }
                },
            }
        }
        proof {
            assert(round_records(
                self.curr_round.candidates@,
                self.curr_round.ballot_views(),
                self.curr_round.last_round as int,
            ) =~= Seq::<(u64, nat, Seq<(u64, nat)>, int)>::empty());
            assert(result_records(v@) =~= target);
        }
        v
    }
}

} // verus!
