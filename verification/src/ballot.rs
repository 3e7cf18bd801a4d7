//! Ballot validation: a ballot is accepted exactly when it is a permutation
//! of the registered candidate set. The verdict is specified by walking the
//! ballot in order, so that the reported error names the first offending
//! entry, as a voter would see it.

use vstd::prelude::*;

verus! {

/// Why a submitted ballot was rejected. Each variant carries the id of the
/// offending candidate, so that callers can branch on the kind.
#[derive(Debug, Clone, Copy, PartialEq, Eq, Structural)]
pub enum BallotError {
    /// The ballot ranks this registered candidate nowhere.
    MissingCandidate(u64),
    /// The ballot ranks this candidate more than once.
    DuplicateCandidate(u64),
    /// The ballot ranks a candidate outside the registered set.
    ExtraCandidate(u64),
}

/// The entry at position `i` of ballot `b` is acceptable: it names a
/// registered candidate and no earlier entry names the same candidate.
pub open spec fn entry_ok(cands: Seq<u64>, b: Seq<u64>, i: int) -> bool {
    &&& cands.contains(b[i])
    &&& forall|j: int| 0 <= j < i ==> b[j] != b[i]
}

/// Scan the registered candidates from position `k` for one that the ballot
/// ranks nowhere; the first such candidate (in registration order) decides
/// the `MissingCandidate` verdict.
pub open spec fn missing_verdict(cands: Seq<u64>, b: Seq<u64>, k: int) -> Result<(), BallotError>
    decreases cands.len() - k,
{
    if k < 0 || k >= cands.len() {
        Ok(())
    } else if !b.contains(cands[k]) {
        Err(BallotError::MissingCandidate(cands[k]))
    } else {
        missing_verdict(cands, b, k + 1)
    }
}

/// Walk the ballot from position `i`: the first entry that is not registered
/// decides `ExtraCandidate`, the first entry repeating an earlier one decides
/// `DuplicateCandidate`; if every entry is acceptable, the registered
/// candidates are scanned for an omission.
pub open spec fn scan_verdict(cands: Seq<u64>, b: Seq<u64>, i: int) -> Result<(), BallotError>
    decreases b.len() - i,
{
    if i < 0 || i >= b.len() {
        missing_verdict(cands, b, 0)
    } else if !cands.contains(b[i]) {
        Err(BallotError::ExtraCandidate(b[i]))
    } else if exists|j: int| 0 <= j < i && b[j] == b[i] {
        Err(BallotError::DuplicateCandidate(b[i]))
    } else {
        scan_verdict(cands, b, i + 1)
    }
}

/// The verdict of validating ballot `b` against the candidate sequence
/// `cands`.
pub open spec fn ballot_verdict(cands: Seq<u64>, b: Seq<u64>) -> Result<(), BallotError> {
    scan_verdict(cands, b, 0)
}

/// `b` ranks exactly the candidates of `cands`, each exactly once.
pub open spec fn is_permutation_of(b: Seq<u64>, cands: Seq<u64>) -> bool {
    b.to_multiset() == cands.to_multiset()
}

/// Skipping a prefix of acceptable entries does not change the verdict.
pub proof fn lemma_scan_prefix(cands: Seq<u64>, b: Seq<u64>, i: int)
    requires
        0 <= i <= b.len(),
        forall|k: int| 0 <= k < i ==> entry_ok(cands, b, k),
    ensures
        scan_verdict(cands, b, 0) == scan_verdict(cands, b, i),
    decreases i,
{
    if i > 0 {
        lemma_scan_prefix(cands, b, i - 1);
        assert(entry_ok(cands, b, i - 1));
        assert(scan_verdict(cands, b, i - 1) == scan_verdict(cands, b, i));
    }
}

/// Skipping a prefix of candidates the ballot does rank does not change the
/// outcome of the omission scan.
pub proof fn lemma_missing_prefix(cands: Seq<u64>, b: Seq<u64>, k: int)
    requires
        0 <= k <= cands.len(),
        forall|m: int| 0 <= m < k ==> b.contains(#[trigger] cands[m]),
    ensures
        missing_verdict(cands, b, 0) == missing_verdict(cands, b, k),
    decreases k,
{
    if k > 0 {
        lemma_missing_prefix(cands, b, k - 1);
        assert(b.contains(cands[k - 1]));
    }
}

/// What each outcome of the omission scan means.
proof fn lemma_missing_meaning(cands: Seq<u64>, b: Seq<u64>, k: int)
    requires
        0 <= k <= cands.len(),
    ensures
        match missing_verdict(cands, b, k) {
            Ok(()) => forall|m: int| k <= m < cands.len() ==> b.contains(#[trigger] cands[m]),
            Err(BallotError::MissingCandidate(c)) => cands.contains(c) && !b.contains(c),
            Err(_) => false,
        },
    decreases cands.len() - k,
{
    if k < cands.len() {
        if !b.contains(cands[k]) {
            assert(cands.contains(cands[k]));
        } else {
            lemma_missing_meaning(cands, b, k + 1);
        }
    }
}

/// What each verdict of the ballot walk means.
proof fn lemma_scan_meaning(cands: Seq<u64>, b: Seq<u64>, i: int)
    requires
        0 <= i <= b.len(),
    ensures
        match scan_verdict(cands, b, i) {
            Ok(()) => (forall|k: int| i <= k < b.len() ==> entry_ok(cands, b, k))
                && (forall|m: int| 0 <= m < cands.len() ==> b.contains(#[trigger] cands[m])),
            Err(BallotError::ExtraCandidate(c)) => !cands.contains(c) && b.contains(c),
            Err(BallotError::DuplicateCandidate(c)) => exists|p: int, q: int|
                0 <= p < q < b.len() && b[p] == c && b[q] == c,
            Err(BallotError::MissingCandidate(c)) => cands.contains(c) && !b.contains(c),
        },
    decreases b.len() - i,
{
    if i >= b.len() {
        lemma_missing_meaning(cands, b, 0);
    } else if !cands.contains(b[i]) {
        assert(b.contains(b[i]));
    } else if exists|j: int| 0 <= j < i && b[j] == b[i] {
        let j = choose|j: int| 0 <= j < i && b[j] == b[i];
        assert(0 <= j < i < b.len() && b[j] == b[i] && b[i] == b[i]);
    } else {
        lemma_scan_meaning(cands, b, i + 1);
        assert(entry_ok(cands, b, i));
    }
}

/// Two duplicate-free sequences over the same set of values hold the same
/// multiset.
pub proof fn lemma_same_set_unique_multiset(a: Seq<u64>, b: Seq<u64>)
    requires
        a.no_duplicates(),
        b.no_duplicates(),
        forall|x: u64| a.contains(x) <==> b.contains(x),
    ensures
        a.to_multiset() == b.to_multiset(),
{
    broadcast use vstd::seq_lib::group_to_multiset_ensures;

    a.lemma_multiset_has_no_duplicates();
    b.lemma_multiset_has_no_duplicates();
    assert forall|x: u64| a.to_multiset().count(x) == b.to_multiset().count(x) by {
        if a.contains(x) {
            assert(a.to_multiset().count(x) == 1);
            assert(b.to_multiset().count(x) == 1);
        } else {
            assert(a.to_multiset().count(x) == 0);
            assert(b.to_multiset().count(x) == 0);
        }
    }
    assert(a.to_multiset() =~= b.to_multiset());
}

/// A permutation of a duplicate-free candidate sequence is itself
/// duplicate-free, has the same length, and ranks exactly the candidates.
pub proof fn lemma_permutation_properties(cands: Seq<u64>, b: Seq<u64>)
    requires
        cands.no_duplicates(),
        is_permutation_of(b, cands),
    ensures
        b.no_duplicates(),
        b.len() == cands.len(),
        forall|i: int| 0 <= i < b.len() ==> cands.contains(#[trigger] b[i]),
        forall|m: int| 0 <= m < cands.len() ==> b.contains(#[trigger] cands[m]),
{
    broadcast use vstd::seq_lib::group_to_multiset_ensures;

    cands.lemma_multiset_has_no_duplicates();
    assert(b.len() == b.to_multiset().len());
    assert(cands.len() == cands.to_multiset().len());
    assert forall|x: u64| b.to_multiset().contains(x) implies b.to_multiset().count(x) == 1 by {
        assert(cands.to_multiset().count(x) > 0);
        assert(cands.contains(x));
    }
    b.lemma_multiset_has_no_duplicates_conv();
    assert forall|i: int| 0 <= i < b.len() implies cands.contains(#[trigger] b[i]) by {
        assert(b.contains(b[i]));
        assert(cands.to_multiset().count(b[i]) > 0);
    }
    assert forall|m: int| 0 <= m < cands.len() implies b.contains(#[trigger] cands[m]) by {
        assert(cands.contains(cands[m]));
        assert(b.to_multiset().count(cands[m]) > 0);
    }
}

/// Validation completeness: a ballot passes exactly when it is a permutation
/// of the candidate set; a ballot ranking an unregistered candidate fails
/// with `ExtraCandidate`, one ranking a candidate twice fails with
/// `DuplicateCandidate`, and one omitting a registered candidate fails with
/// `MissingCandidate` — each naming an actually offending candidate.
pub proof fn lemma_validation_complete(cands: Seq<u64>, b: Seq<u64>)
    requires
        cands.no_duplicates(),
    ensures
        ballot_verdict(cands, b) is Ok <==> is_permutation_of(b, cands),
        match ballot_verdict(cands, b) {
            Ok(()) => is_permutation_of(b, cands),
            Err(BallotError::ExtraCandidate(c)) => b.contains(c) && !cands.contains(c),
            Err(BallotError::DuplicateCandidate(c)) => exists|p: int, q: int|
                0 <= p < q < b.len() && b[p] == c && b[q] == c,
            Err(BallotError::MissingCandidate(c)) => cands.contains(c) && !b.contains(c),
        },
{
    lemma_scan_meaning(cands, b, 0);
    if ballot_verdict(cands, b) is Ok {
        // Every entry is acceptable, so the ballot is duplicate-free and
        // ranks only registered candidates; nothing is omitted either.
        assert(b.no_duplicates()) by {
            assert forall|p: int, q: int| 0 <= p < q < b.len() implies b[p] != b[q] by {
                assert(entry_ok(cands, b, q));
            }
        }
        assert forall|x: u64| b.contains(x) implies cands.contains(x) by {
            let i = choose|i: int| 0 <= i < b.len() && b[i] == x;
            assert(entry_ok(cands, b, i));
        }
        lemma_same_set_unique_multiset(b, cands);
    }
    if is_permutation_of(b, cands) {
        lemma_permutation_properties(cands, b);
        assert forall|k: int| 0 <= k < b.len() implies entry_ok(cands, b, k) by {
            assert forall|j: int| 0 <= j < k implies b[j] != b[k] by {
                assert(b.no_duplicates());
            }
        }
        lemma_scan_prefix(cands, b, b.len() as int);
        lemma_missing_prefix(cands, b, cands.len() as int);
    }
}

} // verus!
