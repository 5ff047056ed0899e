//! Per-round vote accumulation and quorum-certificate emission.
//!
//! An `Aggregator` instance collects votes (signed root digests) from distinct
//! authorities, adds each author's stake to its accumulated weight, and emits
//! a `Certificate` on exactly the call where the accumulated stake first
//! reaches the committee's quorum threshold. Emission snapshots the full vote
//! list and resets both the weight and the vote list, so later calls behave
//! as a fresh round; the set of authorities that have voted is kept, so no
//! authority is counted twice within one instance.

use vstd::prelude::*;
use crate::committee::Committee;
use crate::error::MempoolError;
use crate::error::MempoolResult;
use crate::primitives::Digest;
use crate::primitives::PublicKey;
use crate::primitives::Signature;
use crate::primitives::bytes_eq;

verus! {

/// The (author key, signature) pairs of a vote list, as plain byte sequences.
pub open spec fn votes_view(votes: Seq<(PublicKey, Signature)>) -> Seq<(Seq<u8>, Seq<u8>)> {
    votes.map_values(|v: (PublicKey, Signature)| (v.0@, v.1@))
}

/// The key bytes of a list of public keys.
pub open spec fn keys_view(keys: Seq<PublicKey>) -> Seq<Seq<u8>> {
    keys.map_values(|k: PublicKey| k@)
}

/// The accumulated weight after one more vote of the given stake: the sum,
/// unless it reaches the threshold, in which case the instance resets to 0.
pub open spec fn next_weight(weight: int, stake: int, threshold: int) -> int {
    if weight + stake >= threshold {
        0
    } else {
        weight + stake
    }
}

/// Whether one more vote of the given stake makes the instance emit a
/// certificate.
pub open spec fn emits(weight: int, stake: int, threshold: int) -> bool {
    weight + stake >= threshold
}

/// A quorum certificate: a root digest together with the votes whose combined
/// stake reached the quorum threshold when it was emitted. Immutable once
/// emitted; a downstream consensus layer must still verify the signatures and
/// the signers' stake for itself.
#[derive(Debug)]
pub struct Certificate {
    pub root: Digest,
    pub votes: Vec<(PublicKey, Signature)>,
}

/// The combined stake, under `c`, of the authors of a vote list.
pub open spec fn vote_stakes_sum(votes: Seq<(PublicKey, Signature)>, c: Committee) -> int
    decreases votes.len(),
{
    if votes.len() == 0 {
        0
    } else {
        vote_stakes_sum(votes.drop_last(), c) + c.stake_of(votes.last().0@)
    }
}

/// No author appears twice in a vote list.
pub open spec fn distinct_authors(votes: Seq<(PublicKey, Signature)>) -> bool {
    forall|i: int, j: int| 0 <= i < j < votes.len() ==> votes[i].0@ != votes[j].0@
}

/// A per-(round, root) vote accumulator with a single logical writer.
pub struct Aggregator {
    pub weight: u64,
    pub votes: Vec<(PublicKey, Signature)>,
    pub used: Vec<PublicKey>,
}

impl Aggregator {
    /// Whether `key` has already voted in this instance.
    pub open spec fn has_voted(self, key: Seq<u8>) -> bool {
        keys_view(self.used@).contains(key)
    }

    /// The aggregator's bookkeeping invariant under committee `c`: the
    /// accumulated weight is exactly the combined stake of the recorded
    /// votes, no author is counted twice, and every recorded vote's author
    /// is among the recorded authorities.
    pub open spec fn wf(self, c: Committee) -> bool {
        &&& self.weight as int == vote_stakes_sum(self.votes@, c)
        &&& distinct_authors(self.votes@)
        &&& forall|i: int|
            0 <= i < self.votes@.len() ==> self.has_voted(#[trigger] self.votes@[i].0@)
    }

    /// A fresh aggregator: no weight, no votes, no recorded authorities.
    pub fn new() -> (r: Self)
        ensures
            r.weight == 0,
            r.votes@.len() == 0,
            r.used@.len() == 0,
            forall|c: Committee| #[trigger] r.wf(c),
    {
        Aggregator { weight: 0, votes: Vec::new(), used: Vec::new() }
    }

    /// Try to append a signature to a (partial) quorum.
    ///
    /// A repeated author is rejected with `AuthorityReuse` and nothing
    /// changes. Otherwise the vote is recorded and the author's stake added;
    /// when the accumulated stake reaches the quorum threshold, the full vote
    /// list is emitted as a certificate over `root` and the weight and vote
    /// list reset, so the instance then behaves as a fresh round.
    pub fn append(
        &mut self,
        root: Digest,
        signature: Signature,
        author: PublicKey,
        committee: &Committee,
    ) -> (r: MempoolResult<Option<Certificate>>)
        requires
            !old(self).has_voted(author@) ==> old(self).weight + committee.stake_of(author@)
                <= u64::MAX,
        ensures
            old(self).has_voted(author@) ==> {
                &&& r matches Err(MempoolError::AuthorityReuse(a)) && a@ == author@
                &&& final(self).weight == old(self).weight
                &&& final(self).votes@ == old(self).votes@
                &&& final(self).used@ == old(self).used@
            },
            !old(self).has_voted(author@) ==> {
                let stake = committee.stake_of(author@);
                let threshold = committee.quorum_threshold_spec();
                &&& keys_view(final(self).used@) == keys_view(old(self).used@).push(author@)
                &&& final(self).weight == next_weight(old(self).weight as int, stake, threshold)
                &&& if emits(old(self).weight as int, stake, threshold) {
                    &&& r matches Ok(Some(c)) && c.root@ == root@ && votes_view(c.votes@)
                        == votes_view(old(self).votes@).push((author@, signature@))
                    &&& final(self).votes@.len() == 0
                } else {
                    &&& r matches Ok(None)
                    &&& votes_view(final(self).votes@) == votes_view(old(self).votes@).push(
                        (author@, signature@),
                    )
                }
            },
            old(self).wf(*committee) ==> final(self).wf(*committee),
            old(self).wf(*committee) ==> match r {
                Ok(Some(c)) => distinct_authors(c.votes@) && vote_stakes_sum(c.votes@, *committee)
                    >= committee.quorum_threshold_spec(),
                _ => true,
            },
    {
        // Ensure it is the first time this authority votes.
        if self.contains_used(&author) {
            return Err(MempoolError::AuthorityReuse(author));
        }
        let stake = committee.stake(&author);
        self.used.push(author.clone());
        self.votes.push((author, signature));
        proof {
            assert(keys_view(self.used@) =~= keys_view(old(self).used@).push(
                self.used@.last()@,
            ));
            assert(votes_view(self.votes@) =~= votes_view(old(self).votes@).push(
                (self.votes@.last().0@, self.votes@.last().1@),
            ));
            if old(self).wf(*committee) {
                assert(self.votes@.drop_last() =~= old(self).votes@);
                assert(vote_stakes_sum(self.votes@, *committee) == vote_stakes_sum(
                    old(self).votes@,
                    *committee,
                ) + committee.stake_of(author@));
                assert forall|i: int, j: int|
                    0 <= i < j < self.votes@.len() implies self.votes@[i].0@
                    != self.votes@[j].0@ by {
                    if j == self.votes@.len() - 1 {
                        assert(keys_view(old(self).used@).contains(old(self).votes@[i].0@));
                        assert(self.votes@[j].0@ == author@);
                    }
                }
                assert forall|q: int|
                    0 <= q < self.votes@.len() implies keys_view(self.used@).contains(
                    self.votes@[q].0@,
                ) by {
                    if q < old(self).votes@.len() {
                        let x = old(self).votes@[q].0@;
                        assert(keys_view(old(self).used@).contains(x));
                        let k = choose|k: int|
                            0 <= k < keys_view(old(self).used@).len() && keys_view(
                                old(self).used@,
                            )[k] == x;
                        assert(keys_view(self.used@)[k] == x);
                    } else {
                        assert(keys_view(self.used@)[keys_view(self.used@).len() - 1]
                            == author@);
                    }
                }
            }
        }
        self.weight = self.weight + stake;
        if self.weight >= committee.quorum_threshold() {
            self.weight = 0;  // Ensures a certificate is only made once per quorum.
            let mut votes: Vec<(PublicKey, Signature)> = Vec::new();
            core::mem::swap(&mut votes, &mut self.votes);
            return Ok(Some(Certificate { root, votes }));
        }
        Ok(None)
    }

    /// Whether `author` is among the recorded voters.
    fn contains_used(&self, author: &PublicKey) -> (r: bool)
        ensures
            r == self.has_voted(author@),
    {
        let mut i: usize = 0;
        while i < self.used.len()
            invariant
                i <= self.used.len(),
                forall|k: int| 0 <= k < i ==> keys_view(self.used@)[k] != author@,
            decreases self.used.len() - i,
        {
            if bytes_eq(&self.used[i].bytes, &author.bytes) {
                assert(keys_view(self.used@)[i as int] == author@);
                return true;
            }
            i = i + 1;
        }
        assert(!keys_view(self.used@).contains(author@));
        false
    }
}

/// The cumulative stake of a vote sequence.
pub open spec fn sum_of(stakes: Seq<int>) -> int
    decreases stakes.len(),
{
    if stakes.len() == 0 {
        0
    } else {
        sum_of(stakes.drop_last()) + stakes.last()
    }
}

/// The accumulated weight of a fresh aggregator after appending votes with
/// the given stakes, following `next_weight` at each step.
pub open spec fn run_weight(stakes: Seq<int>, threshold: int) -> int
    decreases stakes.len(),
{
    if stakes.len() == 0 {
        0
    } else {
        next_weight(run_weight(stakes.drop_last(), threshold), stakes.last(), threshold)
    }
}

/// As long as no prefix of the votes has reached the threshold, the
/// accumulated weight is exactly the cumulative stake.
pub proof fn lemma_weight_tracks_stake(stakes: Seq<int>, threshold: int, i: int)
    requires
        0 <= i <= stakes.len(),
        forall|k: int| 0 < k <= i ==> sum_of(#[trigger] stakes.take(k)) < threshold,
    ensures
        run_weight(stakes.take(i), threshold) == sum_of(stakes.take(i)),
    decreases i,
{
    if i > 0 {
        lemma_weight_tracks_stake(stakes, threshold, i - 1);
        assert(stakes.take(i).drop_last() =~= stakes.take(i - 1));
        assert(stakes.take(i).last() == stakes[i - 1]);
        assert(sum_of(stakes.take(i)) < threshold);
    }
}

/// Quorum monotonicity: for a sequence of votes whose cumulative stake first
/// reaches the threshold at position `i`, no certificate is emitted before
/// `i`, exactly one is emitted at `i`, and the weight is reset afterwards, so
/// the instance behaves as a fresh round.
pub proof fn lemma_quorum_monotonicity(stakes: Seq<int>, threshold: int, i: int)
    requires
        0 <= i < stakes.len(),
        forall|k: int| 0 < k <= i ==> sum_of(#[trigger] stakes.take(k)) < threshold,
        sum_of(stakes.take(i + 1)) >= threshold,
    ensures
        forall|k: int|
            0 <= k < i ==> !emits(
                run_weight(#[trigger] stakes.take(k), threshold),
                stakes[k],
                threshold,
            ),
        emits(run_weight(stakes.take(i), threshold), stakes[i], threshold),
        run_weight(stakes.take(i + 1), threshold) == 0,
{
    assert forall|k: int| 0 <= k < i implies !emits(
        run_weight(#[trigger] stakes.take(k), threshold),
        stakes[k],
        threshold,
    ) by {
        lemma_weight_tracks_stake(stakes, threshold, k);
        assert(stakes.take(k + 1).drop_last() =~= stakes.take(k));
        assert(stakes.take(k + 1).last() == stakes[k]);
    }
    lemma_weight_tracks_stake(stakes, threshold, i);
    assert(stakes.take(i + 1).drop_last() =~= stakes.take(i));
    assert(stakes.take(i + 1).last() == stakes[i]);
}

} // verus!
