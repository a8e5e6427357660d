//! The aggregation itself: audit records and ranked tally of a ballot set.

use crate::audit::{audit_record, indicator_map, FPTPIntermediate};
use crate::ballot::{distinct_voters, BallotSet};
use crate::choice::{select_candidate, CandidateId, Preference, VoterId};
use crate::rank::{is_ranking_of, lists, rank, ranked};
use crate::theorems::{
    lemma_count_conservation, lemma_empty_ballot_indicators, lemma_ranked_descending,
    lemma_tally_lists_once,
};
use crate::tally::{
    counts_match, lemma_counts_step, lemma_votes_bounded, record_vote, tally, votes_cast,
    votes_for, Count,
};
use std::collections::HashMap;
use vstd::prelude::*;

verus! {

/// `ranking` is the ranked tally of `ballots`: it is in ranking order, each of
/// its entries gives a candidate with at least one vote and the number of
/// ballots whose vote goes to that candidate, and every candidate with a vote
/// has an entry.
pub open spec fn is_tally_of(
    ranking: Seq<(CandidateId, Count)>,
    ballots: Seq<(VoterId, Seq<Preference>)>,
) -> bool {
    &&& ranked(ranking)
    &&& forall|i: int|
        0 <= i < ranking.len() ==> (#[trigger] ranking[i]).1 > 0 && ranking[i].1 == votes_for(
            ballots,
            ranking[i].0,
        )
    &&& forall|c: CandidateId| votes_for(ballots, c) > 0 ==> lists(ranking, c)
}

/// The audit trail of `ballots`: for every ballot, in the order of the
/// ballots, the voter and the indicators of the ballot.
pub open spec fn audit_of(ballots: Seq<(VoterId, Seq<Preference>)>) -> Seq<
    (VoterId, Map<CandidateId, u32>),
> {
    Seq::new(ballots.len(), |i: int| (ballots[i].0, indicator_map(ballots[i].1)))
}

/// What a sequence of audit records says: the view of each record.
pub open spec fn audit_view(records: Seq<FPTPIntermediate>) -> Seq<
    (VoterId, Map<CandidateId, u32>),
> {
    records.map_values(|r: FPTPIntermediate| r@)
}

/// The sum of the counts of a ranking.
pub open spec fn total_count(ranking: Seq<(CandidateId, Count)>) -> nat
    decreases ranking.len(),
{
    if ranking.len() == 0 {
        0
    } else {
        total_count(ranking.drop_last()) + ranking.last().1 as nat
    }
}

/// The ranking of counts that hold exactly the votes of `ballots` is the
/// ranked tally of `ballots`.
pub proof fn lemma_ranking_is_tally(
    ranking: Seq<(CandidateId, Count)>,
    counts: Map<CandidateId, Count>,
    ballots: Seq<(VoterId, Seq<Preference>)>,
)
    requires
        is_ranking_of(ranking, counts),
        counts_match(counts, ballots),
    ensures
        is_tally_of(ranking, ballots),
{
    assert forall|i: int| 0 <= i < ranking.len() implies (#[trigger] ranking[i]).1 > 0
        && ranking[i].1 == votes_for(ballots, ranking[i].0) by {
        assert(counts.contains_key(ranking[i].0));
    }
    assert forall|c: CandidateId| votes_for(ballots, c) > 0 implies lists(ranking, c) by {
        assert(counts.contains_key(c));
    }
}

/// The plurality rule on its own: the ranked tally without the audit trail.
pub struct FPTP {}

impl FPTP {
    /// The ranked tally of `data`: every candidate that some voter's vote goes
    /// to, with the number of those voters, most votes first and candidates
    /// with equally many votes by ascending identifier.
    pub fn calculate(data: &BallotSet) -> (sorted: Vec<(CandidateId, Count)>)
        ensures
            is_tally_of(sorted@, data@),
            forall|i: int, j: int|
                0 <= i < j < sorted@.len() ==> (#[trigger] sorted@[i]).0 != (
                #[trigger] sorted@[j]).0,
            total_count(sorted@) == votes_cast(data@),
            forall|i: int|
                0 <= i < sorted@.len() - 1 ==> (#[trigger] sorted@[i]).1 >= sorted@[i + 1].1,
    {
        let result = tally(data);
        let sorted = rank(&result);
        proof {
            lemma_ranking_is_tally(sorted@, result@, data@);
            lemma_tally_lists_once(sorted@, data@);
            lemma_count_conservation(sorted@, data@);
            lemma_ranked_descending(sorted@);
        }
        sorted
    }
}

/// Aggregates a ballot set: for every voter an audit record, in the order of
/// the ballots, and the ranked tally of the votes.
///
/// Each voter's vote goes to the first preference of greatest weight on the
/// voter's ballot; a voter with an empty ballot casts no vote and gets a
/// record without indicators. The tally lists the candidates with at least
/// one vote, most votes first and candidates with equally many votes by
/// ascending identifier.
pub fn calculate(info: &BallotSet) -> (outcome: (Vec<FPTPIntermediate>, Vec<(CandidateId, Count)>))
    ensures
        audit_view(outcome.0@) == audit_of(info@),
        is_tally_of(outcome.1@, info@),
        outcome.0@.len() == info@.len(),
        forall|i: int|
            0 <= i < info@.len() ==> (#[trigger] outcome.0@[i])@ == (
                info@[i].0,
                indicator_map(info@[i].1),
            ),
        forall|i: int, j: int|
            0 <= i < j < outcome.0@.len() ==> (#[trigger] outcome.0@[i])@.0 != (
            #[trigger] outcome.0@[j])@.0,
        forall|i: int|
            0 <= i < info@.len() && info@[i].1.len() == 0 ==> (#[trigger] outcome.0@[i])@.1
                == Map::<CandidateId, u32>::empty(),
        forall|i: int, j: int|
            0 <= i < j < outcome.1@.len() ==> (#[trigger] outcome.1@[i]).0 != (
            #[trigger] outcome.1@[j]).0,
        total_count(outcome.1@) == votes_cast(info@),
        forall|i: int|
            0 <= i < outcome.1@.len() - 1 ==> (#[trigger] outcome.1@[i]).1 >= outcome.1@[i + 1].1,
{
    let mut result: HashMap<CandidateId, Count> = HashMap::new();
    let mut intermediate: Vec<FPTPIntermediate> = Vec::new();
    let n: usize = info.len();
    let mut i: usize = 0;
    while i < n
        invariant
            i <= n,
            n == info@.len(),
            distinct_voters(info@),
            counts_match(result@, info@.take(i as int)),
            audit_view(intermediate@) == audit_of(info@.take(i as int)),
        decreases n - i,
    {
        let src = info.voter(i);
        let vote = info.ballot(i);
        let max = select_candidate(vote);
        let ghost seen = info@.take(i as int);
        let ghost records = intermediate@;
        proof {
            if let Some(c) = max {
                lemma_votes_bounded(seen, c);
                assert(result@.contains_key(c) <==> votes_for(seen, c) > 0);
            }
            lemma_counts_step(result@, seen, info@[i as int].0, info@[i as int].1);
            assert(seen.push(info@[i as int]) =~= info@.take(i + 1));
        }
        record_vote(&mut result, max);
        let record = audit_record(src, vote);
        let ghost entry = record@;
        intermediate.push(record);
        proof {
            assert(audit_view(intermediate@) =~= audit_view(records).push(entry));
            assert(audit_of(info@.take(i + 1)) =~= audit_of(seen).push(
                (info@[i as int].0, indicator_map(info@[i as int].1)),
            ));
        }
        i += 1;
    }
    assert(info@.take(n as int) =~= info@);
    let sorted = rank(&result);
    proof {
        lemma_ranking_is_tally(sorted@, result@, info@);
        lemma_tally_lists_once(sorted@, info@);
        lemma_count_conservation(sorted@, info@);
        lemma_ranked_descending(sorted@);
        assert forall|i: int| 0 <= i < info@.len() implies (#[trigger] intermediate@[i])@ == (
            info@[i].0,
            indicator_map(info@[i].1),
        ) by {
            assert(audit_view(intermediate@)[i] == audit_of(info@)[i]);
        }
        assert forall|i: int, j: int| 0 <= i < j < intermediate@.len() implies (
        #[trigger] intermediate@[i])@.0 != (#[trigger] intermediate@[j])@.0 by {
            assert(audit_view(intermediate@)[i] == audit_of(info@)[i]);
            assert(audit_view(intermediate@)[j] == audit_of(info@)[j]);
            assert(info@[i].0 != info@[j].0);
        }
        assert forall|i: int| 0 <= i < info@.len() && info@[i].1.len() == 0 implies (
        #[trigger] intermediate@[i])@.1 == Map::<CandidateId, u32>::empty() by {
            assert(audit_view(intermediate@)[i] == audit_of(info@)[i]);
            lemma_empty_ballot_indicators(info@[i].1);
        }
    }
    (intermediate, sorted)
}

} // verus!
