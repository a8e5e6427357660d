//! The tally accumulator: one vote per voter, counted per candidate.

use crate::ballot::BallotSet;
use crate::choice::{chosen_candidate, select_candidate, CandidateId, Preference, VoterId};
use std::collections::HashMap;
use vstd::prelude::*;

verus! {

/// A number of votes.
pub type Count = u64;

/// The number of ballots of `ballots` whose vote goes to `candidate`.
pub open spec fn votes_for(ballots: Seq<(VoterId, Seq<Preference>)>, candidate: CandidateId) -> nat
    decreases ballots.len(),
{
    if ballots.len() == 0 {
        0
    } else {
        let rest = votes_for(ballots.drop_last(), candidate);
        if chosen_candidate(ballots.last().1) == Some(candidate) {
            rest + 1
        } else {
            rest
        }
    }
}

/// The number of ballots of `ballots` that list at least one preference,
/// which is the number of votes cast.
pub open spec fn votes_cast(ballots: Seq<(VoterId, Seq<Preference>)>) -> nat
    decreases ballots.len(),
{
    if ballots.len() == 0 {
        0
    } else {
        let rest = votes_cast(ballots.drop_last());
        if ballots.last().1.len() > 0 {
            rest + 1
        } else {
            rest
        }
    }
}

/// The count that `counts` holds for `candidate`; a candidate without an
/// entry has no votes.
pub open spec fn count_of(counts: Map<CandidateId, Count>, candidate: CandidateId) -> nat {
    if counts.contains_key(candidate) {
        counts[candidate] as nat
    } else {
        0
    }
}

/// The counts once one more voter's vote is recorded: the chosen candidate's
/// count goes up by one, starting from zero, and a voter without a choice
/// changes nothing.
pub open spec fn counts_after(counts: Map<CandidateId, Count>, vote: Option<CandidateId>) -> Map<
    CandidateId,
    Count,
> {
    match vote {
        Some(c) => counts.insert(c, (count_of(counts, c) + 1) as Count),
        None => counts,
    }
}

/// `counts` holds exactly the votes of `ballots`: an entry for each candidate
/// that some voter's vote goes to, with the number of those voters, and no
/// other entry.
pub open spec fn counts_match(
    counts: Map<CandidateId, Count>,
    ballots: Seq<(VoterId, Seq<Preference>)>,
) -> bool {
    forall|c: CandidateId|
        #![trigger counts.contains_key(c)]
        #![trigger votes_for(ballots, c)]
        {
            &&& counts.contains_key(c) <==> votes_for(ballots, c) > 0
            &&& counts.contains_key(c) ==> counts[c] == votes_for(ballots, c)
        }
}

/// No candidate has more votes than there are ballots.
pub proof fn lemma_votes_bounded(ballots: Seq<(VoterId, Seq<Preference>)>, candidate: CandidateId)
    ensures
        votes_for(ballots, candidate) <= votes_cast(ballots) <= ballots.len(),
    decreases ballots.len(),
{
    if ballots.len() > 0 {
        lemma_votes_bounded(ballots.drop_last(), candidate);
    }
}

/// Recording the vote of one more ballot keeps the counts in step with the
/// ballots counted so far.
pub proof fn lemma_counts_step(
    counts: Map<CandidateId, Count>,
    ballots: Seq<(VoterId, Seq<Preference>)>,
    voter: VoterId,
    ballot: Seq<Preference>,
)
    requires
        counts_match(counts, ballots),
        ballots.len() < u64::MAX,
    ensures
        counts_match(counts_after(counts, chosen_candidate(ballot)), ballots.push((voter, ballot))),
{
    let grown = ballots.push((voter, ballot));
    let after = counts_after(counts, chosen_candidate(ballot));
    assert(grown.drop_last() =~= ballots);
    assert forall|c: CandidateId|
        #![trigger after.contains_key(c)]
        #![trigger votes_for(grown, c)]
        {
            &&& after.contains_key(c) <==> votes_for(grown, c) > 0
            &&& after.contains_key(c) ==> after[c] == votes_for(grown, c)
        } by {
        lemma_votes_bounded(ballots, c);
        assert(counts.contains_key(c) <==> votes_for(ballots, c) > 0);
    }
}

/// Records the vote of one voter: a vote for a candidate raises that
/// candidate's count by one, a voter without a choice is skipped.
pub fn record_vote(counts: &mut HashMap<CandidateId, Count>, vote: Option<CandidateId>)
    requires
        vote matches Some(c) ==> count_of(old(counts)@, c) < u64::MAX,
    ensures
        final(counts)@ == counts_after(old(counts)@, vote),
{
    if let Some(c) = vote {
        let count = counts.entry(c).or_insert(0);
        *count += 1;
    }
}

/// Counts the votes of all ballots: each voter with a choice adds one vote
/// to the chosen candidate, and only candidates with a vote get an entry.
pub fn tally(ballots: &BallotSet) -> (counts: HashMap<CandidateId, Count>)
    ensures
        counts_match(counts@, ballots@),
{
    let mut counts: HashMap<CandidateId, Count> = HashMap::new();
    let n: usize = ballots.len();
    let mut i: usize = 0;
    while i < n
        invariant
            i <= n,
            n == ballots@.len(),
            counts_match(counts@, ballots@.take(i as int)),
        decreases n - i,
    {
        let vote = select_candidate(ballots.ballot(i));
        proof {
            let seen = ballots@.take(i as int);
            if let Some(c) = vote {
                lemma_votes_bounded(seen, c);
                assert(counts@.contains_key(c) <==> votes_for(seen, c) > 0);
            }
            lemma_counts_step(counts@, seen, ballots@[i as int].0, ballots@[i as int].1);
            assert(seen.push(ballots@[i as int]) =~= ballots@.take(i + 1));
        }
        record_vote(&mut counts, vote);
        i += 1;
    }
    assert(ballots@.take(n as int) =~= ballots@);
    counts
}

} // verus!
