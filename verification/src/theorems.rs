//! What holds of every aggregation, proved over the definitions of the other
//! modules.

use crate::aggregate::{audit_of, is_tally_of, total_count};
use crate::audit::{indicator_map, is_listed};
use crate::choice::{chosen_candidate, lemma_choice_exists, CandidateId, Preference, VoterId};
use crate::rank::{is_ranking_of, lists, precedes, ranked};
use crate::tally::{count_of, counts_after, votes_cast, votes_for, Count};
use vstd::prelude::*;

verus! {

/// Ranking order leaves no freedom: two sequences in ranking order that hold
/// the same entries are equal.
pub proof fn lemma_ranked_unique(a: Seq<(CandidateId, Count)>, b: Seq<(CandidateId, Count)>)
    requires
        ranked(a),
        ranked(b),
        forall|i: int| 0 <= i < a.len() ==> b.contains(#[trigger] a[i]),
        forall|j: int| 0 <= j < b.len() ==> a.contains(#[trigger] b[j]),
    ensures
        a == b,
    decreases a.len(),
{
    if a.len() == 0 {
        if b.len() > 0 {
            assert(a.contains(b[0]));
        }
        assert(a =~= b);
    } else {
        if b.len() == 0 {
            assert(b.contains(a[0]));
        }
        let la = a.len() - 1;
        let lb = b.len() - 1;
        assert(b.contains(a[la]));
        let j = choose|j: int| 0 <= j < b.len() && b[j] == a[la];
        assert(a.contains(b[lb]));
        let i = choose|i: int| 0 <= i < a.len() && a[i] == b[lb];
        if j < lb {
            assert(precedes(b[j], b[lb]));
            if i < la {
                assert(precedes(a[i], a[la]));
            }
        }
        assert(a[la] == b[lb]);
        let a1 = a.drop_last();
        let b1 = b.drop_last();
        assert forall|k: int| 0 <= k < a1.len() implies b1.contains(#[trigger] a1[k]) by {
            assert(precedes(a[k], a[la]));
            assert(b.contains(a[k]));
            let m = choose|m: int| 0 <= m < b.len() && b[m] == a[k];
            assert(b1[m] == a1[k]);
        }
        assert forall|k: int| 0 <= k < b1.len() implies a1.contains(#[trigger] b1[k]) by {
            assert(precedes(b[k], b[lb]));
            assert(a.contains(b[k]));
            let m = choose|m: int| 0 <= m < a.len() && a[m] == b[k];
            assert(a1[m] == b1[k]);
        }
        assert(ranked(a1)) by {
            assert forall|p: int, q: int| 0 <= p < q < a1.len() implies precedes(
                #[trigger] a1[p],
                #[trigger] a1[q],
            ) by {
                assert(precedes(a[p], a[q]));
            }
        }
        assert(ranked(b1)) by {
            assert forall|p: int, q: int| 0 <= p < q < b1.len() implies precedes(
                #[trigger] b1[p],
                #[trigger] b1[q],
            ) by {
                assert(precedes(b[p], b[q]));
            }
        }
        lemma_ranked_unique(a1, b1);
        assert(a =~= a1.push(a[la]));
        assert(b =~= b1.push(b[lb]));
    }
}

/// The counts determine their ranking.
pub proof fn lemma_ranking_unique(
    a: Seq<(CandidateId, Count)>,
    b: Seq<(CandidateId, Count)>,
    counts: Map<CandidateId, Count>,
)
    requires
        is_ranking_of(a, counts),
        is_ranking_of(b, counts),
    ensures
        a == b,
{
    assert forall|i: int| 0 <= i < a.len() implies b.contains(#[trigger] a[i]) by {
        assert(lists(b, a[i].0));
        let j = choose|j: int| 0 <= j < b.len() && (#[trigger] b[j]).0 == a[i].0;
        assert(b[j] == a[i]);
    }
    assert forall|j: int| 0 <= j < b.len() implies a.contains(#[trigger] b[j]) by {
        assert(lists(a, b[j].0));
        let i = choose|i: int| 0 <= i < a.len() && (#[trigger] a[i]).0 == b[j].0;
        assert(a[i] == b[j]);
    }
    lemma_ranked_unique(a, b);
}

/// The ballots determine their ranked tally.
pub proof fn lemma_tally_unique(
    a: Seq<(CandidateId, Count)>,
    b: Seq<(CandidateId, Count)>,
    ballots: Seq<(VoterId, Seq<Preference>)>,
)
    requires
        is_tally_of(a, ballots),
        is_tally_of(b, ballots),
    ensures
        a == b,
{
    assert forall|i: int| 0 <= i < a.len() implies b.contains(#[trigger] a[i]) by {
        assert(lists(b, a[i].0));
        let j = choose|j: int| 0 <= j < b.len() && (#[trigger] b[j]).0 == a[i].0;
        assert(b[j] == a[i]);
    }
    assert forall|j: int| 0 <= j < b.len() implies a.contains(#[trigger] b[j]) by {
        assert(lists(a, b[j].0));
        let i = choose|i: int| 0 <= i < a.len() && (#[trigger] a[i]).0 == b[j].0;
        assert(a[i] == b[j]);
    }
    lemma_ranked_unique(a, b);
}

/// The ranked tally has one entry per candidate: no candidate is in it twice.
pub proof fn lemma_tally_lists_once(
    ranking: Seq<(CandidateId, Count)>,
    ballots: Seq<(VoterId, Seq<Preference>)>,
)
    requires
        is_tally_of(ranking, ballots),
    ensures
        forall|i: int, j: int|
            0 <= i < j < ranking.len() ==> (#[trigger] ranking[i]).0 != (#[trigger] ranking[j]).0,
{
    assert forall|i: int, j: int| 0 <= i < j < ranking.len() implies (#[trigger] ranking[i]).0 != (
    #[trigger] ranking[j]).0 by {
        assert(precedes(ranking[i], ranking[j]));
    }
}

/// Aggregating the same ballots again gives the same result: whatever two
/// aggregations of one ballot set return, the audit trails say the same and
/// the ranked tallies are equal.
pub proof fn lemma_aggregation_repeatable(
    ballots: Seq<(VoterId, Seq<Preference>)>,
    audit_a: Seq<(VoterId, Map<CandidateId, u32>)>,
    tally_a: Seq<(CandidateId, Count)>,
    audit_b: Seq<(VoterId, Map<CandidateId, u32>)>,
    tally_b: Seq<(CandidateId, Count)>,
)
    requires
        audit_a == audit_of(ballots),
        is_tally_of(tally_a, ballots),
        audit_b == audit_of(ballots),
        is_tally_of(tally_b, ballots),
    ensures
        audit_a == audit_b,
        tally_a == tally_b,
{
    lemma_tally_unique(tally_a, tally_b, ballots);
}

/// In ranking order the counts never rise: an earlier entry has at least as
/// many votes as a later one.
pub proof fn lemma_ranked_descending(ranking: Seq<(CandidateId, Count)>)
    requires
        ranked(ranking),
    ensures
        forall|i: int, j: int|
            0 <= i <= j < ranking.len() ==> (#[trigger] ranking[i]).1 >= (#[trigger] ranking[j]).1,
{
    assert forall|i: int, j: int| 0 <= i <= j < ranking.len() implies (#[trigger] ranking[i]).1
        >= (#[trigger] ranking[j]).1 by {
        if i < j {
            assert(precedes(ranking[i], ranking[j]));
        }
    }
}

/// The candidates of a ranking, in its order.
pub open spec fn candidates_of(ranking: Seq<(CandidateId, Count)>) -> Seq<CandidateId> {
    ranking.map_values(|e: (CandidateId, Count)| e.0)
}

/// The votes of `ballots` for the candidates of `candidates`, added up.
pub open spec fn votes_among(
    ballots: Seq<(VoterId, Seq<Preference>)>,
    candidates: Seq<CandidateId>,
) -> nat
    decreases candidates.len(),
{
    if candidates.len() == 0 {
        0
    } else {
        votes_among(ballots, candidates.drop_last()) + votes_for(ballots, candidates.last())
    }
}

/// One more ballot adds one vote to a list of distinct candidates if its vote
/// goes to one of them, and none otherwise.
proof fn lemma_votes_among_step(
    ballots: Seq<(VoterId, Seq<Preference>)>,
    entry: (VoterId, Seq<Preference>),
    candidates: Seq<CandidateId>,
)
    requires
        candidates.no_duplicates(),
    ensures
        votes_among(ballots.push(entry), candidates) == votes_among(ballots, candidates) + (
        match chosen_candidate(entry.1) {
            Some(c) => if candidates.contains(c) {
                1nat
            } else {
                0nat
            },
            None => 0nat,
        }),
    decreases candidates.len(),
{
    let grown = ballots.push(entry);
    assert(grown.drop_last() =~= ballots);
    if candidates.len() > 0 {
        let front = candidates.drop_last();
        let x = candidates.last();
        assert(front.no_duplicates());
        lemma_votes_among_step(ballots, entry, front);
        if let Some(c) = chosen_candidate(entry.1) {
            if front.contains(c) {
                let k = choose|k: int| 0 <= k < front.len() && front[k] == c;
                assert(candidates[k] == c);
                assert(x != c);
                assert(candidates.contains(c));
            } else if x == c {
                assert(candidates[candidates.len() - 1] == c);
            } else if candidates.contains(c) {
                let k = choose|k: int| 0 <= k < candidates.len() && candidates[k] == c;
                assert(front[k] == c);
            }
        }
    }
}

/// Where every candidate with a vote is among `candidates`, and none of them
/// twice, their votes add up to the number of votes cast.
pub proof fn lemma_votes_among_all(
    ballots: Seq<(VoterId, Seq<Preference>)>,
    candidates: Seq<CandidateId>,
)
    requires
        candidates.no_duplicates(),
        forall|c: CandidateId| votes_for(ballots, c) > 0 ==> candidates.contains(c),
    ensures
        votes_among(ballots, candidates) == votes_cast(ballots),
    decreases ballots.len(), candidates.len(),
{
    if ballots.len() == 0 {
        if candidates.len() > 0 {
            assert(candidates.drop_last().no_duplicates());
            lemma_votes_among_all(ballots, candidates.drop_last());
        }
    } else {
        let rest = ballots.drop_last();
        let entry = ballots.last();
        assert(ballots =~= rest.push(entry));
        assert forall|c: CandidateId| votes_for(rest, c) > 0 implies candidates.contains(c) by {
            assert(votes_for(ballots, c) > 0);
        }
        lemma_votes_among_all(rest, candidates);
        lemma_votes_among_step(rest, entry, candidates);
        if let Some(c) = chosen_candidate(entry.1) {
            assert(votes_for(ballots, c) > 0);
        }
    }
}

/// No vote is lost or made up: the counts of the ranked tally add up to the number
/// of voters whose ballot lists at least one preference.
pub proof fn lemma_count_conservation(
    ranking: Seq<(CandidateId, Count)>,
    ballots: Seq<(VoterId, Seq<Preference>)>,
)
    requires
        is_tally_of(ranking, ballots),
    ensures
        total_count(ranking) == votes_cast(ballots),
        total_count(ranking) <= ballots.len(),
{
    let candidates = candidates_of(ranking);
    lemma_tally_lists_once(ranking, ballots);
    assert forall|i: int, j: int| 0 <= i < j < candidates.len() implies candidates[i]
        != candidates[j] by {
        assert(ranking[i].0 != ranking[j].0);
    }
    assert forall|c: CandidateId| votes_for(ballots, c) > 0 implies candidates.contains(c) by {
        assert(lists(ranking, c));
        let i = choose|i: int| 0 <= i < ranking.len() && (#[trigger] ranking[i]).0 == c;
        assert(candidates[i] == c);
    }
    lemma_votes_among_all(ballots, candidates);
    lemma_total_is_votes_among(ranking, ballots);
    crate::tally::lemma_votes_bounded(ballots, 0);
}

/// The counts of a ranking whose entries give the votes of their candidates
/// add up to the votes for those candidates.
proof fn lemma_total_is_votes_among(
    ranking: Seq<(CandidateId, Count)>,
    ballots: Seq<(VoterId, Seq<Preference>)>,
)
    requires
        forall|i: int|
            0 <= i < ranking.len() ==> (#[trigger] ranking[i]).1 == votes_for(
                ballots,
                ranking[i].0,
            ),
    ensures
        total_count(ranking) == votes_among(ballots, candidates_of(ranking)),
    decreases ranking.len(),
{
    if ranking.len() > 0 {
        let front = ranking.drop_last();
        assert(candidates_of(ranking).drop_last() =~= candidates_of(front));
        assert(candidates_of(ranking).last() == ranking.last().0);
        assert(ranking[ranking.len() - 1].1 == votes_for(ballots, ranking.last().0));
        lemma_total_is_votes_among(front, ballots);
    }
}

/// Taking one ballot away takes away its vote, if it has one, and no other.
pub proof fn lemma_votes_without(
    ballots: Seq<(VoterId, Seq<Preference>)>,
    i: int,
    candidate: CandidateId,
)
    requires
        0 <= i < ballots.len(),
    ensures
        votes_for(ballots, candidate) == votes_for(ballots.remove(i), candidate) + (
        if chosen_candidate(ballots[i].1) == Some(candidate) {
            1nat
        } else {
            0nat
        }),
        votes_cast(ballots) == votes_cast(ballots.remove(i)) + (if ballots[i].1.len() > 0 {
            1nat
        } else {
            0nat
        }),
    decreases ballots.len(),
{
    let n = ballots.len() - 1;
    if i == n {
        assert(ballots.remove(i) =~= ballots.drop_last());
    } else {
        lemma_votes_without(ballots.drop_last(), i, candidate);
        assert(ballots.remove(i).drop_last() =~= ballots.drop_last().remove(i));
        assert(ballots.remove(i).last() == ballots.last());
    }
}

/// The votes do not depend on the order of the ballots: two sequences that
/// hold the same ballots give every candidate the same number of votes.
pub proof fn lemma_votes_order_independent(
    a: Seq<(VoterId, Seq<Preference>)>,
    b: Seq<(VoterId, Seq<Preference>)>,
    candidate: CandidateId,
)
    requires
        a.to_multiset() == b.to_multiset(),
    ensures
        votes_for(a, candidate) == votes_for(b, candidate),
        votes_cast(a) == votes_cast(b),
    decreases a.len(),
{
    a.to_multiset_ensures();
    b.to_multiset_ensures();
    if a.len() > 0 {
        let n = a.len() - 1;
        let x = a[n];
        assert(a.contains(x));
        assert(a.to_multiset().count(x) > 0);
        assert(b.to_multiset().count(x) > 0);
        assert(b.contains(x));
        let i = choose|i: int| 0 <= i < b.len() && b[i] == x;
        assert(a.remove(n).to_multiset() =~= b.remove(i).to_multiset());
        lemma_votes_order_independent(a.remove(n), b.remove(i), candidate);
        lemma_votes_without(a, n, candidate);
        lemma_votes_without(b, i, candidate);
    }
}

/// The ranked tally does not depend on the order of the ballots.
pub proof fn lemma_tally_order_independent(
    ranking: Seq<(CandidateId, Count)>,
    a: Seq<(VoterId, Seq<Preference>)>,
    b: Seq<(VoterId, Seq<Preference>)>,
)
    requires
        a.to_multiset() == b.to_multiset(),
        is_tally_of(ranking, a),
    ensures
        is_tally_of(ranking, b),
{
    assert forall|c: CandidateId| votes_for(a, c) == votes_for(b, c) by {
        lemma_votes_order_independent(a, b, c);
    }
    assert forall|k: int| 0 <= k < ranking.len() implies (#[trigger] ranking[k]).1 > 0
        && ranking[k].1 == votes_for(b, ranking[k].0) by {
        assert(ranking[k].1 == votes_for(a, ranking[k].0));
    }
    assert forall|c: CandidateId| votes_for(b, c) > 0 implies lists(ranking, c) by {
        assert(votes_for(a, c) > 0);
    }
}

/// A voter with an empty ballot casts no vote: without that ballot every
/// candidate has the same number of votes, and as many votes are cast.
pub proof fn lemma_empty_ballot_adds_no_vote(
    ballots: Seq<(VoterId, Seq<Preference>)>,
    i: int,
    candidate: CandidateId,
)
    requires
        0 <= i < ballots.len(),
        ballots[i].1.len() == 0,
    ensures
        votes_for(ballots, candidate) == votes_for(ballots.remove(i), candidate),
        votes_cast(ballots) == votes_cast(ballots.remove(i)),
{
    lemma_votes_without(ballots, i, candidate);
}

/// A voter with an empty ballot leaves the ranked tally as it is.
pub proof fn lemma_empty_ballot_keeps_tally(
    ranking: Seq<(CandidateId, Count)>,
    ballots: Seq<(VoterId, Seq<Preference>)>,
    i: int,
)
    requires
        0 <= i < ballots.len(),
        ballots[i].1.len() == 0,
    ensures
        is_tally_of(ranking, ballots) <==> is_tally_of(ranking, ballots.remove(i)),
{
    let fewer = ballots.remove(i);
    assert forall|c: CandidateId| votes_for(ballots, c) == votes_for(fewer, c) by {
        lemma_empty_ballot_adds_no_vote(ballots, i, c);
    }
    if is_tally_of(ranking, ballots) {
        assert forall|k: int| 0 <= k < ranking.len() implies (#[trigger] ranking[k]).1 > 0
            && ranking[k].1 == votes_for(fewer, ranking[k].0) by {
            assert(ranking[k].1 == votes_for(ballots, ranking[k].0));
        }
        assert forall|c: CandidateId| votes_for(fewer, c) > 0 implies lists(ranking, c) by {
            assert(votes_for(ballots, c) > 0);
        }
    }
    if is_tally_of(ranking, fewer) {
        assert forall|k: int| 0 <= k < ranking.len() implies (#[trigger] ranking[k]).1 > 0
            && ranking[k].1 == votes_for(ballots, ranking[k].0) by {
            assert(ranking[k].1 == votes_for(fewer, ranking[k].0));
        }
        assert forall|c: CandidateId| votes_for(ballots, c) > 0 implies lists(ranking, c) by {
            assert(votes_for(fewer, c) > 0);
        }
    }
}

/// An empty ballot has no indicators, and no vote.
pub proof fn lemma_empty_ballot_indicators(ballot: Seq<Preference>)
    requires
        ballot.len() == 0,
    ensures
        indicator_map(ballot) == Map::<CandidateId, u32>::empty(),
        chosen_candidate(ballot) is None,
{
    assert(indicator_map(ballot) =~= Map::<CandidateId, u32>::empty());
}

/// The indicators of a ballot that lists a preference: every entry is 0 or 1,
/// the chosen candidate has an entry, and that entry is the only 1.
pub proof fn lemma_single_indicator(ballot: Seq<Preference>)
    requires
        ballot.len() > 0,
    ensures
        chosen_candidate(ballot) is Some,
        indicator_map(ballot).contains_key(chosen_candidate(ballot)->0),
        forall|c: CandidateId| #[trigger]
            indicator_map(ballot).contains_key(c) ==> (indicator_map(ballot)[c] == 1 <==> Some(c)
                == chosen_candidate(ballot)) && (indicator_map(ballot)[c] == 0 <==> Some(c)
                != chosen_candidate(ballot)),
{
    let i = lemma_choice_exists(ballot);
    assert(ballot[i].0 == chosen_candidate(ballot)->0);
}

/// A candidate with a vote is listed on the ballot of some voter.
pub proof fn lemma_voted_candidate_is_listed(
    ballots: Seq<(VoterId, Seq<Preference>)>,
    candidate: CandidateId,
)
    requires
        votes_for(ballots, candidate) > 0,
    ensures
        exists|i: int|
            0 <= i < ballots.len() && chosen_candidate((#[trigger] ballots[i]).1) == Some(candidate)
                && is_listed(ballots[i].1, candidate),
    decreases ballots.len(),
{
    let n = ballots.len() - 1;
    if chosen_candidate(ballots.last().1) == Some(candidate) {
        let k = lemma_choice_exists(ballots[n].1);
        assert(ballots[n].1[k].0 == candidate);
        assert(is_listed(ballots[n].1, candidate));
    } else {
        lemma_voted_candidate_is_listed(ballots.drop_last(), candidate);
        let i = choose|i: int|
            0 <= i < n && chosen_candidate((#[trigger] ballots.drop_last()[i]).1) == Some(
                candidate,
            ) && is_listed(ballots.drop_last()[i].1, candidate);
        assert(ballots[i] == ballots.drop_last()[i]);
    }
}

/// Recording two votes gives the same counts in either order.
pub proof fn lemma_record_commutes(
    counts: Map<CandidateId, Count>,
    first: Option<CandidateId>,
    second: Option<CandidateId>,
)
    requires
        forall|c: CandidateId| count_of(counts, c) + 2 <= u64::MAX,
    ensures
        counts_after(counts_after(counts, first), second) == counts_after(
            counts_after(counts, second),
            first,
        ),
{
    assert(counts_after(counts_after(counts, first), second) =~= counts_after(
        counts_after(counts, second),
        first,
    ));
}

} // verus!
