//! The choice selector: which single preference of a ballot is the voter's vote.

use vstd::prelude::*;

verus! {

/// Identifies a voter. Any 128-bit identifier (such as a UUID) taken as a number.
pub type VoterId = u128;

/// Identifies a candidate. Any 128-bit identifier (such as a UUID) taken as a number.
pub type CandidateId = u128;

/// Strength of a preference. A weight is never negative, and it is carried as
/// an unsigned number that orders as the recorded weight does: the greater
/// number is the stronger preference.
pub type Weight = u64;

/// One entry of a ballot: a candidate and the weight the voter gave it.
pub type Preference = (CandidateId, Weight);

/// Position `i` holds the first preference of `ballot` that carries the
/// greatest weight: no entry weighs more, and every earlier entry weighs less.
pub open spec fn is_choice_at(ballot: Seq<Preference>, i: int) -> bool {
    &&& 0 <= i < ballot.len()
    &&& forall|j: int| 0 <= j < ballot.len() ==> (#[trigger] ballot[j]).1 <= ballot[i].1
    &&& forall|j: int| 0 <= j < i ==> (#[trigger] ballot[j]).1 < ballot[i].1
}

/// The preference that counts as the voter's vote: the first one of greatest
/// weight, or nothing for an empty ballot.
pub open spec fn choice(ballot: Seq<Preference>) -> Option<Preference> {
    if ballot.len() == 0 {
        None
    } else {
        Some(ballot[choose|i: int| is_choice_at(ballot, i)])
    }
}

/// The candidate that the voter's vote goes to, if any.
pub open spec fn chosen_candidate(ballot: Seq<Preference>) -> Option<CandidateId> {
    match choice(ballot) {
        Some(p) => Some(p.0),
        None => None,
    }
}

/// At most one position of a ballot is the choice.
pub proof fn lemma_choice_position_unique(ballot: Seq<Preference>, i: int, j: int)
    requires
        is_choice_at(ballot, i),
        is_choice_at(ballot, j),
    ensures
        i == j,
{
    if i < j {
        assert(ballot[i].1 < ballot[j].1);
        assert(ballot[j].1 <= ballot[i].1);
    } else if j < i {
        assert(ballot[j].1 < ballot[i].1);
        assert(ballot[i].1 <= ballot[j].1);
    }
}

/// A position that is the choice determines `choice` and `chosen_candidate`.
pub proof fn lemma_choice_at(ballot: Seq<Preference>, i: int)
    requires
        is_choice_at(ballot, i),
    ensures
        choice(ballot) == Some(ballot[i]),
        chosen_candidate(ballot) == Some(ballot[i].0),
{
    let k = choose|k: int| is_choice_at(ballot, k);
    lemma_choice_position_unique(ballot, i, k);
}

/// Every ballot that lists at least one preference has a choice, and the
/// choice is one of the listed preferences.
pub proof fn lemma_choice_exists(ballot: Seq<Preference>) -> (i: int)
    requires
        ballot.len() > 0,
    ensures
        is_choice_at(ballot, i),
        choice(ballot) == Some(ballot[i]),
    decreases ballot.len(),
{
    let n = ballot.len() as int;
    if n == 1 {
        lemma_choice_at(ballot, 0);
        0
    } else {
        let front = ballot.drop_last();
        let k = lemma_choice_exists(front);
        assert(forall|j: int| 0 <= j < n - 1 ==> front[j] == ballot[j]);
        let i = if ballot[n - 1].1 > ballot[k].1 { n - 1 } else { k };
        assert forall|j: int| 0 <= j < n implies (#[trigger] ballot[j]).1 <= ballot[i].1 by {
            if j < n - 1 {
                assert(front[j].1 <= front[k].1);
            }
        }
        assert forall|j: int| 0 <= j < i implies (#[trigger] ballot[j]).1 < ballot[i].1 by {
            if i == k {
                assert(front[j].1 < front[k].1);
            } else {
                assert(front[j].1 <= front[k].1);
            }
        }
        lemma_choice_at(ballot, i);
        i
    }
}

/// Picks the voter's single effective vote: the preference of greatest weight,
/// the earliest one where several share that weight. An empty ballot has none.
pub fn select_choice(ballot: &Vec<Preference>) -> (picked: Option<Preference>)
    ensures
        picked == choice(ballot@),
{
    if ballot.len() == 0 {
        return None;
    }
    let mut best: usize = 0;
    let mut k: usize = 1;
    while k < ballot.len()
        invariant
            1 <= k <= ballot.len(),
            best < k,
            forall|j: int| 0 <= j < k ==> (#[trigger] ballot@[j]).1 <= ballot@[best as int].1,
            forall|j: int| 0 <= j < best ==> (#[trigger] ballot@[j]).1 < ballot@[best as int].1,
        decreases ballot.len() - k,
    {
        if ballot[k].1 > ballot[best].1 {
            best = k;
        }
        k += 1;
    }
    proof {
        lemma_choice_at(ballot@, best as int);
    }
    Some(ballot[best])
}

/// The candidate that the voter's single effective vote goes to: the
/// candidate of the choice, or none for an empty ballot.
pub fn select_candidate(ballot: &Vec<Preference>) -> (vote: Option<CandidateId>)
    ensures
        vote == chosen_candidate(ballot@),
{
    match select_choice(ballot) {
        Some(p) => Some(p.0),
        None => None,
    }
}

} // verus!
