//! The audit record builder: for one voter, which listed candidate was counted.

use crate::choice::{chosen_candidate, select_choice, CandidateId, Preference, VoterId};
use std::collections::HashMap;
use vstd::prelude::*;

verus! {

/// Some preference of `ballot` is for `candidate`.
pub open spec fn is_listed(ballot: Seq<Preference>, candidate: CandidateId) -> bool {
    exists|i: int| 0 <= i < ballot.len() && (#[trigger] ballot[i]).0 == candidate
}

/// The indicators of a ballot: an entry for every candidate that the ballot
/// lists, 1 for the candidate that the vote goes to and 0 for the others.
pub open spec fn indicator_map(ballot: Seq<Preference>) -> Map<CandidateId, u32> {
    Map::new(
        |c: CandidateId| is_listed(ballot, c),
        |c: CandidateId|
            if chosen_candidate(ballot) == Some(c) {
                1u32
            } else {
                0u32
            },
    )
}

/// The audit record of one voter: the voter and the indicators of the ballot.
#[derive(Debug)]
pub struct FPTPIntermediate {
    voter_id: VoterId,
    voter_pt: HashMap<CandidateId, u32>,
}

impl View for FPTPIntermediate {
    type V = (VoterId, Map<CandidateId, u32>);

    closed spec fn view(&self) -> (VoterId, Map<CandidateId, u32>) {
        (self.voter_id, self.voter_pt@)
    }
}

impl FPTPIntermediate {
    /// A record that holds the voter `to` and a copy of the indicators `map`.
    pub fn new(to: &VoterId, map: &HashMap<CandidateId, u32>) -> (record: Self)
        ensures
            record@ == (*to, map@),
    {
        Self { voter_id: *to, voter_pt: map.clone() }
    }

    /// The voter that the record is about.
    pub fn voter_id(&self) -> (voter: VoterId)
        ensures
            voter == self@.0,
    {
        self.voter_id
    }

    /// The indicators: every candidate of the voter's ballot, with 1 for the
    /// candidate that was counted and 0 for the others.
    pub fn voter_pt(&self) -> (map: &HashMap<CandidateId, u32>)
        ensures
            map@ == self@.1,
    {
        &self.voter_pt
    }
}

/// Builds the indicators of a ballot.
pub fn indicators(ballot: &Vec<Preference>) -> (map: HashMap<CandidateId, u32>)
    ensures
        map@ == indicator_map(ballot@),
{
    let mut map: HashMap<CandidateId, u32> = HashMap::new();
    let mut i: usize = 0;
    while i < ballot.len()
        invariant
            i <= ballot.len(),
            forall|c: CandidateId| map@.contains_key(c) <==> is_listed(ballot@.take(i as int), c),
            forall|c: CandidateId| map@.contains_key(c) ==> map@[c] == 0,
        decreases ballot.len() - i,
    {
        let ghost seen = ballot@.take(i as int);
        let ghost grown = ballot@.take(i + 1);
        let ghost held = map@;
        map.insert(ballot[i].0, 0);
        proof {
            assert forall|c: CandidateId| map@.contains_key(c) <==> is_listed(grown, c) by {
                if is_listed(seen, c) {
                    let k = choose|k: int| 0 <= k < seen.len() && (#[trigger] seen[k]).0 == c;
                    assert(grown[k].0 == c);
                }
                if c == ballot@[i as int].0 {
                    assert(grown[i as int].0 == c);
                }
                if is_listed(grown, c) && c != ballot@[i as int].0 {
                    let k = choose|k: int| 0 <= k < grown.len() && (#[trigger] grown[k]).0 == c;
                    assert(seen[k].0 == c);
                }
                assert(held.contains_key(c) <==> is_listed(seen, c));
            }
        }
        i += 1;
    }
    assert(ballot@.take(ballot@.len() as int) =~= ballot@);
    let ghost zeroes = map@;
    if let Some(p) = select_choice(ballot) {
        proof {
            let k = crate::choice::lemma_choice_exists(ballot@);
            assert(ballot@[k].0 == p.0);
        }
        map.insert(p.0, 1);
    }
    proof {
        assert forall|c: CandidateId| map@.contains_key(c) <==> is_listed(ballot@, c) by {
            assert(zeroes.contains_key(c) <==> is_listed(ballot@, c));
        }
        assert(map@ =~= indicator_map(ballot@));
    }
    map
}

/// Builds the audit record of one voter from the voter's ballot.
pub fn audit_record(voter: VoterId, ballot: &Vec<Preference>) -> (record: FPTPIntermediate)
    ensures
        record@ == (voter, indicator_map(ballot@)),
{
    let map = indicators(ballot);
    FPTPIntermediate::new(&voter, &map)
}

} // verus!
