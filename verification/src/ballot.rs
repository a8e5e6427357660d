//! The ballot set: one ballot per voter, in the order the ballots were added.

use crate::choice::{Preference, VoterId};
use std::collections::HashSet;
use vstd::prelude::*;

verus! {

/// The ballots of an election, one per voter, kept in the order of insertion.
pub struct BallotSet {
    entries: Vec<(VoterId, Vec<Preference>)>,
    voters: HashSet<VoterId>,
}

/// Some ballot of `ballots` belongs to `voter`.
pub open spec fn has_voter(ballots: Seq<(VoterId, Seq<Preference>)>, voter: VoterId) -> bool {
    exists|i: int| 0 <= i < ballots.len() && (#[trigger] ballots[i]).0 == voter
}

/// No two ballots of `ballots` belong to the same voter.
pub open spec fn distinct_voters(ballots: Seq<(VoterId, Seq<Preference>)>) -> bool {
    forall|i: int, j: int|
        0 <= i < j < ballots.len() ==> (#[trigger] ballots[i]).0 != (#[trigger] ballots[j]).0
}

impl View for BallotSet {
    type V = Seq<(VoterId, Seq<Preference>)>;

    closed spec fn view(&self) -> Seq<(VoterId, Seq<Preference>)> {
        self.entries@.map_values(|e: (VoterId, Vec<Preference>)| (e.0, e.1@))
    }
}

impl BallotSet {
    #[verifier::type_invariant]
    spec fn well_formed(self) -> bool {
        &&& distinct_voters(self@)
        &&& forall|v: VoterId| self.voters@.contains(v) <==> has_voter(self@, v)
    }

    /// A set without ballots.
    pub fn new() -> (ballots: BallotSet)
        ensures
            ballots@ == Seq::<(VoterId, Seq<Preference>)>::empty(),
    {
        let ballots = BallotSet { entries: Vec::new(), voters: HashSet::new() };
        assert(ballots@ =~= Seq::<(VoterId, Seq<Preference>)>::empty());
        ballots
    }

    /// Adds the ballot of `voter` behind the ballots already held and says
    /// that it did. A voter has one ballot: a second one is refused, and the
    /// set is then left as it was.
    pub fn insert(&mut self, voter: VoterId, ballot: Vec<Preference>) -> (added: bool)
        ensures
            added == !has_voter(old(self)@, voter),
            added ==> final(self)@ == old(self)@.push((voter, ballot@)),
            !added ==> final(self)@ == old(self)@,
            distinct_voters(final(self)@),
    {
        proof {
            use_type_invariant(&*self);
        }
        if self.voters.contains(&voter) {
            return false;
        }
        let ghost before = self@;
        assert(!has_voter(before, voter));
        let mut taken = BallotSet::new();
        std::mem::swap(self, &mut taken);
        let BallotSet { mut entries, mut voters } = taken;
        voters.insert(voter);
        entries.push((voter, ballot));
        let ghost after = entries@.map_values(|e: (VoterId, Vec<Preference>)| (e.0, e.1@));
        proof {
            assert(after =~= before.push((voter, ballot@)));
            assert forall|v: VoterId| voters@.contains(v) <==> has_voter(after, v) by {
                if has_voter(before, v) {
                    let i = choose|i: int| 0 <= i < before.len() && (#[trigger] before[i]).0 == v;
                    assert(after[i].0 == v);
                }
                if v == voter {
                    assert(after[before.len() as int].0 == v);
                }
                if has_voter(after, v) && v != voter {
                    let i = choose|i: int| 0 <= i < after.len() && (#[trigger] after[i]).0 == v;
                    assert(before[i].0 == v);
                }
            }
            assert forall|i: int, j: int| 0 <= i < j < after.len() implies (#[trigger] after[i]).0
                != (#[trigger] after[j]).0 by {
                if j == before.len() {
                    assert(before[i].0 != voter);
                } else {
                    assert(before[i].0 != before[j].0);
                }
            }
        }
        let grown = BallotSet { entries, voters };
        *self = grown;
        true
    }

    /// The number of ballots, which is the number of voters.
    pub fn len(&self) -> (n: usize)
        ensures
            n == self@.len(),
            distinct_voters(self@),
    {
        proof {
            use_type_invariant(self);
        }
        self.entries.len()
    }

    /// Whether `voter` has a ballot in the set.
    pub fn contains_voter(&self, voter: VoterId) -> (found: bool)
        ensures
            found == has_voter(self@, voter),
    {
        proof {
            use_type_invariant(self);
        }
        self.voters.contains(&voter)
    }

    /// The voter of the ballot at position `i`.
    pub fn voter(&self, i: usize) -> (voter: VoterId)
        requires
            i < self@.len(),
        ensures
            voter == self@[i as int].0,
    {
        self.entries[i].0
    }

    /// The ballot at position `i`.
    pub fn ballot(&self, i: usize) -> (ballot: &Vec<Preference>)
        requires
            i < self@.len(),
        ensures
            ballot@ == self@[i as int].1,
    {
        &self.entries[i].1
    }
}

} // verus!
