//! The ranker: the counts as a sequence, most votes first.

use crate::choice::CandidateId;
use crate::tally::Count;
use std::collections::HashMap;
use vstd::prelude::*;

verus! {

/// The order of the ranking: the entry with more votes comes first, and of two
/// entries with the same number of votes the one with the smaller candidate
/// identifier.
pub open spec fn precedes(a: (CandidateId, Count), b: (CandidateId, Count)) -> bool {
    a.1 > b.1 || (a.1 == b.1 && a.0 < b.0)
}

/// Every entry of `ranking` precedes all entries behind it.
pub open spec fn ranked(ranking: Seq<(CandidateId, Count)>) -> bool {
    forall|i: int, j: int|
        0 <= i < j < ranking.len() ==> precedes(#[trigger] ranking[i], #[trigger] ranking[j])
}

/// Some entry of `ranking` is for `candidate`.
pub open spec fn lists(ranking: Seq<(CandidateId, Count)>, candidate: CandidateId) -> bool {
    exists|i: int| 0 <= i < ranking.len() && (#[trigger] ranking[i]).0 == candidate
}

/// `ranking` is the ranking of `counts`: it is in ranking order, each of its
/// entries is an entry of `counts`, and every entry of `counts` is in it.
pub open spec fn is_ranking_of(
    ranking: Seq<(CandidateId, Count)>,
    counts: Map<CandidateId, Count>,
) -> bool {
    &&& ranked(ranking)
    &&& forall|i: int|
        0 <= i < ranking.len() ==> counts.contains_key((#[trigger] ranking[i]).0)
            && counts[ranking[i].0] == ranking[i].1
    &&& forall|c: CandidateId| counts.contains_key(c) ==> lists(ranking, c)
}

/// Whether `a` comes before `b` in the ranking.
pub fn ranks_before(a: &(CandidateId, Count), b: &(CandidateId, Count)) -> (before: bool)
    ensures
        before == precedes(*a, *b),
{
    a.1 > b.1 || (a.1 == b.1 && a.0 < b.0)
}

/// No two entries of `entries` are for the same candidate.
pub open spec fn distinct_candidates(entries: Seq<(CandidateId, Count)>) -> bool {
    forall|i: int, j: int|
        0 <= i < j < entries.len() ==> (#[trigger] entries[i]).0 != (#[trigger] entries[j]).0
}

/// `entry` is one of the entries of `entries` at the positions from `lo` up to,
/// not including, `hi`.
pub open spec fn holds_within(
    entries: Seq<(CandidateId, Count)>,
    lo: int,
    hi: int,
    entry: (CandidateId, Count),
) -> bool {
    exists|k: int| lo <= k < hi && #[trigger] entries[k] == entry
}

/// Merges two rankings of different candidates into one ranking that holds
/// the entries of both.
pub fn merge_ranked(left: &Vec<(CandidateId, Count)>, right: &Vec<(CandidateId, Count)>) -> (merged:
    Vec<(CandidateId, Count)>)
    requires
        ranked(left@),
        ranked(right@),
        forall|i: int, j: int|
            0 <= i < left@.len() && 0 <= j < right@.len() ==> (#[trigger] left@[i]).0 != (
            #[trigger] right@[j]).0,
    ensures
        ranked(merged@),
        merged@.len() == left@.len() + right@.len(),
        forall|e: (CandidateId, Count)|
            merged@.contains(e) <==> left@.contains(e) || right@.contains(e),
{
    let mut merged: Vec<(CandidateId, Count)> = Vec::new();
    let mut i: usize = 0;
    let mut j: usize = 0;
    while i < left.len() || j < right.len()
        invariant
            i <= left.len(),
            j <= right.len(),
            merged@.len() == i + j,
            ranked(left@),
            ranked(right@),
            forall|a: int, b: int|
                0 <= a < left@.len() && 0 <= b < right@.len() ==> (#[trigger] left@[a]).0 != (
                #[trigger] right@[b]).0,
            ranked(merged@),
            forall|m: int, k: int|
                0 <= m < merged@.len() && i <= k < left@.len() ==> precedes(
                    #[trigger] merged@[m],
                    #[trigger] left@[k],
                ),
            forall|m: int, k: int|
                0 <= m < merged@.len() && j <= k < right@.len() ==> precedes(
                    #[trigger] merged@[m],
                    #[trigger] right@[k],
                ),
            forall|m: int|
                0 <= m < merged@.len() ==> holds_within(left@, 0, i as int, #[trigger] merged@[m])
                    || holds_within(right@, 0, j as int, merged@[m]),
            forall|k: int| 0 <= k < i ==> merged@.contains(#[trigger] left@[k]),
            forall|k: int| 0 <= k < j ==> merged@.contains(#[trigger] right@[k]),
        decreases left.len() - i + right.len() - j,
    {
        let ghost before = merged@;
        let from_left = i < left.len() && (j >= right.len() || ranks_before(&left[i], &right[j]));
        let entry = if from_left {
            left[i]
        } else {
            right[j]
        };
        merged.push(entry);
        proof {
            assert forall|k: int| i <= k < left@.len() && (!from_left || k > i) implies precedes(
                entry,
                #[trigger] left@[k],
            ) by {
                if from_left {
                    assert(precedes(left@[i as int], left@[k]));
                } else {
                    assert(left@[i as int].0 != right@[j as int].0);
                    if k > i {
                        assert(precedes(left@[i as int], left@[k]));
                    }
                }
            }
            assert forall|k: int| j <= k < right@.len() && (from_left || k > j) implies precedes(
                entry,
                #[trigger] right@[k],
            ) by {
                if from_left {
                    if k > j {
                        assert(precedes(right@[j as int], right@[k]));
                    }
                } else {
                    assert(precedes(right@[j as int], right@[k]));
                }
            }
            assert forall|a: int, b: int| 0 <= a < b < merged@.len() implies precedes(
                #[trigger] merged@[a],
                #[trigger] merged@[b],
            ) by {
                if b < before.len() {
                    assert(precedes(before[a], before[b]));
                } else if from_left {
                    assert(precedes(before[a], left@[i as int]));
                } else {
                    assert(precedes(before[a], right@[j as int]));
                }
            }
            assert forall|k: int| 0 <= k < i implies merged@.contains(#[trigger] left@[k]) by {
                assert(before.contains(left@[k]));
                let m = choose|m: int| 0 <= m < before.len() && before[m] == left@[k];
                assert(merged@[m] == left@[k]);
            }
            assert forall|k: int| 0 <= k < j implies merged@.contains(#[trigger] right@[k]) by {
                assert(before.contains(right@[k]));
                let m = choose|m: int| 0 <= m < before.len() && before[m] == right@[k];
                assert(merged@[m] == right@[k]);
            }
            assert(merged@[before.len() as int] == entry);
        }
        if from_left {
            i += 1;
        } else {
            j += 1;
        }
        proof {
            assert forall|m: int| 0 <= m < merged@.len() implies holds_within(
                left@,
                0,
                i as int,
                #[trigger] merged@[m],
            ) || holds_within(right@, 0, j as int, merged@[m]) by {
                if m < before.len() {
                    assert(merged@[m] == before[m]);
                    if holds_within(left@, 0, i - (if from_left { 1int } else { 0int }), before[m]) {
                        let k = choose|k: int|
                            0 <= k < i - (if from_left { 1int } else { 0int }) && #[trigger] left@[k]
                                == before[m];
                        assert(left@[k] == merged@[m]);
                    } else {
                        let k = choose|k: int|
                            0 <= k < j - (if from_left { 0int } else { 1int }) && #[trigger] right@[k]
                                == before[m];
                        assert(right@[k] == merged@[m]);
                    }
                } else if from_left {
                    assert(left@[i - 1] == merged@[m]);
                } else {
                    assert(right@[j - 1] == merged@[m]);
                }
            }
        }
    }
    proof {
        assert forall|e: (CandidateId, Count)| merged@.contains(e) <==> left@.contains(e)
            || right@.contains(e) by {
            if merged@.contains(e) {
                let m = choose|m: int| 0 <= m < merged@.len() && merged@[m] == e;
                if holds_within(left@, 0, i as int, merged@[m]) {
                    let k = choose|k: int| 0 <= k < i && #[trigger] left@[k] == merged@[m];
                    assert(left@.contains(e));
                } else {
                    let k = choose|k: int| 0 <= k < j && #[trigger] right@[k] == merged@[m];
                    assert(right@.contains(e));
                }
            }
            if left@.contains(e) {
                let k = choose|k: int| 0 <= k < left@.len() && left@[k] == e;
                assert(merged@.contains(left@[k]));
            }
            if right@.contains(e) {
                let k = choose|k: int| 0 <= k < right@.len() && right@[k] == e;
                assert(merged@.contains(right@[k]));
            }
        }
    }
    merged
}

/// Sorts the entries at the positions from `lo` up to, not including, `hi`
/// into ranking order.
pub fn sort_range(entries: &Vec<(CandidateId, Count)>, lo: usize, hi: usize) -> (sorted: Vec<
    (CandidateId, Count),
>)
    requires
        lo <= hi <= entries@.len(),
        distinct_candidates(entries@),
    ensures
        ranked(sorted@),
        sorted@.len() == hi - lo,
        forall|e: (CandidateId, Count)|
            sorted@.contains(e) <==> holds_within(entries@, lo as int, hi as int, e),
    decreases hi - lo,
{
    let mut sorted: Vec<(CandidateId, Count)> = Vec::new();
    if hi - lo == 0 {
        sorted
    } else if hi - lo == 1 {
        sorted.push(entries[lo]);
        proof {
            assert(sorted@[0] == entries@[lo as int]);
            assert forall|e: (CandidateId, Count)| sorted@.contains(e) <==> holds_within(
                entries@,
                lo as int,
                hi as int,
                e,
            ) by {
                if sorted@.contains(e) {
                    assert(entries@[lo as int] == e);
                }
                if holds_within(entries@, lo as int, hi as int, e) {
                    assert(sorted@[0] == e);
                }
            }
        }
        sorted
    } else {
        let mid: usize = lo + (hi - lo) / 2;
        let left = sort_range(entries, lo, mid);
        let right = sort_range(entries, mid, hi);
        proof {
            assert forall|i: int, j: int|
                0 <= i < left@.len() && 0 <= j < right@.len() implies (#[trigger] left@[i]).0 != (
            #[trigger] right@[j]).0 by {
                assert(left@.contains(left@[i]));
                assert(right@.contains(right@[j]));
                let a = choose|a: int| lo <= a < mid && #[trigger] entries@[a] == left@[i];
                let b = choose|b: int| mid <= b < hi && #[trigger] entries@[b] == right@[j];
                assert(entries@[a].0 != entries@[b].0);
            }
        }
        let merged = merge_ranked(&left, &right);
        proof {
            assert forall|e: (CandidateId, Count)| merged@.contains(e) <==> holds_within(
                entries@,
                lo as int,
                hi as int,
                e,
            ) by {
                if holds_within(entries@, lo as int, hi as int, e) {
                    let k = choose|k: int| lo <= k < hi && #[trigger] entries@[k] == e;
                    if k < mid {
                        assert(holds_within(entries@, lo as int, mid as int, e));
                    } else {
                        assert(holds_within(entries@, mid as int, hi as int, e));
                    }
                }
                if left@.contains(e) {
                    let k = choose|k: int| lo <= k < mid && #[trigger] entries@[k] == e;
                    assert(holds_within(entries@, lo as int, hi as int, e));
                }
                if right@.contains(e) {
                    let k = choose|k: int| mid <= k < hi && #[trigger] entries@[k] == e;
                    assert(holds_within(entries@, lo as int, hi as int, e));
                }
            }
        }
        merged
    }
}

/// Ranks the counts: one entry per candidate of `counts`, the candidate with
/// the most votes first, candidates with equally many votes by ascending
/// identifier.
pub fn rank(counts: &HashMap<CandidateId, Count>) -> (ranking: Vec<(CandidateId, Count)>)
    ensures
        is_ranking_of(ranking@, counts@),
{
    let mut listed: Vec<(CandidateId, Count)> = Vec::new();
    for entry in it: counts.iter()
        invariant
            listed@.len() == it.index(),
            forall|k: int|
                0 <= k < it.index() ==> *(#[trigger] it.seq()[k]).0 == listed@[k].0
                    && *it.seq()[k].1 == listed@[k].1,
            forall|k: int|
                0 <= k < it.seq().len() ==> counts@.contains_key(*(#[trigger] it.seq()[k]).0)
                    && counts@[*it.seq()[k].0] == *it.seq()[k].1,
            forall|c: CandidateId|
                counts@.contains_key(c) ==> exists|k: int|
                    0 <= k < it.seq().len() && *(#[trigger] it.seq()[k]).0 == c,
            it.seq().no_duplicates(),
            forall|k: int|
                0 <= k < listed@.len() ==> counts@.contains_key((#[trigger] listed@[k]).0)
                    && counts@[listed@[k].0] == listed@[k].1,
            distinct_candidates(listed@),
            it.index() == it.seq().len() ==> forall|c: CandidateId|
                counts@.contains_key(c) ==> lists(listed@, c),
    {
        let ghost before = listed@;
        let ghost at = it.index();
        listed.push((*entry.0, *entry.1));
        proof {
            assert forall|a: int, b: int| 0 <= a < b < listed@.len() implies (
            #[trigger] listed@[a]).0 != (#[trigger] listed@[b]).0 by {
                if b == at {
                    assert(*it.seq()[a].0 == before[a].0);
                    if listed@[a].0 == listed@[b].0 {
                        assert(it.seq()[a] == it.seq()[b]);
                    }
                } else {
                    assert(before[a].0 != before[b].0);
                }
            }
            assert forall|c: CandidateId|
                at + 1 == it.seq().len() && counts@.contains_key(c) implies lists(listed@, c) by {
                let k = choose|k: int| 0 <= k < it.seq().len() && *(#[trigger] it.seq()[k]).0 == c;
                assert(listed@[k].0 == c);
            }
        }
    }
    let ranking = sort_range(&listed, 0, listed.len());
    proof {
        assert forall|i: int| 0 <= i < ranking@.len() implies counts@.contains_key(
            (#[trigger] ranking@[i]).0,
        ) && counts@[ranking@[i].0] == ranking@[i].1 by {
            assert(ranking@.contains(ranking@[i]));
            let k = choose|k: int| 0 <= k < listed@.len() && #[trigger] listed@[k] == ranking@[i];
            assert(counts@.contains_key(listed@[k].0));
        }
        assert forall|c: CandidateId| counts@.contains_key(c) implies lists(ranking@, c) by {
            assert(lists(listed@, c));
            let k = choose|k: int| 0 <= k < listed@.len() && (#[trigger] listed@[k]).0 == c;
            assert(holds_within(listed@, 0, listed@.len() as int, listed@[k]));
            assert(ranking@.contains(listed@[k]));
            let i = choose|i: int| 0 <= i < ranking@.len() && ranking@[i] == listed@[k];
            assert(ranking@[i].0 == c);
        }
    }
    ranking
}

} // verus!
