use em_fptp::audit::{audit_record, indicators};
use em_fptp::rank::{merge_ranked, rank, ranks_before, sort_range};
use em_fptp::tally::{record_vote, tally};
use em_fptp::{select_candidate, select_choice, BallotSet, FPTPIntermediate};
use std::collections::HashMap;

#[test]
fn choice_of_an_empty_ballot_is_none() {
    assert_eq!(select_choice(&Vec::new()), None);
}

#[test]
fn choice_is_the_greatest_weight() {
    assert_eq!(select_choice(&vec![(1, 5)]), Some((1, 5)));
    assert_eq!(select_choice(&vec![(1, 5), (2, 7), (3, 6)]), Some((2, 7)));
    assert_eq!(select_choice(&vec![(1, 9), (2, 7), (3, 6)]), Some((1, 9)));
    assert_eq!(select_choice(&vec![(1, 5), (2, 7), (3, 8)]), Some((3, 8)));
    assert_eq!(select_choice(&vec![(1, 0), (2, 0)]), Some((1, 0)));
    assert_eq!(select_choice(&vec![(1, 0), (2, u64::MAX), (3, u64::MAX)]), Some((2, u64::MAX)));
}

#[test]
fn choice_among_equal_weights_is_the_first() {
    assert_eq!(select_choice(&vec![(1, 5), (2, 7), (3, 7)]), Some((2, 7)));
    assert_eq!(select_choice(&vec![(3, 7), (2, 7), (1, 5)]), Some((3, 7)));
    assert_eq!(select_choice(&vec![(4, 2), (4, 2), (4, 2)]), Some((4, 2)));
}

#[test]
fn candidate_of_the_choice() {
    assert_eq!(select_candidate(&Vec::new()), None);
    assert_eq!(select_candidate(&vec![(1, 5), (2, 7), (3, 7)]), Some(2));
    assert_eq!(select_candidate(&vec![(6, 0)]), Some(6));
}

#[test]
fn choice_follows_fractional_weights() {
    let ballot = vec![(1, 0.7f64.to_bits()), (2, 0.8f64.to_bits()), (3, 0.75f64.to_bits())];
    assert_eq!(select_choice(&ballot), Some((2, 0.8f64.to_bits())));
}

#[test]
fn ballot_set_keeps_one_ballot_per_voter() {
    let mut set = BallotSet::new();
    assert_eq!(set.len(), 0);
    assert!(!set.contains_voter(7));
    assert!(set.insert(7, vec![(1, 1)]));
    assert!(set.insert(8, Vec::new()));
    assert!(set.contains_voter(7));
    assert!(set.contains_voter(8));
    assert!(!set.contains_voter(9));
    assert_eq!(set.len(), 2);
    assert!(!set.insert(7, vec![(2, 2)]));
    assert_eq!(set.len(), 2);
    assert_eq!(set.voter(0), 7);
    assert_eq!(set.ballot(0), &vec![(1, 1)]);
    assert_eq!(set.voter(1), 8);
    assert!(set.ballot(1).is_empty());
    assert!(set.insert(9, vec![(2, 2)]));
    assert_eq!(set.len(), 3);
    assert_eq!(set.voter(2), 9);
    assert_eq!(set.ballot(2), &vec![(2, 2)]);
}

#[test]
fn recording_counts_one_vote() {
    let mut counts: HashMap<u128, u64> = HashMap::new();
    record_vote(&mut counts, None);
    assert!(counts.is_empty());
    record_vote(&mut counts, Some(5));
    assert_eq!(counts.get(&5), Some(&1));
    record_vote(&mut counts, Some(5));
    record_vote(&mut counts, Some(6));
    record_vote(&mut counts, None);
    assert_eq!(counts.get(&5), Some(&2));
    assert_eq!(counts.get(&6), Some(&1));
    assert_eq!(counts.len(), 2);
}

#[test]
fn recording_in_another_order_gives_the_same_counts() {
    let votes = [Some(3u128), None, Some(4), Some(3), Some(9), None, Some(4), Some(3)];
    let mut forward: HashMap<u128, u64> = HashMap::new();
    for v in votes.iter() {
        record_vote(&mut forward, *v);
    }
    let mut backward: HashMap<u128, u64> = HashMap::new();
    for v in votes.iter().rev() {
        record_vote(&mut backward, *v);
    }
    assert_eq!(forward, backward);
    assert_eq!(forward.get(&3), Some(&3));
    assert_eq!(forward.get(&4), Some(&2));
    assert_eq!(forward.get(&9), Some(&1));
}

#[test]
fn tally_has_an_entry_for_each_candidate_with_a_vote() {
    let mut set = BallotSet::new();
    assert!(set.insert(1, vec![(10, 1), (11, 2)]));
    assert!(set.insert(2, vec![(10, 1)]));
    assert!(set.insert(3, Vec::new()));
    assert!(set.insert(4, vec![(12, 0), (11, 0)]));
    assert!(set.insert(5, vec![(11, 3), (10, 3)]));
    let counts = tally(&set);
    assert_eq!(counts.len(), 3);
    assert_eq!(counts.get(&10), Some(&1));
    assert_eq!(counts.get(&11), Some(&2));
    assert_eq!(counts.get(&12), Some(&1));
}

#[test]
fn ranking_order() {
    assert!(ranks_before(&(9, 3), &(1, 2)));
    assert!(!ranks_before(&(1, 2), &(9, 3)));
    assert!(ranks_before(&(1, 2), &(9, 2)));
    assert!(!ranks_before(&(9, 2), &(1, 2)));
    assert!(!ranks_before(&(4, 2), &(4, 2)));
}

#[test]
fn merge_keeps_the_ranking_order() {
    let none: Vec<(u128, u64)> = Vec::new();
    assert_eq!(merge_ranked(&none, &none), none);
    let left = vec![(7, 9), (4, 2), (6, 2)];
    let right = vec![(1, 11), (5, 2), (3, 1), (9, 1)];
    assert_eq!(merge_ranked(&left, &none), left);
    assert_eq!(merge_ranked(&none, &right), right);
    let merged = vec![(1, 11), (7, 9), (4, 2), (5, 2), (6, 2), (3, 1), (9, 1)];
    assert_eq!(merge_ranked(&left, &right), merged);
    assert_eq!(merge_ranked(&right, &left), merged);
}

#[test]
fn sort_of_a_range() {
    let entries = vec![(3, 1), (5, 2), (7, 9), (4, 2), (6, 2), (1, 9)];
    assert_eq!(sort_range(&entries, 0, 0), Vec::new());
    assert_eq!(sort_range(&entries, 6, 6), Vec::new());
    assert_eq!(sort_range(&entries, 2, 3), vec![(7, 9)]);
    assert_eq!(sort_range(&entries, 1, 4), vec![(7, 9), (4, 2), (5, 2)]);
    assert_eq!(sort_range(&entries, 0, 6), vec![(1, 9), (7, 9), (4, 2), (5, 2), (6, 2), (3, 1)]);
    assert_eq!(entries.len(), 6);
}

#[test]
fn rank_sorts_by_count_then_candidate() {
    let mut counts: HashMap<u128, u64> = HashMap::new();
    assert!(rank(&counts).is_empty());
    counts.insert(30, 1);
    counts.insert(10, 4);
    counts.insert(20, 4);
    counts.insert(5, 2);
    counts.insert(40, 7);
    counts.insert(1, 1);
    assert_eq!(rank(&counts), vec![(40, 7), (10, 4), (20, 4), (5, 2), (1, 1), (30, 1)]);
}

#[test]
fn rank_of_many_counts() {
    let mut counts: HashMap<u128, u64> = HashMap::new();
    for c in 0..2000u128 {
        counts.insert(c, ((c * 37) % 101) as u64);
    }
    let ranking = rank(&counts);
    assert_eq!(ranking.len(), 2000);
    for pair in ranking.windows(2) {
        assert!(pair[0].1 > pair[1].1 || (pair[0].1 == pair[1].1 && pair[0].0 < pair[1].0));
    }
    for (c, n) in ranking.iter() {
        assert_eq!(counts.get(c), Some(n));
    }
}

#[test]
fn indicators_mark_the_choice() {
    assert!(indicators(&Vec::new()).is_empty());
    let map = indicators(&vec![(1, 5), (2, 7), (3, 7), (1, 6)]);
    assert_eq!(map.len(), 3);
    assert_eq!(map.get(&1), Some(&0));
    assert_eq!(map.get(&2), Some(&1));
    assert_eq!(map.get(&3), Some(&0));
    let single = indicators(&vec![(8, 0)]);
    assert_eq!(single.len(), 1);
    assert_eq!(single.get(&8), Some(&1));
}

#[test]
fn audit_record_names_the_voter() {
    let record = audit_record(77, &vec![(1, 5), (2, 7)]);
    assert_eq!(record.voter_id(), 77);
    assert_eq!(record.voter_pt().len(), 2);
    assert_eq!(record.voter_pt().get(&1), Some(&0));
    assert_eq!(record.voter_pt().get(&2), Some(&1));
    let none = audit_record(78, &Vec::new());
    assert_eq!(none.voter_id(), 78);
    assert!(none.voter_pt().is_empty());
}

#[test]
fn new_record_holds_a_copy_of_the_map() {
    let mut map: HashMap<u128, u32> = HashMap::new();
    map.insert(3, 0);
    map.insert(4, 1);
    let record = FPTPIntermediate::new(&12, &map);
    map.insert(5, 0);
    assert_eq!(record.voter_id(), 12);
    assert_eq!(record.voter_pt().len(), 2);
    assert_eq!(record.voter_pt().get(&3), Some(&0));
    assert_eq!(record.voter_pt().get(&4), Some(&1));
    assert_eq!(record.voter_pt().get(&5), None);
}
