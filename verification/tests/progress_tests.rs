use my_raft::log::NO_ENTRY;
use my_raft::progress::{ProgressTracker, VoteResult};

#[test]
fn new_tracker_counts_each_voter_once() {
    let p = ProgressTracker::new(&[1, 2, 3, 2, 1]);
    assert_eq!(p.voters.len(), 3);
    assert!(p.votes.is_empty());
    for id in [1u64, 2, 3] {
        assert_eq!(p.next_index.get(&id), Some(&NO_ENTRY));
        assert_eq!(p.match_index.get(&id), Some(&NO_ENTRY));
    }
    assert_eq!(p.next_index.len(), 3);
}

#[test]
fn vote_from_non_voter_is_ignored() {
    let mut p = ProgressTracker::new(&[1, 2, 3]);
    p.record_vote(9, true);
    assert!(p.votes.is_empty());
    assert_eq!(p.tally_votes(), (0, 0, VoteResult::Pending));
}

#[test]
fn majority_of_three_wins() {
    let mut p = ProgressTracker::new(&[1, 2, 3]);
    p.record_vote(1, true);
    assert_eq!(p.vote_result(), VoteResult::Pending);
    p.record_vote(2, true);
    assert_eq!(p.tally_votes(), (2, 0, VoteResult::Won));
}

#[test]
fn majority_of_rejections_loses() {
    let mut p = ProgressTracker::new(&[1, 2, 3, 4, 5]);
    p.record_vote(1, true);
    p.record_vote(2, false);
    p.record_vote(3, false);
    assert_eq!(p.tally_votes(), (1, 2, VoteResult::Pending));
    p.record_vote(4, false);
    assert_eq!(p.tally_votes(), (1, 3, VoteResult::Lost));
}

#[test]
fn half_of_four_is_not_a_majority() {
    let mut p = ProgressTracker::new(&[1, 2, 3, 4]);
    p.record_vote(1, true);
    p.record_vote(2, true);
    assert_eq!(p.vote_result(), VoteResult::Pending);
    p.record_vote(3, true);
    assert_eq!(p.vote_result(), VoteResult::Won);
}

#[test]
fn a_later_vote_replaces_an_earlier_one() {
    let mut p = ProgressTracker::new(&[1, 2, 3]);
    p.record_vote(2, false);
    p.record_vote(2, true);
    assert_eq!(p.tally_votes(), (1, 0, VoteResult::Pending));
}

#[test]
fn reset_votes_forgets_all_votes() {
    let mut p = ProgressTracker::new(&[1, 2, 3]);
    p.record_vote(1, true);
    p.record_vote(2, true);
    p.reset_votes();
    assert_eq!(p.tally_votes(), (0, 0, VoteResult::Pending));
}

#[test]
fn single_voter_wins_with_own_vote() {
    let mut p = ProgressTracker::new(&[7]);
    p.record_vote(7, true);
    assert_eq!(p.vote_result(), VoteResult::Won);
}

#[test]
fn empty_voter_set_is_always_pending() {
    let p = ProgressTracker::new(&[]);
    assert_eq!(p.tally_votes(), (0, 0, VoteResult::Pending));
}

#[test]
fn init_leader_progress_sets_next_and_match() {
    let mut p = ProgressTracker::new(&[1, 2, 3]);
    p.init_leader_progress(2, 5);
    for id in [1u64, 2, 3] {
        assert_eq!(p.next_index.get(&id), Some(&6));
    }
    assert_eq!(p.match_index.get(&2), Some(&5));
    assert_eq!(p.match_index.get(&1), Some(&0));
    assert_eq!(p.match_index.get(&3), Some(&0));
}
