use my_raft::log::Entry;
use my_raft::message::{Message, MessageType};
use my_raft::raft::{Config, Raft, RaftError, Role, INVALID_ID};

fn config(id: u64, peers: &[u64], min: usize, max: usize) -> Config {
    Config {
        id,
        election_tick: 10,
        heartbeat_tick: 4,
        check_quorum: true,
        min_election_tick: min,
        max_election_tick: max,
        peers: peers.to_vec(),
    }
}

fn entry(index: u64, term: u64, data: &[u8]) -> Entry {
    Entry { index, term, data: data.to_vec() }
}

/// Node 1 of a three-node cluster that has just won the election of term 1.
fn leader_of_three() -> Raft {
    let mut node = Raft::new(config(1, &[1, 2, 3], 1, 2));
    assert!(node.tick());
    assert_eq!(node.r.role, Role::Candidate);
    node.step(Message::request_vote_response(1, 2, 1, true)).unwrap();
    assert_eq!(node.r.role, Role::Leader);
    node.msgs.clear();
    node
}

#[test]
fn new_node_is_a_follower_in_term_zero() {
    let node = Raft::new(config(2, &[1, 2, 3], 5, 10));
    assert_eq!(node.r.role, Role::Follower);
    assert_eq!(node.r.term, 0);
    assert_eq!(node.r.vote, INVALID_ID);
    assert_eq!(node.r.leader_id, INVALID_ID);
    assert_eq!(node.r.id, 2);
    assert_eq!(node.r.log.last_index(), 0);
    assert!(node.msgs.is_empty());
    assert_eq!(node.prs.voters.len(), 3);
}

#[test]
fn randomized_timeout_is_drawn_from_the_range() {
    for _ in 0..50 {
        let node = Raft::new(config(1, &[1, 2, 3], 5, 10));
        assert!(node.r.randomized_election_timeout >= 5);
        assert!(node.r.randomized_election_timeout < 10);
    }
    let node = Raft::new(config(1, &[1, 2, 3], 5, 6));
    assert_eq!(node.r.randomized_election_timeout, 5);
}

#[test]
fn reset_randomized_timeout_stays_in_range() {
    let mut node = Raft::new(config(1, &[1, 2, 3], 3, 4));
    node.reset_randomized_election_timeout();
    assert_eq!(node.r.randomized_election_timeout, 3);
}

#[test]
fn follower_waits_for_its_timeout() {
    let mut node = Raft::new(config(1, &[1, 2, 3], 3, 4));
    assert!(!node.tick());
    assert!(!node.tick());
    assert!(!node.pass_election_timeout());
    assert_eq!(node.r.election_elapsed, 2);
    assert!(node.tick());
    assert_eq!(node.r.role, Role::Candidate);
    assert_eq!(node.r.election_elapsed, 0);
}

#[test]
fn timeout_starts_an_election() {
    let mut node = Raft::new(config(1, &[1, 2, 3], 1, 2));
    assert!(node.tick());
    assert_eq!(node.r.role, Role::Candidate);
    assert_eq!(node.r.term, 1);
    assert_eq!(node.r.vote, 1);
    assert_eq!(node.msgs.len(), 2);
    let mut targets: Vec<u64> = node.msgs.iter().map(|m| m.to).collect();
    targets.sort();
    assert_eq!(targets, vec![2, 3]);
    for m in &node.msgs {
        assert_eq!(m.msg_type, MessageType::RequestVote);
        assert_eq!((m.term, m.from, m.last_log_index, m.last_log_term), (1, 1, 0, 0));
    }
    assert_eq!(node.prs.votes.get(&1), Some(&true));
}

#[test]
fn single_node_cluster_leads_at_once() {
    let mut node = Raft::new(config(1, &[1], 1, 2));
    assert!(node.tick());
    assert_eq!(node.r.role, Role::Leader);
    assert_eq!(node.r.term, 1);
    assert_eq!(node.r.leader_id, 1);
    assert!(node.msgs.is_empty());
    assert_eq!(node.propose(b"cmd".to_vec()), Ok(()));
    assert_eq!(node.r.log.last_index(), 1);
    assert_eq!(node.prs.match_index.get(&1), Some(&1));
    assert_eq!(node.prs.next_index.get(&1), Some(&2));
}

#[test]
fn follower_refuses_proposals() {
    let mut node = Raft::new(config(3, &[1, 2, 3], 5, 10));
    assert_eq!(node.propose(b"cmd".to_vec()), Err(RaftError::NotLeader(3)));
    assert_eq!(node.r.log.last_index(), 0);
    assert!(node.msgs.is_empty());
}

#[test]
fn candidate_wins_with_a_majority() {
    let mut node = Raft::new(config(1, &[1, 2, 3], 1, 2));
    node.tick();
    node.msgs.clear();
    node.step(Message::request_vote_response(1, 2, 1, true)).unwrap();
    assert_eq!(node.r.role, Role::Leader);
    assert_eq!(node.r.leader_id, 1);
    assert_eq!(node.msgs.len(), 2);
    for m in &node.msgs {
        assert_eq!(m.msg_type, MessageType::AppendEntries);
        assert_eq!((m.term, m.from, m.prev_log_index, m.prev_log_term), (1, 1, 0, 0));
        assert!(m.entries.is_empty());
    }
    assert_eq!(node.prs.next_index.get(&2), Some(&1));
    assert_eq!(node.prs.match_index.get(&1), Some(&0));
}

#[test]
fn candidate_loses_on_a_majority_of_rejections() {
    let mut node = Raft::new(config(1, &[1, 2, 3, 4, 5], 1, 2));
    node.tick();
    node.step(Message::request_vote_response(1, 2, 1, false)).unwrap();
    node.step(Message::request_vote_response(1, 3, 1, false)).unwrap();
    assert_eq!(node.r.role, Role::Candidate);
    node.step(Message::request_vote_response(1, 4, 1, false)).unwrap();
    assert_eq!(node.r.role, Role::Follower);
    assert_eq!(node.r.term, 1);
    assert_eq!(node.r.leader_id, INVALID_ID);
    assert_eq!(node.r.vote, 1);
}

#[test]
fn vote_granted_to_up_to_date_candidate() {
    let mut node = Raft::new(config(2, &[1, 2, 3], 5, 10));
    node.step(Message::request_vote(1, 1, 2, 0, 0)).unwrap();
    assert_eq!(node.r.term, 1);
    assert_eq!(node.r.vote, 1);
    assert_eq!(node.msgs.len(), 1);
    let m = &node.msgs[0];
    assert_eq!(m.msg_type, MessageType::RequestVoteResponse);
    assert_eq!((m.term, m.from, m.to, m.granted), (1, 2, 1, Some(true)));
}

#[test]
fn only_one_vote_per_term() {
    let mut node = Raft::new(config(2, &[1, 2, 3], 5, 10));
    node.step(Message::request_vote(1, 1, 2, 0, 0)).unwrap();
    node.step(Message::request_vote(1, 3, 2, 0, 0)).unwrap();
    assert_eq!(node.r.vote, 1);
    assert_eq!(node.msgs[1].granted, Some(false));
    assert_eq!(node.msgs[1].to, 3);
    node.step(Message::request_vote(1, 1, 2, 0, 0)).unwrap();
    assert_eq!(node.msgs[2].granted, Some(true));
}

#[test]
fn vote_refused_to_outdated_candidate() {
    let mut node = Raft::new(config(2, &[1, 2, 3], 5, 10));
    node.step(Message::append_entries(1, 1, 2, 0, 0, vec![entry(1, 1, b"a")], 0)).unwrap();
    assert_eq!(node.r.log.last_index(), 1);
    node.step(Message::request_vote(2, 3, 2, 0, 0)).unwrap();
    assert_eq!(node.r.term, 2);
    assert_eq!(node.r.vote, INVALID_ID);
    assert_eq!(node.msgs.last().unwrap().granted, Some(false));
    node.step(Message::request_vote(2, 3, 2, 1, 1)).unwrap();
    assert_eq!(node.r.vote, 3);
    assert_eq!(node.msgs.last().unwrap().granted, Some(true));
}

#[test]
fn follower_accepts_entries_and_commits() {
    let mut node = Raft::new(config(2, &[1, 2, 3], 5, 10));
    let es = vec![entry(1, 1, b"a"), entry(2, 1, b"b")];
    node.step(Message::append_entries(1, 1, 2, 0, 0, es, 1)).unwrap();
    assert_eq!(node.r.leader_id, 1);
    assert_eq!(node.r.term, 1);
    assert_eq!(node.r.log.last_index(), 2);
    assert_eq!(node.r.log.committed, 1);
    assert_eq!(node.r.log.applied, 1);
    let m = node.msgs.last().unwrap();
    assert_eq!(m.msg_type, MessageType::AppendEntriesResponse);
    assert_eq!((m.term, m.from, m.to, m.granted, m.last_log_index), (1, 2, 1, Some(true), 2));
    node.step(Message::append_entries(1, 1, 2, 2, 1, vec![], 9)).unwrap();
    assert_eq!(node.r.log.committed, 2);
    assert_eq!(node.r.log.applied, 2);
}

#[test]
fn follower_keeps_entries_an_older_request_agrees_with() {
    let mut node = Raft::new(config(1, &[1, 2, 3], 5, 10));
    let es = vec![entry(1, 1, b""), entry(2, 1, b""), entry(3, 1, b"")];
    node.step(Message::append_entries(1, 2, 1, 0, 0, es, 0)).unwrap();
    node.step(Message::append_entries(1, 2, 1, 0, 0, vec![entry(1, 1, b"")], 0)).unwrap();
    assert_eq!(node.r.log.last_index(), 3);
    let m = node.msgs.last().unwrap();
    assert_eq!((m.granted, m.last_log_index), (Some(true), 3));
}

#[test]
fn follower_commits_only_up_to_the_last_new_entry() {
    let mut node = Raft::new(config(1, &[1, 2, 3], 5, 10));
    let es = vec![entry(1, 1, b""), entry(2, 1, b"")];
    node.step(Message::append_entries(1, 2, 1, 0, 0, es, 0)).unwrap();
    node.step(Message::append_entries(2, 3, 1, 1, 1, vec![], 2)).unwrap();
    assert_eq!(node.r.term, 2);
    assert_eq!(node.r.leader_id, 3);
    assert_eq!(node.r.log.last_index(), 2);
    assert_eq!(node.r.log.committed, 1);
    assert_eq!(node.r.log.applied, 1);
    let m = node.msgs.last().unwrap();
    assert_eq!((m.term, m.granted, m.last_log_index), (2, Some(true), 2));
}

#[test]
fn committed_entries_survive_an_older_request() {
    let mut node = Raft::new(config(1, &[1, 2, 3], 5, 10));
    let es = vec![entry(1, 1, b"a"), entry(2, 1, b"b")];
    node.step(Message::append_entries(1, 2, 1, 0, 0, es, 2)).unwrap();
    assert_eq!(node.r.log.committed, 2);
    node.step(Message::append_entries(1, 2, 1, 0, 0, vec![entry(1, 1, b"a")], 0)).unwrap();
    assert_eq!(node.r.log.last_index(), 2);
    assert_eq!(node.r.log.entries[1], entry(2, 1, b"b"));
    assert!(node.r.log.committed <= node.r.log.last_index());
}

#[test]
fn applied_entries_are_handed_out_in_order() {
    let mut node = Raft::new(config(1, &[1, 2, 3], 5, 10));
    let before = node.r.log.applied;
    let es = vec![entry(1, 1, b"a"), entry(2, 1, b"b"), entry(3, 1, b"c")];
    node.step(Message::append_entries(1, 2, 1, 0, 0, es, 2)).unwrap();
    assert_eq!(node.r.log.applied_since(before), vec![entry(1, 1, b"a"), entry(2, 1, b"b")]);
}

#[test]
fn leader_of_four_needs_three_holders_to_commit() {
    let mut node = Raft::new(config(1, &[1, 2, 3, 4], 1, 2));
    node.tick();
    node.step(Message::request_vote_response(1, 2, 1, true)).unwrap();
    node.step(Message::request_vote_response(1, 3, 1, true)).unwrap();
    assert_eq!(node.r.role, Role::Leader);
    node.propose(b"x".to_vec()).unwrap();
    node.step(Message::append_entries_response(1, 2, 1, true, 1)).unwrap();
    assert_eq!(node.r.role, Role::Leader);
    assert_eq!(node.prs.match_index.get(&2), Some(&1));
    assert_eq!(node.r.log.committed, 0);
    assert_eq!(node.r.log.applied, 0);
    node.step(Message::append_entries_response(1, 3, 1, true, 1)).unwrap();
    assert_eq!(node.r.log.committed, 1);
}

#[test]
fn follower_rejects_entries_after_a_missing_one() {
    let mut node = Raft::new(config(2, &[1, 2, 3], 5, 10));
    node.step(Message::append_entries(1, 1, 2, 3, 1, vec![entry(4, 1, b"d")], 0)).unwrap();
    assert_eq!(node.r.log.last_index(), 0);
    let m = node.msgs.last().unwrap();
    assert_eq!((m.granted, m.last_log_index), (Some(false), 0));
}

#[test]
fn follower_rejects_entries_after_a_term_mismatch() {
    let mut node = Raft::new(config(2, &[1, 2, 3], 5, 10));
    node.step(Message::append_entries(1, 1, 2, 0, 0, vec![entry(1, 1, b"a")], 0)).unwrap();
    node.step(Message::append_entries(2, 1, 2, 1, 2, vec![entry(2, 2, b"b")], 0)).unwrap();
    assert_eq!(node.r.log.last_index(), 1);
    assert_eq!(node.msgs.last().unwrap().granted, Some(false));
}

#[test]
fn stale_append_request_is_refused_with_quorum_check() {
    let mut node = Raft::new(config(2, &[1, 2, 3], 5, 10));
    node.step(Message::request_vote(3, 3, 2, 0, 0)).unwrap();
    node.msgs.clear();
    node.step(Message::append_entries(1, 1, 2, 0, 0, vec![entry(1, 1, b"a")], 0)).unwrap();
    assert_eq!(node.r.term, 3);
    assert_eq!(node.r.log.last_index(), 0);
    assert_eq!(node.msgs.len(), 1);
    let m = &node.msgs[0];
    assert_eq!((m.msg_type.clone(), m.term, m.to, m.granted), (MessageType::AppendEntriesResponse, 3, 1, Some(false)));
}

#[test]
fn stale_message_is_ignored_without_quorum_check() {
    let mut cfg = config(2, &[1, 2, 3], 5, 10);
    cfg.check_quorum = false;
    let mut node = Raft::new(cfg);
    node.step(Message::request_vote(3, 3, 2, 0, 0)).unwrap();
    node.msgs.clear();
    node.step(Message::append_entries(1, 1, 2, 0, 0, vec![], 0)).unwrap();
    assert!(node.msgs.is_empty());
    assert_eq!(node.r.term, 3);
}

#[test]
fn leader_replicates_and_commits_on_majority() {
    let mut node = leader_of_three();
    node.propose(b"x".to_vec()).unwrap();
    assert_eq!(node.r.log.last_index(), 1);
    assert_eq!(node.msgs.len(), 2);
    for m in &node.msgs {
        assert_eq!(m.entries, vec![entry(1, 1, b"x")]);
        assert_eq!((m.prev_log_index, m.prev_log_term, m.leader_commit), (0, 0, 0));
    }
    assert_eq!(node.r.log.committed, 0);
    node.step(Message::append_entries_response(1, 2, 1, true, 1)).unwrap();
    assert_eq!(node.prs.match_index.get(&2), Some(&1));
    assert_eq!(node.prs.next_index.get(&2), Some(&2));
    assert_eq!(node.r.log.committed, 1);
    assert_eq!(node.r.log.applied, 1);
}

#[test]
fn leader_does_not_commit_without_majority() {
    let mut node = Raft::new(config(1, &[1, 2, 3, 4, 5], 1, 2));
    node.tick();
    node.step(Message::request_vote_response(1, 2, 1, true)).unwrap();
    node.step(Message::request_vote_response(1, 3, 1, true)).unwrap();
    assert_eq!(node.r.role, Role::Leader);
    node.propose(b"x".to_vec()).unwrap();
    node.step(Message::append_entries_response(1, 2, 1, true, 1)).unwrap();
    assert_eq!(node.r.log.committed, 0);
    node.step(Message::append_entries_response(1, 3, 1, true, 1)).unwrap();
    assert_eq!(node.r.log.committed, 1);
}

#[test]
fn failed_append_steps_next_index_back_and_retries() {
    let mut node = leader_of_three();
    node.propose(b"a".to_vec()).unwrap();
    node.propose(b"b".to_vec()).unwrap();
    node.step(Message::append_entries_response(1, 2, 1, true, 2)).unwrap();
    assert_eq!(node.prs.next_index.get(&2), Some(&3));
    node.msgs.clear();
    node.step(Message::append_entries_response(1, 2, 1, false, 0)).unwrap();
    assert_eq!(node.prs.next_index.get(&2), Some(&2));
    assert_eq!(node.msgs.len(), 1);
    let m = &node.msgs[0];
    assert_eq!((m.to, m.prev_log_index, m.prev_log_term), (2, 1, 1));
    assert_eq!(m.entries, vec![entry(2, 1, b"b")]);
}

#[test]
fn failed_append_at_next_index_one_sends_nothing() {
    let mut node = leader_of_three();
    node.step(Message::append_entries_response(1, 3, 1, false, 0)).unwrap();
    assert_eq!(node.prs.next_index.get(&3), Some(&1));
    assert!(node.msgs.is_empty());
}

#[test]
fn leader_steps_down_on_append_request_in_its_term() {
    let mut node = leader_of_three();
    node.step(Message::append_entries(1, 2, 1, 0, 0, vec![], 0)).unwrap();
    assert_eq!(node.r.role, Role::Follower);
    assert_eq!(node.r.leader_id, 2);
    assert_eq!(node.msgs.last().unwrap().granted, Some(true));
}

#[test]
fn higher_term_turns_leader_into_follower() {
    let mut node = leader_of_three();
    node.step(Message::request_vote_response(5, 3, 1, false)).unwrap();
    assert_eq!(node.r.role, Role::Follower);
    assert_eq!(node.r.term, 5);
    assert_eq!(node.r.vote, INVALID_ID);
    assert_eq!(node.r.leader_id, INVALID_ID);
}

#[test]
fn leader_sends_heartbeats_every_heartbeat_tick() {
    let mut node = leader_of_three();
    assert!(!node.tick());
    assert!(!node.tick());
    assert!(!node.tick());
    assert!(node.msgs.is_empty());
    assert!(node.tick());
    assert_eq!(node.msgs.len(), 2);
    assert_eq!(node.r.role, Role::Leader);
}

#[test]
fn become_follower_resets_the_node() {
    let mut node = leader_of_three();
    node.become_follower(4, 3);
    assert_eq!(node.r.role, Role::Follower);
    assert_eq!(node.r.term, 4);
    assert_eq!(node.r.leader_id, 3);
    assert_eq!(node.r.vote, INVALID_ID);
    assert!(node.prs.votes.is_empty());
}

#[test]
fn reset_keeps_the_vote_within_a_term() {
    let mut node = Raft::new(config(1, &[1, 2, 3], 1, 2));
    node.tick();
    node.reset(1);
    assert_eq!(node.r.vote, 1);
    node.reset(2);
    assert_eq!(node.r.vote, INVALID_ID);
    assert_eq!(node.r.term, 2);
}

#[test]
fn campaign_and_become_candidate_move_to_next_term() {
    let mut node = Raft::new(config(1, &[1, 2, 3], 5, 10));
    node.become_candidate();
    assert_eq!((node.r.term, node.r.vote, node.r.role), (1, 1, Role::Candidate));
    node.campaign();
    assert_eq!((node.r.term, node.r.vote, node.r.role), (2, 1, Role::Candidate));
    assert_eq!(node.msgs.len(), 2);
}

#[test]
fn become_leader_from_candidate() {
    let mut node = Raft::new(config(1, &[1, 2, 3], 5, 10));
    node.become_candidate();
    node.become_leader();
    assert_eq!(node.r.role, Role::Leader);
    assert_eq!(node.r.leader_id, 1);
    assert_eq!(node.msgs.len(), 2);
}

#[test]
fn tick_election_on_follower() {
    let mut node = Raft::new(config(1, &[1, 2, 3], 1, 2));
    assert!(node.tick_election());
    assert_eq!(node.r.role, Role::Candidate);
}

#[test]
fn follower_ignores_vote_responses() {
    let mut node = Raft::new(config(1, &[1, 2, 3], 5, 10));
    node.step(Message::request_vote_response(0, 2, 1, true)).unwrap();
    node.step(Message::request_vote_response(0, 3, 1, true)).unwrap();
    assert_eq!(node.r.role, Role::Follower);
    assert!(node.msgs.is_empty());
}

#[test]
fn leader_does_not_commit_an_entry_of_an_earlier_term_by_counting() {
    let mut node = Raft::new(config(1, &[1, 2, 3], 1, 2));
    node.step(Message::append_entries(1, 2, 1, 0, 0, vec![entry(1, 1, b"old")], 0)).unwrap();
    assert_eq!(node.r.term, 1);
    node.r.election_elapsed = 0;
    assert!(node.tick());
    assert_eq!(node.r.term, 2);
    node.step(Message::request_vote_response(2, 3, 1, true)).unwrap();
    assert_eq!(node.r.role, Role::Leader);
    node.step(Message::append_entries_response(2, 3, 1, true, 1)).unwrap();
    assert_eq!(node.prs.match_index.get(&3), Some(&1));
    assert_eq!(node.r.log.committed, 0);
    node.propose(b"new".to_vec()).unwrap();
    node.step(Message::append_entries_response(2, 3, 1, true, 2)).unwrap();
    assert_eq!(node.r.log.committed, 2);
    assert_eq!(node.r.log.applied, 2);
}

#[test]
fn step_and_tick_checks_accept_ordinary_input() {
    let node = leader_of_three();
    assert!(node.can_tick());
    assert!(node.can_step(&Message::append_entries_response(1, 2, 1, true, 0)));
    assert!(!node.can_step(&Message::append_entries_response(1, 9, 1, true, 0)));
    assert!(!node.can_step(&Message::append_entries_response(1, 2, 1, true, u64::MAX)));
    let follower = Raft::new(config(2, &[1, 2, 3], 5, 10));
    assert!(follower.can_step(&Message::append_entries(1, 1, 2, 0, 0, vec![entry(0, 1, b"bad")], 0)));
    assert!(follower.can_step(&Message::append_entries(1, 1, 2, 0, 0, vec![entry(1, 1, b"ok")], 0)));
}

#[test]
fn entry_numbered_zero_is_dropped() {
    let mut follower = Raft::new(config(2, &[1, 2, 3], 5, 10));
    follower.step(Message::append_entries(1, 1, 2, 0, 0, vec![entry(0, 1, b"bad")], 0)).unwrap();
    assert_eq!(follower.r.log.last_index(), 0);
    let m = follower.msgs.last().unwrap();
    assert_eq!((m.granted, m.last_log_index), (Some(true), 0));
}

#[test]
fn messages_carry_the_node_id_and_term() {
    let mut node = leader_of_three();
    node.propose(b"x".to_vec()).unwrap();
    node.step(Message::request_vote(1, 2, 1, 0, 0)).unwrap();
    for m in &node.msgs {
        assert_eq!(m.from, 1);
        assert_eq!(m.term, node.r.term);
    }
}

#[test]
fn deref_reaches_the_core() {
    let node = Raft::new(config(4, &[4], 5, 10));
    assert_eq!(node.id, 4);
    assert_eq!(node.role, Role::Follower);
}
