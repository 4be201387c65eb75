use my_raft::log::Entry;
use my_raft::message::{Message, MessageType};

#[test]
fn request_vote_fields() {
    let m = Message::request_vote(3, 1, 2, 7, 2);
    assert_eq!(m.get_msg_type(), MessageType::RequestVote);
    assert_eq!((m.term, m.from, m.to, m.last_log_index, m.last_log_term), (3, 1, 2, 7, 2));
    assert_eq!(m.granted, None);
    assert_eq!((m.prev_log_index, m.prev_log_term, m.leader_commit), (0, 0, 0));
    assert!(m.entries.is_empty());
}

#[test]
fn request_vote_response_fields() {
    let m = Message::request_vote_response(4, 2, 1, true);
    assert_eq!(m.get_msg_type(), MessageType::RequestVoteResponse);
    assert_eq!(m.granted, Some(true));
    assert_eq!((m.term, m.from, m.to, m.last_log_index), (4, 2, 1, 0));
}

#[test]
fn append_entries_fields() {
    let es = vec![Entry { index: 3, term: 2, data: b"c".to_vec() }];
    let m = Message::append_entries(2, 1, 3, 2, 1, es.clone(), 2);
    assert_eq!(m.get_msg_type(), MessageType::AppendEntries);
    assert_eq!((m.prev_log_index, m.prev_log_term, m.leader_commit), (2, 1, 2));
    assert_eq!(m.entries, es);
    assert_eq!(m.granted, None);
    assert_eq!((m.last_log_index, m.last_log_term), (0, 0));
}

#[test]
fn append_entries_response_fields() {
    let m = Message::append_entries_response(5, 3, 1, false, 9);
    assert_eq!(m.get_msg_type(), MessageType::AppendEntriesResponse);
    assert_eq!(m.granted, Some(false));
    assert_eq!(m.last_log_index, 9);
    assert_eq!(m.last_log_term, 0);
}
