use std::collections::HashMap;
use std::sync::mpsc;

use my_raft::log::Entry;
use my_raft::message::{Message, MessageType};
use my_raft::network::{
    after_failed_attempt, convert_from_raft_message, convert_to_raft_message, next_retry_delay_ms, ConnectStep,
    ConvertError, LogEntry, Network, RaftMessage, RaftNodeService, INITIAL_RETRY_DELAY_MS, MAX_CONNECT_ATTEMPTS,
    MAX_RETRY_DELAY_MS,
};

fn wire(msg_type: &str, granted: bool) -> RaftMessage {
    RaftMessage {
        msg_type: msg_type.to_string(),
        term: 2,
        from: 1,
        to: 3,
        last_log_index: 4,
        last_log_term: 1,
        granted,
        prev_log_index: 5,
        prev_log_term: 2,
        entries: vec![LogEntry { index: 6, term: 2, data: b"z".to_vec() }],
        leader_commit: 3,
    }
}

#[test]
fn every_message_type_round_trips() {
    let es = vec![Entry { index: 1, term: 1, data: b"a".to_vec() }];
    let msgs = vec![
        Message::request_vote(1, 1, 2, 3, 1),
        Message::request_vote_response(1, 2, 1, true),
        Message::append_entries(1, 1, 2, 0, 0, es, 0),
        Message::append_entries_response(1, 2, 1, true, 1),
    ];
    for m in msgs {
        let w = convert_from_raft_message(&m);
        assert_eq!(convert_to_raft_message(&w), Ok(m));
    }
}

#[test]
fn false_flag_travels_as_no_flag() {
    let m = Message::request_vote_response(1, 2, 1, false);
    let w = convert_from_raft_message(&m);
    assert!(!w.granted);
    let back = convert_to_raft_message(&w).unwrap();
    assert_eq!(back.granted, None);
}

#[test]
fn wire_names_of_message_types() {
    let m = Message::append_entries_response(1, 2, 1, true, 1);
    let w = convert_from_raft_message(&m);
    assert_eq!(w.msg_type, "AppendEntriesResponse");
    assert!(w.granted);
    assert_eq!(convert_from_raft_message(&Message::request_vote(1, 1, 2, 0, 0)).msg_type, "RequestVote");
}

#[test]
fn reading_a_wire_message_copies_its_fields() {
    let m = convert_to_raft_message(&wire("AppendEntries", false)).unwrap();
    assert_eq!(m.msg_type, MessageType::AppendEntries);
    assert_eq!((m.term, m.from, m.to, m.last_log_index, m.last_log_term), (2, 1, 3, 4, 1));
    assert_eq!((m.prev_log_index, m.prev_log_term, m.leader_commit), (5, 2, 3));
    assert_eq!(m.granted, None);
    assert_eq!(m.entries, vec![Entry { index: 6, term: 2, data: b"z".to_vec() }]);
}

#[test]
fn unknown_message_type_is_refused() {
    let r = convert_to_raft_message(&wire("Gossip", true));
    assert_eq!(r, Err(ConvertError::UnknownMessageType("Gossip".to_string())));
}

#[test]
fn service_acknowledges_what_it_reads() {
    let (tx, _rx) = mpsc::channel();
    let service = RaftNodeService::new(7, tx);
    let (m, ack) = service.receive(&wire("RequestVote", false)).unwrap();
    assert_eq!(m.msg_type, MessageType::RequestVote);
    assert_eq!(ack.msg_type, "Ack");
    assert_eq!((ack.from, ack.to, ack.term, ack.granted), (7, 1, 0, false));
    assert!(ack.entries.is_empty());
    assert!(service.receive(&wire("Nope", false)).is_err());
}

#[test]
fn service_hands_messages_to_the_node() {
    let (tx, rx) = mpsc::channel();
    let service = RaftNodeService::new(7, tx);
    let (m, _) = service.receive(&wire("RequestVote", false)).unwrap();
    service.node_sender().send(m).unwrap();
    assert_eq!(rx.recv().unwrap().msg_type, MessageType::RequestVote);
}

#[test]
fn network_keeps_its_configuration() {
    let (tx, _rx) = mpsc::channel();
    let mut peers = HashMap::new();
    peers.insert(1u64, "127.0.0.1:9001".to_string());
    peers.insert(2u64, "127.0.0.1:9002".to_string());
    let net = Network::new(1, peers.clone(), tx);
    assert_eq!(net.node_id(), 1);
    assert_eq!(net.peers(), &peers);
}

#[test]
fn retry_delay_doubles_up_to_the_cap() {
    assert_eq!(next_retry_delay_ms(INITIAL_RETRY_DELAY_MS), 200);
    assert_eq!(next_retry_delay_ms(800), 1600);
    assert_eq!(next_retry_delay_ms(1600), MAX_RETRY_DELAY_MS);
    assert_eq!(next_retry_delay_ms(MAX_RETRY_DELAY_MS), MAX_RETRY_DELAY_MS);
    assert_eq!(next_retry_delay_ms(0), 0);
}

#[test]
fn failed_connect_attempts_back_off_then_give_up() {
    let mut delays = Vec::new();
    let mut attempt = 1;
    let mut delay = INITIAL_RETRY_DELAY_MS;
    loop {
        delays.push(delay);
        match after_failed_attempt(attempt, delay) {
            ConnectStep::TryAgain { attempt: a, delay_ms: d } => {
                assert_eq!(a, attempt + 1);
                attempt = a;
                delay = d;
            }
            ConnectStep::GiveUp => break,
        }
    }
    assert_eq!(attempt, MAX_CONNECT_ATTEMPTS);
    assert_eq!(delays, vec![100, 200, 400, 800, 1600]);
    assert_eq!(after_failed_attempt(1, 1500), ConnectStep::TryAgain { attempt: 2, delay_ms: 2000 });
    assert_eq!(after_failed_attempt(5, 2000), ConnectStep::GiveUp);
}
