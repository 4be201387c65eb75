use vstd::prelude::*;
use std::collections::HashMap;
use std::sync::mpsc::Sender;

use crate::log::{Entry, EntryView};
use crate::message::{Message, MessageType, MessageView};

verus! {

/// Declares `std::sync::mpsc::Sender`, the sending end of a std channel, so
/// that a node's service can hold one; proofs see nothing inside it and claim
/// nothing about it.
#[verifier::external_type_specification]
#[verifier::external_body]
#[verifier::reject_recursive_types(T)]
pub struct ExSender<T>(Sender<T>);

/// A log entry as it travels on the wire.
pub struct LogEntry {
    pub index: u64,
    pub term: u64,
    pub data: Vec<u8>,
}

impl View for LogEntry {
    type V = EntryView;

    open spec fn view(&self) -> EntryView {
        EntryView { index: self.index, term: self.term, data: self.data@ }
    }
}

/// A message as it travels on the wire: the kind is spelled out, and a
/// missing vote or success flag travels as `false`.
pub struct RaftMessage {
    pub msg_type: String,
    pub term: u64,
    pub from: u64,
    pub to: u64,
    pub last_log_index: u64,
    pub last_log_term: u64,
    pub granted: bool,
    pub prev_log_index: u64,
    pub prev_log_term: u64,
    pub entries: Vec<LogEntry>,
    pub leader_commit: u64,
}

/// Mathematical value of a [`RaftMessage`].
pub struct RaftMessageView {
    pub msg_type: Seq<char>,
    pub term: u64,
    pub from: u64,
    pub to: u64,
    pub last_log_index: u64,
    pub last_log_term: u64,
    pub granted: bool,
    pub prev_log_index: u64,
    pub prev_log_term: u64,
    pub entries: Seq<EntryView>,
    pub leader_commit: u64,
}

/// The views of a sequence of wire entries.
pub open spec fn log_entries_view(es: Seq<LogEntry>) -> Seq<EntryView> {
    es.map_values(|e: LogEntry| e@)
}

impl View for RaftMessage {
    type V = RaftMessageView;

    open spec fn view(&self) -> RaftMessageView {
        RaftMessageView {
            msg_type: self.msg_type@,
            term: self.term,
            from: self.from,
            to: self.to,
            last_log_index: self.last_log_index,
            last_log_term: self.last_log_term,
            granted: self.granted,
            prev_log_index: self.prev_log_index,
            prev_log_term: self.prev_log_term,
            entries: log_entries_view(self.entries@),
            leader_commit: self.leader_commit,
        }
    }
}

/// The name a kind of message travels under.
pub open spec fn wire_name(t: MessageType) -> Seq<char> {
    match t {
        MessageType::RequestVote => "RequestVote"@,
        MessageType::RequestVoteResponse => "RequestVoteResponse"@,
        MessageType::AppendEntries => "AppendEntries"@,
        MessageType::AppendEntriesResponse => "AppendEntriesResponse"@,
    }
}

/// The kind of message a name stands for, if any.
pub open spec fn parse_type(name: Seq<char>) -> Option<MessageType> {
    if name == "RequestVote"@ {
        Some(MessageType::RequestVote)
    } else if name == "RequestVoteResponse"@ {
        Some(MessageType::RequestVoteResponse)
    } else if name == "AppendEntries"@ {
        Some(MessageType::AppendEntries)
    } else if name == "AppendEntriesResponse"@ {
        Some(MessageType::AppendEntriesResponse)
    } else {
        None
    }
}

/// The message a wire message carries: none when its kind is unknown; a
/// `true` flag is a granted vote or a success, a `false` one is no flag at all.
pub open spec fn decode(w: RaftMessageView) -> Option<MessageView> {
    match parse_type(w.msg_type) {
        Some(t) => Some(
            MessageView {
                msg_type: t,
                term: w.term,
                from: w.from,
                to: w.to,
                last_log_index: w.last_log_index,
                last_log_term: w.last_log_term,
                granted: if w.granted { Some(true) } else { None },
                prev_log_index: w.prev_log_index,
                prev_log_term: w.prev_log_term,
                entries: w.entries,
                leader_commit: w.leader_commit,
            },
        ),
        None => None,
    }
}

/// The wire form of a message; a missing flag travels as `false`.
pub open spec fn encode(m: MessageView) -> RaftMessageView {
    RaftMessageView {
        msg_type: wire_name(m.msg_type),
        term: m.term,
        from: m.from,
        to: m.to,
        last_log_index: m.last_log_index,
        last_log_term: m.last_log_term,
        granted: m.granted == Some(true),
        prev_log_index: m.prev_log_index,
        prev_log_term: m.prev_log_term,
        entries: m.entries,
        leader_commit: m.leader_commit,
    }
}

/// Why a wire message could not be read.
#[derive(Debug, PartialEq, Eq)]
pub enum ConvertError {
    /// The message's kind is none of the four known ones; the payload is the name it carried.
    UnknownMessageType(String),
}

/// The kind of message a name stands for, if any.
fn parse_message_type(name: &String) -> (r: Option<MessageType>)
    ensures
        r == parse_type(name@),
{
    if *name == "RequestVote".to_string() {
        Some(MessageType::RequestVote)
    } else if *name == "RequestVoteResponse".to_string() {
        Some(MessageType::RequestVoteResponse)
    } else if *name == "AppendEntries".to_string() {
        Some(MessageType::AppendEntries)
    } else if *name == "AppendEntriesResponse".to_string() {
        Some(MessageType::AppendEntriesResponse)
    } else {
        None
    }
}

/// The name a kind of message travels under.
fn message_type_name(t: &MessageType) -> (r: String)
    ensures
        r@ == wire_name(*t),
{
    match t {
        MessageType::RequestVote => "RequestVote".to_string(),
        MessageType::RequestVoteResponse => "RequestVoteResponse".to_string(),
        MessageType::AppendEntries => "AppendEntries".to_string(),
        MessageType::AppendEntriesResponse => "AppendEntriesResponse".to_string(),
    }
}

/// Reads a message off the wire; fails exactly when its kind is unknown.
pub fn convert_to_raft_message(msg: &RaftMessage) -> (r: Result<Message, ConvertError>)
    ensures
        match r {
            Ok(m) => decode(msg@) == Some(m@),
            Err(ConvertError::UnknownMessageType(name)) => decode(msg@) is None && name@ == msg.msg_type@,
        },
{
    let msg_type = match parse_message_type(&msg.msg_type) {
        Some(t) => t,
        None => {
            return Err(ConvertError::UnknownMessageType(msg.msg_type.clone()));
        },
    };
    let mut entries: Vec<Entry> = Vec::new();
    let n = msg.entries.len();
    let mut i: usize = 0;
    while i < n
        invariant
            n == msg.entries@.len(),
            0 <= i <= n,
            entries@.len() == i,
            forall|k: int| 0 <= k < i ==> #[trigger] entries@[k]@ == msg.entries@[k]@,
        decreases n - i,
    {
        let e = &msg.entries[i];
        entries.push(Entry { index: e.index, term: e.term, data: e.data.clone() });
        assert(entries@[i as int].data@ =~= e.data@);
        i = i + 1;
    }
    let m = Message {
        msg_type,
        term: msg.term,
        from: msg.from,
        to: msg.to,
        last_log_index: msg.last_log_index,
        last_log_term: msg.last_log_term,
        granted: if msg.granted { Some(true) } else { None },
        prev_log_index: msg.prev_log_index,
        prev_log_term: msg.prev_log_term,
        entries,
        leader_commit: msg.leader_commit,
    };
    assert(m@.entries =~= msg@.entries);
    Ok(m)
}

/// Puts a message on the wire.
pub fn convert_from_raft_message(msg: &Message) -> (r: RaftMessage)
    ensures
        r@ == encode(msg@),
{
    let msg_type = message_type_name(&msg.msg_type);
    let mut entries: Vec<LogEntry> = Vec::new();
    let n = msg.entries.len();
    let mut i: usize = 0;
    while i < n
        invariant
            n == msg.entries@.len(),
            0 <= i <= n,
            entries@.len() == i,
            forall|k: int| 0 <= k < i ==> #[trigger] entries@[k]@ == msg.entries@[k]@,
        decreases n - i,
    {
        let e = &msg.entries[i];
        entries.push(LogEntry { index: e.index, term: e.term, data: e.data.clone() });
        assert(entries@[i as int].data@ =~= e.data@);
        i = i + 1;
    }
    let granted = match msg.granted {
        Some(b) => b,
        None => false,
    };
    let r = RaftMessage {
        msg_type,
        term: msg.term,
        from: msg.from,
        to: msg.to,
        last_log_index: msg.last_log_index,
        last_log_term: msg.last_log_term,
        granted,
        prev_log_index: msg.prev_log_index,
        prev_log_term: msg.prev_log_term,
        entries,
        leader_commit: msg.leader_commit,
    };
    assert(r@.entries =~= msg@.entries);
    r
}

/// The acknowledgement a node returns for every message it takes in.
pub open spec fn ack_msg(node_id: u64, to: u64) -> RaftMessageView {
    RaftMessageView {
        msg_type: "Ack"@,
        term: 0,
        from: node_id,
        to,
        last_log_index: 0,
        last_log_term: 0,
        granted: false,
        prev_log_index: 0,
        prev_log_term: 0,
        entries: Seq::empty(),
        leader_commit: 0,
    }
}

/// The receiving side of a node: it reads incoming wire messages and hands
/// them to the node through `node_sender`.
pub struct RaftNodeService {
    node_id: u64,
    node_sender: Sender<Message>,
}

impl RaftNodeService {
    pub closed spec fn spec_node_id(&self) -> u64 {
        self.node_id
    }

    pub closed spec fn spec_node_sender(&self) -> Sender<Message> {
        self.node_sender
    }

    pub fn new(node_id: u64, node_sender: Sender<Message>) -> (s: Self)
        ensures
            s.spec_node_id() == node_id,
            s.spec_node_sender() == node_sender,
    {
        RaftNodeService { node_id, node_sender }
    }

    /// Where messages read off the wire are handed on.
    pub fn node_sender(&self) -> (r: &Sender<Message>)
        ensures
            *r == self.spec_node_sender(),
    {
        &self.node_sender
    }

    /// Reads an incoming wire message: the message to hand to the node and
    /// the acknowledgement to return to its sender, or why it cannot be read.
    pub fn receive(&self, msg: &RaftMessage) -> (r: Result<(Message, RaftMessage), ConvertError>)
        ensures
            match r {
                Ok((m, ack)) => decode(msg@) == Some(m@) && ack@ == ack_msg(self.spec_node_id(), msg.from),
                Err(ConvertError::UnknownMessageType(name)) => decode(msg@) is None && name@ == msg.msg_type@,
            },
    {
        let raft_msg = match convert_to_raft_message(msg) {
            Ok(m) => m,
            Err(e) => {
                return Err(e);
            },
        };
        let response = RaftMessage {
            msg_type: "Ack".to_string(),
            term: 0,
            from: self.node_id,
            to: msg.from,
            last_log_index: 0,
            last_log_term: 0,
            granted: false,
            prev_log_index: 0,
            prev_log_term: 0,
            entries: Vec::new(),
            leader_commit: 0,
        };
        assert(response@.entries =~= Seq::<EntryView>::empty());
        Ok((raft_msg, response))
    }
}

/// A node's view of the cluster network: its own id, the address of every
/// peer, and where messages for the node are handed on.
pub struct Network {
    node_id: u64,
    peers: HashMap<u64, String>,
    node_sender: Sender<Message>,
}

impl Network {
    pub closed spec fn spec_node_id(&self) -> u64 {
        self.node_id
    }

    pub closed spec fn spec_peers(&self) -> Map<u64, String> {
        self.peers@
    }

    pub closed spec fn spec_node_sender(&self) -> Sender<Message> {
        self.node_sender
    }

    pub fn new(node_id: u64, peers: HashMap<u64, String>, node_sender: Sender<Message>) -> (n: Self)
        ensures
            n.spec_node_id() == node_id,
            n.spec_peers() == peers@,
            n.spec_node_sender() == node_sender,
    {
        Network { node_id, peers, node_sender }
    }

    pub fn node_id(&self) -> (r: u64)
        ensures
            r == self.spec_node_id(),
    {
        self.node_id
    }

    pub fn peers(&self) -> (r: &HashMap<u64, String>)
        ensures
            r@ == self.spec_peers(),
    {
        &self.peers
    }

    /// Where messages for the node are handed on.
    pub fn node_sender(&self) -> (r: &Sender<Message>)
        ensures
            *r == self.spec_node_sender(),
    {
        &self.node_sender
    }
}

/// How many times a node tries to reach a peer before giving up.
pub const MAX_CONNECT_ATTEMPTS: u32 = 5;

/// The pause, in milliseconds, after the first failed attempt to reach a peer.
pub const INITIAL_RETRY_DELAY_MS: u64 = 100;

/// The longest pause, in milliseconds, between attempts to reach a peer;
/// also how long one attempt may take.
pub const MAX_RETRY_DELAY_MS: u64 = 2000;

/// The pause before the next attempt to reach a peer: twice the last one,
/// but never more than `MAX_RETRY_DELAY_MS`.
pub fn next_retry_delay_ms(delay_ms: u64) -> (r: u64)
    requires
        2 * delay_ms <= u64::MAX,
    ensures
        r == if 2 * delay_ms <= MAX_RETRY_DELAY_MS { 2 * delay_ms } else { MAX_RETRY_DELAY_MS as int },
{
    let doubled = delay_ms * 2;
    if doubled <= MAX_RETRY_DELAY_MS {
        doubled
    } else {
        MAX_RETRY_DELAY_MS
    }
}

/// What a node does after a failed attempt to reach a peer (and the pause
/// that follows it).
#[derive(Debug, PartialEq, Eq)]
pub enum ConnectStep {
    /// Make attempt number `attempt`, pausing `delay_ms` after it if it fails.
    TryAgain { attempt: u32, delay_ms: u64 },
    /// Stop: every allowed attempt has failed.
    GiveUp,
}

/// The decision after attempt number `attempt` has failed, when `delay_ms`
/// was the pause after it: try again with a doubled pause (capped at
/// `MAX_RETRY_DELAY_MS`) until `MAX_CONNECT_ATTEMPTS` attempts have been made.
pub fn after_failed_attempt(attempt: u32, delay_ms: u64) -> (r: ConnectStep)
    requires
        delay_ms <= MAX_RETRY_DELAY_MS,
    ensures
        r == (if attempt < MAX_CONNECT_ATTEMPTS {
            ConnectStep::TryAgain {
                attempt: (attempt + 1) as u32,
                delay_ms: if 2 * delay_ms <= MAX_RETRY_DELAY_MS { (2 * delay_ms) as u64 } else { MAX_RETRY_DELAY_MS },
            }
        } else {
            ConnectStep::GiveUp
        }),
{
    if attempt < MAX_CONNECT_ATTEMPTS {
        ConnectStep::TryAgain { attempt: attempt + 1, delay_ms: next_retry_delay_ms(delay_ms) }
    } else {
        ConnectStep::GiveUp
    }
}

} // verus!
