use vstd::prelude::*;

use crate::log::{entries_view, Entry, EntryView, NO_ENTRY};

verus! {

/// The four kinds of message that Raft nodes exchange.
#[derive(Clone, Debug, PartialEq, Eq, Hash, Structural)]
pub enum MessageType {
    RequestVote,
    RequestVoteResponse,
    AppendEntries,
    AppendEntriesResponse,
}

/// A message between two nodes. Fields that a kind of message does not use hold `NO_ENTRY`.
#[derive(PartialEq, Clone, Debug)]
pub struct Message {
    pub msg_type: MessageType,
    pub term: u64,
    pub from: u64,
    pub to: u64,
    pub last_log_index: u64,
    pub last_log_term: u64,
    pub granted: Option<bool>,
    pub prev_log_index: u64,
    pub prev_log_term: u64,
    pub entries: Vec<Entry>,
    pub leader_commit: u64,
}

/// Mathematical value of a [`Message`].
pub struct MessageView {
    pub msg_type: MessageType,
    pub term: u64,
    pub from: u64,
    pub to: u64,
    pub last_log_index: u64,
    pub last_log_term: u64,
    pub granted: Option<bool>,
    pub prev_log_index: u64,
    pub prev_log_term: u64,
    pub entries: Seq<EntryView>,
    pub leader_commit: u64,
}

impl View for Message {
    type V = MessageView;

    open spec fn view(&self) -> MessageView {
        MessageView {
            msg_type: self.msg_type,
            term: self.term,
            from: self.from,
            to: self.to,
            last_log_index: self.last_log_index,
            last_log_term: self.last_log_term,
            granted: self.granted,
            prev_log_index: self.prev_log_index,
            prev_log_term: self.prev_log_term,
            entries: entries_view(self.entries@),
            leader_commit: self.leader_commit,
        }
    }
}

/// The views of a sequence of messages.
pub open spec fn messages_view(ms: Seq<Message>) -> Seq<MessageView> {
    ms.map_values(|m: Message| m@)
}

/// A vote request from a candidate whose log ends at `last_log_index` in `last_log_term`.
pub open spec fn request_vote_msg(
    term: u64,
    from: u64,
    to: u64,
    last_log_index: u64,
    last_log_term: u64,
) -> MessageView {
    MessageView {
        msg_type: MessageType::RequestVote,
        term,
        from,
        to,
        last_log_index,
        last_log_term,
        granted: None,
        prev_log_index: NO_ENTRY,
        prev_log_term: NO_ENTRY,
        entries: Seq::empty(),
        leader_commit: NO_ENTRY,
    }
}

/// The answer to a vote request.
pub open spec fn request_vote_response_msg(term: u64, from: u64, to: u64, granted: bool) -> MessageView {
    MessageView {
        msg_type: MessageType::RequestVoteResponse,
        term,
        from,
        to,
        last_log_index: NO_ENTRY,
        last_log_term: NO_ENTRY,
        granted: Some(granted),
        prev_log_index: NO_ENTRY,
        prev_log_term: NO_ENTRY,
        entries: Seq::empty(),
        leader_commit: NO_ENTRY,
    }
}

/// Entries (none for a heartbeat) that follow the leader's entry at `prev_log_index`.
pub open spec fn append_entries_msg(
    term: u64,
    from: u64,
    to: u64,
    prev_log_index: u64,
    prev_log_term: u64,
    entries: Seq<EntryView>,
    leader_commit: u64,
) -> MessageView {
    MessageView {
        msg_type: MessageType::AppendEntries,
        term,
        from,
        to,
        last_log_index: NO_ENTRY,
        last_log_term: NO_ENTRY,
        granted: None,
        prev_log_index,
        prev_log_term,
        entries,
        leader_commit,
    }
}

/// The answer to an append request; `last_log_index` carries the responder's last index.
pub open spec fn append_entries_response_msg(
    term: u64,
    from: u64,
    to: u64,
    success: bool,
    last_log_index: u64,
) -> MessageView {
    MessageView {
        msg_type: MessageType::AppendEntriesResponse,
        term,
        from,
        to,
        last_log_index,
        last_log_term: NO_ENTRY,
        granted: Some(success),
        prev_log_index: NO_ENTRY,
        prev_log_term: NO_ENTRY,
        entries: Seq::empty(),
        leader_commit: NO_ENTRY,
    }
}

impl Message {
    pub fn request_vote(
        term: u64,
        from: u64,
        to: u64,
        last_log_index: u64,
        last_log_term: u64,
    ) -> (m: Self)
        ensures
            m@ == request_vote_msg(term, from, to, last_log_index, last_log_term),
    {
        let m = Message {
            msg_type: MessageType::RequestVote,
            term,
            from,
            to,
            last_log_index,
            last_log_term,
            granted: None,
            prev_log_index: NO_ENTRY,
            prev_log_term: NO_ENTRY,
            entries: Vec::new(),
            leader_commit: NO_ENTRY,
        };
        assert(m@.entries =~= Seq::<EntryView>::empty());
        m
    }

    pub fn request_vote_response(term: u64, from: u64, to: u64, granted: bool) -> (m: Self)
        ensures
            m@ == request_vote_response_msg(term, from, to, granted),
    {
        let m = Message {
            msg_type: MessageType::RequestVoteResponse,
            term,
            from,
            to,
            last_log_index: NO_ENTRY,
            last_log_term: NO_ENTRY,
            granted: Some(granted),
            prev_log_index: NO_ENTRY,
            prev_log_term: NO_ENTRY,
            entries: Vec::new(),
            leader_commit: NO_ENTRY,
        };
        assert(m@.entries =~= Seq::<EntryView>::empty());
        m
    }

    pub fn append_entries(
        term: u64,
        from: u64,
        to: u64,
        prev_log_index: u64,
        prev_log_term: u64,
        entries: Vec<Entry>,
        leader_commit: u64,
    ) -> (m: Self)
        ensures
            m@ == append_entries_msg(
                term,
                from,
                to,
                prev_log_index,
                prev_log_term,
                entries_view(entries@),
                leader_commit,
            ),
    {
        Message {
            msg_type: MessageType::AppendEntries,
            term,
            from,
            to,
            last_log_index: NO_ENTRY,
            last_log_term: NO_ENTRY,
            granted: None,
            prev_log_index,
            prev_log_term,
            entries,
            leader_commit,
        }
    }

    pub fn append_entries_response(
        term: u64,
        from: u64,
        to: u64,
        success: bool,
        last_log_index: u64,
    ) -> (m: Self)
        ensures
            m@ == append_entries_response_msg(term, from, to, success, last_log_index),
    {
        let m = Message {
            msg_type: MessageType::AppendEntriesResponse,
            term,
            from,
            to,
            last_log_index,
            last_log_term: NO_ENTRY,
            granted: Some(success),
            prev_log_index: NO_ENTRY,
            prev_log_term: NO_ENTRY,
            entries: Vec::new(),
            leader_commit: NO_ENTRY,
        };
        assert(m@.entries =~= Seq::<EntryView>::empty());
        m
    }

    pub fn get_msg_type(&self) -> (t: MessageType)
        ensures
            t == self.msg_type,
    {
        match self.msg_type {
            MessageType::RequestVote => MessageType::RequestVote,
            MessageType::RequestVoteResponse => MessageType::RequestVoteResponse,
            MessageType::AppendEntries => MessageType::AppendEntries,
            MessageType::AppendEntriesResponse => MessageType::AppendEntriesResponse,
        }
    }
}

} // verus!
