use vstd::prelude::*;
use vstd::relations::{sorted_by, total_ordering};

use crate::log::{clone_entries, lemma_contiguous_last_index, Log, LogView, NO_ENTRY};
use crate::message::{
    append_entries_msg, append_entries_response_msg, messages_view, request_vote_msg,
    request_vote_response_msg, Message, MessageType, MessageView,
};
use crate::progress::{voters_in_order, ProgressTracker, ProgressView, VoteResult};

verus! {

/// An id that names no node.
pub const INVALID_ID: u64 = 0;

/// The role a node plays in its current term.
#[derive(Debug, PartialEq, Eq, Clone, Copy, Structural)]
pub enum Role {
    Follower,
    Candidate,
    Leader,
}

/// Why a request to a node was refused.
#[derive(Debug, PartialEq, Eq, Clone, Copy, Structural)]
pub enum RaftError {
    /// Only a leader takes proposals; the payload is the id of the node asked.
    NotLeader(u64),
}

/// Start-up parameters of one node.
pub struct Config {
    pub id: u64,
    pub election_tick: usize,
    pub heartbeat_tick: usize,
    pub check_quorum: bool,
    pub min_election_tick: usize,
    pub max_election_tick: usize,
    pub peers: Vec<u64>,
}

/// The state of one node apart from its peers' progress and its outbox.
pub struct RaftCore {
    pub term: u64,
    pub vote: u64,
    pub id: u64,
    pub role: Role,
    pub leader_id: u64,
    pub election_elapsed: usize,
    pub heartbeat_elapsed: usize,
    pub check_quorum: bool,
    pub heartbeat_timeout: usize,
    pub election_timeout: usize,
    pub randomized_election_timeout: usize,
    pub min_election_timeout: usize,
    pub max_election_timeout: usize,
    pub log: Log,
}

/// One Raft node: its state, what it knows of its peers, and the messages it has to send.
pub struct Raft {
    pub prs: ProgressTracker,
    pub msgs: Vec<Message>,
    pub r: RaftCore,
}

/// Mathematical value of a [`Raft`] node.
pub struct RaftView {
    pub term: u64,
    pub vote: u64,
    pub id: u64,
    pub role: Role,
    pub leader_id: u64,
    pub election_elapsed: usize,
    pub heartbeat_elapsed: usize,
    pub check_quorum: bool,
    pub heartbeat_timeout: usize,
    pub election_timeout: usize,
    pub randomized_election_timeout: usize,
    pub min_election_timeout: usize,
    pub max_election_timeout: usize,
    pub log: LogView,
    pub prs: ProgressView,
    pub msgs: Seq<MessageView>,
}

impl View for Raft {
    type V = RaftView;

    open spec fn view(&self) -> RaftView {
        RaftView {
            term: self.r.term,
            vote: self.r.vote,
            id: self.r.id,
            role: self.r.role,
            leader_id: self.r.leader_id,
            election_elapsed: self.r.election_elapsed,
            heartbeat_elapsed: self.r.heartbeat_elapsed,
            check_quorum: self.r.check_quorum,
            heartbeat_timeout: self.r.heartbeat_timeout,
            election_timeout: self.r.election_timeout,
            randomized_election_timeout: self.r.randomized_election_timeout,
            min_election_timeout: self.r.min_election_timeout,
            max_election_timeout: self.r.max_election_timeout,
            log: self.r.log@,
            prs: self.prs@,
            msgs: messages_view(self.msgs@),
        }
    }
}

/// The order in which match indices are ranked.
pub open spec fn index_leq() -> spec_fn(u64, u64) -> bool {
    |a: u64, b: u64| a <= b
}

/// The smaller of two indices.
pub open spec fn min_index(a: u64, b: u64) -> u64 {
    if a <= b { a } else { b }
}

/// A candidate whose log ends at (`last_index`, `last_term`) is at least as
/// up to date as a log that ends at (`my_index`, `my_term`).
pub open spec fn log_up_to_date(last_term: u64, last_index: u64, my_term: u64, my_index: u64) -> bool {
    last_term > my_term || (last_term == my_term && last_index >= my_index)
}

impl RaftView {
    /// The invariant every node keeps: a well-formed log and tracker, a
    /// non-empty timeout range holding the current timeout, a leader that
    /// sends every peer from index 1 or later, and terms above 0 for
    /// candidates and leaders.
    pub open spec fn wf(self) -> bool {
        &&& self.log.wf()
        &&& self.prs.wf()
        &&& self.min_election_timeout < self.max_election_timeout
        &&& self.valid_timeout(self.randomized_election_timeout)
        &&& self.role == Role::Leader ==> forall|p: u64| #[trigger]
            self.prs.next_index.contains_key(p) ==> self.prs.next_index[p] >= 1
        &&& self.role != Role::Follower ==> self.term >= 1
    }

    /// A randomized election timeout this node may draw.
    pub open spec fn valid_timeout(self, t: usize) -> bool {
        self.min_election_timeout <= t < self.max_election_timeout
    }

    /// Queues `m`, stamping it with this node's id when it names no sender.
    pub open spec fn send(self, m: MessageView) -> RaftView {
        let m2 = if m.from == INVALID_ID { MessageView { from: self.id, ..m } } else { m };
        RaftView { msgs: self.msgs.push(m2), ..self }
    }

    /// Moves to `term` (forgetting the vote when the term changes), forgets
    /// the leader and the votes, restarts both timers and takes `t` as the new
    /// randomized election timeout.
    pub open spec fn reset(self, term: u64, t: usize) -> RaftView {
        RaftView {
            term,
            vote: if self.term != term { INVALID_ID } else { self.vote },
            leader_id: INVALID_ID,
            randomized_election_timeout: t,
            election_elapsed: 0,
            heartbeat_elapsed: 0,
            prs: self.prs.reset_votes(),
            ..self
        }
    }

    pub open spec fn become_follower(self, term: u64, leader_id: u64, t: usize) -> RaftView {
        RaftView { leader_id, role: Role::Follower, ..self.reset(term, t) }
    }

    /// Starts the next term as a candidate that votes for itself.
    pub open spec fn become_candidate(self, t: usize) -> RaftView {
        RaftView { vote: self.id, role: Role::Candidate, ..self.reset((self.term + 1) as u64, t) }
    }

    /// Takes the lead in the current term, sets up every peer's progress and
    /// sends every peer a heartbeat.
    pub open spec fn become_leader(self, t: usize) -> RaftView {
        let s = RaftView { leader_id: self.id, role: Role::Leader, ..self.reset(self.term, t) };
        RaftView { prs: s.prs.init_leader_progress(s.id, s.log.last_index()), ..s }.bcast_append_entries()
    }

    /// The append request this leader sends `peer`: everything from the
    /// peer's next index (1 when unknown), after the entry just before it.
    pub open spec fn append_request(self, peer: u64) -> MessageView {
        let next = if self.prs.next_index.contains_key(peer) { self.prs.next_index[peer] } else { 1 };
        let prev = if next > 1 { (next - 1) as u64 } else { NO_ENTRY };
        append_entries_msg(
            self.term,
            self.id,
            peer,
            prev,
            self.log.term_at(prev),
            self.log.entries_from(next),
            self.log.committed,
        )
    }

    /// Append requests to each of `peers` other than this node, in order.
    pub open spec fn append_requests(self, peers: Seq<u64>) -> Seq<MessageView>
        decreases peers.len(),
    {
        if peers.len() == 0 {
            Seq::empty()
        } else {
            self.append_requests(peers.drop_last()) + if peers.last() == self.id {
                Seq::empty()
            } else {
                seq![self.append_request(peers.last())]
            }
        }
    }

    pub open spec fn bcast_append_entries(self) -> RaftView {
        RaftView { msgs: self.msgs + self.append_requests(self.prs.voters), ..self }
    }

    /// Vote requests to each of `peers` other than this node, in order.
    pub open spec fn vote_requests(self, peers: Seq<u64>) -> Seq<MessageView>
        decreases peers.len(),
    {
        if peers.len() == 0 {
            Seq::empty()
        } else {
            self.vote_requests(peers.drop_last()) + if peers.last() == self.id {
                Seq::empty()
            } else {
                seq![
                    request_vote_msg(
                        self.term,
                        self.id,
                        peers.last(),
                        self.log.last_index(),
                        self.log.term_at(self.log.last_index()),
                    ),
                ]
            }
        }
    }

    /// Starts an election: becomes a candidate, votes for itself, and either
    /// wins at once (a single voter) or asks every other voter for its vote.
    pub open spec fn campaign(self, t: usize) -> RaftView {
        let c = self.become_candidate(t);
        let s = RaftView { prs: c.prs.record_vote(c.id, true), ..c };
        if s.prs.voter_set.len() == 1 {
            s.become_leader(t)
        } else {
            RaftView { msgs: s.msgs + s.vote_requests(s.prs.voters), ..s }
        }
    }

    /// Counts a vote and acts on the outcome: leads when won, follows (with
    /// no known leader) when lost.
    pub open spec fn poll(self, from: u64, granted: bool, t: usize) -> (RaftView, VoteResult) {
        let s = RaftView { prs: self.prs.record_vote(from, granted), ..self };
        let res = s.prs.vote_result();
        match res {
            VoteResult::Won => (s.become_leader(t), res),
            VoteResult::Lost => (s.become_follower(s.term, INVALID_ID, t), res),
            VoteResult::Pending => (s, res),
        }
    }

    /// The voters' match indices, smallest first.
    pub open spec fn sorted_match_indices(self) -> Seq<u64> {
        self.prs.voters.map_values(|p: u64| self.prs.match_index[p]).sort_by(index_leq())
    }

    /// The highest index known to be held by a majority of the voters: the
    /// (n/2 + 1)-th largest of the n voters' match indices.
    pub open spec fn majority_match_index(self) -> u64 {
        self.sorted_match_indices()[(self.prs.voter_set.len() as int - 1) / 2]
    }

    /// A leader commits up to the majority's match index when that advances
    /// the commit index and the entry there is from the current term.
    pub open spec fn maybe_commit(self) -> RaftView {
        if self.role != Role::Leader {
            self
        } else {
            let n = self.majority_match_index();
            if n > self.log.committed && self.log.term_at(n) == self.term {
                RaftView { log: LogView { committed: n, ..self.log }.apply_committed(), ..self }
            } else {
                self
            }
        }
    }

    /// A leader appends `data` in its term, records that it holds the new
    /// entry, and sends every peer its append request.
    pub open spec fn propose(self, data: Seq<u8>) -> (RaftView, Result<(), RaftError>) {
        if self.role != Role::Leader {
            (self, Err(RaftError::NotLeader(self.id)))
        } else {
            let idx = (self.log.last_index() + 1) as u64;
            let s = RaftView {
                log: self.log.append(self.term, data),
                prs: ProgressView {
                    match_index: self.prs.match_index.insert(self.id, idx),
                    next_index: self.prs.next_index.insert(self.id, (idx + 1) as u64),
                    ..self.prs
                },
                ..self
            };
            (s.bcast_append_entries(), Ok(()))
        }
    }

    /// Answers a vote request: the vote is granted when this node has not
    /// voted for anyone else in the term and the candidate's log is at least
    /// as up to date as its own.
    pub open spec fn handle_request_vote(self, m: MessageView) -> RaftView {
        let li = self.log.last_index();
        let lt = self.log.term_at(li);
        if (self.vote == INVALID_ID || self.vote == m.from) && log_up_to_date(
            m.last_log_term,
            m.last_log_index,
            lt,
            li,
        ) {
            RaftView { election_elapsed: 0, vote: m.from, ..self }.send(
                request_vote_response_msg(self.term, self.id, m.from, true),
            )
        } else {
            self.send(request_vote_response_msg(self.term, self.id, m.from, false))
        }
    }

    /// The index of the last entry an accepted append request brought: the
    /// one just before the entries plus their number, as far as the log
    /// holds them.
    pub open spec fn last_new_index(self, m: MessageView) -> u64 {
        min_index(
            (m.prev_log_index + m.entries.len()) as u64,
            self.log.append_entries(m.entries).last_index(),
        )
    }

    /// Answers an append request as a follower: accepts the entries when the
    /// log holds the entry before them with the expected term; then, when the
    /// leader's commit index is ahead, moves the commit index to the smaller
    /// of it and the index of the last new entry. The reply reports the last
    /// index of the log after the append (or of the log as it was, on refusal).
    pub open spec fn accept_entries(self, m: MessageView) -> RaftView {
        if m.prev_log_index <= self.log.last_index() && self.log.term_at(m.prev_log_index)
            == m.prev_log_term {
            let log1 = self.log.append_entries(m.entries);
            let last_new = self.last_new_index(m);
            let log2 = if m.leader_commit > log1.committed {
                LogView { committed: min_index(m.leader_commit, last_new), ..log1 }.apply_committed()
            } else {
                log1
            };
            RaftView { log: log2, ..self }.send(
                append_entries_response_msg(self.term, self.id, m.from, true, log1.last_index()),
            )
        } else {
            self.send(
                append_entries_response_msg(self.term, self.id, m.from, false, self.log.last_index()),
            )
        }
    }

    /// A leader's handling of an append response: on success the peer's
    /// progress moves to the index it reported and the commit index may
    /// advance; on failure the peer's next index steps back by one (not below
    /// 1) and the request is sent again from there.
    pub open spec fn handle_append_response(self, m: MessageView) -> RaftView {
        if m.granted == Some(true) {
            RaftView {
                prs: ProgressView {
                    match_index: self.prs.match_index.insert(m.from, m.last_log_index),
                    next_index: self.prs.next_index.insert(m.from, (m.last_log_index + 1) as u64),
                    ..self.prs
                },
                ..self
            }.maybe_commit()
        } else {
            let cur = if self.prs.next_index.contains_key(m.from) {
                self.prs.next_index[m.from]
            } else {
                1
            };
            if cur > 1 {
                let s = RaftView {
                    prs: ProgressView {
                        next_index: self.prs.next_index.insert(m.from, (cur - 1) as u64),
                        ..self.prs
                    },
                    ..self
                };
                s.send(s.append_request(m.from))
            } else {
                self
            }
        }
    }

    /// Handles a message whose term is the node's own (or 0).
    pub open spec fn handle(self, m: MessageView, t: usize) -> RaftView {
        match m.msg_type {
            MessageType::RequestVote => self.handle_request_vote(m),
            MessageType::RequestVoteResponse => {
                if self.role == Role::Candidate {
                    self.poll(m.from, m.granted == Some(true), t).0
                } else {
                    self
                }
            },
            MessageType::AppendEntries => {
                if self.role == Role::Follower {
                    RaftView { election_elapsed: 0, leader_id: m.from, ..self }.accept_entries(m)
                } else if m.term == self.term {
                    self.become_follower(m.term, m.from, t).accept_entries(m)
                } else {
                    self
                }
            },
            MessageType::AppendEntriesResponse => {
                if self.role == Role::Leader {
                    self.handle_append_response(m)
                } else {
                    self
                }
            },
        }
    }

    /// A message with a higher term makes the node a follower of that term
    /// first; one with a lower (nonzero) term is dropped, except that a stale
    /// leader's append request is refused when quorum checking is on.
    pub open spec fn step(self, m: MessageView, t: usize) -> RaftView {
        if m.term > self.term {
            let leader = if m.msg_type == MessageType::AppendEntries { m.from } else { INVALID_ID };
            self.become_follower(m.term, leader, t).handle(m, t)
        } else if m.term < self.term && m.term != 0 {
            if self.check_quorum && m.msg_type == MessageType::AppendEntries {
                self.send(
                    append_entries_response_msg(self.term, self.id, m.from, false, self.log.last_index()),
                )
            } else {
                self
            }
        } else {
            self.handle(m, t)
        }
    }

    /// The inputs on which stepping a message cannot fail: a successful
    /// append response to a leader comes from a voter and reports an index
    /// below `u64::MAX`, and the log cannot outgrow `u64` indices.
    pub open spec fn can_step(self, m: MessageView) -> bool {
        let handled = !(m.term < self.term && m.term != 0);
        &&& self.log.entries.len() + m.entries.len() < u64::MAX
        &&& (handled && m.term <= self.term && self.role == Role::Leader && m.msg_type
            == MessageType::AppendEntriesResponse && m.granted == Some(true)) ==> (
        self.prs.voter_set.contains(m.from) && m.last_log_index < u64::MAX)
    }

    /// What `hup` does: a node that is not the leader starts an election.
    pub open spec fn hup(self, t: usize) -> RaftView {
        if self.role == Role::Leader {
            self
        } else {
            self.campaign(t)
        }
    }

    pub open spec fn pass_election_timeout(self) -> bool {
        self.election_elapsed >= self.randomized_election_timeout
    }

    /// A follower's or candidate's clock tick: once the randomized timeout
    /// has passed, the clock restarts and a new election begins.
    pub open spec fn tick_election(self, t: usize) -> (RaftView, bool) {
        let s = RaftView { election_elapsed: (self.election_elapsed + 1) as usize, ..self };
        if !s.pass_election_timeout() {
            (s, false)
        } else {
            let s2 = RaftView { election_elapsed: 0, ..s };
            if s2.role == Role::Follower || s2.role == Role::Candidate {
                (s2.hup(t), true)
            } else {
                (s2, false)
            }
        }
    }

    /// A leader's clock tick: both clocks advance; the election clock wraps at
    /// the election timeout, and when the heartbeat timeout is reached the
    /// heartbeat clock restarts and every peer is sent its append request.
    pub open spec fn tick_heartbeat(self) -> (RaftView, bool) {
        let hb = (self.heartbeat_elapsed + 1) as usize;
        let el = (self.election_elapsed + 1) as usize;
        let el2 = if el >= self.election_timeout { 0 } else { el };
        let s = RaftView { heartbeat_elapsed: hb, election_elapsed: el2, ..self };
        if hb >= self.heartbeat_timeout {
            (RaftView { heartbeat_elapsed: 0, ..s }.bcast_append_entries(), true)
        } else {
            (s, false)
        }
    }

    pub open spec fn tick(self, t: usize) -> (RaftView, bool) {
        match self.role {
            Role::Follower | Role::Candidate => self.tick_election(t),
            Role::Leader => self.tick_heartbeat(),
        }
    }

    /// The inputs on which a tick cannot fail: the clocks do not overflow and
    /// an election it starts does not overflow the term.
    pub open spec fn can_tick(self) -> bool {
        &&& self.election_elapsed < usize::MAX
        &&& self.role == Role::Leader ==> self.heartbeat_elapsed < usize::MAX
        &&& (self.role != Role::Leader && self.election_elapsed + 1 >= self.randomized_election_timeout)
            ==> self.term < u64::MAX
    }
}


/// Draws an election timeout with `rand::random_range(low..high)`, which the
/// rand crate documents to return a value in `low..high` and to panic on an
/// empty range. The contract claims exactly that range and nothing more.
#[verifier::external_body]
fn random_election_timeout(low: usize, high: usize) -> (t: usize)
    requires
        low < high,
    ensures
        low <= t < high,
{
    rand::random_range(low..high)
}

impl RaftCore {
    /// Queues `m` in `msgs`, stamped with this node's id when it names no sender.
    fn send(&mut self, m: Message, msgs: &mut Vec<Message>)
        ensures
            *final(self) == *old(self),
            messages_view(final(msgs)@) == messages_view(old(msgs)@).push(
                if m@.from == INVALID_ID { MessageView { from: old(self).id, ..m@ } } else { m@ },
            ),
    {
        let mut m = m;
        if m.from == INVALID_ID {
            m.from = self.id;
        }
        let ghost before = msgs@;
        msgs.push(m);
        proof {
            assert(msgs@ =~= before.push(m));
            assert(messages_view(msgs@) =~= messages_view(before).push(m@));
        }
    }
}

impl Raft {
    /// Draws a new randomized election timeout from the configured range.
    pub fn reset_randomized_election_timeout(&mut self)
        requires
            old(self).r.min_election_timeout < old(self).r.max_election_timeout,
        ensures
            final(self)@ == (RaftView {
                randomized_election_timeout: final(self)@.randomized_election_timeout,
                ..old(self)@
            }),
            old(self)@.valid_timeout(final(self)@.randomized_election_timeout),
    {
        let timeout = random_election_timeout(self.r.min_election_timeout, self.r.max_election_timeout);
        self.r.randomized_election_timeout = timeout;
    }

    /// `election_elapsed` has reached the randomized election timeout.
    pub fn pass_election_timeout(&self) -> (r: bool)
        ensures
            r == self@.pass_election_timeout(),
    {
        self.r.election_elapsed >= self.r.randomized_election_timeout
    }

    /// Resets the node to `term`; the vote is forgotten only when the term changes.
    pub fn reset(&mut self, term: u64)
        requires
            old(self).r.min_election_timeout < old(self).r.max_election_timeout,
        ensures
            final(self)@ == old(self)@.reset(term, final(self)@.randomized_election_timeout),
            old(self)@.valid_timeout(final(self)@.randomized_election_timeout),
    {
        if self.r.term != term {
            self.r.term = term;
            self.r.vote = INVALID_ID;
        }
        self.r.leader_id = INVALID_ID;
        self.reset_randomized_election_timeout();
        self.r.election_elapsed = 0;
        self.r.heartbeat_elapsed = 0;
        self.prs.reset_votes();
    }

    /// Turns this node into a follower of `leader_id` in `term`.
    pub fn become_follower(&mut self, term: u64, leader_id: u64)
        requires
            old(self).r.min_election_timeout < old(self).r.max_election_timeout,
        ensures
            final(self)@ == old(self)@.become_follower(
                term,
                leader_id,
                final(self)@.randomized_election_timeout,
            ),
            old(self)@.valid_timeout(final(self)@.randomized_election_timeout),
            old(self)@.wf() ==> final(self)@.wf(),
    {
        self.reset(term);
        self.r.leader_id = leader_id;
        self.r.role = Role::Follower;
    }

    /// Turns this node into a candidate for the next term that votes for itself.
    /// A leader cannot become a candidate.
    pub fn become_candidate(&mut self)
        requires
            old(self).r.min_election_timeout < old(self).r.max_election_timeout,
            old(self).r.role != Role::Leader,
            old(self).r.term < u64::MAX,
        ensures
            final(self)@ == old(self)@.become_candidate(final(self)@.randomized_election_timeout),
            old(self)@.valid_timeout(final(self)@.randomized_election_timeout),
            old(self)@.wf() ==> final(self)@.wf(),
    {
        let term = self.r.term + 1;
        self.reset(term);
        let id = self.r.id;
        self.r.vote = id;
        self.r.role = Role::Candidate;
    }
}

impl Raft {
    /// Sends every other voter its append request; used for heartbeats and replication.
    fn bcast_append_entries(&mut self)
        requires
            old(self)@.wf(),
            old(self)@.role == Role::Leader,
        ensures
            final(self)@ == old(self)@.bcast_append_entries(),
    {
        let leader_id = self.r.id;
        let current_term = self.r.term;
        let commit_index = self.r.log.committed;
        let order = voters_in_order(&self.prs.voters);
        let n = order.len();
        let ghost s0 = self@;
        proof {
            lemma_contiguous_last_index(s0.log.entries);
            assert(s0.msgs + s0.append_requests(order@.take(0)) =~= s0.msgs);
        }
        let mut i: usize = 0;
        while i < n
            invariant
                s0.wf(),
                s0.role == Role::Leader,
                order@ == s0.prs.voters,
                n == order@.len(),
                0 <= i <= n,
                leader_id == s0.id,
                current_term == s0.term,
                commit_index == s0.log.committed,
                self@ == (RaftView { msgs: s0.msgs + s0.append_requests(order@.take(i as int)), ..s0 }),
            decreases n - i,
        {
            let peer_id = order[i];
            assert(order@.take(i as int + 1).drop_last() =~= order@.take(i as int));
            assert(order@.take(i as int + 1).last() == peer_id);
            if peer_id != leader_id {
                let next_idx = match self.prs.next_index.get(&peer_id) {
                    Some(v) => *v,
                    None => 1,
                };
                let prev_log_index = if next_idx > self.r.log.first_index() {
                    next_idx - 1
                } else {
                    NO_ENTRY
                };
                let prev_log_term = self.r.log.term(prev_log_index);
                let entries_to_send = clone_entries(self.r.log.entries_from(next_idx));
                let m = Message::append_entries(
                    current_term,
                    leader_id,
                    peer_id,
                    prev_log_index,
                    prev_log_term,
                    entries_to_send,
                    commit_index,
                );
                assert(m@ == s0.append_request(peer_id));
                let ghost before = self@;
                self.r.send(m, &mut self.msgs);
                proof {
                    assert(self@.msgs =~= before.msgs.push(m@));
                    assert(self@.msgs =~= s0.msgs + s0.append_requests(order@.take(i as int + 1)));
                }
            } else {
                assert(s0.append_requests(order@.take(i as int + 1)) =~= s0.append_requests(order@.take(i as int)));
            }
            i = i + 1;
        }
        assert(order@.take(n as int) =~= order@);
    }

    /// Turns this node into the leader of its current term: every peer is to
    /// be sent from just after the last entry, and gets a heartbeat at once.
    /// A follower cannot become leader.
    pub fn become_leader(&mut self)
        requires
            old(self)@.wf(),
            old(self).r.role != Role::Follower,
        ensures
            final(self)@ == old(self)@.become_leader(final(self)@.randomized_election_timeout),
            final(self)@.wf(),
    {
        let term = self.r.term;
        self.reset(term);
        self.r.leader_id = self.r.id;
        self.r.role = Role::Leader;
        let last_log_index = self.r.log.last_index();
        proof {
            lemma_contiguous_last_index(self@.log.entries);
        }
        let id = self.r.id;
        self.prs.init_leader_progress(id, last_log_index);
        proof {
            assert(self@.prs.next_index.dom() =~= self@.prs.voter_set);
            assert(self@.prs.match_index.dom() =~= self@.prs.voter_set);
        }
        self.bcast_append_entries();
    }
}

/// A new randomized timeout taken before a reset makes no difference: the
/// reset draws its own.
proof fn lemma_become_leader_ignores_timeout(s: RaftView, u: usize, t: usize)
    ensures
        (RaftView { randomized_election_timeout: u, ..s }).become_leader(t) == s.become_leader(t),
{
    let s1 = RaftView { randomized_election_timeout: u, ..s };
    assert(s1.reset(s1.term, t) == s.reset(s.term, t));
}

impl Raft {
    /// Starts an election: becomes a candidate, votes for itself, and either
    /// wins at once in a single-voter cluster or asks every other voter for
    /// its vote. A leader cannot campaign.
    pub fn campaign(&mut self)
        requires
            old(self)@.wf(),
            old(self).r.role != Role::Leader,
            old(self).r.term < u64::MAX,
        ensures
            final(self)@ == old(self)@.campaign(final(self)@.randomized_election_timeout),
            final(self)@.wf(),
    {
        let ghost s0 = self@;
        self.become_candidate();
        let ghost t1 = self@.randomized_election_timeout;
        let term = self.r.term;
        let self_id = self.r.id;
        self.prs.record_vote(self_id, true);
        let ghost s1 = self@;
        assert(s1 == (RaftView { prs: s0.become_candidate(t1).prs.record_vote(self_id, true), ..s0.become_candidate(t1) }));
        if self.prs.voters.len() == 1 {
            self.become_leader();
            proof {
                let t2 = self@.randomized_election_timeout;
                let c2 = s0.become_candidate(t2);
                let x2 = RaftView { prs: c2.prs.record_vote(c2.id, true), ..c2 };
                assert(x2 == RaftView { randomized_election_timeout: t2, ..s1 });
                lemma_become_leader_ignores_timeout(s1, t2, t2);
            }
            return;
        }
        let last_log_index = self.r.log.last_index();
        let last_log_term = self.r.log.term(last_log_index);
        let order = voters_in_order(&self.prs.voters);
        let n = order.len();
        proof {
            assert(s1.msgs + s1.vote_requests(order@.take(0)) =~= s1.msgs);
        }
        let mut i: usize = 0;
        while i < n
            invariant
                order@ == s1.prs.voters,
                n == order@.len(),
                0 <= i <= n,
                self_id == s1.id,
                term == s1.term,
                last_log_index == s1.log.last_index(),
                last_log_term == s1.log.term_at(s1.log.last_index()),
                self@ == (RaftView { msgs: s1.msgs + s1.vote_requests(order@.take(i as int)), ..s1 }),
            decreases n - i,
        {
            let id = order[i];
            assert(order@.take(i as int + 1).drop_last() =~= order@.take(i as int));
            assert(order@.take(i as int + 1).last() == id);
            if id != self_id {
                let m = Message::request_vote(term, self_id, id, last_log_index, last_log_term);
                let ghost before = self@;
                self.r.send(m, &mut self.msgs);
                proof {
                    assert(self@.msgs =~= before.msgs.push(m@));
                    assert(self@.msgs =~= s1.msgs + s1.vote_requests(order@.take(i as int + 1)));
                }
            } else {
                assert(s1.vote_requests(order@.take(i as int + 1)) =~= s1.vote_requests(order@.take(i as int)));
            }
            i = i + 1;
        }
        assert(order@.take(n as int) =~= order@);
    }

    /// Starts an election unless this node already leads.
    fn hup(&mut self)
        requires
            old(self)@.wf(),
            old(self).r.role != Role::Leader ==> old(self).r.term < u64::MAX,
        ensures
            final(self)@ == old(self)@.hup(final(self)@.randomized_election_timeout),
            final(self)@.wf(),
    {
        if self.r.role == Role::Leader {
            return;
        }
        self.campaign();
    }

    /// Counts a vote from `from` and acts on the election's outcome.
    fn poll(&mut self, from: u64, vote_granted: bool) -> (res: VoteResult)
        requires
            old(self)@.wf(),
            old(self).r.role == Role::Candidate,
        ensures
            (final(self)@, res) == old(self)@.poll(from, vote_granted, final(self)@.randomized_election_timeout),
            final(self)@.wf(),
    {
        self.prs.record_vote(from, vote_granted);
        let (_gr, _rj, res) = self.prs.tally_votes();
        match res {
            VoteResult::Won => {
                self.become_leader();
            },
            VoteResult::Lost => {
                let term = self.r.term;
                self.become_follower(term, INVALID_ID);
            },
            VoteResult::Pending => {},
        }
        res
    }
}

/// `<=` on indices is a total order.
pub proof fn lemma_index_leq_total()
    ensures
        total_ordering(index_leq()),
{
    let leq = index_leq();
    assert(vstd::relations::reflexive(leq));
    assert(vstd::relations::antisymmetric(leq));
    assert(vstd::relations::transitive(leq));
    assert(vstd::relations::strongly_connected(leq));
}

/// The indices of `v`, smallest first.
fn sort_indices(v: &Vec<u64>) -> (r: Vec<u64>)
    ensures
        r@ == v@.sort_by(index_leq()),
{
    broadcast use vstd::seq_lib::group_to_multiset_ensures;
    let mut r: Vec<u64> = Vec::new();
    let n = v.len();
    let mut i: usize = 0;
    assert(v@.take(0) =~= Seq::<u64>::empty());
    while i < n
        invariant
            n == v@.len(),
            0 <= i <= n,
            r@.len() == i,
            sorted_by(r@, index_leq()),
            r@.to_multiset() == v@.take(i as int).to_multiset(),
        decreases n - i,
    {
        let x = v[i];
        let mut pos: usize = 0;
        while pos < r.len() && r[pos] <= x
            invariant
                0 <= pos <= r@.len(),
                forall|k: int| 0 <= k < pos ==> r@[k] <= x,
            decreases r@.len() - pos,
        {
            pos = pos + 1;
        }
        let ghost before = r@;
        r.insert(pos, x);
        proof {
            assert(forall|k: int| pos <= k < before.len() ==> x < before[k]) by {
                if pos < before.len() {
                    assert forall|k: int| pos <= k < before.len() implies x < before[k] by {
                        if k > pos {
                            assert(index_leq()(before[pos as int], before[k]));
                        }
                    }
                }
            }
            assert forall|a: int, b: int| 0 <= a < b < r@.len() implies #[trigger] index_leq()(r@[a], r@[b]) by {
                if b < pos {
                    assert(index_leq()(before[a], before[b]));
                } else if b == pos {
                } else if a < pos {
                    assert(r@[b] == before[b - 1]);
                } else if a == pos {
                    assert(r@[b] == before[b - 1]);
                } else {
                    assert(index_leq()(before[a - 1], before[b - 1]));
                }
            }
            assert(v@.take(i as int + 1) =~= v@.take(i as int).push(x));
            vstd::seq_lib::to_multiset_insert(before, pos as int, x);
            vstd::seq_lib::to_multiset_build(v@.take(i as int), x);
            assert(r@.to_multiset() =~= v@.take(i as int + 1).to_multiset());
        }
        i = i + 1;
    }
    proof {
        assert(v@.take(n as int) =~= v@);
        lemma_index_leq_total();
        v@.lemma_sort_by_ensures(index_leq());
        vstd::seq_lib::lemma_sorted_unique(r@, v@.sort_by(index_leq()), index_leq());
    }
    r
}

impl Raft {
    /// A leader commits up to the index a majority of the voters holds, when
    /// that entry is from its current term.
    fn maybe_commit(&mut self)
        requires
            old(self)@.wf(),
            old(self)@.role == Role::Leader ==> old(self)@.prs.voter_set.len() > 0,
        ensures
            final(self)@ == old(self)@.maybe_commit(),
            final(self)@.wf(),
    {
        if self.r.role != Role::Leader {
            return;
        }
        let ghost s0 = self@;
        let order = voters_in_order(&self.prs.voters);
        let n = order.len();
        let mut vals: Vec<u64> = Vec::new();
        let mut i: usize = 0;
        while i < n
            invariant
                s0 == self@,
                s0.wf(),
                order@ == s0.prs.voters,
                n == order@.len(),
                0 <= i <= n,
                vals@ == order@.take(i as int).map_values(|p: u64| s0.prs.match_index[p]),
            decreases n - i,
        {
            let id = order[i];
            assert(s0.prs.voters.to_set().contains(id));
            if let Some(v) = self.prs.match_index.get(&id) {
                vals.push(*v);
            }
            assert(vals@ =~= order@.take(i as int + 1).map_values(|p: u64| s0.prs.match_index[p]));
            i = i + 1;
        }
        assert(order@.take(n as int) =~= order@);
        let sorted_match_indices = sort_indices(&vals);
        let majority_index = (self.prs.voters.len() - 1) / 2;
        proof {
            order@.unique_seq_to_set();
            lemma_index_leq_total();
            vals@.lemma_sort_by_ensures(index_leq());
            vstd::seq_lib::to_multiset_len(vals@);
            vstd::seq_lib::to_multiset_len(sorted_match_indices@);
        }
        let n_majority_match_index = sorted_match_indices[majority_index];
        proof {
            lemma_contiguous_last_index(s0.log.entries);
        }
        if n_majority_match_index > self.r.log.committed && self.r.log.term(n_majority_match_index)
            == self.r.term {
            self.r.log.committed = n_majority_match_index;
            self.r.log.apply_committed();
        }
    }
}

impl Raft {
    /// Appends a command to a leader's log, records that the leader holds it,
    /// and sends every peer its append request. Any other node refuses.
    pub fn propose(&mut self, data: Vec<u8>) -> (r: Result<(), RaftError>)
        requires
            old(self)@.wf(),
            old(self)@.role == Role::Leader ==> old(self)@.prs.voter_set.contains(old(self)@.id),
            old(self)@.role == Role::Leader ==> old(self)@.log.entries.len() + 1 < u64::MAX,
        ensures
            (final(self)@, r) == old(self)@.propose(data@),
            final(self)@.wf(),
    {
        if self.r.role != Role::Leader {
            return Err(RaftError::NotLeader(self.r.id));
        }
        proof {
            lemma_contiguous_last_index(self@.log.entries);
        }
        let new_entry_index = self.r.log.last_index() + 1;
        let self_id = self.r.id;
        let term = self.r.term;
        self.r.log.append(term, data);
        self.prs.match_index.insert(self_id, new_entry_index);
        self.prs.next_index.insert(self_id, new_entry_index + 1);
        proof {
            assert(self@.prs.next_index.dom() =~= self@.prs.voter_set);
            assert(self@.prs.match_index.dom() =~= self@.prs.voter_set);
        }
        self.bcast_append_entries();
        Ok(())
    }

    /// One clock tick for a follower or candidate: once the randomized
    /// election timeout has passed, the clock restarts and an election begins.
    /// Returns whether there is probably something to send.
    pub fn tick_election(&mut self) -> (r: bool)
        requires
            old(self)@.wf(),
            old(self)@.election_elapsed < usize::MAX,
            (old(self)@.role != Role::Leader && old(self)@.election_elapsed + 1
                >= old(self)@.randomized_election_timeout) ==> old(self)@.term < u64::MAX,
        ensures
            (final(self)@, r) == old(self)@.tick_election(final(self)@.randomized_election_timeout),
            final(self)@.wf(),
    {
        self.r.election_elapsed = self.r.election_elapsed + 1;
        if !self.pass_election_timeout() {
            return false;
        }
        self.r.election_elapsed = 0;
        if self.r.role == Role::Follower || self.r.role == Role::Candidate {
            self.hup();
            true
        } else {
            false
        }
    }

    /// One clock tick for a leader: both clocks advance, the election clock
    /// wraps at the election timeout, and at the heartbeat timeout every peer
    /// is sent its append request. Returns whether heartbeats went out.
    fn tick_heartbeat(&mut self) -> (r: bool)
        requires
            old(self)@.wf(),
            old(self)@.role == Role::Leader,
            old(self)@.election_elapsed < usize::MAX,
            old(self)@.heartbeat_elapsed < usize::MAX,
        ensures
            (final(self)@, r) == old(self)@.tick_heartbeat(),
            final(self)@.wf(),
    {
        self.r.heartbeat_elapsed = self.r.heartbeat_elapsed + 1;
        self.r.election_elapsed = self.r.election_elapsed + 1;
        let mut has_ready = false;
        if self.r.election_elapsed >= self.r.election_timeout {
            self.r.election_elapsed = 0;
        }
        if self.r.heartbeat_elapsed >= self.r.heartbeat_timeout {
            self.r.heartbeat_elapsed = 0;
            has_ready = true;
            self.bcast_append_entries();
        }
        has_ready
    }

    /// Advances the node's clocks by one tick. Returns whether there is
    /// probably something to send.
    pub fn tick(&mut self) -> (r: bool)
        requires
            old(self)@.wf(),
            old(self)@.can_tick(),
        ensures
            (final(self)@, r) == old(self)@.tick(final(self)@.randomized_election_timeout),
            final(self)@.wf(),
    {
        match self.r.role {
            Role::Follower | Role::Candidate => self.tick_election(),
            Role::Leader => self.tick_heartbeat(),
        }
    }
}

impl Raft {
    /// Answers a vote request in the current term.
    fn handle_request_vote(&mut self, m: &Message)
        requires
            old(self)@.wf(),
        ensures
            final(self)@ == old(self)@.handle_request_vote(m@),
            final(self)@.wf(),
    {
        let mut vote_granted = false;
        if self.r.vote == INVALID_ID || self.r.vote == m.from {
            let last_log_index = self.r.log.last_index();
            let last_log_term = self.r.log.term(last_log_index);
            let candidate_is_up_to_date = m.last_log_term > last_log_term || (m.last_log_term
                == last_log_term && m.last_log_index >= last_log_index);
            if candidate_is_up_to_date {
                vote_granted = true;
                self.r.election_elapsed = 0;
                self.r.vote = m.from;
            }
        }
        let to_send = Message::request_vote_response(self.r.term, self.r.id, m.from, vote_granted);
        let ghost before = self@;
        self.r.send(to_send, &mut self.msgs);
        assert(self@.msgs =~= before.msgs.push(to_send@));
    }

    /// Answers an append request as a follower of its sender.
    fn accept_entries(&mut self, m: &Message)
        requires
            old(self)@.wf(),
            old(self)@.log.entries.len() + m@.entries.len() < u64::MAX,
        ensures
            final(self)@ == old(self)@.accept_entries(m@),
            final(self)@.wf(),
    {
        let mut success = false;
        let mut current_last_index = self.r.log.last_index();
        let prev_log_term_matches = self.r.log.term(m.prev_log_index) == m.prev_log_term;
        if m.prev_log_index > current_last_index || !prev_log_term_matches {
        } else {
            proof {
                lemma_contiguous_last_index(self@.log.entries);
            }
            let batch_end = m.prev_log_index + m.entries.len() as u64;
            self.r.log.append_entries(m.entries.as_slice());
            success = true;
            current_last_index = self.r.log.last_index();
            let last_new = if batch_end <= current_last_index {
                batch_end
            } else {
                current_last_index
            };
            proof {
                lemma_contiguous_last_index(self@.log.entries);
            }
            if m.leader_commit > self.r.log.committed {
                self.r.log.committed = if m.leader_commit <= last_new {
                    m.leader_commit
                } else {
                    last_new
                };
                self.r.log.apply_committed();
            }
        }
        let to_send = Message::append_entries_response(
            self.r.term,
            self.r.id,
            m.from,
            success,
            current_last_index,
        );
        let ghost before = self@;
        self.r.send(to_send, &mut self.msgs);
        assert(self@.msgs =~= before.msgs.push(to_send@));
    }

    /// A leader's handling of an append response in its term.
    fn handle_append_response(&mut self, m: &Message)
        requires
            old(self)@.wf(),
            old(self)@.role == Role::Leader,
            m.granted == Some(true) ==> old(self)@.prs.voter_set.contains(m.from) && m.last_log_index
                < u64::MAX,
        ensures
            final(self)@ == old(self)@.handle_append_response(m@),
            final(self)@.wf(),
    {
        let success = match m.granted {
            Some(b) => b,
            None => false,
        };
        let peer_id = m.from;
        let follower_last_index = m.last_log_index;
        if success {
            self.prs.match_index.insert(peer_id, follower_last_index);
            self.prs.next_index.insert(peer_id, follower_last_index + 1);
            proof {
                assert(self@.prs.next_index.dom() =~= self@.prs.voter_set);
                assert(self@.prs.match_index.dom() =~= self@.prs.voter_set);
                assert(self@.prs.voters.contains(peer_id));
            }
            self.maybe_commit();
        } else {
            let current_next_index = match self.prs.next_index.get(&peer_id) {
                Some(v) => *v,
                None => 1,
            };
            if current_next_index > 1 {
                let new_next_index = current_next_index - 1;
                self.prs.next_index.insert(peer_id, new_next_index);
                proof {
                    assert(self@.prs.next_index.dom() =~= self@.prs.voter_set);
                    lemma_contiguous_last_index(self@.log.entries);
                }
                let prev_log_index = if new_next_index > self.r.log.first_index() {
                    new_next_index - 1
                } else {
                    NO_ENTRY
                };
                let prev_log_term = self.r.log.term(prev_log_index);
                let entries_to_send = clone_entries(self.r.log.entries_from(new_next_index));
                let to_send = Message::append_entries(
                    self.r.term,
                    self.r.id,
                    peer_id,
                    prev_log_index,
                    prev_log_term,
                    entries_to_send,
                    self.r.log.committed,
                );
                assert(to_send@ == self@.append_request(peer_id));
                let ghost before = self@;
                self.r.send(to_send, &mut self.msgs);
                assert(self@.msgs =~= before.msgs.push(to_send@));
            }
        }
    }

    /// Steps the node along with a message from a peer. A message from a
    /// later term first turns the node into a follower of that term; one from
    /// an earlier term is dropped (a stale leader's append request is refused
    /// when quorum checking is on). Never fails.
    pub fn step(&mut self, m: Message) -> (r: Result<(), RaftError>)
        requires
            old(self)@.wf(),
            old(self)@.can_step(m@),
        ensures
            final(self)@ == old(self)@.step(m@, final(self)@.randomized_election_timeout),
            r == Ok::<(), RaftError>(()),
            final(self)@.wf(),
    {
        if m.term > self.r.term {
            let new_leader_id = if m.get_msg_type() == MessageType::AppendEntries {
                m.from
            } else {
                INVALID_ID
            };
            self.become_follower(m.term, new_leader_id);
        } else if m.term < self.r.term && m.term != 0 {
            if self.r.check_quorum && m.get_msg_type() == MessageType::AppendEntries {
                let to_send = Message::append_entries_response(
                    self.r.term,
                    self.r.id,
                    m.from,
                    false,
                    self.r.log.last_index(),
                );
                let ghost before = self@;
                self.r.send(to_send, &mut self.msgs);
                assert(self@.msgs =~= before.msgs.push(to_send@));
            }
            return Ok(());
        }
        match m.get_msg_type() {
            MessageType::RequestVote => {
                self.handle_request_vote(&m);
            },
            MessageType::RequestVoteResponse => {
                if self.r.role == Role::Candidate {
                    let granted = match m.granted {
                        Some(b) => b,
                        None => false,
                    };
                    self.poll(m.from, granted);
                }
            },
            MessageType::AppendEntries => {
                if self.r.role == Role::Follower {
                    self.r.election_elapsed = 0;
                    self.r.leader_id = m.from;
                    self.accept_entries(&m);
                } else if m.term == self.r.term && self.r.role != Role::Follower {
                    self.become_follower(m.term, m.from);
                    self.accept_entries(&m);
                }
            },
            MessageType::AppendEntriesResponse => {
                if self.r.role == Role::Leader {
                    self.handle_append_response(&m);
                }
            },
        }
        Ok(())
    }
}

impl Config {
    /// A fresh node of this configuration: a follower in term 0 with no vote,
    /// no leader, an empty log and no messages, tracking `prs` and waiting
    /// for an election timeout of `t` ticks.
    pub open spec fn initial_state(&self, prs: ProgressView, t: usize) -> RaftView {
        RaftView {
            term: 0,
            vote: INVALID_ID,
            id: self.id,
            role: Role::Follower,
            leader_id: INVALID_ID,
            election_elapsed: 0,
            heartbeat_elapsed: 0,
            check_quorum: self.check_quorum,
            heartbeat_timeout: self.heartbeat_tick,
            election_timeout: self.election_tick,
            randomized_election_timeout: t,
            min_election_timeout: self.min_election_tick,
            max_election_timeout: self.max_election_tick,
            log: LogView { entries: Seq::empty(), committed: 0, applied: 0 },
            prs,
            msgs: Seq::empty(),
        }
    }
}

impl Raft {
    /// A fresh node for `config`, with a randomized election timeout drawn
    /// from `min_election_tick..max_election_tick`.
    pub fn new(config: Config) -> (r: Raft)
        requires
            config.min_election_tick < config.max_election_tick,
        ensures
            r@ == config.initial_state(r@.prs, r@.randomized_election_timeout),
            r@.prs.voter_set == config.peers@.to_set(),
            r@.prs.votes == Map::<u64, bool>::empty(),
            r@.prs.next_index == Map::new(|k: u64| config.peers@.contains(k), |k: u64| NO_ENTRY),
            r@.prs.match_index == Map::new(|k: u64| config.peers@.contains(k), |k: u64| NO_ENTRY),
            r@.wf(),
    {
        let prs = ProgressTracker::new(config.peers.as_slice());
        let mut raft = Raft {
            prs,
            msgs: Vec::new(),
            r: RaftCore {
                term: 0,
                vote: INVALID_ID,
                id: config.id,
                role: Role::Follower,
                leader_id: INVALID_ID,
                election_elapsed: 0,
                heartbeat_elapsed: 0,
                check_quorum: config.check_quorum,
                heartbeat_timeout: config.heartbeat_tick,
                election_timeout: config.election_tick,
                randomized_election_timeout: 0,
                min_election_timeout: config.min_election_tick,
                max_election_timeout: config.max_election_tick,
                log: Log::new(),
            },
        };
        raft.reset_randomized_election_timeout();
        assert(raft@.msgs =~= Seq::<MessageView>::empty());
        raft
    }
}

impl Raft {
    /// Whether `step(m)` can run on this node without failing.
    pub fn can_step(&self, m: &Message) -> (r: bool)
        requires
            self@.wf(),
        ensures
            r == self@.can_step(m@),
    {
        let n = self.r.log.entries.len();
        let k = m.entries.len();
        let room = u64::MAX - n as u64;
        if k as u64 >= room {
            return false;
        }
        let term = self.r.term;
        let handled = !(m.term < term && m.term != 0);
        let granted = match m.granted {
            Some(b) => b,
            None => false,
        };
        if handled && m.term <= term && self.r.role == Role::Leader && m.msg_type
            == MessageType::AppendEntriesResponse && granted && !(self.prs.voters.contains(&m.from)
            && m.last_log_index < u64::MAX) {
            return false;
        }
        true
    }

    /// Whether `tick()` can run on this node without failing.
    pub fn can_tick(&self) -> (r: bool)
        ensures
            r == self@.can_tick(),
    {
        if self.r.election_elapsed == usize::MAX {
            return false;
        }
        if self.r.role == Role::Leader && self.r.heartbeat_elapsed == usize::MAX {
            return false;
        }
        if self.r.role != Role::Leader && self.r.election_elapsed + 1 >= self.r.randomized_election_timeout
            && self.r.term == u64::MAX {
            return false;
        }
        true
    }
}

impl std::ops::Deref for Raft {
    type Target = RaftCore;

    fn deref(&self) -> (r: &RaftCore)
        ensures
            *r == self.r,
    {
        &self.r
    }
}

} // verus!
