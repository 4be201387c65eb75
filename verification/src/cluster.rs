use vstd::prelude::*;
use vstd::set_lib::{lemma_len_subset, lemma_set_disjoint_lens};

use crate::log::{EntryView, LogView};
use crate::message::{
    append_entries_response_msg, request_vote_response_msg, MessageType, MessageView,
};
use crate::progress::{count_votes, majority};
use crate::progress::{ProgressView, VoteResult};
use crate::laws::{
    law_one_vote_per_term_step, law_propose_messages_stamped, law_step_messages_stamped,
    law_step_term_never_decreases, law_tick_messages_stamped,
};
use crate::raft::{min_index, RaftView, Role, INVALID_ID};

verus! {

/// A cluster of nodes that share one voter set, talking through a network
/// that keeps every message ever sent (so messages may be lost, delayed,
/// duplicated or reordered), together with its history: every vote a node
/// has cast, as (voter, term, candidate), every election won, as (term,
/// leader), and every entry a leader has created, keyed by (index, term),
/// with the leader's log up to and including it.
pub struct ClusterView {
    pub voters: Set<u64>,
    pub nodes: Map<u64, RaftView>,
    pub sent: Set<MessageView>,
    pub votes_cast: Set<(u64, u64, u64)>,
    pub elected: Set<(u64, u64)>,
    pub created: Map<(u64, u64), Seq<EntryView>>,
}

/// The voters that voted for `candidate` in `term`.
pub open spec fn supporters(voters: Set<u64>, votes_cast: Set<(u64, u64, u64)>, term: u64, candidate: u64) -> Set<u64> {
    voters.filter(|v: u64| votes_cast.contains((v, term, candidate)))
}

impl ClusterView {
    /// Node `n` has moved to state `s2`: everything in its outbox is on the
    /// network, its current vote is part of the history, and so is its lead.
    pub open spec fn record(self, n: u64, s2: RaftView) -> ClusterView {
        ClusterView {
            nodes: self.nodes.insert(n, s2),
            sent: self.sent + s2.msgs.to_set(),
            votes_cast: if s2.vote != INVALID_ID {
                self.votes_cast.insert((n, s2.term, s2.vote))
            } else {
                self.votes_cast
            },
            elected: if s2.role == Role::Leader {
                self.elected.insert((s2.term, n))
            } else {
                self.elected
            },
            ..self
        }
    }

    /// Node `n` steps a message addressed to it that is on the network.
    pub open spec fn deliver(self, n: u64, m: MessageView, t: usize) -> ClusterView {
        self.record(n, self.nodes[n].step(m, t))
    }

    /// A message on the network addressed to node `n`, which the node can
    /// step without failing.
    pub open spec fn can_deliver(self, n: u64, m: MessageView) -> bool {
        &&& self.nodes.contains_key(n)
        &&& self.sent.contains(m)
        &&& m.to == n
        &&& self.nodes[n].can_step(m)
    }

    /// Node `n`'s clock ticks.
    pub open spec fn tick_node(self, n: u64, t: usize) -> ClusterView {
        self.record(n, self.nodes[n].tick(t).0)
    }

    pub open spec fn can_tick_node(self, n: u64) -> bool {
        &&& self.nodes.contains_key(n)
        &&& self.nodes[n].can_tick()
    }

    /// Node `n` is asked to append `data`; when it leads, the entry it
    /// creates joins the history.
    pub open spec fn propose_at(self, n: u64, data: Seq<u8>) -> ClusterView {
        let s = self.nodes[n];
        let s2 = s.propose(data).0;
        let c = self.record(n, s2);
        if s.role == Role::Leader {
            ClusterView {
                created: c.created.insert(((s.log.last_index() + 1) as u64, s.term), s2.log.entries),
                ..c
            }
        } else {
            c
        }
    }

    /// A proposal the node can take without failing: a leader's log has room
    /// for one more entry.
    pub open spec fn can_propose(self, n: u64) -> bool {
        &&& self.nodes.contains_key(n)
        &&& self.nodes[n].role == Role::Leader ==> self.nodes[n].log.entries.len() + 1 < u64::MAX
    }

    /// Node `n`'s outbox is emptied (its messages are already on the network).
    pub open spec fn drain(self, n: u64) -> ClusterView {
        ClusterView { nodes: self.nodes.insert(n, RaftView { msgs: Seq::empty(), ..self.nodes[n] }), ..self }
    }

    /// A freshly started cluster: nodes with nonzero ids, each a voter and
    /// each tracking the same finite voter set, in term 0 with no vote, no
    /// votes counted, an empty log, no peer progress below index 1 and
    /// nothing to send, and no history.
    pub open spec fn initial(self) -> bool {
        &&& self.voters.finite()
        &&& self.sent == Set::<MessageView>::empty()
        &&& self.votes_cast == Set::<(u64, u64, u64)>::empty()
        &&& self.elected == Set::<(u64, u64)>::empty()
        &&& self.created == Map::<(u64, u64), Seq<EntryView>>::empty()
        &&& forall|n: u64| #[trigger] self.nodes.contains_key(n) ==> {
            let s = self.nodes[n];
            &&& s.id == n
            &&& n != INVALID_ID
            &&& self.voters.contains(n)
            &&& s.prs.voters.no_duplicates()
            &&& s.prs.voters.to_set() == self.voters
            &&& s.prs.voter_set == self.voters
            &&& s.term == 0
            &&& s.vote == INVALID_ID
            &&& s.role == Role::Follower
            &&& s.prs.votes == Map::<u64, bool>::empty()
            &&& s.msgs == Seq::<MessageView>::empty()
            &&& s.log.entries == Seq::<EntryView>::empty()
            &&& forall|p: u64| #[trigger] s.prs.next_index.contains_key(p) ==> s.prs.next_index[p] >= 1
        }
    }

    /// Every node is a voter with a nonzero id tracking the cluster's voters.
    pub open spec fn inv_nodes(self) -> bool {
        &&& self.voters.finite()
        &&& forall|n: u64| #[trigger] self.nodes.contains_key(n) ==> {
            &&& self.nodes[n].id == n
            &&& n != INVALID_ID
            &&& self.voters.contains(n)
            &&& self.nodes[n].prs.voters.no_duplicates()
            &&& self.nodes[n].prs.voters.to_set() == self.voters
            &&& self.nodes[n].prs.voter_set == self.voters
        }
    }

    /// Votes in the history come from nodes of the cluster, name a
    /// candidate, and no voter voted for two candidates in one term.
    pub open spec fn inv_votes_unique(self) -> bool {
        &&& forall|v: u64, term: u64, c: u64| #[trigger] self.votes_cast.contains((v, term, c))
            ==> self.nodes.contains_key(v) && c != INVALID_ID
        &&& forall|v: u64, term: u64, c1: u64, c2: u64|
            #[trigger] self.votes_cast.contains((v, term, c1)) && #[trigger] self.votes_cast.contains(
                (v, term, c2),
            ) ==> c1 == c2
    }

    /// A node's votes in the history are from its current term or earlier,
    /// and its vote in its current term is its current vote.
    pub open spec fn inv_votes_current(self) -> bool {
        &&& forall|v: u64, term: u64, c: u64| #[trigger] self.votes_cast.contains((v, term, c))
            ==> term <= self.nodes[v].term && (term == self.nodes[v].term ==> self.nodes[v].vote == c)
        &&& forall|n: u64| #[trigger] self.nodes.contains_key(n) && self.nodes[n].vote != INVALID_ID
            ==> self.votes_cast.contains((n, self.nodes[n].term, self.nodes[n].vote))
    }

    /// What is on the network: sent by nodes of the cluster, vote requests
    /// and answers from term 1 on, and every granted vote part of the history;
    /// every outbox is on the network too.
    pub open spec fn inv_network(self) -> bool {
        &&& forall|x: MessageView| #[trigger] self.sent.contains(x) ==> self.nodes.contains_key(x.from)
        &&& forall|x: MessageView| #[trigger] self.sent.contains(x) && (x.msg_type
            == MessageType::RequestVote || x.msg_type == MessageType::RequestVoteResponse) ==> x.term >= 1
        &&& forall|x: MessageView| #[trigger] self.sent.contains(x) && x.msg_type
            == MessageType::RequestVoteResponse && x.granted == Some(true) ==> self.votes_cast.contains(
            (x.from, x.term, x.to),
        )
        &&& forall|n: u64, x: MessageView| #[trigger] self.nodes.contains_key(n) && #[trigger] self.nodes[n].msgs.contains(x)
            ==> self.sent.contains(x)
    }

    /// Every vote a node has counted as granted is a vote cast for it in its term.
    pub open spec fn inv_counted(self) -> bool {
        forall|n: u64, v: u64| #[trigger] self.nodes.contains_key(n) && #[trigger] self.nodes[n].prs.votes.contains_key(v)
            && self.nodes[n].prs.votes[v] ==> self.votes_cast.contains((v, self.nodes[n].term, n))
    }

    /// Every election won was won with the votes of a majority of the
    /// voters, and every leader's current lead is such an election.
    pub open spec fn inv_elected(self) -> bool {
        &&& forall|term: u64, c: u64| #[trigger] self.elected.contains((term, c)) ==> supporters(
            self.voters,
            self.votes_cast,
            term,
            c,
        ).len() >= majority(self.voters.len())
        &&& forall|n: u64| #[trigger] self.nodes.contains_key(n) && self.nodes[n].role == Role::Leader
            ==> self.elected.contains((self.nodes[n].term, n))
    }

    pub open spec fn inv(self) -> bool {
        &&& self.inv_nodes()
        &&& self.inv_votes_unique()
        &&& self.inv_votes_current()
        &&& self.inv_network()
        &&& self.inv_counted()
        &&& self.inv_elected()
    }
}

/// Two majorities of the same finite voter set share a voter.
proof fn lemma_majorities_intersect(voters: Set<u64>, a: Set<u64>, b: Set<u64>) -> (v: u64)
    requires
        voters.finite(),
        a.subset_of(voters),
        b.subset_of(voters),
        a.len() >= majority(voters.len()),
        b.len() >= majority(voters.len()),
    ensures
        a.contains(v),
        b.contains(v),
{
    lemma_len_subset(a, voters);
    lemma_len_subset(b, voters);
    if forall|x: u64| a.contains(x) ==> !b.contains(x) {
        assert(a.disjoint(b));
        lemma_set_disjoint_lens(a, b);
        lemma_len_subset(a + b, voters);
        assert(false);
        0
    } else {
        choose|x: u64| a.contains(x) && b.contains(x)
    }
}

/// Election safety: in a cluster that keeps the invariant, at most one node
/// wins the election of any term.
pub proof fn law_election_safety(c: ClusterView, term: u64, c1: u64, c2: u64)
    requires
        c.inv(),
        c.elected.contains((term, c1)),
        c.elected.contains((term, c2)),
    ensures
        c1 == c2,
{
    let a = supporters(c.voters, c.votes_cast, term, c1);
    let b = supporters(c.voters, c.votes_cast, term, c2);
    let v = lemma_majorities_intersect(c.voters, a, b);
    assert(c.votes_cast.contains((v, term, c1)));
    assert(c.votes_cast.contains((v, term, c2)));
}

/// At most one node of a cluster that keeps the invariant leads in any given term.
pub proof fn law_one_leader_per_term(c: ClusterView, n1: u64, n2: u64)
    requires
        c.inv(),
        c.nodes.contains_key(n1),
        c.nodes.contains_key(n2),
        c.nodes[n1].role == Role::Leader,
        c.nodes[n2].role == Role::Leader,
        c.nodes[n1].term == c.nodes[n2].term,
    ensures
        n1 == n2,
{
    law_election_safety(c, c.nodes[n1].term, n1, n2);
}

/// A freshly started cluster keeps the invariant.
pub proof fn law_initial_cluster_inv(c: ClusterView)
    requires
        c.initial(),
    ensures
        c.inv(),
{
}

/// Messages added behind `before` are neither vote requests nor vote answers.
pub open spec fn adds_no_votes(before: Seq<MessageView>, after: Seq<MessageView>) -> bool {
    &&& before.len() <= after.len()
    &&& after.take(before.len() as int) == before
    &&& forall|i: int| before.len() <= i < after.len() ==> #[trigger] after[i].msg_type
        != MessageType::RequestVote && after[i].msg_type != MessageType::RequestVoteResponse
}

pub proof fn lemma_append_requests_kind(s: RaftView, peers: Seq<u64>)
    ensures
        forall|i: int| 0 <= i < s.append_requests(peers).len() ==> #[trigger] s.append_requests(peers)[i].msg_type
            == MessageType::AppendEntries,
    decreases peers.len(),
{
    if peers.len() > 0 {
        lemma_append_requests_kind(s, peers.drop_last());
    }
}

proof fn lemma_bcast_no_votes(s: RaftView)
    ensures
        adds_no_votes(s.msgs, s.bcast_append_entries().msgs),
{
    lemma_append_requests_kind(s, s.prs.voters);
    assert(s.bcast_append_entries().msgs.take(s.msgs.len() as int) =~= s.msgs);
}

proof fn lemma_send_no_votes(s: RaftView, x: MessageView)
    requires
        x.msg_type != MessageType::RequestVote,
        x.msg_type != MessageType::RequestVoteResponse,
    ensures
        adds_no_votes(s.msgs, s.send(x).msgs),
{
    assert(s.send(x).msgs.take(s.msgs.len() as int) =~= s.msgs);
}

proof fn lemma_same_no_votes(a: Seq<MessageView>)
    ensures
        adds_no_votes(a, a),
{
    assert(a.take(a.len() as int) =~= a);
}

proof fn lemma_become_leader_no_votes(s: RaftView, t: usize)
    ensures
        adds_no_votes(s.msgs, s.become_leader(t).msgs),
{
    let x = RaftView { leader_id: s.id, role: Role::Leader, ..s.reset(s.term, t) };
    let y = RaftView { prs: x.prs.init_leader_progress(x.id, x.log.last_index()), ..x };
    lemma_bcast_no_votes(y);
}

proof fn lemma_accept_no_votes(s: RaftView, m: MessageView)
    ensures
        adds_no_votes(s.msgs, s.accept_entries(m).msgs),
        s.accept_entries(m).term == s.term,
        s.accept_entries(m).vote == s.vote,
        s.accept_entries(m).role == s.role,
        s.accept_entries(m).prs == s.prs,
        s.accept_entries(m).id == s.id,
{
    if m.prev_log_index <= s.log.last_index() && s.log.term_at(m.prev_log_index) == m.prev_log_term {
        let log1 = s.log.append_entries(m.entries);
        let last = s.last_new_index(m);
        let log2 = if m.leader_commit > log1.committed {
            LogView { committed: min_index(m.leader_commit, last), ..log1 }.apply_committed()
        } else {
            log1
        };
        lemma_send_no_votes(
            RaftView { log: log2, ..s },
            append_entries_response_msg(s.term, s.id, m.from, true, log1.last_index()),
        );
    } else {
        lemma_send_no_votes(
            s,
            append_entries_response_msg(s.term, s.id, m.from, false, s.log.last_index()),
        );
    }
}

proof fn lemma_append_response_no_votes(s: RaftView, m: MessageView)
    ensures
        adds_no_votes(s.msgs, s.handle_append_response(m).msgs),
        s.handle_append_response(m).term == s.term,
        s.handle_append_response(m).vote == s.vote,
        s.handle_append_response(m).role == s.role,
        s.handle_append_response(m).prs.votes == s.prs.votes,
        s.handle_append_response(m).prs.voters == s.prs.voters,
        s.handle_append_response(m).prs.voter_set == s.prs.voter_set,
        s.handle_append_response(m).id == s.id,
{
    if m.granted == Some(true) {
        lemma_same_no_votes(s.msgs);
    } else {
        let cur = if s.prs.next_index.contains_key(m.from) { s.prs.next_index[m.from] } else { 1 };
        if cur > 1 {
            let x = RaftView {
                prs: ProgressView { next_index: s.prs.next_index.insert(m.from, (cur - 1) as u64), ..s.prs },
                ..s
            };
            lemma_send_no_votes(x, x.append_request(m.from));
        } else {
            lemma_same_no_votes(s.msgs);
        }
    }
}

/// What stepping a message adds to the outbox: no vote requests, and a vote
/// answer only when answering a vote request that was not stale: the answer
/// goes to the requester in the node's (new) term, and it grants the vote only
/// when the node now votes for the requester.
pub proof fn lemma_step_votes_sent(s: RaftView, m: MessageView, t: usize)
    ensures
        ({
            let s2 = s.step(m, t);
            &&& s2.msgs.len() >= s.msgs.len()
            &&& s2.msgs.take(s.msgs.len() as int) == s.msgs
            &&& forall|i: int| s.msgs.len() <= i < s2.msgs.len() ==> #[trigger] s2.msgs[i].msg_type
                != MessageType::RequestVote
            &&& forall|i: int| s.msgs.len() <= i < s2.msgs.len() && #[trigger] s2.msgs[i].msg_type
                == MessageType::RequestVoteResponse ==> {
                &&& m.msg_type == MessageType::RequestVote
                &&& s2.msgs[i].term == s2.term
                &&& s2.term >= m.term
                &&& s2.msgs[i].to == m.from
                &&& (s2.msgs[i].granted == Some(true) ==> s2.vote == m.from)
            }
        }),
{
    let s2 = s.step(m, t);
    if m.term < s.term && m.term != 0 {
        if s.check_quorum && m.msg_type == MessageType::AppendEntries {
            lemma_send_no_votes(s, append_entries_response_msg(s.term, s.id, m.from, false, s.log.last_index()));
        } else {
            lemma_same_no_votes(s.msgs);
        }
    } else {
        let s1 = if m.term > s.term {
            let leader = if m.msg_type == MessageType::AppendEntries { m.from } else { INVALID_ID };
            s.become_follower(m.term, leader, t)
        } else {
            s
        };
        assert(s1.msgs == s.msgs);
        assert(s2 == s1.handle(m, t));
        match m.msg_type {
            MessageType::RequestVote => {
                assert(s2.msgs.take(s.msgs.len() as int) =~= s.msgs);
            },
            MessageType::RequestVoteResponse => {
                if s1.role == Role::Candidate {
                    let x = RaftView { prs: s1.prs.record_vote(m.from, m.granted == Some(true)), ..s1 };
                    lemma_become_leader_no_votes(x, t);
                    lemma_same_no_votes(s.msgs);
                } else {
                    lemma_same_no_votes(s.msgs);
                }
            },
            MessageType::AppendEntries => {
                if s1.role == Role::Follower {
                    lemma_accept_no_votes(RaftView { election_elapsed: 0, leader_id: m.from, ..s1 }, m);
                } else if m.term == s1.term {
                    lemma_accept_no_votes(s1.become_follower(m.term, m.from, t), m);
                } else {
                    lemma_same_no_votes(s.msgs);
                }
            },
            MessageType::AppendEntriesResponse => {
                if s1.role == Role::Leader {
                    lemma_append_response_no_votes(s1, m);
                } else {
                    lemma_same_no_votes(s.msgs);
                }
            },
        }
    }
}

/// The votes a node counts after stepping a message are ones it had counted
/// in the same term, or the vote the message (a vote answer of the node's
/// term, or of term 0) grants; and a node that leads after the step either
/// led before in the same term or has just won its election with that answer.
pub proof fn lemma_step_counted(s: RaftView, m: MessageView, t: usize)
    ensures
        ({
            let s2 = s.step(m, t);
            &&& s2.id == s.id
            &&& s2.prs.voters == s.prs.voters
            &&& s2.prs.voter_set == s.prs.voter_set
            &&& forall|v: u64| #[trigger] s2.prs.votes.contains_key(v) && s2.prs.votes[v] ==> {
                ||| (s2.term == s.term && s.prs.votes.contains_key(v) && s.prs.votes[v])
                ||| (v == m.from && m.msg_type == MessageType::RequestVoteResponse && m.granted == Some(true)
                    && s2.term == s.term && (m.term == s.term || m.term == 0))
            }
            &&& s2.role == Role::Leader ==> {
                ||| (s.role == Role::Leader && s2.term == s.term)
                ||| (s.role == Role::Candidate && m.msg_type == MessageType::RequestVoteResponse && s2.term
                    == s.term && (m.term == s.term || m.term == 0) && s.prs.record_vote(
                    m.from,
                    m.granted == Some(true),
                ).vote_result() == VoteResult::Won)
            }
        }),
{
    let s2 = s.step(m, t);
    if m.term < s.term && m.term != 0 {
    } else if m.term > s.term {
        let leader = if m.msg_type == MessageType::AppendEntries { m.from } else { INVALID_ID };
        let s1 = s.become_follower(m.term, leader, t);
        assert(s1.prs.votes == Map::<u64, bool>::empty());
        match m.msg_type {
            MessageType::AppendEntries => {
                lemma_accept_no_votes(RaftView { election_elapsed: 0, leader_id: m.from, ..s1 }, m);
            },
            _ => {},
        }
    } else {
        match m.msg_type {
            MessageType::RequestVote => {},
            MessageType::RequestVoteResponse => {},
            MessageType::AppendEntries => {
                if s.role == Role::Follower {
                    lemma_accept_no_votes(RaftView { election_elapsed: 0, leader_id: m.from, ..s }, m);
                } else if m.term == s.term {
                    lemma_accept_no_votes(s.become_follower(m.term, m.from, t), m);
                }
            },
            MessageType::AppendEntriesResponse => {
                if s.role == Role::Leader {
                    lemma_append_response_no_votes(s, m);
                }
            },
        }
    }
}

proof fn lemma_vote_requests_kind(s: RaftView, peers: Seq<u64>)
    ensures
        forall|i: int| 0 <= i < s.vote_requests(peers).len() ==> #[trigger] s.vote_requests(peers)[i].msg_type
            == MessageType::RequestVote && s.vote_requests(peers)[i].term == s.term,
    decreases peers.len(),
{
    if peers.len() > 0 {
        lemma_vote_requests_kind(s, peers.drop_last());
    }
}

/// What a clock tick does to the votes: it adds no vote answers and only vote
/// requests of its new term above 0; the votes it counts are old ones of the
/// same term or its own vote for itself; and it makes the node the leader of
/// a new term only when the node is the only voter.
pub proof fn lemma_tick_votes(s: RaftView, t: usize)
    requires
        s.can_tick(),
    ensures
        ({
            let s2 = s.tick(t).0;
            &&& s2.id == s.id
            &&& s2.prs.voters == s.prs.voters
            &&& s2.prs.voter_set == s.prs.voter_set
            &&& s2.term >= s.term
            &&& s2.term == s.term ==> s2.vote == s.vote
            &&& s2.msgs.len() >= s.msgs.len()
            &&& s2.msgs.take(s.msgs.len() as int) == s.msgs
            &&& forall|i: int| s.msgs.len() <= i < s2.msgs.len() ==> #[trigger] s2.msgs[i].msg_type
                != MessageType::RequestVoteResponse && (s2.msgs[i].msg_type == MessageType::RequestVote
                ==> s2.msgs[i].term >= 1)
            &&& forall|v: u64| #[trigger] s2.prs.votes.contains_key(v) && s2.prs.votes[v] ==> {
                ||| (s2.term == s.term && s.prs.votes.contains_key(v) && s.prs.votes[v])
                ||| (v == s.id && s2.vote == s.id)
            }
            &&& s2.role == Role::Leader ==> {
                ||| (s.role == Role::Leader && s2.term == s.term)
                ||| (s2.prs.voter_set.len() == 1 && s2.vote == s.id)
            }
        }),
{
    let s2 = s.tick(t).0;
    if s.role == Role::Leader {
        let hb = (s.heartbeat_elapsed + 1) as usize;
        let el = (s.election_elapsed + 1) as usize;
        let el2 = if el >= s.election_timeout { 0 } else { el };
        let x = RaftView { heartbeat_elapsed: hb, election_elapsed: el2, ..s };
        lemma_bcast_no_votes(RaftView { heartbeat_elapsed: 0, ..x });
        lemma_same_no_votes(s.msgs);
    } else {
        let x = RaftView { election_elapsed: (s.election_elapsed + 1) as usize, ..s };
        if !x.pass_election_timeout() {
            lemma_same_no_votes(s.msgs);
        } else {
            let y = RaftView { election_elapsed: 0, ..x };
            let c = y.become_candidate(t);
            let z = RaftView { prs: c.prs.record_vote(c.id, true), ..c };
            if z.prs.voter_set.len() == 1 {
                lemma_become_leader_no_votes(z, t);
            } else {
                lemma_vote_requests_kind(z, z.prs.voters);
                assert(s2.msgs.take(s.msgs.len() as int) =~= s.msgs);
            }
        }
    }
}

/// A proposal touches neither terms, votes, roles nor voters, and sends no vote messages.
pub proof fn lemma_propose_votes(s: RaftView, data: Seq<u8>)
    ensures
        ({
            let s2 = s.propose(data).0;
            &&& s2.id == s.id
            &&& s2.prs.voters == s.prs.voters
            &&& s2.prs.voter_set == s.prs.voter_set
            &&& s2.prs.votes == s.prs.votes
            &&& s2.term == s.term
            &&& s2.vote == s.vote
            &&& s2.role == s.role
            &&& adds_no_votes(s.msgs, s2.msgs)
        }),
{
    if s.role == Role::Leader {
        let idx = (s.log.last_index() + 1) as u64;
        let x = RaftView {
            log: s.log.append(s.term, data),
            prs: ProgressView {
                match_index: s.prs.match_index.insert(s.id, idx),
                next_index: s.prs.next_index.insert(s.id, (idx + 1) as u64),
                ..s.prs
            },
            ..s
        };
        lemma_bcast_no_votes(x);
    } else {
        lemma_same_no_votes(s.msgs);
    }
}

/// The granted votes a node counts are at most its supporters, when every
/// counted granted vote is a vote cast for it.
proof fn lemma_counted_within_supporters(
    ws: Seq<u64>,
    votes: Map<u64, bool>,
    vc: Set<(u64, u64, u64)>,
    term: u64,
    c: u64,
)
    requires
        ws.no_duplicates(),
        forall|v: u64| #[trigger] votes.contains_key(v) && votes[v] ==> vc.contains((v, term, c)),
    ensures
        supporters(ws.to_set(), vc, term, c).finite(),
        count_votes(ws, votes, true) <= supporters(ws.to_set(), vc, term, c).len(),
    decreases ws.len(),
{
    broadcast use vstd::seq_lib::group_seq_properties;
    if ws.len() == 0 {
        assert(supporters(ws.to_set(), vc, term, c) =~= Set::<u64>::empty());
    } else {
        let d = ws.drop_last();
        let l = ws.last();
        lemma_counted_within_supporters(d, votes, vc, term, c);
        assert(ws =~= d.push(l));
        d.lemma_push_to_set_commute(l);
        assert(!d.contains(l));
        let sd = supporters(d.to_set(), vc, term, c);
        let sw = supporters(ws.to_set(), vc, term, c);
        if vc.contains((l, term, c)) {
            assert(sw =~= sd.insert(l));
        } else {
            assert(sw =~= sd);
        }
    }
}

/// More votes cast never lose a candidate supporters.
proof fn lemma_supporters_grow(voters: Set<u64>, a: Set<(u64, u64, u64)>, b: Set<(u64, u64, u64)>, term: u64, c: u64)
    requires
        voters.finite(),
        a.subset_of(b),
    ensures
        supporters(voters, a, term, c).len() <= supporters(voters, b, term, c).len(),
{
    voters.lemma_len_filter(|v: u64| b.contains((v, term, c)));
    lemma_len_subset(supporters(voters, a, term, c), supporters(voters, b, term, c));
}

/// What a node's move from its state in `c` to `s2` must satisfy for the
/// cluster to keep its invariant.
pub open spec fn move_ok(c: ClusterView, n: u64, s2: RaftView) -> bool {
    let s = c.nodes[n];
    let c2 = c.record(n, s2);
    &&& s2.id == n
    &&& s2.prs.voters == s.prs.voters
    &&& s2.prs.voter_set == s.prs.voter_set
    &&& s2.term >= s.term
    &&& (s2.term == s.term && s.vote != INVALID_ID ==> s2.vote == s.vote)
    &&& s2.msgs.len() >= s.msgs.len()
    &&& s2.msgs.take(s.msgs.len() as int) == s.msgs
    &&& forall|i: int| s.msgs.len() <= i < s2.msgs.len() ==> {
        let x = #[trigger] s2.msgs[i];
        &&& x.from == n
        &&& (x.msg_type == MessageType::RequestVote || x.msg_type == MessageType::RequestVoteResponse)
            ==> x.term >= 1
        &&& (x.msg_type == MessageType::RequestVoteResponse && x.granted == Some(true)) ==> (x.to
            == s2.vote && s2.vote != INVALID_ID && x.term == s2.term)
    }
    &&& forall|v: u64| #[trigger] s2.prs.votes.contains_key(v) && s2.prs.votes[v] ==> c2.votes_cast.contains(
        (v, s2.term, n),
    )
    &&& (s2.role == Role::Leader && !(s.role == Role::Leader && s2.term == s.term)) ==> supporters(
        c.voters,
        c2.votes_cast,
        s2.term,
        n,
    ).len() >= majority(c.voters.len())
}

/// A move that satisfies `move_ok` keeps the cluster's invariant.
proof fn lemma_record_keeps_inv(c: ClusterView, n: u64, s2: RaftView)
    requires
        c.inv(),
        c.nodes.contains_key(n),
        move_ok(c, n, s2),
    ensures
        c.record(n, s2).inv(),
{
    let s = c.nodes[n];
    let c2 = c.record(n, s2);
    assert(c.votes_cast.subset_of(c2.votes_cast));
    assert(c2.nodes.dom() == c.nodes.dom()) by {
        assert(c2.nodes.dom() =~= c.nodes.dom());
    }
    // the nodes
    assert(c2.inv_nodes());
    // unique votes
    assert forall|v: u64, term: u64, c1: u64, cc2: u64|
        #[trigger] c2.votes_cast.contains((v, term, c1)) && #[trigger] c2.votes_cast.contains((v, term, cc2))
        implies c1 == cc2 by {
        if v == n && term == s2.term && s2.vote != INVALID_ID {
            if c.votes_cast.contains((v, term, c1)) {
                assert(s.vote == c1);
            }
            if c.votes_cast.contains((v, term, cc2)) {
                assert(s.vote == cc2);
            }
        }
    }
    assert(c2.inv_votes_unique());
    // current votes
    assert forall|v: u64, term: u64, cc: u64| #[trigger] c2.votes_cast.contains((v, term, cc)) implies term
        <= c2.nodes[v].term && (term == c2.nodes[v].term ==> c2.nodes[v].vote == cc) by {
        if v == n && c.votes_cast.contains((v, term, cc)) {
            assert(term <= s.term);
            if term == s2.term {
                assert(s.vote == cc);
            }
        }
    }
    assert(c2.inv_votes_current());
    // the network
    assert forall|x: MessageView| #[trigger] c2.sent.contains(x) implies c2.nodes.contains_key(x.from) && ((x.msg_type
        == MessageType::RequestVote || x.msg_type == MessageType::RequestVoteResponse) ==> x.term >= 1) && (
    x.msg_type == MessageType::RequestVoteResponse && x.granted == Some(true) ==> c2.votes_cast.contains(
        (x.from, x.term, x.to),
    )) by {
        if !c.sent.contains(x) {
            assert(s2.msgs.contains(x));
            let i = choose|i: int| 0 <= i < s2.msgs.len() && s2.msgs[i] == x;
            if i < s.msgs.len() {
                assert(s.msgs[i] == s2.msgs.take(s.msgs.len() as int)[i]);
                assert(s.msgs.contains(x));
            }
        }
    }
    assert forall|k: u64, x: MessageView| #[trigger] c2.nodes.contains_key(k) && #[trigger] c2.nodes[k].msgs.contains(x)
        implies c2.sent.contains(x) by {
        if k == n {
            assert(s2.msgs.to_set().contains(x));
        }
    }
    assert(c2.inv_network());
    // counted votes
    assert(c2.inv_counted());
    // elections
    assert forall|term: u64, cc: u64| #[trigger] c2.elected.contains((term, cc)) implies supporters(
        c2.voters,
        c2.votes_cast,
        term,
        cc,
    ).len() >= majority(c2.voters.len()) by {
        lemma_supporters_grow(c.voters, c.votes_cast, c2.votes_cast, term, cc);
        if !c.elected.contains((term, cc)) {
            assert(term == s2.term && cc == n && s2.role == Role::Leader);
            if s.role == Role::Leader && s2.term == s.term {
                assert(c.elected.contains((s.term, n)));
            }
        }
    }
    assert(c2.inv_elected());
}

/// Delivering a message keeps the cluster's invariant.
pub proof fn law_deliver_keeps_inv(c: ClusterView, n: u64, m: MessageView, t: usize)
    requires
        c.inv(),
        c.can_deliver(n, m),
    ensures
        c.deliver(n, m, t).inv(),
{
    let s = c.nodes[n];
    let s2 = s.step(m, t);
    let c2 = c.record(n, s2);
    lemma_step_votes_sent(s, m, t);
    lemma_step_counted(s, m, t);
    law_step_messages_stamped(s, m, t);
    law_step_term_never_decreases(s, m, t);
    law_one_vote_per_term_step(s, m, t);
    assert(c.nodes.contains_key(m.from));
    assert forall|i: int| s.msgs.len() <= i < s2.msgs.len() implies {
        let x = #[trigger] s2.msgs[i];
        &&& x.from == n
        &&& (x.msg_type == MessageType::RequestVote || x.msg_type == MessageType::RequestVoteResponse)
            ==> x.term >= 1
        &&& (x.msg_type == MessageType::RequestVoteResponse && x.granted == Some(true)) ==> (x.to
            == s2.vote && s2.vote != INVALID_ID && x.term == s2.term)
    } by {
        if s2.msgs[i].msg_type == MessageType::RequestVoteResponse {
            assert(c.sent.contains(m) && m.msg_type == MessageType::RequestVote);
        }
    }
    assert(c.votes_cast.subset_of(c2.votes_cast));
    if m.msg_type == MessageType::RequestVoteResponse {
        assert(m.term >= 1);
    }
    assert forall|v: u64| #[trigger] s2.prs.votes.contains_key(v) && s2.prs.votes[v] implies c2.votes_cast.contains(
        (v, s2.term, n),
    ) by {
        if s2.term == s.term && s.prs.votes.contains_key(v) && s.prs.votes[v] {
            assert(c.votes_cast.contains((v, s.term, n)));
        } else {
            assert(c.votes_cast.contains((m.from, m.term, m.to)));
        }
    }
    if s2.role == Role::Leader && !(s.role == Role::Leader && s2.term == s.term) {
        let x = s.prs.record_vote(m.from, m.granted == Some(true));
        assert forall|v: u64| #[trigger] x.votes.contains_key(v) && x.votes[v] implies c.votes_cast.contains(
            (v, s.term, n),
        ) by {
            if x.voter_set.contains(m.from) && v == m.from {
                assert(m.granted == Some(true));
                assert(c.votes_cast.contains((m.from, m.term, m.to)));
            } else {
                assert(s.prs.votes.contains_key(v) && s.prs.votes[v]);
            }
        }
        lemma_counted_within_supporters(x.voters, x.votes, c.votes_cast, s.term, n);
        lemma_supporters_grow(c.voters, c.votes_cast, c2.votes_cast, s.term, n);
    }
    lemma_record_keeps_inv(c, n, s2);
}

/// A clock tick keeps the cluster's invariant.
pub proof fn law_tick_keeps_inv(c: ClusterView, n: u64, t: usize)
    requires
        c.inv(),
        c.can_tick_node(n),
    ensures
        c.tick_node(n, t).inv(),
{
    let s = c.nodes[n];
    let s2 = s.tick(t).0;
    let c2 = c.record(n, s2);
    lemma_tick_votes(s, t);
    law_tick_messages_stamped(s, t);
    assert(c.votes_cast.subset_of(c2.votes_cast));
    assert forall|v: u64| #[trigger] s2.prs.votes.contains_key(v) && s2.prs.votes[v] implies c2.votes_cast.contains(
        (v, s2.term, n),
    ) by {
        if s2.term == s.term && s.prs.votes.contains_key(v) && s.prs.votes[v] {
            assert(c.votes_cast.contains((v, s.term, n)));
        }
    }
    if s2.role == Role::Leader && !(s.role == Role::Leader && s2.term == s.term) {
        let sup = supporters(c.voters, c2.votes_cast, s2.term, n);
        assert(c.voters.contains(n));
        assert(sup.contains(n));
        c.voters.lemma_len_filter(|v: u64| c2.votes_cast.contains((v, s2.term, n)));
        assert(sup.remove(n).len() + 1 == sup.len());
    }
    lemma_record_keeps_inv(c, n, s2);
}

/// A proposal keeps the cluster's invariant.
pub proof fn law_propose_keeps_inv(c: ClusterView, n: u64, data: Seq<u8>)
    requires
        c.inv(),
        c.nodes.contains_key(n),
    ensures
        c.propose_at(n, data).inv(),
{
    let s = c.nodes[n];
    let s2 = s.propose(data).0;
    let c2 = c.record(n, s2);
    lemma_propose_votes(s, data);
    law_propose_messages_stamped(s, data);
    assert(c.votes_cast.subset_of(c2.votes_cast));
    assert forall|v: u64| #[trigger] s2.prs.votes.contains_key(v) && s2.prs.votes[v] implies c2.votes_cast.contains(
        (v, s2.term, n),
    ) by {
        assert(c.votes_cast.contains((v, s.term, n)));
    }
    lemma_record_keeps_inv(c, n, s2);
}

/// Emptying a node's outbox keeps the cluster's invariant.
pub proof fn law_drain_keeps_inv(c: ClusterView, n: u64)
    requires
        c.inv(),
        c.nodes.contains_key(n),
    ensures
        c.drain(n).inv(),
{
    let c2 = c.drain(n);
    assert(c2.nodes.dom() =~= c.nodes.dom());
}

/// One thing that can happen in a cluster.
pub enum ClusterAction {
    /// A node steps a message addressed to it from the network, drawing `timeout` if it resets.
    Deliver { node: u64, msg: MessageView, timeout: usize },
    /// A node's clock ticks, drawing `timeout` if it starts an election.
    Tick { node: u64, timeout: usize },
    /// A node is asked to append `data`.
    Propose { node: u64, data: Seq<u8> },
    /// A node's outbox is emptied.
    Drain { node: u64 },
}

impl ClusterView {
    pub open spec fn can_apply(self, a: ClusterAction) -> bool {
        match a {
            ClusterAction::Deliver { node, msg, timeout } => self.can_deliver(node, msg),
            ClusterAction::Tick { node, timeout } => self.can_tick_node(node),
            ClusterAction::Propose { node, data } => self.can_propose(node),
            ClusterAction::Drain { node } => self.nodes.contains_key(node),
        }
    }

    pub open spec fn apply(self, a: ClusterAction) -> ClusterView {
        match a {
            ClusterAction::Deliver { node, msg, timeout } => self.deliver(node, msg, timeout),
            ClusterAction::Tick { node, timeout } => self.tick_node(node, timeout),
            ClusterAction::Propose { node, data } => self.propose_at(node, data),
            ClusterAction::Drain { node } => self.drain(node),
        }
    }

    /// Each action in turn can happen in the cluster it meets.
    pub open spec fn can_run(self, actions: Seq<ClusterAction>) -> bool
        decreases actions.len(),
    {
        if actions.len() == 0 {
            true
        } else {
            self.can_apply(actions[0]) && self.apply(actions[0]).can_run(actions.drop_first())
        }
    }

    /// The cluster after the actions, in order.
    pub open spec fn run(self, actions: Seq<ClusterAction>) -> ClusterView
        decreases actions.len(),
    {
        if actions.len() == 0 {
            self
        } else {
            self.apply(actions[0]).run(actions.drop_first())
        }
    }
}

/// Every action that can happen keeps the cluster's invariant.
pub proof fn law_action_keeps_inv(c: ClusterView, a: ClusterAction)
    requires
        c.inv(),
        c.can_apply(a),
    ensures
        c.apply(a).inv(),
{
    match a {
        ClusterAction::Deliver { node, msg, timeout } => law_deliver_keeps_inv(c, node, msg, timeout),
        ClusterAction::Tick { node, timeout } => law_tick_keeps_inv(c, node, timeout),
        ClusterAction::Propose { node, data } => law_propose_keeps_inv(c, node, data),
        ClusterAction::Drain { node } => law_drain_keeps_inv(c, node),
    }
}

/// Every run of actions that can happen keeps the cluster's invariant.
pub proof fn law_run_keeps_inv(c: ClusterView, actions: Seq<ClusterAction>)
    requires
        c.inv(),
        c.can_run(actions),
    ensures
        c.run(actions).inv(),
    decreases actions.len(),
{
    if actions.len() > 0 {
        law_action_keeps_inv(c, actions[0]);
        law_run_keeps_inv(c.apply(actions[0]), actions.drop_first());
    }
}

/// Election safety for every run of a freshly started cluster: however
/// messages are lost, delayed, duplicated or reordered, and whatever timeouts
/// are drawn, no two nodes ever lead in the same term.
pub proof fn law_one_leader_per_term_on_every_run(
    c: ClusterView,
    actions: Seq<ClusterAction>,
    n1: u64,
    n2: u64,
)
    requires
        c.initial(),
        c.can_run(actions),
        c.run(actions).nodes.contains_key(n1),
        c.run(actions).nodes.contains_key(n2),
        c.run(actions).nodes[n1].role == Role::Leader,
        c.run(actions).nodes[n2].role == Role::Leader,
        c.run(actions).nodes[n1].term == c.run(actions).nodes[n2].term,
    ensures
        n1 == n2,
{
    law_initial_cluster_inv(c);
    law_run_keeps_inv(c, actions);
    law_one_leader_per_term(c.run(actions), n1, n2);
}

} // verus!
