use vstd::prelude::*;

use crate::log::{absorb, contiguous, lemma_contiguous_last_index, merge, EntryView, LogView};
use crate::message::{MessageType, MessageView};
use crate::network::{decode, encode, parse_type, wire_name};
use crate::progress::{count_votes, majority, ProgressView, VoteResult};
use crate::raft::{log_up_to_date, RaftView, Role, INVALID_ID};

verus! {

/// Stepping a message never lowers a node's term.
pub proof fn law_step_term_never_decreases(s: RaftView, m: MessageView, t: usize)
    ensures
        s.step(m, t).term >= s.term,
{
}

/// Stepping a message leaves the node in the later of its own term and the
/// message's; a message from a later term makes it a follower, whose leader
/// is the sender of an append request and unknown otherwise.
pub proof fn law_step_adopts_later_term(s: RaftView, m: MessageView, t: usize)
    ensures
        s.step(m, t).term == if m.term > s.term { m.term } else { s.term },
        m.term > s.term ==> s.step(m, t).role == Role::Follower && s.step(m, t).leader_id == if m.msg_type
            == MessageType::AppendEntries {
            m.from
        } else {
            INVALID_ID
        },
{
}

/// A clock tick never lowers a node's term.
pub proof fn law_tick_term_never_decreases(s: RaftView, t: usize)
    requires
        s.can_tick(),
    ensures
        s.tick(t).0.term >= s.term,
{
}

/// A node votes at most once per term: once it has voted in a term, stepping
/// a message that leaves the term unchanged leaves its vote unchanged.
pub proof fn law_one_vote_per_term_step(s: RaftView, m: MessageView, t: usize)
    ensures
        s.step(m, t).term == s.term && s.vote != INVALID_ID ==> s.step(m, t).vote == s.vote,
{
}

/// A clock tick that leaves the term unchanged leaves the vote unchanged.
pub proof fn law_one_vote_per_term_tick(s: RaftView, t: usize)
    requires
        s.can_tick(),
    ensures
        s.tick(t).0.term == s.term ==> s.tick(t).0.vote == s.vote,
{
}

/// A node gives its vote to the sender of a vote request only when the
/// sender's log is at least as up to date as its own (unless it had already
/// voted for that sender in the same term).
pub proof fn law_vote_needs_up_to_date_log(s: RaftView, m: MessageView, t: usize)
    requires
        m.msg_type == MessageType::RequestVote,
    ensures
        ({
            let s2 = s.step(m, t);
            (s2.vote == m.from && m.from != INVALID_ID && !(s.vote == m.from && s.term == s2.term))
                ==> log_up_to_date(
                m.last_log_term,
                m.last_log_index,
                s.log.term_at(s.log.last_index()),
                s.log.last_index(),
            )
        }),
{
}

/// Stepping a message never turns a follower directly into a leader.
pub proof fn law_follower_never_leader_on_step(s: RaftView, m: MessageView, t: usize)
    requires
        s.role == Role::Follower,
    ensures
        s.step(m, t).role != Role::Leader,
{
}

/// A message from an earlier (nonzero) term changes nothing but, at most,
/// the messages the node has to send.
pub proof fn law_stale_message_changes_only_outbox(s: RaftView, m: MessageView, t: usize)
    requires
        m.term < s.term,
        m.term != 0,
    ensures
        (RaftView { msgs: s.msgs, ..s.step(m, t) }) == s,
{
}

/// A leader never overwrites or deletes entries of its own log: a node that
/// leads before and after stepping a message has the same entries.
pub proof fn law_leader_append_only_step(s: RaftView, m: MessageView, t: usize)
    requires
        s.role == Role::Leader,
        s.step(m, t).role == Role::Leader,
    ensures
        s.step(m, t).log.entries == s.log.entries,
        s.step(m, t).term == s.term,
{
}

/// A leader's tick never touches its log.
pub proof fn law_leader_append_only_tick(s: RaftView, t: usize)
    requires
        s.can_tick(),
        s.role == Role::Leader,
    ensures
        s.tick(t).0.log == s.log,
        s.tick(t).0.role == Role::Leader,
{
}

/// A proposal to a leader appends exactly one entry, in the leader's term,
/// behind the entries it already had.
pub proof fn law_propose_appends_one_entry(s: RaftView, data: Seq<u8>)
    requires
        s.wf(),
        s.role == Role::Leader,
        s.log.entries.len() + 1 < u64::MAX,
    ensures
        ({
            let s2 = s.propose(data).0;
            &&& s.propose(data).1 is Ok
            &&& s2.log.entries.len() == s.log.entries.len() + 1
            &&& s2.log.entries.take(s.log.entries.len() as int) == s.log.entries
            &&& s2.log.term_at(s2.log.last_index()) == s.term
            &&& s2.log.last_index() == s.log.last_index() + 1
        }),
{
    lemma_contiguous_last_index(s.log.entries);
    assert(s.propose(data).0.log.entries.take(s.log.entries.len() as int) =~= s.log.entries);
}

/// A node that is not the leader refuses every proposal and stays as it is.
pub proof fn law_only_leader_accepts_proposals(s: RaftView, data: Seq<u8>)
    requires
        s.role != Role::Leader,
    ensures
        s.propose(data) == (s, Err::<(), crate::raft::RaftError>(crate::raft::RaftError::NotLeader(s.id))),
{
}

/// A leader only ever moves its commit index forward, and only onto an entry
/// of its current term.
pub proof fn law_leader_commits_current_term(s: RaftView, m: MessageView, t: usize)
    requires
        s.wf(),
        s.role == Role::Leader,
        s.step(m, t).role == Role::Leader,
        s.step(m, t).log.committed != s.log.committed,
    ensures
        s.step(m, t).log.committed > s.log.committed,
        s.step(m, t).log.term_at(s.step(m, t).log.committed) == s.term,
{
}

/// Starting an election moves to the next term with a vote for oneself.
pub proof fn law_candidate_votes_for_itself(s: RaftView, t: usize)
    requires
        s.role != Role::Leader,
        s.term < u64::MAX,
    ensures
        s.campaign(t).term == s.term + 1,
        s.campaign(t).vote == s.id,
        s.campaign(t).role != Role::Follower,
{
}

/// Log matching: after taking in a batch numbered from `start` on without a
/// gap (with `start` at most one past the last entry), the log keeps every
/// entry before `start`, and holds at every index of the batch an entry with
/// that index and the batch's term there; it stays well formed.
pub proof fn law_append_entries_matches_batch(log: LogView, new: Seq<EntryView>, start: int)
    requires
        log.wf(),
        1 <= start <= log.last_index() + 1,
        forall|j: int| 0 <= j < new.len() ==> #[trigger] new[j].index == start + j,
        log.entries.len() + new.len() < u64::MAX,
    ensures
        ({
            let r = log.append_entries(new).entries;
            &&& log.append_entries(new).wf()
            &&& r.take(start - 1) == log.entries.take(start - 1)
            &&& r.len() >= start - 1 + new.len()
            &&& forall|j: int| 0 <= j < new.len() ==> #[trigger] r[start - 1 + j].index == new[j].index
                && r[start - 1 + j].term == new[j].term
        }),
{
    lemma_contiguous_last_index(log.entries);
    lemma_merge_batch(log.entries, new, start);
}

/// One entry taken into a contiguous log leaves it contiguous.
proof fn lemma_absorb_contiguous(es: Seq<EntryView>, e: EntryView)
    requires
        contiguous(es),
        absorb(es, e) is Some,
    ensures
        contiguous(absorb(es, e)->0),
        (absorb(es, e)->0).len() <= es.len() + 1,
{
    let q = absorb(es, e)->0;
    assert forall|k: int| 0 <= k < q.len() implies #[trigger] q[k].index == k + 1 by {
        if k < es.len() && (k < e.index - 1 || e.index > es.len()) {
            assert(q[k] == es[k]);
        }
    }
}

/// The induction behind `law_append_entries_matches_batch`.
proof fn lemma_merge_batch(es: Seq<EntryView>, new: Seq<EntryView>, start: int)
    requires
        contiguous(es),
        1 <= start <= es.len() + 1,
        forall|j: int| 0 <= j < new.len() ==> #[trigger] new[j].index == start + j,
    ensures
        ({
            let r = merge(es, new).0;
            &&& !merge(es, new).1
            &&& contiguous(r)
            &&& r.len() <= es.len() + new.len()
            &&& r.take(start - 1) == es.take(start - 1)
            &&& r.len() >= start - 1 + new.len()
            &&& forall|j: int| 0 <= j < new.len() ==> #[trigger] r[start - 1 + j].index == new[j].index
                && r[start - 1 + j].term == new[j].term
        }),
    decreases new.len(),
{
    if new.len() > 0 {
        let d = new.drop_last();
        assert forall|j: int| 0 <= j < d.len() implies #[trigger] d[j].index == start + j by {
            assert(d[j] == new[j]);
        }
        lemma_merge_batch(es, d, start);
        let p = merge(es, d).0;
        let e = new.last();
        assert(e.index == start + new.len() - 1);
        lemma_absorb_contiguous(p, e);
        let q = merge(es, new).0;
        assert(q == absorb(p, e)->0);
        assert(q.take(start - 1) =~= es.take(start - 1)) by {
            assert forall|k: int| 0 <= k < start - 1 implies q[k] == es[k] by {
                assert(q[k] == p[k]);
                assert(p[k] == p.take(start - 1)[k]);
                assert(es[k] == es.take(start - 1)[k]);
            }
        }
        assert forall|j: int| 0 <= j < new.len() implies #[trigger] q[start - 1 + j].index == new[j].index
            && q[start - 1 + j].term == new[j].term by {
            if j < d.len() {
                assert(q[start - 1 + j] == p[start - 1 + j]);
                assert(d[j] == new[j]);
            }
        }
    } else {
        assert(merge(es, new).0 == es);
    }
}

/// Reading back a write: after appending an entry, the last index moves up by
/// one, the term there is the term written, and every earlier entry keeps its term.
pub proof fn law_append_then_read(log: LogView, term: u64, data: Seq<u8>)
    requires
        log.wf(),
        log.entries.len() + 1 < u64::MAX,
    ensures
        ({
            let a = log.append(term, data);
            &&& a.wf()
            &&& a.last_index() == log.last_index() + 1
            &&& a.term_at(a.last_index()) == term
            &&& forall|i: u64| i <= log.last_index() ==> #[trigger] a.term_at(i) == log.term_at(i)
        }),
{
    lemma_contiguous_last_index(log.entries);
    let a = log.append(term, data);
    assert(contiguous(a.entries)) by {
        assert forall|k: int| 0 <= k < a.entries.len() implies #[trigger] a.entries[k].index == k + 1 by {
            if k < log.entries.len() {
                assert(a.entries[k] == log.entries[k]);
            }
        }
    }
    assert forall|i: u64| i <= log.last_index() implies #[trigger] a.term_at(i) == log.term_at(i) by {
        if 1 <= i {
            assert(a.entries[i - 1] == log.entries[i - 1]);
        }
    }
}

/// A message read back off the wire is the message that was put on it,
/// unless it carried a `false` flag (which travels as no flag).
pub proof fn law_wire_round_trip(m: MessageView)
    requires
        m.granted != Some(false),
    ensures
        decode(encode(m)) == Some(m),
{
    lemma_parse_wire_name(m.msg_type);
    let d = decode(encode(m)).unwrap();
    match m.granted {
        Some(b) => {
            assert(b);
        },
        None => {},
    }
    assert(d.granted == m.granted);
    assert(d == m);
}

/// Every kind of message is read back as itself from its wire name.
pub proof fn lemma_parse_wire_name(t: MessageType)
    ensures
        parse_type(wire_name(t)) == Some(t),
{
    reveal_strlit("RequestVote");
    reveal_strlit("RequestVoteResponse");
    reveal_strlit("AppendEntries");
    reveal_strlit("AppendEntriesResponse");
    assert("RequestVote"@.len() != "RequestVoteResponse"@.len());
    assert("RequestVote"@.len() != "AppendEntries"@.len());
    assert("RequestVote"@.len() != "AppendEntriesResponse"@.len());
    assert("RequestVoteResponse"@.len() != "AppendEntries"@.len());
    assert("RequestVoteResponse"@.len() != "AppendEntriesResponse"@.len());
    assert("AppendEntries"@.len() != "AppendEntriesResponse"@.len());
}

/// The votes counted for and against never outnumber the voters.
proof fn lemma_counts_bounded(voters: Seq<u64>, votes: Map<u64, bool>)
    ensures
        count_votes(voters, votes, true) + count_votes(voters, votes, false) <= voters.len(),
    decreases voters.len(),
{
    if voters.len() > 0 {
        lemma_counts_bounded(voters.drop_last(), votes);
    }
}

/// An election is won only with the votes of more than half of the voters,
/// and a won election is never also a lost one.
pub proof fn law_won_election_has_majority(p: ProgressView)
    requires
        p.wf(),
        p.vote_result() == VoteResult::Won,
    ensures
        2 * p.granted_count() > p.voter_set.len(),
        p.rejected_count() < majority(p.voter_set.len()),
{
    p.voters.unique_seq_to_set();
    lemma_counts_bounded(p.voters, p.votes);
}

/// `after` is `before` followed by messages from `id` in `term` only.
pub open spec fn extends_stamped(before: Seq<MessageView>, after: Seq<MessageView>, id: u64, term: u64) -> bool {
    &&& before.len() <= after.len()
    &&& after.take(before.len() as int) == before
    &&& forall|i: int| before.len() <= i < after.len() ==> #[trigger] after[i].from == id && after[i].term == term
}

/// Append requests carry the leader's id and term.
proof fn lemma_append_requests_stamped(s: RaftView, peers: Seq<u64>)
    ensures
        forall|i: int| 0 <= i < s.append_requests(peers).len() ==> #[trigger] s.append_requests(peers)[i].from == s.id
            && s.append_requests(peers)[i].term == s.term,
    decreases peers.len(),
{
    if peers.len() > 0 {
        lemma_append_requests_stamped(s, peers.drop_last());
    }
}

/// Vote requests carry the candidate's id and term.
proof fn lemma_vote_requests_stamped(s: RaftView, peers: Seq<u64>)
    ensures
        forall|i: int| 0 <= i < s.vote_requests(peers).len() ==> #[trigger] s.vote_requests(peers)[i].from == s.id
            && s.vote_requests(peers)[i].term == s.term,
    decreases peers.len(),
{
    if peers.len() > 0 {
        lemma_vote_requests_stamped(s, peers.drop_last());
    }
}

/// Broadcasting append requests only adds messages stamped with the node's id and term.
proof fn lemma_bcast_stamped(s: RaftView)
    ensures
        extends_stamped(s.msgs, s.bcast_append_entries().msgs, s.id, s.term),
        (RaftView { msgs: s.msgs, ..s.bcast_append_entries() }) == s,
{
    lemma_append_requests_stamped(s, s.prs.voters);
    assert(s.bcast_append_entries().msgs.take(s.msgs.len() as int) =~= s.msgs);
}

/// Sending a message from the node itself adds just that message.
proof fn lemma_send_stamped(s: RaftView, m: MessageView)
    requires
        m.from == s.id,
    ensures
        extends_stamped(s.msgs, s.send(m).msgs, s.id, m.term),
{
    assert(s.send(m).msgs.take(s.msgs.len() as int) =~= s.msgs);
}

/// Taking the lead adds only heartbeats stamped with the node's id and term.
proof fn lemma_become_leader_stamped(s: RaftView, t: usize)
    ensures
        extends_stamped(s.msgs, s.become_leader(t).msgs, s.id, s.term),
        s.become_leader(t).term == s.term,
        s.become_leader(t).id == s.id,
{
    let x = RaftView { leader_id: s.id, role: Role::Leader, ..s.reset(s.term, t) };
    let y = RaftView { prs: x.prs.init_leader_progress(x.id, x.log.last_index()), ..x };
    lemma_bcast_stamped(y);
}

/// Every message a node queues while stepping a message names the node as
/// its sender and carries the node's term after the step; the messages
/// queued before stay in place.
pub proof fn law_step_messages_stamped(s: RaftView, m: MessageView, t: usize)
    ensures
        extends_stamped(s.msgs, s.step(m, t).msgs, s.id, s.step(m, t).term),
        s.step(m, t).id == s.id,
{
    let s1 = if m.term > s.term {
        let leader = if m.msg_type == MessageType::AppendEntries { m.from } else { INVALID_ID };
        s.become_follower(m.term, leader, t)
    } else {
        s
    };
    assert(s1.msgs == s.msgs);
    if m.term < s.term && m.term != 0 {
        if s.check_quorum && m.msg_type == MessageType::AppendEntries {
            lemma_send_stamped(s, crate::message::append_entries_response_msg(s.term, s.id, m.from, false, s.log.last_index()));
        } else {
            assert(s.step(m, t).msgs.take(s.msgs.len() as int) =~= s.msgs);
        }
    } else {
        lemma_handle_stamped(s1, m, t);
    }
}

/// Handling a message of the node's own term queues only messages stamped
/// with its id and its term after handling.
proof fn lemma_handle_stamped(s: RaftView, m: MessageView, t: usize)
    ensures
        extends_stamped(s.msgs, s.handle(m, t).msgs, s.id, s.handle(m, t).term),
        s.handle(m, t).id == s.id,
{
    match m.msg_type {
        MessageType::RequestVote => {
            let x = RaftView { election_elapsed: 0, vote: m.from, ..s };
            lemma_send_stamped(x, crate::message::request_vote_response_msg(s.term, s.id, m.from, true));
            lemma_send_stamped(s, crate::message::request_vote_response_msg(s.term, s.id, m.from, false));
        },
        MessageType::RequestVoteResponse => {
            if s.role == Role::Candidate {
                let x = RaftView { prs: s.prs.record_vote(m.from, m.granted == Some(true)), ..s };
                lemma_become_leader_stamped(x, t);
                assert(x.become_follower(x.term, INVALID_ID, t).msgs.take(s.msgs.len() as int) =~= s.msgs);
            } else {
                assert(s.msgs.take(s.msgs.len() as int) =~= s.msgs);
            }
        },
        MessageType::AppendEntries => {
            if s.role == Role::Follower {
                lemma_accept_stamped(RaftView { election_elapsed: 0, leader_id: m.from, ..s }, m);
            } else if m.term == s.term {
                lemma_accept_stamped(s.become_follower(m.term, m.from, t), m);
            } else {
                assert(s.msgs.take(s.msgs.len() as int) =~= s.msgs);
            }
        },
        MessageType::AppendEntriesResponse => {
            if s.role == Role::Leader {
                lemma_append_response_stamped(s, m);
            } else {
                assert(s.msgs.take(s.msgs.len() as int) =~= s.msgs);
            }
        },
    }
}

/// Answering an append request queues one reply from the node in its term.
proof fn lemma_accept_stamped(s: RaftView, m: MessageView)
    ensures
        extends_stamped(s.msgs, s.accept_entries(m).msgs, s.id, s.term),
        s.accept_entries(m).term == s.term,
        s.accept_entries(m).id == s.id,
{
    if m.prev_log_index <= s.log.last_index() && s.log.term_at(m.prev_log_index) == m.prev_log_term {
        let log1 = s.log.append_entries(m.entries);
        let last = s.last_new_index(m);
        let log2 = if m.leader_commit > log1.committed {
            LogView { committed: crate::raft::min_index(m.leader_commit, last), ..log1 }.apply_committed()
        } else {
            log1
        };
        lemma_send_stamped(
            RaftView { log: log2, ..s },
            crate::message::append_entries_response_msg(s.term, s.id, m.from, true, log1.last_index()),
        );
    } else {
        lemma_send_stamped(
            s,
            crate::message::append_entries_response_msg(s.term, s.id, m.from, false, s.log.last_index()),
        );
    }
}

/// A leader's handling of an append response queues at most one request, from itself in its term.
proof fn lemma_append_response_stamped(s: RaftView, m: MessageView)
    ensures
        extends_stamped(s.msgs, s.handle_append_response(m).msgs, s.id, s.term),
        s.handle_append_response(m).term == s.term,
        s.handle_append_response(m).id == s.id,
{
    if m.granted == Some(true) {
        assert(s.handle_append_response(m).msgs.take(s.msgs.len() as int) =~= s.msgs);
    } else {
        let cur = if s.prs.next_index.contains_key(m.from) { s.prs.next_index[m.from] } else { 1 };
        if cur > 1 {
            let x = RaftView {
                prs: ProgressView { next_index: s.prs.next_index.insert(m.from, (cur - 1) as u64), ..s.prs },
                ..s
            };
            lemma_send_stamped(x, x.append_request(m.from));
        } else {
            assert(s.msgs.take(s.msgs.len() as int) =~= s.msgs);
        }
    }
}

/// Every message a tick queues names the node as its sender and carries its
/// term after the tick; the messages queued before stay in place.
pub proof fn law_tick_messages_stamped(s: RaftView, t: usize)
    requires
        s.can_tick(),
    ensures
        extends_stamped(s.msgs, s.tick(t).0.msgs, s.id, s.tick(t).0.term),
        s.tick(t).0.id == s.id,
{
    if s.role == Role::Leader {
        let hb = (s.heartbeat_elapsed + 1) as usize;
        let el = (s.election_elapsed + 1) as usize;
        let el2 = if el >= s.election_timeout { 0 } else { el };
        let x = RaftView { heartbeat_elapsed: hb, election_elapsed: el2, ..s };
        lemma_bcast_stamped(RaftView { heartbeat_elapsed: 0, ..x });
        assert(x.msgs.take(s.msgs.len() as int) =~= s.msgs);
    } else {
        let x = RaftView { election_elapsed: (s.election_elapsed + 1) as usize, ..s };
        if !x.pass_election_timeout() {
            assert(x.msgs.take(s.msgs.len() as int) =~= s.msgs);
        } else {
            let y = RaftView { election_elapsed: 0, ..x };
            lemma_campaign_stamped(y, t);
        }
    }
}

/// Starting an election queues only vote requests (or, when it wins at once,
/// heartbeats) from the node in its new term.
proof fn lemma_campaign_stamped(s: RaftView, t: usize)
    ensures
        extends_stamped(s.msgs, s.campaign(t).msgs, s.id, s.campaign(t).term),
        s.campaign(t).id == s.id,
{
    let c = s.become_candidate(t);
    let x = RaftView { prs: c.prs.record_vote(c.id, true), ..c };
    if x.prs.voter_set.len() == 1 {
        lemma_become_leader_stamped(x, t);
    } else {
        lemma_vote_requests_stamped(x, x.prs.voters);
        assert(s.campaign(t).msgs.take(s.msgs.len() as int) =~= s.msgs);
    }
}

/// Every message a proposal queues comes from the leader in its term.
pub proof fn law_propose_messages_stamped(s: RaftView, data: Seq<u8>)
    ensures
        extends_stamped(s.msgs, s.propose(data).0.msgs, s.id, s.term),
        s.propose(data).0.term == s.term,
{
    if s.role == Role::Leader {
        let idx = (s.log.last_index() + 1) as u64;
        let x = RaftView {
            log: s.log.append(s.term, data),
            prs: ProgressView {
                match_index: s.prs.match_index.insert(s.id, idx),
                next_index: s.prs.next_index.insert(s.id, (idx + 1) as u64),
                ..s.prs
            },
            ..s
        };
        lemma_bcast_stamped(x);
    } else {
        assert(s.msgs.take(s.msgs.len() as int) =~= s.msgs);
    }
}

/// Applying committed entries brings the apply mark up to the commit index
/// (never back) and leaves the entries and the commit index alone.
pub proof fn law_apply_reaches_commit(log: LogView)
    ensures
        log.apply_committed().applied == if log.applied < log.committed { log.committed } else { log.applied },
        log.apply_committed().entries == log.entries,
        log.apply_committed().committed == log.committed,
{
}

/// Whenever stepping a message moves the commit index, the new commit index
/// names an entry the node holds.
pub proof fn law_commit_index_moves_within_log(s: RaftView, m: MessageView, t: usize)
    requires
        s.wf(),
    ensures
        s.step(m, t).log.committed != s.log.committed ==> s.step(m, t).log.committed
            <= s.step(m, t).log.last_index(),
{
}

/// No entry of `new` at an index from 1 to `upto` disagrees in term with `log`.
pub open spec fn agrees_up_to(log: LogView, new: Seq<EntryView>, upto: u64) -> bool {
    forall|j: int|
        0 <= j < new.len() && 1 <= #[trigger] new[j].index <= upto ==> new[j].term
            == log.term_at(new[j].index)
}

/// Taking in a batch that agrees with the first `c` entries keeps them and
/// leaves the log contiguous.
proof fn lemma_merge_keeps_prefix(es: Seq<EntryView>, new: Seq<EntryView>, c: int)
    requires
        contiguous(es),
        0 <= c <= es.len(),
        forall|j: int|
            0 <= j < new.len() && 1 <= #[trigger] new[j].index <= c ==> new[j].term
                == es[new[j].index - 1].term,
    ensures
        contiguous(merge(es, new).0),
        c <= merge(es, new).0.len() <= es.len() + new.len(),
        merge(es, new).0.take(c) == es.take(c),
    decreases new.len(),
{
    if new.len() > 0 {
        let d = new.drop_last();
        assert forall|j: int| 0 <= j < d.len() && 1 <= #[trigger] d[j].index <= c implies d[j].term
            == es[d[j].index - 1].term by {
            assert(d[j] == new[j]);
        }
        lemma_merge_keeps_prefix(es, d, c);
        let p = merge(es, d).0;
        if !merge(es, d).1 {
            let e = new.last();
            assert(e == new[new.len() - 1]);
            if absorb(p, e) is Some {
                lemma_absorb_contiguous(p, e);
                let q = absorb(p, e)->0;
                assert(merge(es, new).0 == q);
                if 1 <= e.index <= p.len() && p[e.index - 1].term != e.term {
                    if e.index <= c {
                        assert(p[e.index - 1] == p.take(c)[e.index - 1]);
                        assert(es[e.index - 1] == es.take(c)[e.index - 1]);
                    }
                }
                assert(q.take(c) =~= p.take(c));
            }
        }
    }
}

/// Taking in any batch, contiguous or not, keeps a log well formed as long
/// as the log and the batch together stay below `u64::MAX` entries, and
/// leaves the commit and apply marks alone.
pub proof fn law_append_entries_keeps_log_well_formed(log: LogView, new: Seq<EntryView>)
    requires
        log.wf(),
        log.entries.len() + new.len() < u64::MAX,
    ensures
        log.append_entries(new).wf(),
        log.append_entries(new).committed == log.committed,
        log.append_entries(new).applied == log.applied,
{
    lemma_merge_keeps_prefix(log.entries, new, 0);
}

/// Committed entries stay: stepping a message whose entries agree with the
/// log up to the commit index keeps every entry up to the old commit index,
/// and leaves the commit index within the log.
pub proof fn law_step_keeps_committed_entries(s: RaftView, m: MessageView, t: usize)
    requires
        s.wf(),
        s.log.committed <= s.log.last_index(),
        agrees_up_to(s.log, m.entries, s.log.committed),
    ensures
        s.step(m, t).log.entries.len() >= s.log.committed,
        s.step(m, t).log.entries.take(s.log.committed as int) == s.log.entries.take(
            s.log.committed as int,
        ),
        s.step(m, t).log.committed <= s.step(m, t).log.last_index(),
{
    let c = s.log.committed as int;
    lemma_contiguous_last_index(s.log.entries);
    assert forall|j: int|
        0 <= j < m.entries.len() && 1 <= #[trigger] m.entries[j].index <= c implies m.entries[j].term
        == s.log.entries[m.entries[j].index - 1].term by {}
    lemma_merge_keeps_prefix(s.log.entries, m.entries, c);
    let r = merge(s.log.entries, m.entries).0;
    lemma_contiguous_last_index(r);
    assert(s.log.entries.take(c) =~= s.log.entries.take(c));
}

/// What applying hands to the state machine: after `apply_committed`, the
/// applied entries above the old apply mark are exactly the entries from
/// just after that mark up to the commit index, in log order.
pub proof fn law_apply_hands_out_committed_entries(log: LogView)
    requires
        log.committed <= log.entries.len(),
    ensures
        log.apply_committed().applied_since(log.applied) == if log.applied < log.committed {
            log.entries.subrange(log.applied as int, log.committed as int)
        } else {
            Seq::empty()
        },
{
    if log.applied >= log.committed {
        let l2 = log.apply_committed();
        let hi = if l2.applied <= l2.entries.len() { l2.applied as int } else { l2.entries.len() as int };
        assert(l2.applied_since(log.applied) =~= l2.entries.subrange(hi, hi));
    }
}

/// A node takes the lead while stepping a message only as a candidate whose
/// election that message (a vote response) has just won.
pub proof fn law_leader_only_by_winning_vote_step(s: RaftView, m: MessageView, t: usize)
    requires
        s.role != Role::Leader,
        s.step(m, t).role == Role::Leader,
    ensures
        s.role == Role::Candidate,
        m.msg_type == MessageType::RequestVoteResponse,
        s.prs.record_vote(m.from, m.granted == Some(true)).vote_result() == VoteResult::Won,
        s.step(m, t).term == s.term,
{
}

/// A tick makes a node the leader only in a cluster of a single voter.
pub proof fn law_leader_on_tick_only_alone(s: RaftView, t: usize)
    requires
        s.can_tick(),
        s.role != Role::Leader,
        s.tick(t).0.role == Role::Leader,
    ensures
        s.prs.voter_set.len() == 1,
{
}

} // verus!
