use vstd::prelude::*;

use crate::message::{MessageType, MessageView};
use crate::progress::{count_votes, majority, ProgressView, VoteResult};
use crate::raft::{index_leq, lemma_index_leq_total, RaftView, Role, INVALID_ID};

verus! {

// Rules of a single node stated directly over what it receives and what it
// queues, without going through the spec functions that define its steps.

/// The later of two terms.
pub open spec fn later_term(a: u64, b: u64) -> u64 {
    if a >= b { a } else { b }
}

/// A candidate's log, ending at (`last_index`, `last_term`), is at least as
/// up to date as `s`'s log: its last term is later, or the same with an index
/// at least as high.
pub open spec fn at_least_as_up_to_date(s: RaftView, last_term: u64, last_index: u64) -> bool {
    let my_index = s.log.last_index();
    let my_term = s.log.term_at(my_index);
    last_term > my_term || (last_term == my_term && last_index >= my_index)
}

/// Voting: a vote request of the node's term or a later one, when the node
/// is free to vote for the sender (it has not voted in the request's term,
/// or voted for the sender), is granted exactly when the sender's log is at
/// least as up to date as the node's. The node queues one answer, to the
/// sender in its new term, and its vote becomes the sender on a grant and is
/// otherwise unchanged (forgotten, when the request brought a later term).
pub proof fn law_vote_granted_iff_up_to_date(s: RaftView, m: MessageView, t: usize)
    requires
        m.msg_type == MessageType::RequestVote,
        m.term >= s.term,
        m.term > s.term || s.vote == INVALID_ID || s.vote == m.from,
    ensures
        ({
            let s2 = s.step(m, t);
            let up = at_least_as_up_to_date(s, m.last_log_term, m.last_log_index);
            &&& s2.term == later_term(m.term, s.term)
            &&& s2.msgs.len() == s.msgs.len() + 1
            &&& s2.msgs.take(s.msgs.len() as int) == s.msgs
            &&& s2.msgs.last().msg_type == MessageType::RequestVoteResponse
            &&& s2.msgs.last().to == m.from
            &&& s2.msgs.last().from == s.id
            &&& s2.msgs.last().term == s2.term
            &&& s2.msgs.last().granted == Some(up)
            &&& s2.vote == if up {
                m.from
            } else if m.term > s.term {
                INVALID_ID
            } else {
                s.vote
            }
        }),
{
    let s2 = s.step(m, t);
    assert(s2.msgs.take(s.msgs.len() as int) =~= s.msgs);
}

/// Heartbeats: a leader's tick reports work exactly when its heartbeat clock
/// reaches the heartbeat timeout; such a tick restarts the heartbeat clock,
/// and any other tick just advances it and queues nothing.
pub proof fn law_leader_tick_heartbeat(s: RaftView, t: usize)
    requires
        s.role == Role::Leader,
        s.can_tick(),
    ensures
        ({
            let (s2, ready) = s.tick(t);
            &&& ready == (s.heartbeat_elapsed + 1 >= s.heartbeat_timeout)
            &&& ready ==> s2.heartbeat_elapsed == 0
            &&& !ready ==> s2.heartbeat_elapsed == s.heartbeat_elapsed + 1 && s2.msgs == s.msgs
            &&& s2.role == Role::Leader
            &&& s2.term == s.term
            &&& s2.log == s.log
        }),
{
}

/// After a heartbeat, a leader's next `heartbeat_timeout - 1` ticks queue
/// nothing and report no work.
pub proof fn law_quiet_ticks_after_heartbeat(s: RaftView, t: usize)
    requires
        s.role == Role::Leader,
        s.can_tick(),
        s.tick(t).1,
        s.heartbeat_timeout >= 2,
        s.tick(t).0.can_tick(),
    ensures
        !s.tick(t).0.tick(t).1,
        s.tick(t).0.tick(t).0.msgs == s.tick(t).0.msgs,
{
}

/// Vote requests carry the candidate's log: every message added by a vote
/// request round is a vote request in the node's term, from the node, naming
/// the index of its last entry and that entry's term.
pub open spec fn adds_vote_requests_for_log(s: RaftView, before: Seq<MessageView>, after: Seq<MessageView>) -> bool {
    &&& before.len() <= after.len()
    &&& after.take(before.len() as int) == before
    &&& forall|i: int|
        before.len() <= i < after.len() && #[trigger] after[i].msg_type == MessageType::RequestVote ==> {
            &&& after[i].last_log_index == s.log.last_index()
            &&& after[i].last_log_term == s.log.term_at(s.log.last_index())
            &&& after[i].from == s.id
        }
}

proof fn lemma_vote_requests_fields(s: RaftView, peers: Seq<u64>)
    ensures
        forall|i: int|
            0 <= i < s.vote_requests(peers).len() ==> {
                let x = #[trigger] s.vote_requests(peers)[i];
                &&& x.msg_type == MessageType::RequestVote
                &&& x.term == s.term
                &&& x.from == s.id
                &&& x.to != s.id
                &&& x.last_log_index == s.log.last_index()
                &&& x.last_log_term == s.log.term_at(s.log.last_index())
            },
    decreases peers.len(),
{
    if peers.len() > 0 {
        let d = peers.drop_last();
        lemma_vote_requests_fields(s, d);
        let a = s.vote_requests(d);
        assert forall|i: int| 0 <= i < s.vote_requests(peers).len() implies {
            let x = #[trigger] s.vote_requests(peers)[i];
            &&& x.msg_type == MessageType::RequestVote
            &&& x.term == s.term
            &&& x.from == s.id
            &&& x.to != s.id
            &&& x.last_log_index == s.log.last_index()
            &&& x.last_log_term == s.log.term_at(s.log.last_index())
        } by {
            if i < a.len() {
                assert(s.vote_requests(peers)[i] == a[i]);
            }
        }
    }
}

/// Starting an election: the node moves to the next term as a candidate (or,
/// alone, as leader) with its vote for itself and its log untouched, and
/// every vote request it queues is in that term, from it, to another node,
/// and names the index and term of its last entry.
pub proof fn law_campaign_requests_carry_last_entry(s: RaftView, t: usize)
    requires
        s.term < u64::MAX,
    ensures
        ({
            let s2 = s.campaign(t);
            &&& s2.term == s.term + 1
            &&& s2.vote == s.id
            &&& s2.log == s.log
            &&& s2.role != Role::Follower
            &&& s2.msgs.len() >= s.msgs.len()
            &&& s2.msgs.take(s.msgs.len() as int) == s.msgs
            &&& forall|i: int|
                s.msgs.len() <= i < s2.msgs.len() && #[trigger] s2.msgs[i].msg_type == MessageType::RequestVote
                    ==> {
                    &&& s2.msgs[i].term == s2.term
                    &&& s2.msgs[i].from == s.id
                    &&& s2.msgs[i].to != s.id
                    &&& s2.msgs[i].last_log_index == s.log.last_index()
                    &&& s2.msgs[i].last_log_term == s.log.term_at(s.log.last_index())
                }
        }),
{
    let c = s.become_candidate(t);
    let x = RaftView { prs: c.prs.record_vote(c.id, true), ..c };
    let s2 = s.campaign(t);
    if x.prs.voter_set.len() == 1 {
        let y = RaftView { leader_id: x.id, role: Role::Leader, ..x.reset(x.term, t) };
        let z = RaftView { prs: y.prs.init_leader_progress(y.id, y.log.last_index()), ..y };
        crate::cluster::lemma_append_requests_kind(z, z.prs.voters);
        assert(s2.msgs.take(s.msgs.len() as int) =~= s.msgs);
        assert forall|i: int| s.msgs.len() <= i < s2.msgs.len() implies #[trigger] s2.msgs[i].msg_type
            != MessageType::RequestVote by {
            assert(s2.msgs[i] == z.append_requests(z.prs.voters)[i - s.msgs.len()]);
        }
    } else {
        lemma_vote_requests_fields(x, x.prs.voters);
        assert(s2.msgs.take(s.msgs.len() as int) =~= s.msgs);
        assert forall|i: int| s.msgs.len() <= i < s2.msgs.len() && #[trigger] s2.msgs[i].msg_type
            == MessageType::RequestVote implies {
            &&& s2.msgs[i].term == s2.term
            &&& s2.msgs[i].from == s.id
            &&& s2.msgs[i].to != s.id
            &&& s2.msgs[i].last_log_index == s.log.last_index()
            &&& s2.msgs[i].last_log_term == s.log.term_at(s.log.last_index())
        } by {
            assert(s2.msgs[i] == x.vote_requests(x.prs.voters)[i - s.msgs.len()]);
        }
    }
}

/// Every append request added behind `before` carries `commit` as the
/// leader's commit index, and comes from `id` in `term`.
pub open spec fn adds_requests_with_commit(
    before: Seq<MessageView>,
    after: Seq<MessageView>,
    commit: u64,
    id: u64,
    term: u64,
) -> bool {
    &&& before.len() <= after.len()
    &&& after.take(before.len() as int) == before
    &&& forall|i: int|
        before.len() <= i < after.len() && #[trigger] after[i].msg_type == MessageType::AppendEntries ==> {
            &&& after[i].leader_commit == commit
            &&& after[i].from == id
            &&& after[i].term == term
        }
}

proof fn lemma_append_requests_commit(s: RaftView, peers: Seq<u64>)
    ensures
        forall|i: int|
            0 <= i < s.append_requests(peers).len() ==> {
                let x = #[trigger] s.append_requests(peers)[i];
                &&& x.msg_type == MessageType::AppendEntries
                &&& x.leader_commit == s.log.committed
                &&& x.from == s.id
                &&& x.term == s.term
                &&& x.to != s.id
            },
    decreases peers.len(),
{
    if peers.len() > 0 {
        let d = peers.drop_last();
        lemma_append_requests_commit(s, d);
        let a = s.append_requests(d);
        assert forall|i: int| 0 <= i < s.append_requests(peers).len() implies {
            let x = #[trigger] s.append_requests(peers)[i];
            &&& x.msg_type == MessageType::AppendEntries
            &&& x.leader_commit == s.log.committed
            &&& x.from == s.id
            &&& x.term == s.term
            &&& x.to != s.id
        } by {
            if i < a.len() {
                assert(s.append_requests(peers)[i] == a[i]);
            }
        }
    }
}

/// Replication: broadcasting queues, behind the messages already queued,
/// only append requests from the leader in its term, each to another node
/// and each carrying the leader's commit index.
pub proof fn law_bcast_requests_carry_commit(s: RaftView)
    ensures
        adds_requests_with_commit(s.msgs, s.bcast_append_entries().msgs, s.log.committed, s.id, s.term),
        forall|i: int|
            s.msgs.len() <= i < s.bcast_append_entries().msgs.len() ==> #[trigger] s.bcast_append_entries().msgs[i].msg_type
                == MessageType::AppendEntries && s.bcast_append_entries().msgs[i].to != s.id,
        s.bcast_append_entries().log == s.log,
{
    lemma_append_requests_commit(s, s.prs.voters);
    let after = s.bcast_append_entries().msgs;
    assert(after.take(s.msgs.len() as int) =~= s.msgs);
    assert forall|i: int| s.msgs.len() <= i < after.len() implies #[trigger] after[i]
        == s.append_requests(s.prs.voters)[i - s.msgs.len()] by {}
}

proof fn lemma_same_commit(a: Seq<MessageView>, c: u64, id: u64, term: u64)
    ensures
        adds_requests_with_commit(a, a, c, id, term),
{
    assert(a.take(a.len() as int) =~= a);
}

proof fn lemma_send_commit(s: RaftView, x: MessageView, c: u64, id: u64, term: u64)
    requires
        x.msg_type == MessageType::AppendEntries ==> x.leader_commit == c && x.from == id && x.term == term,
        id == s.id,
    ensures
        adds_requests_with_commit(s.msgs, s.send(x).msgs, c, id, term),
{
    assert(s.send(x).msgs.take(s.msgs.len() as int) =~= s.msgs);
}

proof fn lemma_become_leader_commit(s: RaftView, t: usize)
    ensures
        adds_requests_with_commit(s.msgs, s.become_leader(t).msgs, s.log.committed, s.id, s.term),
        s.become_leader(t).log == s.log,
        s.become_leader(t).term == s.term,
{
    let x = RaftView { leader_id: s.id, role: Role::Leader, ..s.reset(s.term, t) };
    let y = RaftView { prs: x.prs.init_leader_progress(x.id, x.log.last_index()), ..x };
    law_bcast_requests_carry_commit(y);
}

/// A proposal to a leader queues only append requests from it in its term
/// that carry its commit index.
pub proof fn law_propose_requests_carry_commit(s: RaftView, data: Seq<u8>)
    ensures
        adds_requests_with_commit(s.msgs, s.propose(data).0.msgs, s.log.committed, s.id, s.term),
        s.propose(data).0.log.committed == s.log.committed,
{
    if s.role == Role::Leader {
        let idx = (s.log.last_index() + 1) as u64;
        let x = RaftView {
            log: s.log.append(s.term, data),
            prs: crate::progress::ProgressView {
                match_index: s.prs.match_index.insert(s.id, idx),
                next_index: s.prs.next_index.insert(s.id, (idx + 1) as u64),
                ..s.prs
            },
            ..s
        };
        law_bcast_requests_carry_commit(x);
    } else {
        lemma_same_commit(s.msgs, s.log.committed, s.id, s.term);
    }
}

/// Every append request a tick queues (a leader's heartbeats, or the
/// announcement of a node that wins alone) comes from the node in its new
/// term and carries its commit index, which the tick leaves alone.
pub proof fn law_tick_requests_carry_commit(s: RaftView, t: usize)
    ensures
        adds_requests_with_commit(s.msgs, s.tick(t).0.msgs, s.log.committed, s.id, s.tick(t).0.term),
        s.tick(t).0.log == s.log,
{
    if s.role == Role::Leader {
        let hb = (s.heartbeat_elapsed + 1) as usize;
        let el = (s.election_elapsed + 1) as usize;
        let el2 = if el >= s.election_timeout { 0 } else { el };
        let x = RaftView { heartbeat_elapsed: hb, election_elapsed: el2, ..s };
        law_bcast_requests_carry_commit(RaftView { heartbeat_elapsed: 0, ..x });
        lemma_same_commit(s.msgs, s.log.committed, s.id, s.term);
    } else {
        let x = RaftView { election_elapsed: (s.election_elapsed + 1) as usize, ..s };
        if !x.pass_election_timeout() {
            lemma_same_commit(s.msgs, s.log.committed, s.id, s.term);
        } else {
            let y = RaftView { election_elapsed: 0, ..x };
            let c = y.become_candidate(t);
            let z = RaftView { prs: c.prs.record_vote(c.id, true), ..c };
            if z.prs.voter_set.len() == 1 {
                lemma_become_leader_commit(z, t);
            } else {
                lemma_vote_requests_fields(z, z.prs.voters);
                let s2 = s.tick(t).0;
                assert(s2.msgs.take(s.msgs.len() as int) =~= s.msgs);
                assert forall|i: int| s.msgs.len() <= i < s2.msgs.len() implies #[trigger] s2.msgs[i].msg_type
                    != MessageType::AppendEntries by {
                    assert(s2.msgs[i] == z.vote_requests(z.prs.voters)[i - s.msgs.len()]);
                }
            }
        }
    }
}

/// Every append request queued while stepping a message (the announcement
/// of a won election, or a retry after a refused append) comes from the
/// node in its term and carries its commit index after the step.
pub proof fn law_step_requests_carry_commit(s: RaftView, m: MessageView, t: usize)
    ensures
        adds_requests_with_commit(s.msgs, s.step(m, t).msgs, s.step(m, t).log.committed, s.id, s.step(m, t).term),
{
    let s2 = s.step(m, t);
    if m.term < s.term && m.term != 0 {
        if s.check_quorum && m.msg_type == MessageType::AppendEntries {
            lemma_send_commit(
                s,
                crate::message::append_entries_response_msg(s.term, s.id, m.from, false, s.log.last_index()),
                s2.log.committed, s.id, s2.term,
            );
        } else {
            lemma_same_commit(s.msgs, s2.log.committed, s.id, s2.term);
        }
    } else {
        let s1 = if m.term > s.term {
            let leader = if m.msg_type == MessageType::AppendEntries { m.from } else { INVALID_ID };
            s.become_follower(m.term, leader, t)
        } else {
            s
        };
        assert(s1.msgs == s.msgs && s1.log == s.log && s1.id == s.id);
        assert(s2 == s1.handle(m, t));
        match m.msg_type {
            MessageType::RequestVote => {
                assert(s2.msgs.take(s.msgs.len() as int) =~= s.msgs);
            },
            MessageType::RequestVoteResponse => {
                if s1.role == Role::Candidate {
                    let x = RaftView { prs: s1.prs.record_vote(m.from, m.granted == Some(true)), ..s1 };
                    lemma_become_leader_commit(x, t);
                    lemma_same_commit(s.msgs, s2.log.committed, s.id, s2.term);
                } else {
                    lemma_same_commit(s.msgs, s2.log.committed, s.id, s2.term);
                }
            },
            MessageType::AppendEntries => {
                if s1.role == Role::Follower || m.term == s1.term {
                    assert(s2.msgs.take(s.msgs.len() as int) =~= s.msgs);
                } else {
                    lemma_same_commit(s.msgs, s2.log.committed, s.id, s2.term);
                }
            },
            MessageType::AppendEntriesResponse => {
                if s1.role == Role::Leader {
                    if m.granted == Some(true) {
                        assert(s2.msgs == s.msgs);
                        lemma_same_commit(s.msgs, s2.log.committed, s.id, s2.term);
                    } else {
                        let cur = if s1.prs.next_index.contains_key(m.from) { s1.prs.next_index[m.from] } else { 1 };
                        if cur > 1 {
                            let x = RaftView {
                                prs: crate::progress::ProgressView {
                                    next_index: s1.prs.next_index.insert(m.from, (cur - 1) as u64),
                                    ..s1.prs
                                },
                                ..s1
                            };
                            lemma_send_commit(x, x.append_request(m.from), s2.log.committed, s.id, s2.term);
                        } else {
                            lemma_same_commit(s.msgs, s2.log.committed, s.id, s2.term);
                        }
                    }
                } else {
                    lemma_same_commit(s.msgs, s2.log.committed, s.id, s2.term);
                }
            },
        }
    }
}

/// Holds an index of at least `k`.
pub open spec fn at_least(k: u64) -> spec_fn(u64) -> bool {
    |x: u64| x >= k
}

/// How many of `voters` have a match index of at least `k`.
pub open spec fn holders(voters: Seq<u64>, match_index: Map<u64, u64>, k: u64) -> nat {
    voters.map_values(|p: u64| match_index[p]).filter(at_least(k)).len()
}

/// `n` is the highest index that a majority of the `total` voters hold:
/// a majority holds `n`, and no majority holds any later index.
pub open spec fn highest_majority_index(voters: Seq<u64>, match_index: Map<u64, u64>, total: nat, n: u64) -> bool {
    &&& holders(voters, match_index, n) >= majority(total)
    &&& forall|k: u64| k > n ==> #[trigger] holders(voters, match_index, k) < majority(total)
}

proof fn lemma_filter_to_multiset(s: Seq<u64>, q: spec_fn(u64) -> bool)
    ensures
        s.filter(q).to_multiset() =~= s.to_multiset().filter(q),
    decreases s.len(),
{
    broadcast use vstd::multiset::group_multiset_axioms;
    broadcast use vstd::seq_lib::group_to_multiset_ensures;
    if s.len() == 0 {
        reveal(Seq::filter);
        assert(s.filter(q) =~= s);
        assert(s.to_multiset() =~= vstd::multiset::Multiset::empty());
    } else {
        let d = s.drop_last();
        let x = s.last();
        lemma_filter_to_multiset(d, q);
        assert(s =~= d.push(x));
        d.lemma_filter_push(x, q);
        vstd::seq_lib::to_multiset_build(d, x);
        vstd::seq_lib::to_multiset_build(d.filter(q), x);
    }
}

/// Two arrangements of the same values have as many values of at least `k`.
proof fn lemma_filter_len_permutation(a: Seq<u64>, b: Seq<u64>, q: spec_fn(u64) -> bool)
    requires
        a.to_multiset() == b.to_multiset(),
    ensures
        a.filter(q).len() == b.filter(q).len(),
{
    lemma_filter_to_multiset(a, q);
    lemma_filter_to_multiset(b, q);
    a.filter(q).to_multiset_ensures();
    b.filter(q).to_multiset_ensures();
}

proof fn lemma_filter_all(s: Seq<u64>, q: spec_fn(u64) -> bool)
    requires
        forall|i: int| 0 <= i < s.len() ==> q(#[trigger] s[i]),
    ensures
        s.filter(q) == s,
    decreases s.len(),
{
    reveal(Seq::filter);
    if s.len() > 0 {
        let d = s.drop_last();
        assert forall|i: int| 0 <= i < d.len() implies q(#[trigger] d[i]) by {
            assert(d[i] == s[i]);
        }
        lemma_filter_all(d, q);
        assert(s =~= d.push(s.last()));
    }
}

proof fn lemma_filter_none(s: Seq<u64>, q: spec_fn(u64) -> bool)
    requires
        forall|i: int| 0 <= i < s.len() ==> !q(#[trigger] s[i]),
    ensures
        s.filter(q).len() == 0,
    decreases s.len(),
{
    reveal(Seq::filter);
    if s.len() > 0 {
        let d = s.drop_last();
        assert forall|i: int| 0 <= i < d.len() implies !q(#[trigger] d[i]) by {
            assert(d[i] == s[i]);
        }
        lemma_filter_none(d, q);
    }
}

/// The middle of the sorted values, at position `(len - 1) / 2`, is held
/// (as "at least") by `len - (len - 1) / 2` values, and any later index by fewer.
proof fn lemma_sorted_middle(ms: Seq<u64>)
    requires
        ms.len() >= 1,
    ensures
        ({
            let sr = ms.sort_by(index_leq());
            let mid = (ms.len() - 1) / 2;
            &&& sr.len() == ms.len()
            &&& ms.filter(at_least(sr[mid])).len() >= ms.len() - mid
            &&& forall|k: u64| k > sr[mid] ==> #[trigger] ms.filter(at_least(k)).len() < ms.len() - mid
        }),
{
    broadcast use vstd::seq_lib::group_to_multiset_ensures;
    lemma_index_leq_total();
    ms.lemma_sort_by_ensures(index_leq());
    let sr = ms.sort_by(index_leq());
    ms.to_multiset_ensures();
    sr.to_multiset_ensures();
    let n = ms.len() as int;
    let mid = (n - 1) / 2;
    assert(sr.len() == n);
    // the values from the middle on all hold the middle one
    let v = sr[mid];
    lemma_filter_len_permutation(ms, sr, at_least(v));
    let lo = sr.take(mid);
    let hi = sr.skip(mid);
    assert(sr =~= lo + hi);
    Seq::<u64>::filter_distributes_over_add(lo, hi, at_least(v));
    assert forall|i: int| 0 <= i < hi.len() implies at_least(v)(#[trigger] hi[i]) by {
        assert(hi[i] == sr[mid + i]);
        if i > 0 {
            assert(index_leq()(sr[mid], sr[mid + i]));
        }
    }
    lemma_filter_all(hi, at_least(v));
    assert forall|k: u64| k > v implies #[trigger] ms.filter(at_least(k)).len() < n - mid by {
        lemma_filter_len_permutation(ms, sr, at_least(k));
        let lo2 = sr.take(mid + 1);
        let hi2 = sr.skip(mid + 1);
        assert(sr =~= lo2 + hi2);
        Seq::<u64>::filter_distributes_over_add(lo2, hi2, at_least(k));
        assert forall|i: int| 0 <= i < lo2.len() implies !at_least(k)(#[trigger] lo2[i]) by {
            assert(lo2[i] == sr[i]);
            if i < mid {
                assert(index_leq()(sr[i], sr[mid]));
            }
        }
        lemma_filter_none(lo2, at_least(k));
        hi2.lemma_filter_len(at_least(k));
    }
}

/// The index that `majority_match_index` picks is the highest index held by
/// a majority of the voters.
proof fn lemma_majority_match_index_is_highest(s: RaftView)
    requires
        s.prs.wf(),
        s.prs.voters.len() >= 1,
    ensures
        highest_majority_index(s.prs.voters, s.prs.match_index, s.prs.voter_set.len(), s.majority_match_index()),
{
    let ms = s.prs.voters.map_values(|p: u64| s.prs.match_index[p]);
    s.prs.voters.unique_seq_to_set();
    lemma_sorted_middle(ms);
    assert(s.prs.voter_set.len() == ms.len());
    let n = ms.len() as int;
    assert(n - (n - 1) / 2 == majority(n as nat));
    assert forall|k: u64| k > s.majority_match_index() implies #[trigger] holders(
        s.prs.voters,
        s.prs.match_index,
        k,
    ) < majority(s.prs.voter_set.len()) by {
        assert(ms.filter(at_least(k)).len() < n - (n - 1) / 2);
    }
}

/// Committing: when a leader steps a successful append answer of its term,
/// let `n` be the highest index held by a majority of the voters (counting
/// the answer). If `n` is above the commit index and its entry is of the
/// leader's term, the commit index becomes `n` and everything up to it is
/// applied; otherwise the commit index and apply mark stay. The log's entries
/// never change.
pub proof fn law_commit_majority_index(s: RaftView, m: MessageView, t: usize, n: u64)
    requires
        s.prs.wf(),
        s.role == Role::Leader,
        m.msg_type == MessageType::AppendEntriesResponse,
        m.granted == Some(true),
        m.term == s.term,
        s.prs.voter_set.contains(m.from),
        highest_majority_index(
            s.prs.voters,
            s.prs.match_index.insert(m.from, m.last_log_index),
            s.prs.voter_set.len(),
            n,
        ),
    ensures
        ({
            let s2 = s.step(m, t);
            &&& s2.log.entries == s.log.entries
            &&& s2.role == Role::Leader
            &&& if n > s.log.committed && s.log.term_at(n) == s.term {
                &&& s2.log.committed == n
                &&& s2.log.applied == if s.log.applied < n { n } else { s.log.applied }
            } else {
                &&& s2.log.committed == s.log.committed
                &&& s2.log.applied == s.log.applied
            }
        }),
{
    let s1 = RaftView {
        prs: crate::progress::ProgressView {
            match_index: s.prs.match_index.insert(m.from, m.last_log_index),
            next_index: s.prs.next_index.insert(m.from, (m.last_log_index + 1) as u64),
            ..s.prs
        },
        ..s
    };
    assert(s.step(m, t) == s1.maybe_commit());
    let mi = s1.prs.match_index;
    let total = s.prs.voter_set.len();
    // a majority of at least one holds n, so there is a voter
    s.prs.voters.map_values(|p: u64| mi[p]).lemma_filter_len(at_least(n));
    assert(s1.prs.wf()) by {
        assert(s1.prs.next_index.dom() =~= s.prs.next_index.dom());
        assert(s1.prs.match_index.dom() =~= s.prs.match_index.dom());
    }
    lemma_majority_match_index_is_highest(s1);
    let picked = s1.majority_match_index();
    if picked < n {
        assert(holders(s.prs.voters, mi, n) < majority(total));
    } else if picked > n {
        assert(holders(s.prs.voters, mi, picked) < majority(total));
    }
    assert(picked == n);
}

/// Following: an append request of the node's term or a later one makes the
/// node a follower of the sender in the later term with a fresh election
/// clock. It is accepted exactly when the node holds the entry before the
/// batch with the expected term; then the batch is taken in, and, when the
/// leader's commit index is ahead, the commit index moves to the smaller of it
/// and the last index the batch reached (and all committed entries are
/// applied). A refused request leaves the log alone. Either way the node
/// queues one answer to the sender, in its term, saying whether it accepted,
/// with the last index of its log.
pub proof fn law_follower_answers_append(s: RaftView, m: MessageView, t: usize)
    requires
        m.msg_type == MessageType::AppendEntries,
        m.term >= s.term,
        m.prev_log_index + m.entries.len() <= u64::MAX,
    ensures
        ({
            let s2 = s.step(m, t);
            let ok = m.prev_log_index <= s.log.last_index() && s.log.term_at(m.prev_log_index) == m.prev_log_term;
            let batch_end = m.prev_log_index + m.entries.len();
            let reached = if batch_end <= s2.log.last_index() { batch_end } else { s2.log.last_index() as int };
            let commit = if m.leader_commit <= reached { m.leader_commit as int } else { reached };
            &&& s2.role == Role::Follower
            &&& s2.leader_id == m.from
            &&& s2.term == later_term(m.term, s.term)
            &&& s2.election_elapsed == 0
            &&& s2.msgs.len() == s.msgs.len() + 1
            &&& s2.msgs.take(s.msgs.len() as int) == s.msgs
            &&& s2.msgs.last().msg_type == MessageType::AppendEntriesResponse
            &&& s2.msgs.last().to == m.from
            &&& s2.msgs.last().from == s.id
            &&& s2.msgs.last().term == s2.term
            &&& s2.msgs.last().granted == Some(ok)
            &&& s2.msgs.last().last_log_index == s2.log.last_index()
            &&& !ok ==> s2.log == s.log
            &&& ok ==> s2.log.entries == s.log.append_entries(m.entries).entries
            &&& ok && m.leader_commit > s.log.committed ==> {
                &&& s2.log.committed == commit
                &&& s2.log.applied == if s.log.applied < commit { commit } else { s.log.applied as int }
            }
            &&& !(ok && m.leader_commit > s.log.committed) ==> s2.log.committed == s.log.committed
                && s2.log.applied == s.log.applied
        }),
{
    let s2 = s.step(m, t);
    assert(s2.msgs.take(s.msgs.len() as int) =~= s.msgs);
}

/// A leader's handling of an answer to its append request in its term: on
/// success the sender's match index becomes the index it reported and its
/// next index the one after, with nothing sent. On failure the sender's next
/// index steps back by one (when above 1) and the leader sends it a new
/// request from there, right after the entry before it, with the leader's
/// commit index; at next index 1 nothing changes.
pub proof fn law_leader_handles_append_answer(s: RaftView, m: MessageView, t: usize)
    requires
        s.role == Role::Leader,
        m.msg_type == MessageType::AppendEntriesResponse,
        m.term == s.term,
    ensures
        ({
            let s2 = s.step(m, t);
            let cur = if s.prs.next_index.contains_key(m.from) { s.prs.next_index[m.from] } else { 1 };
            &&& s2.role == Role::Leader
            &&& s2.term == s.term
            &&& s2.log.entries == s.log.entries
            &&& m.granted == Some(true) ==> {
                &&& s2.prs.match_index == s.prs.match_index.insert(m.from, m.last_log_index)
                &&& s2.prs.next_index == s.prs.next_index.insert(m.from, (m.last_log_index + 1) as u64)
                &&& s2.msgs == s.msgs
            }
            &&& m.granted != Some(true) && cur > 1 ==> {
                let x = s2.msgs.last();
                &&& s2.prs.next_index == s.prs.next_index.insert(m.from, (cur - 1) as u64)
                &&& s2.prs.match_index == s.prs.match_index
                &&& s2.log == s.log
                &&& s2.msgs.len() == s.msgs.len() + 1
                &&& s2.msgs.take(s.msgs.len() as int) == s.msgs
                &&& x.msg_type == MessageType::AppendEntries
                &&& x.to == m.from
                &&& x.from == s.id
                &&& x.term == s.term
                &&& x.prev_log_index == cur - 2
                &&& x.prev_log_term == s.log.term_at((cur - 2) as u64)
                &&& x.entries == s.log.entries_from((cur - 1) as u64)
                &&& x.leader_commit == s.log.committed
            }
            &&& m.granted != Some(true) && cur <= 1 ==> s2 == s
        }),
{
    let s2 = s.step(m, t);
    assert(s2.msgs.take(s.msgs.len() as int) =~= s.msgs);
}

/// Elections on a clock: a follower's or candidate's tick advances its
/// election clock; when the clock reaches the drawn timeout the node starts
/// an election in the next term with its vote for itself, a fresh clock and
/// the newly drawn timeout, and reports work. Otherwise nothing else changes.
pub proof fn law_election_tick(s: RaftView, t: usize)
    requires
        s.role != Role::Leader,
        s.can_tick(),
    ensures
        ({
            let (s2, ready) = s.tick(t);
            &&& ready == (s.election_elapsed + 1 >= s.randomized_election_timeout)
            &&& ready ==> {
                &&& s2.term == s.term + 1
                &&& s2.vote == s.id
                &&& s2.role != Role::Follower
                &&& s2.election_elapsed == 0
                &&& s2.randomized_election_timeout == t
                &&& s2.log == s.log
            }
            &&& !ready ==> s2 == (RaftView { election_elapsed: (s.election_elapsed + 1) as usize, ..s })
        }),
{
}

/// The voters whose recorded vote is `granted`.
pub open spec fn voted(voters: Set<u64>, votes: Map<u64, bool>, granted: bool) -> Set<u64> {
    voters.filter(|v: u64| votes.contains_key(v) && votes[v] == granted)
}

proof fn lemma_count_votes_set(ws: Seq<u64>, votes: Map<u64, bool>, g: bool)
    requires
        ws.no_duplicates(),
    ensures
        voted(ws.to_set(), votes, g).finite(),
        count_votes(ws, votes, g) == voted(ws.to_set(), votes, g).len(),
    decreases ws.len(),
{
    broadcast use vstd::seq_lib::group_seq_properties;
    if ws.len() == 0 {
        assert(voted(ws.to_set(), votes, g) =~= Set::<u64>::empty());
    } else {
        let d = ws.drop_last();
        let l = ws.last();
        lemma_count_votes_set(d, votes, g);
        assert(ws =~= d.push(l));
        d.lemma_push_to_set_commute(l);
        assert(!d.contains(l));
        let sd = voted(d.to_set(), votes, g);
        let sw = voted(ws.to_set(), votes, g);
        if votes.contains_key(l) && votes[l] == g {
            assert(sw =~= sd.insert(l));
        } else {
            assert(sw =~= sd);
        }
    }
}

/// Counting votes: an election is won exactly when a majority of the voters
/// have granted their vote, lost exactly when it is not won and a majority
/// have refused, and pending otherwise.
pub proof fn law_vote_result_by_counts(p: ProgressView)
    requires
        p.wf(),
    ensures
        p.vote_result() == if voted(p.voter_set, p.votes, true).len() >= majority(p.voter_set.len()) {
            VoteResult::Won
        } else if voted(p.voter_set, p.votes, false).len() >= majority(p.voter_set.len()) {
            VoteResult::Lost
        } else {
            VoteResult::Pending
        },
{
    lemma_count_votes_set(p.voters, p.votes, true);
    lemma_count_votes_set(p.voters, p.votes, false);
}

/// A candidate's handling of a vote answer in its term: the answer of a
/// voter is recorded; with a majority of the voters granting, the candidate
/// leads in the same term; with a majority refusing (and no majority
/// granting), it follows in the same term; otherwise it stays a candidate
/// with the answer recorded.
pub proof fn law_candidate_counts_answer(s: RaftView, m: MessageView, t: usize)
    requires
        s.prs.wf(),
        s.log.wf(),
        s.role == Role::Candidate,
        m.msg_type == MessageType::RequestVoteResponse,
        m.term == s.term,
    ensures
        ({
            let s2 = s.step(m, t);
            let votes2 = if s.prs.voter_set.contains(m.from) {
                s.prs.votes.insert(m.from, m.granted == Some(true))
            } else {
                s.prs.votes
            };
            let total = majority(s.prs.voter_set.len());
            let yes = voted(s.prs.voter_set, votes2, true).len();
            let no = voted(s.prs.voter_set, votes2, false).len();
            &&& s2.term == s.term
            &&& s2.log == s.log
            &&& yes >= total ==> s2.role == Role::Leader && s2.leader_id == s.id && forall|p: u64|
                #[trigger] s.prs.voter_set.contains(p) ==> s2.prs.next_index[p] == s.log.last_index() + 1
                    && s2.prs.match_index[p] == if p == s.id { s.log.last_index() } else { 0 }
            &&& yes < total && no >= total ==> s2.role == Role::Follower
            &&& yes < total && no < total ==> s2.role == Role::Candidate && s2.prs.votes == votes2
                && s2.msgs == s.msgs
        }),
{
    let p2 = s.prs.record_vote(m.from, m.granted == Some(true));
    law_vote_result_by_counts(p2);
    crate::log::lemma_contiguous_last_index(s.log.entries);
}

} // verus!
