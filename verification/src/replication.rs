use vstd::prelude::*;

use crate::cluster::{
    law_deliver_keeps_inv, law_drain_keeps_inv, law_election_safety, law_initial_cluster_inv,
    law_one_leader_per_term, law_propose_keeps_inv, law_tick_keeps_inv, lemma_step_counted, ClusterAction,
    ClusterView,
};
use crate::laws::{law_leader_append_only_step, law_step_term_never_decreases};
use crate::log::{absorb, contiguous, lemma_contiguous_last_index, merge, EntryView};
use crate::message::{MessageType, MessageView};
use crate::progress::ProgressView;
use crate::raft::{min_index, RaftView, Role, INVALID_ID};

verus! {

/// The history of created entries: for each (index, term), the log of the
/// leader that created that entry, up to and including it.
pub type History = Map<(u64, u64), Seq<EntryView>>;

/// The (index, term) pair that names an entry.
pub open spec fn entry_key(e: EntryView) -> (u64, u64) {
    (e.index, e.term)
}

/// Every log in the history ends with the entry it is recorded for, at a
/// position that matches that entry's index.
pub open spec fn history_ok(h: History) -> bool {
    forall|i: u64, t: u64| #[trigger] h.contains_key((i, t)) ==> {
        &&& i >= 1
        &&& h[(i, t)].len() == i
        &&& h[(i, t)].last().index == i
        &&& h[(i, t)].last().term == t
    }
}

/// Every entry of `es` was created, and `es` up to and including it is the
/// log it was created at the end of.
pub open spec fn log_in_history(es: Seq<EntryView>, h: History) -> bool {
    forall|k: int|
        #![trigger es[k]]
        0 <= k < es.len() ==> h.contains_key(entry_key(es[k])) && h[entry_key(es[k])] == es.take(k + 1)
}

/// The log an append request extends: empty before index 1, otherwise the
/// recorded log of the entry just before its batch.
pub open spec fn batch_base(x: MessageView, h: History) -> Seq<EntryView> {
    if x.prev_log_index == 0 {
        Seq::empty()
    } else {
        h[(x.prev_log_index, x.prev_log_term)]
    }
}

/// The batch of an append request follows its previous index without a gap,
/// and every entry of it was created at the end of the base followed by the
/// batch up to that entry.
pub open spec fn batch_in_history(x: MessageView, h: History) -> bool {
    forall|j: int|
        #![trigger x.entries[j]]
        0 <= j < x.entries.len() ==> {
            &&& x.entries[j].index == x.prev_log_index + 1 + j
            &&& (x.prev_log_index > 0 ==> h.contains_key((x.prev_log_index, x.prev_log_term)))
            &&& h.contains_key(entry_key(x.entries[j]))
            &&& h[entry_key(x.entries[j])] == batch_base(x, h) + x.entries.take(j + 1)
        }
}

/// A log in the history is numbered by position.
pub proof fn lemma_history_log_contiguous(es: Seq<EntryView>, h: History, k: int)
    requires
        history_ok(h),
        log_in_history(es, h),
        0 <= k < es.len(),
    ensures
        es[k].index == k + 1,
{
    assert(h[entry_key(es[k])] == es.take(k + 1));
}

/// Log matching for logs in the history: two such logs that hold entries of
/// the same index and term agree up to and including them.
pub proof fn lemma_history_logs_match(a: Seq<EntryView>, b: Seq<EntryView>, h: History, k: int)
    requires
        history_ok(h),
        log_in_history(a, h),
        log_in_history(b, h),
        0 <= k < a.len(),
        k < b.len(),
        a[k].term == b[k].term,
    ensures
        a.take(k + 1) == b.take(k + 1),
{
    lemma_history_log_contiguous(a, h, k);
    lemma_history_log_contiguous(b, h, k);
    assert(entry_key(a[k]) == entry_key(b[k]));
}

/// Taking in an append request's batch, when the log holds the entry just
/// before it: the result is in the history too, and holds the base followed by
/// the whole batch.
pub proof fn lemma_merge_in_history(es: Seq<EntryView>, x: MessageView, h: History)
    requires
        history_ok(h),
        log_in_history(es, h),
        batch_in_history(x, h),
        x.prev_log_index <= es.len(),
        x.prev_log_index > 0 ==> es[x.prev_log_index - 1].term == x.prev_log_term,
    ensures
        ({
            let r = merge(es, x.entries).0;
            &&& !merge(es, x.entries).1
            &&& log_in_history(r, h)
            &&& x.prev_log_index + x.entries.len() <= r.len() <= es.len() + x.entries.len()
            &&& r.take(x.prev_log_index + x.entries.len()) == batch_base(x, h) + x.entries
        }),
    decreases x.entries.len(),
{
    let prev = x.prev_log_index as int;
    let base = batch_base(x, h);
    if prev > 0 {
        lemma_history_log_contiguous(es, h, prev - 1);
        assert(entry_key(es[prev - 1]) == (x.prev_log_index, x.prev_log_term));
        assert(base == es.take(prev));
    } else {
        assert(base =~= es.take(0));
    }
    let new = x.entries;
    if new.len() == 0 {
        assert(merge(es, new).0 == es);
        assert(base + new =~= base);
    } else {
        let d = new.drop_last();
        let y = MessageView { entries: d, ..x };
        assert forall|j: int| 0 <= j < d.len() implies #[trigger] d.take(j + 1) == new.take(j + 1) by {
            assert(d.take(j + 1) =~= new.take(j + 1));
        }
        assert(batch_in_history(y, h)) by {
            assert forall|j: int| 0 <= j < y.entries.len() implies {
                &&& #[trigger] y.entries[j].index == y.prev_log_index + 1 + j
                &&& (y.prev_log_index > 0 ==> h.contains_key((y.prev_log_index, y.prev_log_term)))
                &&& h.contains_key(entry_key(y.entries[j]))
                &&& h[entry_key(y.entries[j])] == batch_base(y, h) + y.entries.take(j + 1)
            } by {
                assert(d[j] == new[j]);
                assert(d.take(j + 1) == new.take(j + 1));
            }
        }
        lemma_merge_in_history(es, y, h);
        let p = merge(es, d).0;
        let e = new.last();
        let n1 = new.len() - 1;
        assert(e == new[n1]);
        let idx = prev + new.len();
        assert(e.index == idx);
        assert(h[entry_key(e)] == base + new.take(n1 + 1));
        assert(new.take(n1 + 1) =~= new);
        assert(batch_base(y, h) == base);
        assert(!merge(es, d).1);
        assert(p.take(idx - 1) == base + d);
        assert((base + d).push(e) =~= base + new);
        let q = merge(es, new).0;
        if e.index <= p.len() {
            if p[e.index - 1].term == e.term {
                assert(q == p);
                lemma_history_log_contiguous(p, h, idx - 1);
                assert(entry_key(p[idx - 1]) == entry_key(e));
                assert(p.take(idx) == h[entry_key(e)]);
                assert(p.take(idx) =~= p.take(idx - 1).push(p[idx - 1]));
            } else {
                assert(q == p.take(idx - 1).push(e));
                assert(q =~= (base + d).push(e));
                assert forall|k: int| 0 <= k < q.len() implies h.contains_key(entry_key(#[trigger] q[k]))
                    && h[entry_key(q[k])] == q.take(k + 1) by {
                    if k < idx - 1 {
                        assert(q[k] == p[k]);
                        assert(q.take(k + 1) =~= p.take(k + 1));
                    } else {
                        assert(q.take(k + 1) =~= q);
                    }
                }
                assert(q.take(idx) =~= q);
            }
        } else {
            assert(absorb(p, e) == Some(p.push(e)));
            assert(q == p.push(e));
            assert(p.take(idx - 1) =~= p);
            assert forall|k: int| 0 <= k < q.len() implies h.contains_key(entry_key(#[trigger] q[k]))
                && h[entry_key(q[k])] == q.take(k + 1) by {
                if k < idx - 1 {
                    assert(q[k] == p[k]);
                    assert(q.take(k + 1) =~= p.take(k + 1));
                } else {
                    assert(q.take(k + 1) =~= q);
                }
            }
            assert(q.take(idx) =~= q);
        }
    }
}

/// A log in the history is contiguous.
pub proof fn lemma_history_contiguous(es: Seq<EntryView>, h: History)
    requires
        history_ok(h),
        log_in_history(es, h),
    ensures
        contiguous(es),
{
    assert forall|k: int| 0 <= k < es.len() implies #[trigger] es[k].index == k + 1 by {
        lemma_history_log_contiguous(es, h, k);
    }
}

/// What a node keeps for the cluster's logs to stay consistent: its log is in
/// the history and has room below `u64::MAX`, and it sends every peer from
/// index 1 or later.
pub open spec fn node_in_history(s: RaftView, h: History) -> bool {
    &&& log_in_history(s.log.entries, h)
    &&& s.log.entries.len() < u64::MAX
    &&& forall|p: u64| #[trigger] s.prs.next_index.contains_key(p) ==> s.prs.next_index[p] >= 1
}

/// Every append request added behind `before` carries a batch in the history.
pub open spec fn adds_batches_in_history(before: Seq<MessageView>, after: Seq<MessageView>, h: History) -> bool {
    &&& before.len() <= after.len()
    &&& after.take(before.len() as int) == before
    &&& forall|i: int|
        before.len() <= i < after.len() && #[trigger] after[i].msg_type == MessageType::AppendEntries
            ==> batch_in_history(after[i], h)
}

proof fn lemma_same_adds(a: Seq<MessageView>, h: History)
    ensures
        adds_batches_in_history(a, a, h),
{
    assert(a.take(a.len() as int) =~= a);
}

/// A leader's append request to a peer carries a batch in the history.
proof fn lemma_append_request_in_history(s: RaftView, peer: u64, h: History)
    requires
        history_ok(h),
        node_in_history(s, h),
    ensures
        batch_in_history(s.append_request(peer), h),
{
    let es = s.log.entries;
    lemma_history_contiguous(es, h);
    lemma_contiguous_last_index(es);
    let x = s.append_request(peer);
    let next = if s.prs.next_index.contains_key(peer) { s.prs.next_index[peer] } else { 1 };
    let prev = x.prev_log_index as int;
    if next <= s.log.last_index() + 1 {
        assert(prev == next - 1);
        assert(x.entries == es.subrange(prev, es.len() as int));
        if prev > 0 {
            lemma_history_log_contiguous(es, h, prev - 1);
            assert(entry_key(es[prev - 1]) == (x.prev_log_index, x.prev_log_term));
            assert(batch_base(x, h) == es.take(prev));
        } else {
            assert(batch_base(x, h) =~= es.take(0));
        }
        assert forall|j: int| #![trigger x.entries[j]] 0 <= j < x.entries.len() implies {
            &&& x.entries[j].index == x.prev_log_index + 1 + j
            &&& (x.prev_log_index > 0 ==> h.contains_key((x.prev_log_index, x.prev_log_term)))
            &&& h.contains_key(entry_key(x.entries[j]))
            &&& h[entry_key(x.entries[j])] == batch_base(x, h) + x.entries.take(j + 1)
        } by {
            assert(x.entries[j] == es[prev + j]);
            lemma_history_log_contiguous(es, h, prev + j);
            assert(es.take(prev + j + 1) =~= es.take(prev) + x.entries.take(j + 1));
        }
    }
}

proof fn lemma_append_requests_in_history(s: RaftView, peers: Seq<u64>, h: History)
    requires
        history_ok(h),
        node_in_history(s, h),
    ensures
        forall|i: int|
            0 <= i < s.append_requests(peers).len() ==> batch_in_history(#[trigger] s.append_requests(peers)[i], h),
    decreases peers.len(),
{
    if peers.len() > 0 {
        let d = peers.drop_last();
        lemma_append_requests_in_history(s, d, h);
        lemma_append_request_in_history(s, peers.last(), h);
        let a = s.append_requests(d);
        let tail = if peers.last() == s.id { Seq::<MessageView>::empty() } else { seq![s.append_request(peers.last())] };
        assert(s.append_requests(peers) == a + tail);
        assert forall|i: int| 0 <= i < s.append_requests(peers).len() implies batch_in_history(
            #[trigger] s.append_requests(peers)[i],
            h,
        ) by {
            if i < a.len() {
                assert(s.append_requests(peers)[i] == a[i]);
            } else {
                assert(s.append_requests(peers)[i] == tail[i - a.len()]);
            }
        }
    }
}

/// Broadcasting adds only append requests whose batches are in the history.
proof fn lemma_bcast_in_history(s: RaftView, h: History)
    requires
        history_ok(h),
        node_in_history(s, h),
    ensures
        adds_batches_in_history(s.msgs, s.bcast_append_entries().msgs, h),
{
    lemma_append_requests_in_history(s, s.prs.voters, h);
    let after = s.bcast_append_entries().msgs;
    assert(after.take(s.msgs.len() as int) =~= s.msgs);
    assert forall|i: int| s.msgs.len() <= i < after.len() && #[trigger] after[i].msg_type
        == MessageType::AppendEntries implies batch_in_history(after[i], h) by {
        assert(after[i] == s.append_requests(s.prs.voters)[i - s.msgs.len()]);
    }
}

proof fn lemma_become_leader_in_history(s: RaftView, t: usize, h: History)
    requires
        history_ok(h),
        node_in_history(s, h),
    ensures
        adds_batches_in_history(s.msgs, s.become_leader(t).msgs, h),
        node_in_history(s.become_leader(t), h),
        s.become_leader(t).log == s.log,
{
    lemma_history_contiguous(s.log.entries, h);
    lemma_contiguous_last_index(s.log.entries);
    let x = RaftView { leader_id: s.id, role: Role::Leader, ..s.reset(s.term, t) };
    let y = RaftView { prs: x.prs.init_leader_progress(x.id, x.log.last_index()), ..x };
    assert(node_in_history(y, h));
    lemma_bcast_in_history(y, h);
}

proof fn lemma_send_in_history(s: RaftView, x: MessageView, h: History)
    requires
        x.msg_type == MessageType::AppendEntries ==> batch_in_history(x, h),
    ensures
        adds_batches_in_history(s.msgs, s.send(x).msgs, h),
{
    assert(s.send(x).msgs.take(s.msgs.len() as int) =~= s.msgs);
}

/// Answering an append request whose batch is in the history keeps the
/// node's log in the history and sends no append request.
proof fn lemma_accept_in_history(s: RaftView, m: MessageView, h: History)
    requires
        history_ok(h),
        node_in_history(s, h),
        batch_in_history(m, h),
        s.log.entries.len() + m.entries.len() < u64::MAX,
    ensures
        node_in_history(s.accept_entries(m), h),
        adds_batches_in_history(s.msgs, s.accept_entries(m).msgs, h),
        s.accept_entries(m).prs == s.prs,
        s.accept_entries(m).role == s.role,
{
    let es = s.log.entries;
    lemma_history_contiguous(es, h);
    lemma_contiguous_last_index(es);
    if m.prev_log_index <= s.log.last_index() && s.log.term_at(m.prev_log_index) == m.prev_log_term {
        lemma_merge_in_history(es, m, h);
        let log1 = s.log.append_entries(m.entries);
        let last = s.last_new_index(m);
        let log2 = if m.leader_commit > log1.committed {
            crate::log::LogView { committed: min_index(m.leader_commit, last), ..log1 }.apply_committed()
        } else {
            log1
        };
        lemma_send_in_history(
            RaftView { log: log2, ..s },
            crate::message::append_entries_response_msg(s.term, s.id, m.from, true, log1.last_index()),
            h,
        );
    } else {
        lemma_send_in_history(
            s,
            crate::message::append_entries_response_msg(s.term, s.id, m.from, false, s.log.last_index()),
            h,
        );
    }
}

/// A leader's handling of an append response keeps its log and sends at
/// most one append request, with a batch in the history.
proof fn lemma_append_response_in_history(s: RaftView, m: MessageView, h: History)
    requires
        history_ok(h),
        node_in_history(s, h),
        m.granted == Some(true) ==> m.last_log_index < u64::MAX,
    ensures
        node_in_history(s.handle_append_response(m), h),
        adds_batches_in_history(s.msgs, s.handle_append_response(m).msgs, h),
{
    if m.granted == Some(true) {
        lemma_same_adds(s.msgs, h);
    } else {
        let cur = if s.prs.next_index.contains_key(m.from) { s.prs.next_index[m.from] } else { 1 };
        if cur > 1 {
            let x = RaftView {
                prs: ProgressView { next_index: s.prs.next_index.insert(m.from, (cur - 1) as u64), ..s.prs },
                ..s
            };
            lemma_append_request_in_history(x, m.from, h);
            lemma_send_in_history(x, x.append_request(m.from), h);
        } else {
            lemma_same_adds(s.msgs, h);
        }
    }
}

/// Stepping a message (an append request carrying a batch in the history)
/// keeps the node's log in the history, and every append request it sends
/// carries such a batch.
pub proof fn lemma_step_in_history(s: RaftView, m: MessageView, t: usize, h: History)
    requires
        history_ok(h),
        node_in_history(s, h),
        s.can_step(m),
        m.msg_type == MessageType::AppendEntries ==> batch_in_history(m, h),
    ensures
        node_in_history(s.step(m, t), h),
        adds_batches_in_history(s.msgs, s.step(m, t).msgs, h),
{
    let s2 = s.step(m, t);
    if m.term < s.term && m.term != 0 {
        if s.check_quorum && m.msg_type == MessageType::AppendEntries {
            lemma_send_in_history(
                s,
                crate::message::append_entries_response_msg(s.term, s.id, m.from, false, s.log.last_index()),
                h,
            );
        } else {
            lemma_same_adds(s.msgs, h);
        }
    } else {
        let s1 = if m.term > s.term {
            let leader = if m.msg_type == MessageType::AppendEntries { m.from } else { INVALID_ID };
            s.become_follower(m.term, leader, t)
        } else {
            s
        };
        assert(s1.msgs == s.msgs && s1.log == s.log && s1.prs.next_index == s.prs.next_index);
        assert(s2 == s1.handle(m, t));
        match m.msg_type {
            MessageType::RequestVote => {
                assert(s2.msgs.take(s.msgs.len() as int) =~= s.msgs);
            },
            MessageType::RequestVoteResponse => {
                if s1.role == Role::Candidate {
                    let x = RaftView { prs: s1.prs.record_vote(m.from, m.granted == Some(true)), ..s1 };
                    lemma_become_leader_in_history(x, t, h);
                    lemma_same_adds(s.msgs, h);
                } else {
                    lemma_same_adds(s.msgs, h);
                }
            },
            MessageType::AppendEntries => {
                if s1.role == Role::Follower {
                    lemma_accept_in_history(RaftView { election_elapsed: 0, leader_id: m.from, ..s1 }, m, h);
                } else if m.term == s1.term {
                    lemma_accept_in_history(s1.become_follower(m.term, m.from, t), m, h);
                } else {
                    lemma_same_adds(s.msgs, h);
                }
            },
            MessageType::AppendEntriesResponse => {
                if s1.role == Role::Leader {
                    lemma_append_response_in_history(s1, m, h);
                } else {
                    lemma_same_adds(s.msgs, h);
                }
            },
        }
    }
}

/// A clock tick keeps the node's log, and every append request it sends
/// carries a batch in the history.
pub proof fn lemma_tick_in_history(s: RaftView, t: usize, h: History)
    requires
        history_ok(h),
        node_in_history(s, h),
        s.can_tick(),
    ensures
        node_in_history(s.tick(t).0, h),
        adds_batches_in_history(s.msgs, s.tick(t).0.msgs, h),
        s.tick(t).0.log == s.log,
{
    if s.role == Role::Leader {
        let hb = (s.heartbeat_elapsed + 1) as usize;
        let el = (s.election_elapsed + 1) as usize;
        let el2 = if el >= s.election_timeout { 0 } else { el };
        let x = RaftView { heartbeat_elapsed: hb, election_elapsed: el2, ..s };
        lemma_bcast_in_history(RaftView { heartbeat_elapsed: 0, ..x }, h);
        lemma_same_adds(s.msgs, h);
    } else {
        let x = RaftView { election_elapsed: (s.election_elapsed + 1) as usize, ..s };
        if !x.pass_election_timeout() {
            lemma_same_adds(s.msgs, h);
        } else {
            let y = RaftView { election_elapsed: 0, ..x };
            let c = y.become_candidate(t);
            let z = RaftView { prs: c.prs.record_vote(c.id, true), ..c };
            if z.prs.voter_set.len() == 1 {
                lemma_become_leader_in_history(z, t, h);
            } else {
                assert(s.tick(t).0.msgs.take(s.msgs.len() as int) =~= s.msgs);
                assert forall|i: int| s.msgs.len() <= i < s.tick(t).0.msgs.len() implies #[trigger] s.tick(t).0.msgs[i].msg_type
                    != MessageType::AppendEntries by {
                    lemma_vote_requests_not_append(z, z.prs.voters);
                    assert(s.tick(t).0.msgs[i] == z.vote_requests(z.prs.voters)[i - s.msgs.len()]);
                }
            }
        }
    }
}

proof fn lemma_vote_requests_not_append(s: RaftView, peers: Seq<u64>)
    ensures
        forall|i: int| 0 <= i < s.vote_requests(peers).len() ==> #[trigger] s.vote_requests(peers)[i].msg_type
            == MessageType::RequestVote,
    decreases peers.len(),
{
    if peers.len() > 0 {
        lemma_vote_requests_not_append(s, peers.drop_last());
    }
}

/// `h2` keeps everything `h` records.
pub open spec fn history_grows(h: History, h2: History) -> bool {
    forall|k: (u64, u64)| #[trigger] h.contains_key(k) ==> h2.contains_key(k) && h2[k] == h[k]
}

pub proof fn lemma_log_in_grown_history(es: Seq<EntryView>, h: History, h2: History)
    requires
        log_in_history(es, h),
        history_grows(h, h2),
    ensures
        log_in_history(es, h2),
{
    assert forall|k: int| 0 <= k < es.len() implies h2.contains_key(entry_key(#[trigger] es[k])) && h2[entry_key(
        es[k],
    )] == es.take(k + 1) by {
        assert(h.contains_key(entry_key(es[k])));
    }
}

pub proof fn lemma_batch_in_grown_history(x: MessageView, h: History, h2: History)
    requires
        batch_in_history(x, h),
        history_grows(h, h2),
    ensures
        batch_in_history(x, h2),
{
    assert forall|j: int| #![trigger x.entries[j]] 0 <= j < x.entries.len() implies {
        &&& x.entries[j].index == x.prev_log_index + 1 + j
        &&& (x.prev_log_index > 0 ==> h2.contains_key((x.prev_log_index, x.prev_log_term)))
        &&& h2.contains_key(entry_key(x.entries[j]))
        &&& h2[entry_key(x.entries[j])] == batch_base(x, h2) + x.entries.take(j + 1)
    } by {
        assert(h.contains_key(entry_key(x.entries[j])));
        if x.prev_log_index > 0 {
            assert(h.contains_key((x.prev_log_index, x.prev_log_term)));
        }
        assert(batch_base(x, h2) == batch_base(x, h));
    }
}

/// The history after a leader creates the entry that a proposal appends.
pub open spec fn history_after_propose(s: RaftView, data: Seq<u8>, h: History) -> History {
    h.insert(((s.log.last_index() + 1) as u64, s.term), s.propose(data).0.log.entries)
}

/// A leader's proposal, when the history holds no entry of its term at the
/// new index: the new entry joins the history with the leader's new log, the
/// history keeps all it had, and every append request sent carries a batch
/// in it.
pub proof fn lemma_propose_in_history(s: RaftView, data: Seq<u8>, h: History)
    requires
        history_ok(h),
        node_in_history(s, h),
        s.role == Role::Leader,
        s.log.entries.len() + 1 < u64::MAX,
        !h.contains_key(((s.log.entries.len() + 1) as u64, s.term)),
    ensures
        ({
            let h2 = history_after_propose(s, data, h);
            let s2 = s.propose(data).0;
            &&& history_ok(h2)
            &&& history_grows(h, h2)
            &&& node_in_history(s2, h2)
            &&& adds_batches_in_history(s.msgs, s2.msgs, h2)
            &&& s2.log.entries.len() == s.log.entries.len() + 1
            &&& s2.log.entries.take(s.log.entries.len() as int) == s.log.entries
            &&& s2.log.entries.last().term == s.term
        }),
{
    let es = s.log.entries;
    lemma_history_contiguous(es, h);
    lemma_contiguous_last_index(es);
    let h2 = history_after_propose(s, data, h);
    let s2 = s.propose(data).0;
    let idx = (s.log.last_index() + 1) as u64;
    let x = RaftView {
        log: s.log.append(s.term, data),
        prs: ProgressView {
            match_index: s.prs.match_index.insert(s.id, idx),
            next_index: s.prs.next_index.insert(s.id, (idx + 1) as u64),
            ..s.prs
        },
        ..s
    };
    let es2 = x.log.entries;
    assert(s2 == x.bcast_append_entries());
    assert(es2.take(es.len() as int) =~= es);
    assert(history_grows(h, h2));
    lemma_log_in_grown_history(es, h, h2);
    assert(log_in_history(es2, h2)) by {
        assert forall|k: int| 0 <= k < es2.len() implies h2.contains_key(entry_key(#[trigger] es2[k]))
            && h2[entry_key(es2[k])] == es2.take(k + 1) by {
            if k < es.len() {
                assert(es2[k] == es[k]);
                assert(es2.take(k + 1) =~= es.take(k + 1));
            } else {
                assert(es2.take(k + 1) =~= es2);
            }
        }
    }
    assert(history_ok(h2));
    assert(node_in_history(x, h2));
    lemma_bcast_in_history(x, h2);
}

/// The cluster's logs against the history of created entries: every node's
/// log and every append request's batch is in the history; a leader holds
/// every entry created in its term; every created entry's term was won by
/// some node; a node has won no election of a term beyond its own; and a
/// candidate has not won the election of its term.
pub open spec fn logs_inv(c: ClusterView) -> bool {
    &&& history_ok(c.created)
    &&& forall|n: u64| #[trigger] c.nodes.contains_key(n) ==> node_in_history(c.nodes[n], c.created)
    &&& forall|x: MessageView| #[trigger] c.sent.contains(x) && x.msg_type == MessageType::AppendEntries
        ==> batch_in_history(x, c.created)
    &&& forall|i: u64, t: u64, n: u64|
        #[trigger] c.created.contains_key((i, t)) && #[trigger] c.nodes.contains_key(n) && c.nodes[n].role
            == Role::Leader && c.nodes[n].term == t ==> 1 <= i <= c.nodes[n].log.entries.len()
            && c.nodes[n].log.entries[i - 1].term == t
    &&& forall|i: u64, t: u64| #[trigger] c.created.contains_key((i, t)) ==> exists|l: u64| #[trigger] c.elected.contains((t, l))
    &&& forall|t: u64, n: u64| #[trigger] c.elected.contains((t, n)) ==> c.nodes.contains_key(n) && t
        <= c.nodes[n].term
    &&& forall|n: u64| #[trigger] c.nodes.contains_key(n) && c.nodes[n].role == Role::Candidate
        ==> !c.elected.contains((c.nodes[n].term, n))
}

/// A node's move to `s2` that keeps its log and messages in the history and
/// changes terms and roles only as a node can keeps `logs_inv`.
proof fn lemma_record_keeps_logs(c: ClusterView, n: u64, s2: RaftView)
    requires
        c.inv(),
        logs_inv(c),
        c.nodes.contains_key(n),
        c.record(n, s2).inv(),
        node_in_history(s2, c.created),
        adds_batches_in_history(c.nodes[n].msgs, s2.msgs, c.created),
        s2.term >= c.nodes[n].term,
        s2.role == Role::Candidate ==> s2.term > c.nodes[n].term || (c.nodes[n].role == Role::Candidate
            && s2.term == c.nodes[n].term),
        s2.role == Role::Leader && !(c.nodes[n].role == Role::Leader && s2.term == c.nodes[n].term)
            ==> s2.term > c.nodes[n].term || c.nodes[n].role == Role::Candidate,
        c.nodes[n].role == Role::Leader && s2.role == Role::Leader && s2.term == c.nodes[n].term
            ==> s2.log.entries == c.nodes[n].log.entries,
    ensures
        logs_inv(c.record(n, s2)),
{
    let s = c.nodes[n];
    let c2 = c.record(n, s2);
    let h = c.created;
    assert(c2.created == h);
    assert(c2.nodes.dom() =~= c.nodes.dom());
    assert forall|x: MessageView| #[trigger] c2.sent.contains(x) && x.msg_type == MessageType::AppendEntries
        implies batch_in_history(x, h) by {
        if !c.sent.contains(x) {
            assert(s2.msgs.contains(x));
            let i = choose|i: int| 0 <= i < s2.msgs.len() && s2.msgs[i] == x;
            if i < s.msgs.len() {
                assert(s.msgs[i] == s2.msgs.take(s.msgs.len() as int)[i]);
                assert(s.msgs.contains(x));
            }
        }
    }
    assert forall|i: u64, t: u64, m: u64|
        #[trigger] h.contains_key((i, t)) && #[trigger] c2.nodes.contains_key(m) && c2.nodes[m].role
            == Role::Leader && c2.nodes[m].term == t implies 1 <= i <= c2.nodes[m].log.entries.len()
        && c2.nodes[m].log.entries[i - 1].term == t by {
        if m == n && !(s.role == Role::Leader && s2.term == s.term) {
            let l = choose|l: u64| #[trigger] c.elected.contains((t, l));
            assert(c2.elected.contains((t, l)));
            assert(c2.elected.contains((t, n)));
            law_election_safety(c2, t, l, n);
            assert(c.elected.contains((t, n)));
        }
    }
    assert forall|i: u64, t: u64| #[trigger] h.contains_key((i, t)) implies exists|l: u64| #[trigger] c2.elected.contains(
        (t, l),
    ) by {
        let l = choose|l: u64| #[trigger] c.elected.contains((t, l));
        assert(c2.elected.contains((t, l)));
    }
    assert forall|t: u64, m: u64| #[trigger] c2.elected.contains((t, m)) implies c2.nodes.contains_key(m) && t
        <= c2.nodes[m].term by {
        if c.elected.contains((t, m)) {
        }
    }
    assert forall|m: u64| #[trigger] c2.nodes.contains_key(m) && c2.nodes[m].role == Role::Candidate implies !c2.elected.contains(
        (c2.nodes[m].term, m),
    ) by {
        if m == n {
            if c.elected.contains((s2.term, n)) {
                assert(s2.term <= s.term);
            }
        }
    }
}

/// A node that is a candidate after stepping a message was one before, in the same term.
proof fn lemma_step_candidate(s: RaftView, m: MessageView, t: usize)
    ensures
        s.step(m, t).role == Role::Candidate ==> s.role == Role::Candidate && s.step(m, t).term == s.term,
{
}

/// A tick makes a node a candidate or a leader only in a later term, unless
/// it already was one.
proof fn lemma_tick_roles(s: RaftView, t: usize)
    requires
        s.can_tick(),
    ensures
        s.tick(t).0.term >= s.term,
        s.tick(t).0.role == Role::Candidate ==> s.tick(t).0.term > s.term || (s.role == Role::Candidate
            && s.tick(t).0.term == s.term),
        s.tick(t).0.role == Role::Leader ==> s.tick(t).0.term > s.term || (s.role == Role::Leader
            && s.tick(t).0.term == s.term),
{
}

/// Delivering a message keeps the cluster's logs consistent with the history.
pub proof fn law_deliver_keeps_logs(c: ClusterView, n: u64, m: MessageView, t: usize)
    requires
        c.inv(),
        logs_inv(c),
        c.can_deliver(n, m),
    ensures
        logs_inv(c.deliver(n, m, t)),
{
    let s = c.nodes[n];
    law_deliver_keeps_inv(c, n, m, t);
    lemma_step_in_history(s, m, t, c.created);
    law_step_term_never_decreases(s, m, t);
    lemma_step_candidate(s, m, t);
    lemma_step_counted(s, m, t);
    if s.role == Role::Leader && s.step(m, t).role == Role::Leader {
        law_leader_append_only_step(s, m, t);
    }
    lemma_record_keeps_logs(c, n, s.step(m, t));
}

/// A clock tick keeps the cluster's logs consistent with the history.
pub proof fn law_tick_keeps_logs(c: ClusterView, n: u64, t: usize)
    requires
        c.inv(),
        logs_inv(c),
        c.can_tick_node(n),
    ensures
        logs_inv(c.tick_node(n, t)),
{
    let s = c.nodes[n];
    law_tick_keeps_inv(c, n, t);
    lemma_tick_in_history(s, t, c.created);
    lemma_tick_roles(s, t);
    lemma_record_keeps_logs(c, n, s.tick(t).0);
}

/// Emptying an outbox keeps the cluster's logs consistent with the history.
pub proof fn law_drain_keeps_logs(c: ClusterView, n: u64)
    requires
        logs_inv(c),
        c.nodes.contains_key(n),
    ensures
        logs_inv(c.drain(n)),
{
    let c2 = c.drain(n);
    let h = c.created;
    assert(c2.nodes.dom() =~= c.nodes.dom());
    assert forall|m: u64| #[trigger] c2.nodes.contains_key(m) implies node_in_history(c2.nodes[m], h) && c2.nodes[m].log
        == c.nodes[m].log && c2.nodes[m].role == c.nodes[m].role && c2.nodes[m].term == c.nodes[m].term by {
        assert(node_in_history(c.nodes[m], h));
    }
    assert forall|i: u64, t: u64, m: u64|
        #[trigger] h.contains_key((i, t)) && #[trigger] c2.nodes.contains_key(m) && c2.nodes[m].role
            == Role::Leader && c2.nodes[m].term == t implies 1 <= i <= c2.nodes[m].log.entries.len()
        && c2.nodes[m].log.entries[i - 1].term == t by {
        assert(c.nodes.contains_key(m));
    }
    assert forall|t: u64, m: u64| #[trigger] c2.elected.contains((t, m)) implies c2.nodes.contains_key(m) && t
        <= c2.nodes[m].term by {
        assert(c.elected.contains((t, m)));
    }
    assert forall|m: u64| #[trigger] c2.nodes.contains_key(m) && c2.nodes[m].role == Role::Candidate implies !c2.elected.contains(
        (c2.nodes[m].term, m),
    ) by {
        assert(c.nodes.contains_key(m));
    }
    assert forall|x: MessageView| #[trigger] c2.sent.contains(x) && x.msg_type == MessageType::AppendEntries
        implies batch_in_history(x, c2.created) by {
        assert(c.sent.contains(x));
    }
    assert forall|i: u64, t: u64| #[trigger] h.contains_key((i, t)) implies exists|l: u64| #[trigger] c2.elected.contains(
        (t, l),
    ) by {
        let l = choose|l: u64| #[trigger] c.elected.contains((t, l));
        assert(c2.elected.contains((t, l)));
    }
}

/// A proposal keeps the cluster's logs consistent with the history: a
/// leader's new entry joins it.
pub proof fn law_propose_keeps_logs(c: ClusterView, n: u64, data: Seq<u8>)
    requires
        c.inv(),
        logs_inv(c),
        c.can_propose(n),
    ensures
        logs_inv(c.propose_at(n, data)),
{
    let s = c.nodes[n];
    let s2 = s.propose(data).0;
    let h = c.created;
    law_propose_keeps_inv(c, n, data);
    if s.role != Role::Leader {
        lemma_same_adds(s.msgs, h);
        lemma_record_keeps_logs(c, n, s2);
    } else {
        let es = s.log.entries;
        lemma_history_contiguous(es, h);
        lemma_contiguous_last_index(es);
        let key = ((es.len() + 1) as u64, s.term);
        if h.contains_key(key) {
            assert(c.nodes.contains_key(n));
            assert(false);
        }
        lemma_propose_in_history(s, data, h);
        let h2 = history_after_propose(s, data, h);
        let c3 = c.propose_at(n, data);
        assert(c3.created == h2);
        assert(c3.nodes == c.nodes.insert(n, s2));
        assert(c3.nodes.dom() =~= c.nodes.dom());
        assert(c.elected.contains((s.term, n)));
        assert forall|m: u64| #[trigger] c3.nodes.contains_key(m) implies node_in_history(c3.nodes[m], h2) by {
            if m != n {
                lemma_log_in_grown_history(c.nodes[m].log.entries, h, h2);
            }
        }
        assert forall|x: MessageView| #[trigger] c3.sent.contains(x) && x.msg_type == MessageType::AppendEntries
            implies batch_in_history(x, h2) by {
            if c.sent.contains(x) {
                lemma_batch_in_grown_history(x, h, h2);
            } else {
                assert(s2.msgs.contains(x));
                let i = choose|i: int| 0 <= i < s2.msgs.len() && s2.msgs[i] == x;
                if i < s.msgs.len() {
                    assert(s.msgs[i] == s2.msgs.take(s.msgs.len() as int)[i]);
                    assert(s.msgs.contains(x));
                    lemma_batch_in_grown_history(x, h, h2);
                }
            }
        }
        assert forall|i: u64, t: u64, m: u64|
            #[trigger] h2.contains_key((i, t)) && #[trigger] c3.nodes.contains_key(m) && c3.nodes[m].role
                == Role::Leader && c3.nodes[m].term == t implies 1 <= i <= c3.nodes[m].log.entries.len()
            && c3.nodes[m].log.entries[i - 1].term == t by {
            if (i, t) == key {
                if m != n {
                    law_one_leader_per_term(c, m, n);
                }
                assert(s2.log.entries.last() == s2.log.entries[i - 1]);
            } else if m == n {
                assert(h.contains_key((i, t)));
                assert(s2.log.entries[i - 1] == s2.log.entries.take(es.len() as int)[i - 1]);
            }
        }
        assert forall|i: u64, t: u64| #[trigger] h2.contains_key((i, t)) implies exists|l: u64| #[trigger] c3.elected.contains(
            (t, l),
        ) by {
            if (i, t) == key {
                assert(c3.elected.contains((t, n)));
            } else {
                let l = choose|l: u64| #[trigger] c.elected.contains((t, l));
                assert(c3.elected.contains((t, l)));
            }
        }
        assert forall|t: u64, m: u64| #[trigger] c3.elected.contains((t, m)) implies c3.nodes.contains_key(m) && t
            <= c3.nodes[m].term by {
            if c.elected.contains((t, m)) {
            }
        }
        assert forall|m: u64| #[trigger] c3.nodes.contains_key(m) && c3.nodes[m].role == Role::Candidate implies !c3.elected.contains(
            (c3.nodes[m].term, m),
        ) by {
            assert(c.nodes.contains_key(m));
        }
    }
}

/// A freshly started cluster's logs are consistent with its (empty) history.
pub proof fn law_initial_logs_inv(c: ClusterView)
    requires
        c.initial(),
    ensures
        logs_inv(c),
{
    assert forall|n: u64| #[trigger] c.nodes.contains_key(n) implies node_in_history(c.nodes[n], c.created) by {
        assert(c.nodes[n].log.entries.len() == 0);
    }
}

/// Every action that can happen keeps the cluster's logs consistent with the history.
pub proof fn law_action_keeps_logs(c: ClusterView, a: ClusterAction)
    requires
        c.inv(),
        logs_inv(c),
        c.can_apply(a),
    ensures
        logs_inv(c.apply(a)),
{
    match a {
        ClusterAction::Deliver { node, msg, timeout } => law_deliver_keeps_logs(c, node, msg, timeout),
        ClusterAction::Tick { node, timeout } => law_tick_keeps_logs(c, node, timeout),
        ClusterAction::Propose { node, data } => law_propose_keeps_logs(c, node, data),
        ClusterAction::Drain { node } => law_drain_keeps_logs(c, node),
    }
}

/// Every run of actions that can happen keeps both cluster invariants.
pub proof fn law_run_keeps_logs(c: ClusterView, actions: Seq<ClusterAction>)
    requires
        c.inv(),
        logs_inv(c),
        c.can_run(actions),
    ensures
        c.run(actions).inv(),
        logs_inv(c.run(actions)),
    decreases actions.len(),
{
    if actions.len() > 0 {
        crate::cluster::law_action_keeps_inv(c, actions[0]);
        law_action_keeps_logs(c, actions[0]);
        law_run_keeps_logs(c.apply(actions[0]), actions.drop_first());
    }
}

/// Log matching for every run of a freshly started cluster: however messages
/// are lost, delayed, duplicated or reordered, whenever two nodes hold
/// entries with the same index and term, their logs are identical up to and
/// including those entries.
pub proof fn law_logs_match_on_every_run(
    c: ClusterView,
    actions: Seq<ClusterAction>,
    n1: u64,
    n2: u64,
    k: int,
)
    requires
        c.initial(),
        c.can_run(actions),
        c.run(actions).nodes.contains_key(n1),
        c.run(actions).nodes.contains_key(n2),
        0 <= k < c.run(actions).nodes[n1].log.entries.len(),
        k < c.run(actions).nodes[n2].log.entries.len(),
        c.run(actions).nodes[n1].log.entries[k].term == c.run(actions).nodes[n2].log.entries[k].term,
    ensures
        c.run(actions).nodes[n1].log.entries.take(k + 1) == c.run(actions).nodes[n2].log.entries.take(k + 1),
{
    law_initial_cluster_inv(c);
    law_initial_logs_inv(c);
    law_run_keeps_logs(c, actions);
    let r = c.run(actions);
    lemma_history_logs_match(r.nodes[n1].log.entries, r.nodes[n2].log.entries, r.created, k);
}

} // verus!
