use vstd::prelude::*;
use std::collections::{HashMap, HashSet};
use vstd::std_specs::hash::{into_iter_hash_keys, spec_hash_keys_iter};

use crate::log::NO_ENTRY;

verus! {

/// The order in which a set of voters is walked: fixed for a given set.
pub open spec fn voter_order(voters: &HashSet<u64>) -> Seq<u64> {
    into_iter_hash_keys(spec_hash_keys_iter(voters))
}

/// The voters of a set in the order in which the set is walked.
pub fn voters_in_order(voters: &HashSet<u64>) -> (v: Vec<u64>)
    ensures
        v@ == voter_order(voters),
        v@.no_duplicates(),
        v@.to_set() == voters@,
{
    let mut v: Vec<u64> = Vec::new();
    for x in it: voters.iter()
        invariant
            v@ == it.history().map_values(|r: &u64| *r),
    {
        v.push(*x);
    }
    assert(v@ =~= voter_order(voters));
    v
}

/// Outcome of an election as seen from the votes counted so far.
#[derive(Debug, PartialEq, Eq, Structural)]
pub enum VoteResult {
    Won,
    Lost,
    Pending,
}

/// How many of `voters` have a recorded vote equal to `granted`.
pub open spec fn count_votes(voters: Seq<u64>, votes: Map<u64, bool>, granted: bool) -> nat
    decreases voters.len(),
{
    if voters.len() == 0 {
        0
    } else {
        count_votes(voters.drop_last(), votes, granted) + if votes.contains_key(voters.last())
            && votes[voters.last()] == granted {
            1nat
        } else {
            0nat
        }
    }
}

/// The smallest number of voters that is more than half of `total`.
pub open spec fn majority(total: nat) -> nat {
    total / 2 + 1
}

/// Won once a majority granted, lost once a majority rejected, pending otherwise.
pub open spec fn vote_outcome(granted: nat, rejected: nat, total: nat) -> VoteResult {
    if granted >= majority(total) {
        VoteResult::Won
    } else if rejected >= majority(total) {
        VoteResult::Lost
    } else {
        VoteResult::Pending
    }
}

/// Who votes, how they voted, and (for a leader) how far each follower's log is known to reach.
pub struct ProgressTracker {
    pub voters: HashSet<u64>,
    pub votes: HashMap<u64, bool>,
    pub next_index: HashMap<u64, u64>,
    pub match_index: HashMap<u64, u64>,
}

/// Mathematical value of a [`ProgressTracker`]; `voters` lists the voter set in walk order.
pub struct ProgressView {
    pub voters: Seq<u64>,
    pub voter_set: Set<u64>,
    pub votes: Map<u64, bool>,
    pub next_index: Map<u64, u64>,
    pub match_index: Map<u64, u64>,
}

impl View for ProgressTracker {
    type V = ProgressView;

    open spec fn view(&self) -> ProgressView {
        ProgressView {
            voters: voter_order(&self.voters),
            voter_set: self.voters@,
            votes: self.votes@,
            next_index: self.next_index@,
            match_index: self.match_index@,
        }
    }
}

impl ProgressView {
    /// The walk order lists each voter once, and both progress maps are kept for exactly the voters.
    pub open spec fn wf(self) -> bool {
        &&& self.voters.no_duplicates()
        &&& self.voters.to_set() == self.voter_set
        &&& self.next_index.dom() == self.voter_set
        &&& self.match_index.dom() == self.voter_set
    }

    /// Records a vote; votes of non-voters are ignored.
    pub open spec fn record_vote(self, from: u64, granted: bool) -> ProgressView {
        if self.voter_set.contains(from) {
            ProgressView { votes: self.votes.insert(from, granted), ..self }
        } else {
            self
        }
    }

    pub open spec fn reset_votes(self) -> ProgressView {
        ProgressView { votes: Map::empty(), ..self }
    }

    pub open spec fn granted_count(self) -> nat {
        count_votes(self.voters, self.votes, true)
    }

    pub open spec fn rejected_count(self) -> nat {
        count_votes(self.voters, self.votes, false)
    }

    pub open spec fn vote_result(self) -> VoteResult {
        vote_outcome(self.granted_count(), self.rejected_count(), self.voter_set.len())
    }

    /// Every voter is to be sent from `last_log_index + 1` on; the leader itself
    /// is known to hold `last_log_index`, the others nothing yet.
    pub open spec fn init_leader_progress(self, leader_id: u64, last_log_index: u64) -> ProgressView {
        ProgressView {
            next_index: self.next_index.union_prefer_right(
                Map::new(|p: u64| self.voter_set.contains(p), |p: u64| (last_log_index + 1) as u64),
            ),
            match_index: self.match_index.union_prefer_right(
                Map::new(
                    |p: u64| self.voter_set.contains(p),
                    |p: u64|
                        if p == leader_id {
                            last_log_index
                        } else {
                            NO_ENTRY
                        },
                ),
            ),
            ..self
        }
    }
}

impl ProgressTracker {
    /// A tracker for the given voters (each counted once), with no votes and
    /// both progress maps at `NO_ENTRY` for every voter.
    pub fn new(voters: &[u64]) -> (p: Self)
        ensures
            p@.voter_set == voters@.to_set(),
            p@.votes == Map::<u64, bool>::empty(),
            p@.next_index == Map::new(|k: u64| voters@.contains(k), |k: u64| NO_ENTRY),
            p@.match_index == Map::new(|k: u64| voters@.contains(k), |k: u64| NO_ENTRY),
            p@.wf(),
    {
        let mut set: HashSet<u64> = HashSet::new();
        let n = voters.len();
        let mut i: usize = 0;
        while i < n
            invariant
                n == voters@.len(),
                0 <= i <= n,
                set@ == voters@.take(i as int).to_set(),
            decreases n - i,
        {
            set.insert(voters[i]);
            proof {
                assert(voters@.take(i as int + 1) =~= voters@.take(i as int).push(voters@[i as int]));
                voters@.take(i as int).lemma_push_to_set_commute(voters@[i as int]);
                assert(set@ =~= voters@.take(i as int + 1).to_set());
            }
            i = i + 1;
        }
        assert(voters@.take(n as int) =~= voters@);
        let order = voters_in_order(&set);
        let mut next_index: HashMap<u64, u64> = HashMap::new();
        let mut match_index: HashMap<u64, u64> = HashMap::new();
        let m = order.len();
        let mut j: usize = 0;
        while j < m
            invariant
                m == order@.len(),
                0 <= j <= m,
                next_index@ == Map::new(|k: u64| order@.take(j as int).contains(k), |k: u64| NO_ENTRY),
                match_index@ == Map::new(|k: u64| order@.take(j as int).contains(k), |k: u64| NO_ENTRY),
            decreases m - j,
        {
            let id = order[j];
            next_index.insert(id, NO_ENTRY);
            match_index.insert(id, NO_ENTRY);
            proof {
                assert(order@.take(j as int + 1) =~= order@.take(j as int).push(id));
                broadcast use vstd::seq_lib::group_seq_properties;
                assert(next_index@ =~= Map::new(|k: u64| order@.take(j as int + 1).contains(k), |k: u64| NO_ENTRY));
                assert(match_index@ =~= Map::new(|k: u64| order@.take(j as int + 1).contains(k), |k: u64| NO_ENTRY));
            }
            j = j + 1;
        }
        proof {
            assert(order@.take(m as int) =~= order@);
            assert forall|k: u64| order@.contains(k) <==> voters@.contains(k) by {
                assert(order@.to_set().contains(k) <==> order@.contains(k));
                assert(voters@.to_set().contains(k) <==> voters@.contains(k));
            }
        }
        let p = ProgressTracker { voters: set, votes: HashMap::new(), next_index, match_index };
        proof {
            assert(p@.next_index =~= Map::new(|k: u64| voters@.contains(k), |k: u64| NO_ENTRY));
            assert(p@.match_index =~= Map::new(|k: u64| voters@.contains(k), |k: u64| NO_ENTRY));
            assert(p@.next_index.dom() =~= p@.voter_set);
            assert(p@.match_index.dom() =~= p@.voter_set);
        }
        p
    }
}


impl ProgressTracker {
    /// Records the vote of `from`; a vote from someone who is not a voter is ignored.
    pub fn record_vote(&mut self, from: u64, granted: bool)
        ensures
            final(self)@ == old(self)@.record_vote(from, granted),
    {
        if self.voters.contains(&from) {
            self.votes.insert(from, granted);
        }
    }

    /// Forgets every recorded vote.
    pub fn reset_votes(&mut self)
        ensures
            final(self)@ == old(self)@.reset_votes(),
    {
        self.votes.clear();
    }

    /// Counts the granted and the rejected votes of the voters.
    fn count_votes(&self) -> (r: (usize, usize))
        ensures
            r.0 == self@.granted_count(),
            r.1 == self@.rejected_count(),
    {
        let order = voters_in_order(&self.voters);
        let n = order.len();
        let mut granted: usize = 0;
        let mut rejected: usize = 0;
        let mut i: usize = 0;
        while i < n
            invariant
                n == order@.len(),
                order@ == self@.voters,
                0 <= i <= n,
                granted == count_votes(order@.take(i as int), self.votes@, true),
                rejected == count_votes(order@.take(i as int), self.votes@, false),
                granted + rejected <= i,
            decreases n - i,
        {
            let voter_id = order[i];
            assert(order@.take(i as int + 1).drop_last() =~= order@.take(i as int));
            match self.votes.get(&voter_id) {
                Some(vote_granted) => {
                    if *vote_granted {
                        granted = granted + 1;
                    } else {
                        rejected = rejected + 1;
                    }
                },
                None => {},
            }
            i = i + 1;
        }
        assert(order@.take(n as int) =~= order@);
        (granted, rejected)
    }

    /// The granted and rejected vote counts and the election's outcome.
    pub fn tally_votes(&self) -> (r: (usize, usize, VoteResult))
        ensures
            r.0 == self@.granted_count(),
            r.1 == self@.rejected_count(),
            r.2 == self@.vote_result(),
    {
        let (granted, rejected) = self.count_votes();
        let result = self.vote_result();
        (granted, rejected, result)
    }

    /// Won once more than half of the voters granted their vote, lost once more
    /// than half rejected, pending otherwise.
    pub fn vote_result(&self) -> (r: VoteResult)
        ensures
            r == self@.vote_result(),
    {
        let (granted_count, rejected_count) = self.count_votes();
        let total_voters = self.voters.len();
        let majority = total_voters / 2 + 1;
        if granted_count >= majority {
            VoteResult::Won
        } else if rejected_count >= majority {
            VoteResult::Lost
        } else {
            VoteResult::Pending
        }
    }

    /// Sets every voter's progress for a leader whose log ends at `last_log_index`.
    pub fn init_leader_progress(&mut self, leader_id: u64, last_log_index: u64)
        requires
            last_log_index < u64::MAX,
        ensures
            final(self)@ == old(self)@.init_leader_progress(leader_id, last_log_index),
    {
        let order = voters_in_order(&self.voters);
        let n = order.len();
        let ghost old_next = self.next_index@;
        let ghost old_match = self.match_index@;
        let mut i: usize = 0;
        while i < n
            invariant
                n == order@.len(),
                order@.to_set() == self.voters@,
                0 <= i <= n,
                last_log_index < u64::MAX,
                self.voters == old(self).voters,
                self.votes == old(self).votes,
                self.next_index@ == old_next.union_prefer_right(
                    Map::new(|p: u64| order@.take(i as int).contains(p), |p: u64| (last_log_index + 1) as u64),
                ),
                self.match_index@ == old_match.union_prefer_right(
                    Map::new(
                        |p: u64| order@.take(i as int).contains(p),
                        |p: u64| if p == leader_id { last_log_index } else { NO_ENTRY },
                    ),
                ),
            decreases n - i,
        {
            let peer_id = order[i];
            if peer_id == leader_id {
                self.next_index.insert(peer_id, last_log_index + 1);
                self.match_index.insert(peer_id, last_log_index);
            } else {
                self.next_index.insert(peer_id, last_log_index + 1);
                self.match_index.insert(peer_id, NO_ENTRY);
            }
            proof {
                broadcast use vstd::seq_lib::group_seq_properties;
                assert(order@.take(i as int + 1) =~= order@.take(i as int).push(peer_id));
                assert(self.next_index@ =~= old_next.union_prefer_right(
                    Map::new(|p: u64| order@.take(i as int + 1).contains(p), |p: u64| (last_log_index + 1) as u64),
                ));
                assert(self.match_index@ =~= old_match.union_prefer_right(
                    Map::new(
                        |p: u64| order@.take(i as int + 1).contains(p),
                        |p: u64| if p == leader_id { last_log_index } else { NO_ENTRY },
                    ),
                ));
            }
            i = i + 1;
        }
        proof {
            assert(order@.take(n as int) =~= order@);
            assert forall|p: u64| order@.contains(p) <==> self.voters@.contains(p) by {
                assert(order@.to_set().contains(p) <==> order@.contains(p));
            }
            assert(self.next_index@ =~= old(self)@.init_leader_progress(leader_id, last_log_index).next_index);
            assert(self.match_index@ =~= old(self)@.init_leader_progress(leader_id, last_log_index).match_index);
        }
    }
}

} // verus!
