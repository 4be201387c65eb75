use std::collections::HashMap;

use my_raft::message::Message;
use my_raft::raft::{Config, Raft, Role};

fn cluster(ids: &[u64]) -> HashMap<u64, Raft> {
    ids.iter()
        .map(|&id| {
            let node = Raft::new(Config {
                id,
                election_tick: 10,
                heartbeat_tick: 2,
                check_quorum: true,
                min_election_tick: 2,
                max_election_tick: 6,
                peers: ids.to_vec(),
            });
            (id, node)
        })
        .collect()
}

/// A small deterministic pseudo-random sequence for shuffling deliveries.
struct Lcg(u64);

impl Lcg {
    fn next(&mut self) -> u64 {
        self.0 = self.0.wrapping_mul(6364136223846793005).wrapping_add(1442695040888963407);
        self.0 >> 33
    }
}

fn leaders_by_term(nodes: &HashMap<u64, Raft>, seen: &mut HashMap<u64, u64>) {
    for (id, node) in nodes {
        if node.r.role == Role::Leader {
            if let Some(other) = seen.get(&node.r.term) {
                assert_eq!(other, id, "two leaders in term {}", node.r.term);
            } else {
                seen.insert(node.r.term, *id);
            }
        }
    }
}

#[test]
fn one_leader_per_term_under_reordering_and_loss() {
    let mut elections_won = 0;
    for seed in 1..30u64 {
        let ids = [1u64, 2, 3, 4, 5];
        let mut nodes = cluster(&ids);
        let mut rng = Lcg(seed);
        let mut network: Vec<Message> = Vec::new();
        let mut seen: HashMap<u64, u64> = HashMap::new();
        for round in 0..200 {
            let id = ids[(rng.next() % 5) as usize];
            let node = nodes.get_mut(&id).unwrap();
            if rng.next() % 3 == 0 {
                assert!(node.can_tick());
                node.tick();
            } else if !network.is_empty() {
                let pick = (rng.next() as usize) % network.len();
                let m = if rng.next() % 4 == 0 { network[pick].clone() } else { network.swap_remove(pick) };
                if rng.next() % 10 != 0 {
                    let to = nodes.get_mut(&m.to).unwrap();
                    if to.can_step(&m) {
                        to.step(m).unwrap();
                    }
                }
            }
            if round % 7 == 0 {
                let leader = nodes.values_mut().find(|n| n.r.role == Role::Leader);
                if let Some(l) = leader {
                    l.propose(format!("c{}", round).into_bytes()).unwrap();
                }
            }
            for node in nodes.values_mut() {
                network.extend(node.msgs.drain(..));
            }
            leaders_by_term(&nodes, &mut seen);
        }
        elections_won += seen.len();
    }
    assert!(elections_won > 0);
}

fn logs_match(nodes: &HashMap<u64, Raft>) -> usize {
    let mut matched = 0;
    for a in nodes.values() {
        for b in nodes.values() {
            let ea = &a.r.log.entries;
            let eb = &b.r.log.entries;
            for k in 0..ea.len().min(eb.len()) {
                if ea[k].term == eb[k].term {
                    assert_eq!(ea[..=k], eb[..=k], "logs differ below a shared entry");
                    matched += 1;
                }
            }
        }
    }
    matched
}

#[test]
fn logs_match_under_reordering_and_loss() {
    let mut matched = 0;
    for seed in 1..30u64 {
        let ids = [1u64, 2, 3];
        let mut nodes = cluster(&ids);
        let mut rng = Lcg(seed * 7919);
        let mut network: Vec<Message> = Vec::new();
        for round in 0..300 {
            let id = ids[(rng.next() % 3) as usize];
            let node = nodes.get_mut(&id).unwrap();
            if rng.next() % 3 == 0 {
                assert!(node.can_tick());
                node.tick();
            } else if !network.is_empty() {
                let pick = (rng.next() as usize) % network.len();
                let m = if rng.next() % 4 == 0 { network[pick].clone() } else { network.swap_remove(pick) };
                if rng.next() % 10 != 0 {
                    let to = nodes.get_mut(&m.to).unwrap();
                    if to.can_step(&m) {
                        to.step(m).unwrap();
                    }
                }
            }
            if round % 5 == 0 {
                for l in nodes.values_mut().filter(|n| n.r.role == Role::Leader) {
                    l.propose(format!("c{}", round).into_bytes()).unwrap();
                }
            }
            for node in nodes.values_mut() {
                network.extend(node.msgs.drain(..));
            }
            matched += logs_match(&nodes);
        }
    }
    assert!(matched > 0);
}
