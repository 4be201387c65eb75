//! A small Raft consensus core: the replicated log, vote counting, leader
//! progress tracking, the per-node state machine, and the wire format that
//! carries its messages between nodes.
pub mod log;
pub mod message;
pub mod progress;
pub mod raft;
pub mod network;
pub mod laws;
pub mod cluster;
pub mod replication;
pub mod rules;
