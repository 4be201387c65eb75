# my_raft

A small Raft consensus core written in Verus, with a gRPC front end.

`src/` is the verified library:

- `log.rs` — the replicated log (`Log`, `Entry`): appending, taking in a
  leader's batch (keeping entries it already holds, cutting the log only at
  the first entry whose term conflicts), reading terms and suffixes, applying
  committed entries and listing the entries handed to the state machine.
- `progress.rs` — the voters, their votes and, for a leader, every peer's
  next and match index (`ProgressTracker`); vote counting (`VoteResult`).
- `message.rs` — the four kinds of message and their constructors.
- `raft.rs` — one node (`Raft`): ticks, elections, proposals and the handling
  of every message, each stated over the spec functions of `RaftView`.
- `network.rs` — the wire form of messages and its conversions, the receiving
  service of a node, and the reconnect back-off and give-up rule.
- `laws.rs` — properties of one node proved over the spec: terms never go
  down, one vote per term, votes only for up-to-date logs, leaders never
  rewrite their logs and commit only entries of their own term, log matching
  after an append, committed entries kept by every step whose entries agree
  with them, applying hands out exactly the newly committed entries in
  order, outgoing messages stamped with the sender and its term, the wire
  round trip, and more.
- `cluster.rs` — a model of a whole cluster over a network that may lose,
  delay, duplicate and reorder messages, with the proof that no two nodes
  ever lead in the same term.
- `replication.rs` — log matching across that cluster: a history of every
  entry a leader has created, with the log it ended, and the proof that on
  every run two nodes holding entries of the same index and term have
  identical logs up to them.

`app/` is the program around it: the gRPC server and clients (tokio, tonic),
the node threads, and logging of applied entries.
