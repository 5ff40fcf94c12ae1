# Orca

A DAG consensus over graded reliable broadcast, as a library verified with
[Verus](https://github.com/verus-lang/verus).

- `src/` is the library. `consensus` holds the blocks that a node knows (Dag,
  VDag and everything observed), the three commit rules and the order in which
  blocks are committed. `primary` holds the broadcast: votes, certificates,
  grade votes and the advance of rounds. Both are state machines without I/O:
  clock readings, signatures and stored blocks come in as arguments, requests
  and committed sequences go out as values.
- `app/` is ordinary Rust around it: channels, timers, threads, the wire format
  and the storage.
- `tests/` runs the library from outside.

Every operation of the consensus state is specified as a function on
`consensus::model::StateView`, and every piece of work of a primary as one on
`primary::node::CoreView`. What holds across operations is stated as proof
functions whose names begin with `law_`:

| file | subject |
| --- | --- |
| `src/committee.rs` | quorums intersect, thresholds hold an honest authority |
| `src/consensus/laws.rs` | leaders commit only behind decided ones, no slot twice, final decisions, recovery of leaders |
| `src/consensus/commit_laws.rs` | what a whole round of commits does, and that no leader that can be committed is left |
| `src/consensus/fallback_laws.rs` | what a whole finalization does |
| `src/consensus/sequence_laws.rs` | no digest is handed out twice, if no block refers back to itself |
| `src/consensus/order_laws.rs` | the committed order is the uncommitted history of its leader |
| `src/consensus/graph_laws.rs` | what enters the Dag, and the index of strong paths |
| `src/consensus/observation_laws.rs` | the indexes do not depend on the order of arrival |
| `src/consensus/promotion_laws.rs` | blocks wait for what they depend on |
| `src/consensus/support_laws.rs` | the support that the rules weigh is exact |
| `src/consensus/history_laws.rs` | the remembered history of an anchor is what a traversal finds |
| `src/primary/laws.rs` | one vote per round and author and one delivery per grade between cleanups, and what a cleanup leaves closed |
| `src/primary/relay_laws.rs` | the one grade vote at which a node relays its own |
