# concurrency_patterns

Concurrency patterns with their logic verified in Verus.

- `src/dfs_concurr.rs`: random graphs with a spanning tree from node 0,
  depth-first traversal with an exact contract (a node ends marked exactly
  when it was marked or is reachable through unmarked nodes), the
  check-and-mark step of the concurrent traversals, proofs that a
  traversal run as independent tasks in any order, and the channel-driven
  traversal under any interleaving of its workers, mark what the
  depth-first traversal marks, and a proof that the channel-driven
  traversal's stop rule loses no work.
- `src/read_write_lock.rs`: the lightswitch of a readers-writers lock, the
  demo's expected values, and a model of the turnstile/room protocol with
  proofs of exclusion and writer priority.
- `src/optimistic_locking.rs`: a spin lock over an atomic flag, the two
  locking protocols as a table, and proofs that compare-and-exchange
  excludes while check-then-set does not. The protocol model is
  sequentially consistent, while the lock uses `Relaxed` orderings: the
  proofs cover exclusion on the flag, not the visibility of the guarded
  data between critical sections.
- `src/total_ordering_for_deadlocks.rs`: ordered acquisition of two
  resources and the proof that ordered waits cannot form a cycle.
- `src/randomness.rs`: the calls into `rand`.
- `app/`: the Tokio and thread plumbing that runs the demos.
