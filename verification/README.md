# rai_consensus

The consensus rules of RAI as a Verus library: elections on blocks and on the
close of epochs, and how the members of a committee end an epoch together.
Every function in `src/` has a contract that Verus proves, but for one that it
believes: `blake2b` in `src/digest.rs` calls the `blake2` crate, and is trusted
to return a digest of 32 bytes that depends on the message alone.

## Layout

- `src/types.rs`, `src/bytes.rs`, `src/codec.rs`, `src/digest.rs`, `src/ordered.rs`: hashes, keys and slots,
  their encodings, the digest, and sorted sets and maps with their models.
- `src/election_vote_state.rs`, `src/close_round.rs`, `src/close_record.rs`, `src/report.rs`, `src/epoch.rs`,
  `src/epoch_loop.rs`, `src/election_id.rs`: weighted elections, rounds of close elections and the lifecycle of epochs.
- `src/active_elections.rs`, `src/committee.rs`, `src/close_state.rs`, `src/close_values.rs`,
  `src/frontier_record.rs`, `src/admissibility.rs`, `src/ledger_admissibility.rs`, `src/vote_safety.rs`,
  `src/vote_processor.rs`, `src/pending_report_processor.rs`, `src/slot_election_activator.rs`,
  `src/close_state_rebuilder.rs`, `src/reconciliation.rs`, `src/persistence.rs`: committees counted by seats, the
  state in which epochs close, and its storage.
- `src/vote_gate.rs`, `src/dependency_closure.rs`, `src/candidate_selection.rs`, `src/epoch_commitment.rs`,
  `src/epoch_reports.rs`, `src/epoch_coordinator.rs`: how a fixed committee collects reports, drains the cut and
  converges on what an epoch finalized.
- `src/ordering_election.rs`, `src/ordering_scheduler.rs`, `src/filtered_vote.rs`, `src/local_votes_remover.rs`,
  `src/fork_cache_updater.rs`: the order of committed blocks, and small rules around votes.
- `app/`: locks, threads, clock, environment, storage and network around the library.
- `tests/`: tests of the library.

Signatures are checked outside of the library, which is told whether one is valid.
