//! Representative-agreement consensus: epochs, committees, elections and closes.
pub mod active_elections;
pub mod admissibility;
pub mod bytes;
pub mod candidate_selection;
pub mod close_record;
pub mod close_round;
pub mod close_state;
pub mod close_state_rebuilder;
pub mod close_values;
pub mod codec;
pub mod committee;
pub mod dependency_closure;
pub mod digest;
pub mod election_id;
pub mod election_vote_state;
pub mod epoch;
pub mod epoch_commitment;
pub mod epoch_coordinator;
pub mod epoch_loop;
pub mod epoch_reports;
pub mod filtered_vote;
pub mod fork_cache_updater;
pub mod frontier_record;
pub mod ledger_admissibility;
pub mod local_votes_remover;
pub mod ordered;
pub mod ordering_election;
pub mod ordering_scheduler;
pub mod pending_report_processor;
pub mod persistence;
pub mod reconciliation;
pub mod rep_weights;
pub mod report;
pub mod slot_election_activator;
pub mod types;
pub mod vote_gate;
pub mod vote_processor;
pub mod vote_safety;
