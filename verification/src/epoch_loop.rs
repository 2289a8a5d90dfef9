//! The loop that drives one open epoch and at most one that is closing.
use vstd::prelude::*;

use crate::close_record::{collected, RaiFrontierMap};
use crate::close_round::RaiCloseKind;
use crate::election_id::election_root;
use crate::election_vote_state::{ElectionVotes, RaiElectionVoteState};
use crate::epoch::{
    raised_by, Epochs, Frontiers, RaiClosingEpoch, RaiClosingPhase, RaiDrainOutcome, RaiEpochManager, RaiEpochState, Weights,
};
use crate::ordered::{Duplicate, Pair, SortedSet};
use crate::rep_weights::{weight_of, RepWeights};
use crate::report::{obligation_bytes, RaiReport, Report};
use crate::types::{
    Account, BlockHash, ConfirmationHeightInfo, PublicKey, QualifiedRoot, RaiEpoch, RaiSlotId, Signature, Timestamp,
};

verus! {

/// How long reports are collected, in nanoseconds, before a quorum of them is
/// enough to start the cut election. Reports of the whole committee start it
/// earlier.
pub const REPORT_COLLECTION_GRACE: u128 = 5_000_000_000;

/// What happened around the loop.
pub enum RaiEpochEvent {
    Tick(Timestamp),
    /// A report came in. `authentic` tells whether its signature is valid.
    ReportReceived { report: RaiReport<RaiSlotId>, authentic: bool },
    SlotEvidenceChanged { epoch: RaiEpoch, root: QualifiedRoot },
    CloseElectionChanged { kind: RaiCloseKind, epoch: RaiEpoch, round: u32 },
    Stop,
}

/// What the loop has asked its driver to do.
pub enum EpochCommand {
    StartClose { kind: RaiCloseKind, epoch: RaiEpoch, round: u32, root: QualifiedRoot, hash: BlockHash },
    Broadcast(Report<RaiSlotId>),
    ApplyCut { epoch: RaiEpoch, included: Set<RaiSlotId> },
    Commit { epoch: RaiEpoch, frontiers: Frontiers, acknowledged: bool },
}

/// What a driver was asked to do, in order.
pub type CommandLog = Seq<EpochCommand>;

/// The boundary between the lifecycle state machine and the ledger, the active
/// elections and the network.
pub trait RaiEpochLoopDriver: Sized {
    /// Everything the driver was asked to do so far.
    spec fn commands(&self) -> CommandLog;

    fn visible_obligations(&self, _epoch: RaiEpoch) -> SortedSet<RaiSlotId> {
        SortedSet::new()
    }

    fn vote_visible_obligations(&self, _epoch: RaiEpoch) -> Vec<RaiSlotId> {
        Vec::new()
    }

    fn start_close_election(
        &mut self,
        kind: RaiCloseKind,
        epoch: RaiEpoch,
        round: u32,
        root: QualifiedRoot,
        hash: BlockHash,
    )
        ensures
            final(self).commands() == old(self).commands().push(
                (EpochCommand::StartClose { kind, epoch, round, root, hash }),
            ),
    ;

    fn close_election_winner(&self, kind: RaiCloseKind, epoch: RaiEpoch, round: u32) -> Option<BlockHash>;

    /// The authenticated votes accumulated for a close round. Whether the round
    /// is dead or carries is derived from them; a local timeout is not enough.
    fn close_election_evidence(&self, _kind: RaiCloseKind, _epoch: RaiEpoch, _round: u32) -> Option<
        RaiElectionVoteState,
    > {
        None
    }

    fn obligations_settled(&self, _epoch: RaiEpoch, _obligations: &SortedSet<RaiSlotId>) -> bool {
        false
    }

    /// The votes of a slot election.
    fn slot_vote_evidence(&self, _epoch: RaiEpoch, _root: &QualifiedRoot) -> Option<RaiElectionVoteState> {
        None
    }

    /// The epoch-local segment ending at the certified winner.
    fn epoch_frontier_segment(&self, _epoch: RaiEpoch, _root: &QualifiedRoot, _winner: BlockHash) -> Vec<
        (Account, ConfirmationHeightInfo),
    > {
        Vec::new()
    }

    /// Applies the cut to active elections. Included old elections and all of
    /// the successor epoch remain enabled.
    fn apply_decided_cut(&mut self, epoch: RaiEpoch, included: &SortedSet<RaiSlotId>)
        ensures
            final(self).commands() == old(self).commands().push(
                (EpochCommand::ApplyCut { epoch, included: included@ }),
            ),
    ;

    fn confirmation_heights(&self) -> Vec<(Account, ConfirmationHeightInfo)> {
        Vec::new()
    }

    fn certified_weights(&self, _epoch: RaiEpoch) -> Option<RepWeights> {
        None
    }

    /// Durably finalizes what the certified frontiers select. Returning true
    /// acknowledges that and lets the close be published.
    fn commit_close_record(&mut self, epoch: RaiEpoch, frontiers: &RaiFrontierMap) -> (r: bool)
        ensures
            final(self).commands() == old(self).commands().push(
                (EpochCommand::Commit { epoch, frontiers: frontiers@, acknowledged: r }),
            ),
    ;

    /// Signs a report with the local key.
    fn sign_report(&self, message: &Vec<u8>) -> Signature;

    fn broadcast_report(&mut self, report: RaiReport<RaiSlotId>)
        ensures
            final(self).commands() == old(self).commands().push(EpochCommand::Broadcast(report.deep_view())),
    ;
}

/// The driver says that the obligations of an epoch are visible.
pub open spec fn says_visible<D: RaiEpochLoopDriver>(driver: D, epoch: RaiEpoch, obligations: Set<RaiSlotId>) -> bool {
    exists|shown: SortedSet<RaiSlotId>|
        shown@ == obligations && #[trigger] call_ensures(D::visible_obligations, (&driver, epoch), shown)
}

/// The driver says that the obligations of an epoch are visible from votes.
pub open spec fn says_vote_visible<D: RaiEpochLoopDriver>(
    driver: D,
    epoch: RaiEpoch,
    obligations: Set<RaiSlotId>,
) -> bool {
    exists|shown: Vec<RaiSlotId>|
        shown@.to_set() == obligations && #[trigger] call_ensures(
            D::vote_visible_obligations,
            (&driver, epoch),
            shown,
        )
}

/// The driver signs what a report of the obligations of an epoch signs.
pub open spec fn signs_report<D: RaiEpochLoopDriver>(
    driver: D,
    epoch: RaiEpoch,
    obligations: Set<RaiSlotId>,
    signature: Signature,
) -> bool {
    exists|message: Vec<u8>|
        message@ == obligation_bytes("RAI/Report/v1", epoch, obligations) && #[trigger] call_ensures(
            D::sign_report,
            (&driver, &message),
            signature,
        )
}

/// The driver says which votes a slot election has.
pub open spec fn says_slot_votes<D: RaiEpochLoopDriver>(
    driver: D,
    epoch: RaiEpoch,
    root: QualifiedRoot,
    evidence: Option<ElectionVotes>,
) -> bool {
    exists|found: Option<RaiElectionVoteState>|
        found.deep_view() == evidence && #[trigger] call_ensures(D::slot_vote_evidence, (&driver, epoch, &root), found)
}

/// The driver says which segment of an epoch ends at a winner.
pub open spec fn says_segment<D: RaiEpochLoopDriver>(
    driver: D,
    epoch: RaiEpoch,
    root: QualifiedRoot,
    winner: BlockHash,
    segment: Seq<(Account, ConfirmationHeightInfo)>,
) -> bool {
    exists|found: Vec<(Account, ConfirmationHeightInfo)>|
        found@ == segment && #[trigger] call_ensures(
            D::epoch_frontier_segment,
            (&driver, epoch, &root, winner),
            found,
        )
}

/// The driver says which weights are certified for an epoch.
pub open spec fn says_weights<D: RaiEpochLoopDriver>(driver: D, epoch: RaiEpoch, committee: Option<Weights>) -> bool {
    exists|found: Option<RepWeights>|
        committee == weights_of(found) && #[trigger] call_ensures(D::certified_weights, (&driver, epoch), found)
}

/// The model of weights that may be missing.
pub open spec fn weights_of(weights: Option<RepWeights>) -> Option<Weights> {
    match weights {
        Some(weights) => Some(weights@),
        None => None,
    }
}

/// The driver says how high the accounts are confirmed.
pub open spec fn says_heights<D: RaiEpochLoopDriver>(
    driver: D,
    heights: Seq<(Account, ConfirmationHeightInfo)>,
) -> bool {
    exists|found: Vec<(Account, ConfirmationHeightInfo)>|
        found@ == heights && #[trigger] call_ensures(D::confirmation_heights, (&driver,), found)
}

/// The driver says which votes a close round has.
pub open spec fn says_round_votes<D: RaiEpochLoopDriver>(
    driver: D,
    kind: RaiCloseKind,
    epoch: RaiEpoch,
    round: u32,
    evidence: Option<ElectionVotes>,
) -> bool {
    exists|found: Option<RaiElectionVoteState>|
        found.deep_view() == evidence && #[trigger] call_ensures(
            D::close_election_evidence,
            (&driver, kind, epoch, round),
            found,
        )
}

/// The driver says who won a close round.
pub open spec fn says_winner<D: RaiEpochLoopDriver>(
    driver: D,
    kind: RaiCloseKind,
    epoch: RaiEpoch,
    round: u32,
    winner: Option<BlockHash>,
) -> bool {
    call_ensures(D::close_election_winner, (&driver, kind, epoch, round), winner)
}

/// What the driver says once it has applied the cut that won: how high the
/// accounts are confirmed and, if nothing is left to drain, which weights are
/// certified.
pub open spec fn cut_answered<D: RaiEpochLoopDriver>(
    turn: Turn,
    epoch: RaiEpoch,
    round: u32,
    hash: BlockHash,
    heights: Seq<(Account, ConfirmationHeightInfo)>,
    committee: Option<Weights>,
) -> bool {
    let installed = turn.cut_installed(epoch, round, hash, heights);
    exists|applied: D|
        applied.commands() == installed.commands && #[trigger] says_heights(applied, heights) && (installed.is_drained(
            epoch,
        ) ==> says_weights(applied, epoch, committee))
}

/// The epochs together with what the driver was asked to do.
#[verifier::ext_equal]
pub struct Turn {
    pub epochs: Epochs,
    pub commands: Seq<EpochCommand>,
}

impl Turn {
    /// The cut election of `epoch` starts, if the reports allow it.
    pub open spec fn cut_started(self, epoch: RaiEpoch, vote_visible: Set<RaiSlotId>) -> Turn {
        if self.epochs.is_closing(epoch, RaiClosingPhase::CollectingReports) && self.epochs.can_begin_cut() {
            Turn {
                epochs: self.epochs.cut_begun(vote_visible),
                commands: self.commands.push(
                    EpochCommand::StartClose {
                        kind: RaiCloseKind::Cut,
                        epoch,
                        round: 0,
                        root: election_root("RAI/CloseCutId", epoch, 0),
                        hash: self.epochs.cut_for(epoch, vote_visible).hash(),
                    },
                ),
            }
        } else {
            self
        }
    }

    /// The drain of `epoch` is complete.
    pub open spec fn is_drained(self, epoch: RaiEpoch) -> bool {
        self.epochs.drains.contains_key(epoch) && self.epochs.drains[epoch].is_complete()
    }

    /// The record election starts once the drain of `epoch` is complete.
    pub open spec fn record_started(self, epoch: RaiEpoch, committee: Option<Weights>) -> Turn {
        if self.is_drained(epoch) && committee is Some && self.epochs.can_begin_record() {
            let record = self.epochs.local_record();
            Turn {
                epochs: self.epochs.record_begun(committee->0),
                commands: self.commands.push(
                    EpochCommand::StartClose {
                        kind: RaiCloseKind::Record,
                        epoch,
                        round: 0,
                        root: election_root("RAI/CloseRecordId", record.epoch, 0),
                        hash: record.hash(),
                    },
                ),
            }
        } else {
            self
        }
    }

    /// Whether the collection of reports is over: the whole committee reported,
    /// or the grace has passed.
    pub open spec fn collection_is_over(self, epoch: RaiEpoch, now: Timestamp) -> bool {
        ||| self.epochs.close_committee(epoch) matches Some(committee) && self.epochs.reports.has_full_coverage(
            epoch,
            committee,
        )
        ||| now.nanos >= self.epochs.state.open_started_at.nanos + REPORT_COLLECTION_GRACE
    }

    /// The open epoch has lasted its duration and is reported.
    pub open spec fn is_report_due(self, now: Timestamp, duration: u128) -> bool {
        self.epochs.state.closing is None && now.nanos >= self.epochs.state.open_started_at.nanos + duration
    }

    /// The closing epoch has the reports for its cut election.
    pub open spec fn is_cut_due(self, now: Timestamp) -> bool {
        self.epochs.can_begin_cut() && self.collection_is_over(self.epochs.state.closing->0.epoch, now)
    }

    /// One tick of the clock.
    pub open spec fn ticked(
        self,
        now: Timestamp,
        duration: u128,
        reporter: PublicKey,
        obligations: Set<RaiSlotId>,
        signature: Signature,
        vote_visible: Set<RaiSlotId>,
    ) -> Turn {
        match self.epochs.state.closing {
            Some(closing) => if closing.phase == RaiClosingPhase::CollectingReports && self.collection_is_over(
                closing.epoch,
                now,
            ) {
                self.cut_started(closing.epoch, vote_visible)
            } else {
                self
            },
            None => {
                let epoch = self.epochs.state.open_epoch;
                if now.nanos < self.epochs.state.open_started_at.nanos + duration || epoch.number == u64::MAX {
                    self
                } else {
                    let report = Report { reporter, epoch, visible_obligations: obligations, signature };
                    Turn {
                        epochs: Epochs {
                            state: RaiEpochState {
                                open_epoch: RaiEpoch { number: (epoch.number + 1) as u64 },
                                open_started_at: now,
                                closing: Some(
                                    RaiClosingEpoch { epoch, phase: RaiClosingPhase::CollectingReports },
                                ),
                                ..self.epochs.state
                            },
                            reports: self.epochs.reports.with_report(report),
                            ..self.epochs
                        },
                        commands: self.commands.push(EpochCommand::Broadcast(report)),
                    }
                }
            },
        }
    }

    /// The block that the votes of a slot lead its drain to.
    pub open spec fn slot_winner(self, epoch: RaiEpoch, root: QualifiedRoot, evidence: Option<ElectionVotes>) -> Option<
        BlockHash,
    > {
        if evidence is Some && self.epochs.drains.contains_key(epoch) {
            match self.epochs.drains[epoch].outcome(RaiSlotId { epoch, root }, evidence->0) {
                Some(RaiDrainOutcome::Finalized(winner)) => Some(winner),
                Some(RaiDrainOutcome::Selected(winner)) => Some(winner),
                _ => None,
            }
        } else {
            None
        }
    }

    /// The votes of a slot are drained.
    pub open spec fn slot_drained(
        self,
        epoch: RaiEpoch,
        root: QualifiedRoot,
        evidence: Option<ElectionVotes>,
        segment: Seq<(Account, ConfirmationHeightInfo)>,
    ) -> Turn {
        match evidence {
            Some(evidence) => Turn {
                epochs: self.epochs.evidence_drained(epoch, RaiSlotId { epoch, root }, evidence, segment),
                ..self
            },
            None => self,
        }
    }

    /// The votes of a slot changed.
    pub open spec fn slot_changed(
        self,
        epoch: RaiEpoch,
        root: QualifiedRoot,
        evidence: Option<ElectionVotes>,
        segment: Seq<(Account, ConfirmationHeightInfo)>,
        committee: Option<Weights>,
    ) -> Turn {
        self.slot_drained(epoch, root, evidence, segment).record_started(epoch, committee)
    }

    /// The votes of a close round are stored.
    pub open spec fn evidence_stored(
        self,
        kind: RaiCloseKind,
        epoch: RaiEpoch,
        round: u32,
        evidence: Option<ElectionVotes>,
    ) -> Turn {
        let rounds = match kind {
            RaiCloseKind::Cut => self.epochs.cut_rounds,
            RaiCloseKind::Record => self.epochs.record_rounds,
        };
        if evidence is Some && rounds.contains_key(epoch) && rounds[epoch].takes_evidence(round) {
            let after = rounds.insert(epoch, rounds[epoch].with_evidence(round, evidence->0));
            Turn {
                epochs: match kind {
                    RaiCloseKind::Cut => Epochs { cut_rounds: after, ..self.epochs },
                    RaiCloseKind::Record => Epochs { record_rounds: after, ..self.epochs },
                },
                ..self
            }
        } else {
            self
        }
    }

    /// No winner yet: the next round starts, if the votes allow it.
    pub open spec fn round_advanced(self, kind: RaiCloseKind, epoch: RaiEpoch) -> Turn {
        let closing = self.epochs.state.closing->0.epoch;
        let (after, next) = match kind {
            RaiCloseKind::Cut => (self.epochs.cut_round_advanced(), self.epochs.next_cut_round()),
            RaiCloseKind::Record => (self.epochs.record_round_advanced(), self.epochs.next_record_round()),
        };
        let (domain, rounds) = match kind {
            RaiCloseKind::Cut => ("RAI/CloseCutId", after.cut_rounds),
            RaiCloseKind::Record => ("RAI/CloseRecordId", after.record_rounds),
        };
        Turn {
            epochs: after,
            commands: if next is Some && rounds.contains_key(epoch) {
                let (round, hash) = next->0;
                self.commands.push(
                    EpochCommand::StartClose {
                        kind,
                        epoch,
                        round: rounds[epoch].current_round,
                        root: election_root(domain, closing, round),
                        hash,
                    },
                )
            } else {
                self.commands
            },
        }
    }

    /// The cut is installed and applied, and draining starts at the confirmed heights.
    pub open spec fn cut_installed(
        self,
        epoch: RaiEpoch,
        round: u32,
        hash: BlockHash,
        heights: Seq<(Account, ConfirmationHeightInfo)>,
    ) -> Turn {
        let decided = self.epochs.cut_decided(epoch, round, hash);
        Turn {
            epochs: if decided.drains.contains_key(epoch) && !decided.drain_frontiers.contains_key(epoch) {
                Epochs { drain_frontiers: decided.drain_frontiers.insert(epoch, collected(heights)), ..decided }
            } else {
                decided
            },
            commands: self.commands.push(
                EpochCommand::ApplyCut { epoch, included: decided.frozen_obligations[epoch] },
            ),
        }
    }

    /// A cut won: it is installed, and where nothing is left to drain the
    /// record election starts.
    pub open spec fn cut_won(
        self,
        epoch: RaiEpoch,
        round: u32,
        hash: BlockHash,
        heights: Seq<(Account, ConfirmationHeightInfo)>,
        committee: Option<Weights>,
    ) -> Turn {
        if self.epochs.cut_error(epoch, round, hash) is Some {
            self
        } else {
            self.cut_installed(epoch, round, hash, heights).record_started(epoch, committee)
        }
    }

    /// A record won: its frontiers are committed, and the close is published
    /// only if that is acknowledged.
    pub open spec fn record_won(
        self,
        epoch: RaiEpoch,
        round: u32,
        hash: BlockHash,
        committee: Option<Weights>,
        acknowledged: bool,
    ) -> Turn {
        if committee is None || self.epochs.close_hashes.contains_key(epoch) || self.epochs.install_error(
            epoch,
            round,
            hash,
        ) is Some {
            self
        } else {
            Turn {
                epochs: if acknowledged {
                    self.epochs.installed(epoch, round, hash)
                } else {
                    self.epochs
                },
                commands: self.commands.push(
                    EpochCommand::Commit {
                        epoch,
                        frontiers: self.epochs.close_records[hash].frontiers,
                        acknowledged,
                    },
                ),
            }
        }
    }

    /// A close election changed.
    pub open spec fn close_changed(
        self,
        kind: RaiCloseKind,
        epoch: RaiEpoch,
        round: u32,
        evidence: Option<ElectionVotes>,
        winner: Option<BlockHash>,
        heights: Seq<(Account, ConfirmationHeightInfo)>,
        committee: Option<Weights>,
        acknowledged: bool,
    ) -> Turn {
        let stored = self.evidence_stored(kind, epoch, round, evidence);
        match winner {
            None => stored.round_advanced(kind, epoch),
            Some(hash) => match kind {
                RaiCloseKind::Cut => stored.cut_won(epoch, round, hash, heights, committee),
                RaiCloseKind::Record => stored.record_won(epoch, round, hash, committee, acknowledged),
            },
        }
    }
}

/// Drives the single open epoch and at most one that is closing. It has no
/// timer of its own: whoever owns it sends ticks.
pub struct RaiEpochLoop<D> {
    pub epoch_manager: RaiEpochManager,
    pub driver: D,
    pub local_key: PublicKey,
    pub epoch_duration: u128,
    pub stopped: bool,
}

impl<D: RaiEpochLoopDriver> RaiEpochLoop<D> {
    pub open spec fn turn(&self) -> Turn {
        Turn { epochs: self.epoch_manager@, commands: self.driver.commands() }
    }

    /// Key, duration and the stop flag are the same.
    pub open spec fn same_settings(&self, other: &Self) -> bool {
        self.local_key == other.local_key && self.epoch_duration == other.epoch_duration && self.stopped == other.stopped
    }

    /// The driver was asked to do nothing, or it may have changed.
    pub open spec fn keeps_driver(&self, before: &Self) -> bool {
        &&& before.driver.commands().len() <= self.driver.commands().len()
        &&& before.driver.commands().len() == self.driver.commands().len() ==> self.driver == before.driver
    }

    /// What the driver is asked in a tick, and what it says: the visible
    /// obligations and the signature of a report that is due, and what votes make
    /// visible for a cut election that is due.
    pub open spec fn tick_answered(
        &self,
        now: Timestamp,
        obligations: Set<RaiSlotId>,
        signature: Signature,
        vote_visible: Set<RaiSlotId>,
    ) -> bool {
        let turn = self.turn();
        let open = turn.epochs.state.open_epoch;
        &&& turn.is_report_due(now, self.epoch_duration) ==> says_visible(self.driver, open, obligations)
            && signs_report(self.driver, open, obligations, signature)
        &&& turn.is_cut_due(now) ==> says_vote_visible(self.driver, turn.epochs.state.closing->0.epoch, vote_visible)
    }

    /// What the driver is asked when the votes of a slot changed, and what it
    /// says: those votes, the segment that ends at the block they lead to, and
    /// the certified weights once nothing is left to drain.
    pub open spec fn slot_answered(
        &self,
        epoch: RaiEpoch,
        root: QualifiedRoot,
        evidence: Option<ElectionVotes>,
        segment: Seq<(Account, ConfirmationHeightInfo)>,
        committee: Option<Weights>,
    ) -> bool {
        let turn = self.turn();
        &&& says_slot_votes(self.driver, epoch, root, evidence)
        &&& match turn.slot_winner(epoch, root, evidence) {
            Some(winner) => says_segment(self.driver, epoch, root, winner, segment),
            None => true,
        }
        &&& turn.slot_drained(epoch, root, evidence, segment).is_drained(epoch) ==> says_weights(
            self.driver,
            epoch,
            committee,
        )
    }

    /// What the driver is asked when a close election changed, and what it says:
    /// the votes and the winner of that very round and, with a winner, what its
    /// installation needs.
    pub open spec fn close_answered(
        &self,
        kind: RaiCloseKind,
        epoch: RaiEpoch,
        round: u32,
        evidence: Option<ElectionVotes>,
        winner: Option<BlockHash>,
        heights: Seq<(Account, ConfirmationHeightInfo)>,
        committee: Option<Weights>,
    ) -> bool {
        let stored = self.turn().evidence_stored(kind, epoch, round, evidence);
        &&& says_round_votes(self.driver, kind, epoch, round, evidence)
        &&& says_winner(self.driver, kind, epoch, round, winner)
        &&& match winner {
            None => true,
            Some(hash) => match kind {
                RaiCloseKind::Cut => stored.epochs.cut_error(epoch, round, hash) is None ==> cut_answered::<D>(
                    stored,
                    epoch,
                    round,
                    hash,
                    heights,
                    committee,
                ),
                RaiCloseKind::Record => says_weights(self.driver, epoch, committee),
            },
        }
    }

    pub fn new(
        epoch_manager: RaiEpochManager,
        driver: D,
        local_key: PublicKey,
        epoch_duration: u128,
        started_at: Timestamp,
    ) -> (r: Self)
        ensures
            r.epoch_manager@ == (Epochs {
                state: RaiEpochState { open_started_at: started_at, ..epoch_manager@.state },
                ..epoch_manager@
            }),
            r.driver == driver,
            r.local_key == local_key,
            r.epoch_duration == epoch_duration,
            !r.stopped,
    {
        let mut epoch_manager = epoch_manager;
        epoch_manager.set_open_started_at(started_at);
        RaiEpochLoop { epoch_manager, driver, local_key, epoch_duration, stopped: false }
    }

    pub fn epoch_state(&self) -> (r: &RaiEpochState)
        ensures
            *r == self.epoch_manager@.state,
    {
        self.epoch_manager.state()
    }

    pub fn epoch_manager(&self) -> (r: &RaiEpochManager)
        ensures
            *r == self.epoch_manager,
    {
        &self.epoch_manager
    }

    pub fn epoch_manager_mut(&mut self) -> (r: &mut RaiEpochManager)
        ensures
            *r == old(self).epoch_manager,
            *final(self) == (RaiEpochLoop { epoch_manager: *final(r), ..*old(self) }),
    {
        &mut self.epoch_manager
    }

    pub fn into_epoch_manager(self) -> (r: RaiEpochManager)
        ensures
            r == self.epoch_manager,
    {
        self.epoch_manager
    }

    pub fn into_parts(self) -> (r: (RaiEpochManager, D))
        ensures
            r == (self.epoch_manager, self.driver),
    {
        (self.epoch_manager, self.driver)
    }

    pub fn driver(&self) -> (r: &D)
        ensures
            *r == self.driver,
    {
        &self.driver
    }

    pub fn driver_mut(&mut self) -> (r: &mut D)
        ensures
            *r == old(self).driver,
            *final(self) == (RaiEpochLoop { driver: *final(r), ..*old(self) }),
    {
        &mut self.driver
    }

    pub fn is_stopped(&self) -> (r: bool)
        ensures
            r == self.stopped,
    {
        self.stopped
    }

    /// Handles one event. Once stopped, the loop is inert.
    pub fn process(&mut self, event: RaiEpochEvent)
        ensures
            final(self).local_key == old(self).local_key,
            final(self).epoch_duration == old(self).epoch_duration,
            final(self).stopped == (old(self).stopped || event is Stop),
            final(self).keeps_driver(old(self)),
            old(self).stopped ==> *final(self) == *old(self),
            !old(self).stopped ==> match event {
                RaiEpochEvent::Tick(now) => exists|
                    obligations: Set<RaiSlotId>,
                    signature: Signature,
                    visible: Set<RaiSlotId>,
                | #[trigger]
                    old(self).turn().ticked(
                        now,
                        old(self).epoch_duration,
                        old(self).local_key,
                        obligations,
                        signature,
                        visible,
                    ) == final(self).turn() && old(self).tick_answered(now, obligations, signature, visible),
                RaiEpochEvent::ReportReceived { report, authentic } => final(self).turn() == (Turn {
                    epochs: if authentic {
                        Epochs {
                            reports: old(self).epoch_manager@.reports.with_report(report.deep_view()),
                            ..old(self).epoch_manager@
                        }
                    } else {
                        old(self).epoch_manager@
                    },
                    ..old(self).turn()
                }),
                RaiEpochEvent::SlotEvidenceChanged { epoch, root } => exists|
                    evidence: Option<ElectionVotes>,
                    segment: Seq<(Account, ConfirmationHeightInfo)>,
                    committee: Option<Weights>,
                | #[trigger]
                    old(self).turn().slot_changed(epoch, root, evidence, segment, committee) == final(self).turn()
                        && old(self).slot_answered(epoch, root, evidence, segment, committee),
                RaiEpochEvent::CloseElectionChanged { kind, epoch, round } => exists|
                    evidence: Option<ElectionVotes>,
                    winner: Option<BlockHash>,
                    heights: Seq<(Account, ConfirmationHeightInfo)>,
                    committee: Option<Weights>,
                    acknowledged: bool,
                | #[trigger]
                    old(self).turn().close_changed(
                        kind,
                        epoch,
                        round,
                        evidence,
                        winner,
                        heights,
                        committee,
                        acknowledged,
                    ) == final(self).turn() && old(self).close_answered(
                        kind,
                        epoch,
                        round,
                        evidence,
                        winner,
                        heights,
                        committee,
                    ),
                RaiEpochEvent::Stop => final(self).turn() == old(self).turn(),
            },
    {
        if self.stopped {
            return;
        }
        match event {
            RaiEpochEvent::Tick(now) => {
                self.tick(now);
            },
            RaiEpochEvent::ReportReceived { report, authentic } => {
                let _ = self.epoch_manager.reports.insert(report, authentic);
            },
            RaiEpochEvent::SlotEvidenceChanged { epoch, root } => {
                self.slot_evidence_changed(epoch, root);
            },
            RaiEpochEvent::CloseElectionChanged { kind, epoch, round } => {
                self.close_election_changed(kind, epoch, round);
            },
            RaiEpochEvent::Stop => {
                self.stopped = true;
            },
        }
    }

    fn tick(&mut self, now: Timestamp)
        ensures
            final(self).same_settings(old(self)),
            final(self).keeps_driver(old(self)),
            exists|obligations: Set<RaiSlotId>, signature: Signature, visible: Set<RaiSlotId>| #[trigger]
                old(self).turn().ticked(
                    now,
                    old(self).epoch_duration,
                    old(self).local_key,
                    obligations,
                    signature,
                    visible,
                ) == final(self).turn() && old(self).tick_answered(now, obligations, signature, visible),
    {
        let ghost start = self.turn();
        let ghost nothing = Set::<RaiSlotId>::empty();
        let ghost unsigned = Signature { r_hi: 0, r_lo: 0, s_hi: 0, s_lo: 0 };
        let state = *self.epoch_manager.state();
        if let Some(closing) = state.closing {
            if closing.phase == RaiClosingPhase::CollectingReports {
                if self.epoch_manager.full_report_coverage_available(closing.epoch) || now.is_after(
                    state.open_started_at,
                    REPORT_COLLECTION_GRACE,
                ) {
                    let visible = self.maybe_start_cut(closing.epoch);
                    proof {
                        assert(old(self).tick_answered(now, nothing, unsigned, visible@));
                        assert(start.ticked(
                            now,
                            self.epoch_duration,
                            self.local_key,
                            nothing,
                            unsigned,
                            visible@,
                        ) == self.turn());
                    }
                    return;
                }
            }
            proof {
                assert(start.ticked(now, self.epoch_duration, self.local_key, nothing, unsigned, nothing)
                    == self.turn());
            }
            return;
        }
        if !now.is_after(state.open_started_at, self.epoch_duration) {
            proof {
                assert(start.ticked(now, self.epoch_duration, self.local_key, nothing, unsigned, nothing)
                    == self.turn());
            }
            return;
        }
        let closing = state.open_epoch;
        let visible_obligations = self.driver.visible_obligations(closing);
        let mut report = RaiReport {
            reporter: self.local_key,
            epoch: closing,
            visible_obligations,
            signature: Signature::new(),
        };
        let message = report.signing_bytes();
        report.signature = self.driver.sign_report(&message);
        let ghost sent = report.deep_view();
        proof {
            assert(says_visible(self.driver, closing, sent.visible_obligations));
            assert(signs_report(self.driver, closing, sent.visible_obligations, sent.signature));
            assert(old(self).tick_answered(now, sent.visible_obligations, sent.signature, nothing));
        }
        if self.epoch_manager.start_closing(now) {
            // The own report takes the same path as any other before it is
            // published, so repeated ticks are inert.
            let _ = self.epoch_manager.reports.insert(report.duplicate(), true);
            self.driver.broadcast_report(report);
        }
        proof {
            assert(start.ticked(
                now,
                self.epoch_duration,
                self.local_key,
                sent.visible_obligations,
                sent.signature,
                nothing,
            ) == self.turn());
        }
    }

    fn maybe_start_cut(&mut self, epoch: RaiEpoch) -> (visible: Ghost<Set<RaiSlotId>>)
        ensures
            final(self).same_settings(old(self)),
            final(self).keeps_driver(old(self)),
            final(self).turn() == old(self).turn().cut_started(epoch, visible@),
            old(self).epoch_manager@.is_closing(epoch, RaiClosingPhase::CollectingReports)
                && old(self).epoch_manager@.can_begin_cut() ==> says_vote_visible(old(self).driver, epoch, visible@),
    {
        let collecting = match self.epoch_manager.closing_epoch() {
            Some(closing) => closing.epoch == epoch && closing.phase == RaiClosingPhase::CollectingReports,
            None => false,
        };
        if !collecting || !self.epoch_manager.report_quorum_available(epoch) {
            return Ghost(Set::empty());
        }
        let visible = self.driver.vote_visible_obligations(epoch);
        let ghost seen = visible@.to_set();
        proof {
            assert(says_vote_visible(self.driver, epoch, seen));
        }
        if let Some((root, hash)) = self.epoch_manager.begin_cut_election(visible) {
            self.driver.start_close_election(RaiCloseKind::Cut, epoch, 0, root, hash);
        }
        Ghost(seen)
    }

    fn maybe_start_record(&mut self, epoch: RaiEpoch) -> (committee: Ghost<Option<Weights>>)
        ensures
            final(self).same_settings(old(self)),
            final(self).keeps_driver(old(self)),
            final(self).turn() == old(self).turn().record_started(epoch, committee@),
            old(self).turn().is_drained(epoch) ==> says_weights(old(self).driver, epoch, committee@),
    {
        let complete = match self.epoch_manager.happy_path_drain(epoch) {
            Some(drain) => drain.is_complete(),
            None => false,
        };
        if !complete {
            return Ghost(None);
        }
        let certified = self.driver.certified_weights(epoch);
        proof {
            assert(says_weights(self.driver, epoch, weights_of(certified)));
        }
        let committee = match certified {
            Some(committee) => committee,
            None => return Ghost(None),
        };
        let ghost weights = committee@;
        if let Some((root, hash)) = self.epoch_manager.begin_close_record(committee) {
            self.driver.start_close_election(RaiCloseKind::Record, epoch, 0, root, hash);
        }
        Ghost(Some(weights))
    }

    fn slot_evidence_changed(&mut self, epoch: RaiEpoch, root: QualifiedRoot)
        ensures
            final(self).same_settings(old(self)),
            final(self).keeps_driver(old(self)),
            exists|
                evidence: Option<ElectionVotes>,
                segment: Seq<(Account, ConfirmationHeightInfo)>,
                committee: Option<Weights>,
            | #[trigger]
                old(self).turn().slot_changed(epoch, root, evidence, segment, committee) == final(self).turn()
                    && old(self).slot_answered(epoch, root, evidence, segment, committee),
    {
        let ghost start = self.turn();
        let slot = RaiSlotId { epoch, root };
        let found = self.driver.slot_vote_evidence(epoch, &root);
        proof {
            assert(says_slot_votes(self.driver, epoch, root, found.deep_view()));
        }
        match found {
            Some(evidence) => {
                let outcome = match self.epoch_manager.happy_path_drain(epoch) {
                    Some(drain) => drain.persistent_evidence_outcome(&slot, &evidence),
                    None => None,
                };
                let segment = match outcome {
                    Some(RaiDrainOutcome::Finalized(winner)) => {
                        self.driver.epoch_frontier_segment(epoch, &root, winner)
                    },
                    Some(RaiDrainOutcome::Selected(winner)) => {
                        self.driver.epoch_frontier_segment(epoch, &root, winner)
                    },
                    _ => Vec::new(),
                };
                proof {
                    match start.slot_winner(epoch, root, Some(evidence.deep_view())) {
                        Some(winner) => {
                            assert(says_segment(self.driver, epoch, root, winner, segment@));
                        },
                        None => {},
                    }
                }
                let _ = self.epoch_manager.record_drain_evidence(epoch, &slot, &evidence, &segment);
                let committee = self.maybe_start_record(epoch);
                proof {
                    assert(old(self).slot_answered(epoch, root, Some(evidence.deep_view()), segment@, committee@));
                    assert(start.slot_changed(epoch, root, Some(evidence.deep_view()), segment@, committee@)
                        == self.turn());
                }
            },
            None => {
                let committee = self.maybe_start_record(epoch);
                proof {
                    let none = Seq::<(Account, ConfirmationHeightInfo)>::empty();
                    assert(old(self).slot_answered(epoch, root, None, none, committee@));
                    assert(start.slot_changed(epoch, root, None, none, committee@) == self.turn());
                }
            },
        }
    }

    fn close_election_changed(&mut self, kind: RaiCloseKind, epoch: RaiEpoch, round: u32)
        ensures
            final(self).same_settings(old(self)),
            final(self).keeps_driver(old(self)),
            exists|
                evidence: Option<ElectionVotes>,
                winner: Option<BlockHash>,
                heights: Seq<(Account, ConfirmationHeightInfo)>,
                committee: Option<Weights>,
                acknowledged: bool,
            | #[trigger]
                old(self).turn().close_changed(
                    kind,
                    epoch,
                    round,
                    evidence,
                    winner,
                    heights,
                    committee,
                    acknowledged,
                ) == final(self).turn() && old(self).close_answered(
                    kind,
                    epoch,
                    round,
                    evidence,
                    winner,
                    heights,
                    committee,
                ),
    {
        let ghost start = self.turn();
        let ghost none = Seq::<(Account, ConfirmationHeightInfo)>::empty();
        let evidence = self.driver.close_election_evidence(kind, epoch, round);
        let ghost votes = evidence.deep_view();
        proof {
            assert(says_round_votes(self.driver, kind, epoch, round, votes));
        }
        if let Some(evidence) = evidence {
            match kind {
                RaiCloseKind::Cut => {
                    self.epoch_manager.store_close_cut_evidence(epoch, round, evidence);
                },
                RaiCloseKind::Record => {
                    self.epoch_manager.store_close_record_evidence(epoch, round, evidence);
                },
            }
        }
        proof {
            assert(self.turn() == start.evidence_stored(kind, epoch, round, votes));
        }
        let winner = self.driver.close_election_winner(kind, epoch, round);
        proof {
            assert(says_winner(self.driver, kind, epoch, round, winner));
        }
        let hash = match winner {
            Some(hash) => hash,
            None => {
                self.advance_round(kind, epoch);
                proof {
                    assert(old(self).close_answered(kind, epoch, round, votes, None, none, None));
                    assert(start.close_changed(kind, epoch, round, votes, None, none, None, false) == self.turn());
                }
                return;
            },
        };
        match kind {
            RaiCloseKind::Cut => {
                let (heights, committee) = self.install_won_cut(epoch, round, hash);
                proof {
                    assert(old(self).close_answered(kind, epoch, round, votes, Some(hash), heights@, committee@));
                    assert(start.close_changed(kind, epoch, round, votes, Some(hash), heights@, committee@, false)
                        == self.turn());
                }
            },
            RaiCloseKind::Record => {
                let (committee, acknowledged) = self.install_won_record(epoch, round, hash);
                proof {
                    assert(old(self).close_answered(kind, epoch, round, votes, Some(hash), none, committee@));
                    assert(start.close_changed(
                        kind,
                        epoch,
                        round,
                        votes,
                        Some(hash),
                        none,
                        committee@,
                        acknowledged@,
                    ) == self.turn());
                }
            },
        }
    }

    fn advance_round(&mut self, kind: RaiCloseKind, epoch: RaiEpoch)
        ensures
            final(self).same_settings(old(self)),
            final(self).keeps_driver(old(self)),
            final(self).turn() == old(self).turn().round_advanced(kind, epoch),
    {
        let (next, next_round) = match kind {
            RaiCloseKind::Cut => {
                let next = self.epoch_manager.advance_close_cut_round();
                (next, self.epoch_manager.close_cut_round(epoch))
            },
            RaiCloseKind::Record => {
                let heights = self.driver.confirmation_heights();
                let next = self.epoch_manager.advance_close_record_round(&heights);
                (next, self.epoch_manager.close_record_round(epoch))
            },
        };
        if let Some((root, hash)) = next {
            if let Some(next_round) = next_round {
                self.driver.start_close_election(kind, epoch, next_round, root, hash);
            }
        }
    }

    fn install_won_cut(&mut self, epoch: RaiEpoch, round: u32, hash: BlockHash) -> (r: (
        Ghost<Seq<(Account, ConfirmationHeightInfo)>>,
        Ghost<Option<Weights>>,
    ))
        ensures
            final(self).same_settings(old(self)),
            final(self).keeps_driver(old(self)),
            final(self).turn() == old(self).turn().cut_won(epoch, round, hash, r.0@, r.1@),
            old(self).epoch_manager@.cut_error(epoch, round, hash) is None ==> cut_answered::<D>(
                old(self).turn(),
                epoch,
                round,
                hash,
                r.0@,
                r.1@,
            ),
    {
        let obligations = match self.epoch_manager.install_cut(epoch, round, hash) {
            Ok(obligations) => obligations.duplicate(),
            Err(_) => return (Ghost(Seq::empty()), Ghost(None)),
        };
        self.driver.apply_decided_cut(epoch, &obligations);
        let heights = self.driver.confirmation_heights();
        let ghost seen = heights@;
        let ghost applied = self.driver;
        let _ = self.epoch_manager.initialize_drain_frontiers(epoch, heights);
        proof {
            assert(says_heights(applied, seen));
            assert(self.turn() == old(self).turn().cut_installed(epoch, round, hash, seen));
        }
        let committee = self.maybe_start_record(epoch);
        (Ghost(seen), committee)
    }

    fn install_won_record(&mut self, epoch: RaiEpoch, round: u32, hash: BlockHash) -> (r: (
        Ghost<Option<Weights>>,
        Ghost<bool>,
    ))
        ensures
            final(self).same_settings(old(self)),
            final(self).keeps_driver(old(self)),
            final(self).turn() == old(self).turn().record_won(epoch, round, hash, r.0@, r.1@),
            says_weights(old(self).driver, epoch, r.0@),
    {
        let certified = self.driver.certified_weights(epoch);
        proof {
            assert(says_weights(self.driver, epoch, weights_of(certified)));
        }
        let weights = match certified {
            Some(weights) => weights,
            None => return (Ghost(None), Ghost(false)),
        };
        let ghost committee = Some(weights@);
        if self.epoch_manager.installed_close_hash(epoch).is_some() {
            return (Ghost(committee), Ghost(false));
        }
        let frontiers = match self.epoch_manager.certified_frontiers(epoch, round, hash) {
            Ok(frontiers) => frontiers,
            Err(_) => return (Ghost(committee), Ghost(false)),
        };
        let acknowledged = self.driver.commit_close_record(epoch, &frontiers);
        if acknowledged {
            self.epoch_manager.publish_close(epoch, round, hash, frontiers);
        }
        (Ghost(committee), Ghost(acknowledged))
    }
}

/// A tick while an epoch is closing, or before the open one has lasted its
/// duration, sends no report: one epoch is reported once.
pub proof fn repeated_ticks_send_no_report(
    t: Turn,
    now: Timestamp,
    duration: u128,
    reporter: PublicKey,
    obligations: Set<RaiSlotId>,
    signature: Signature,
    visible: Set<RaiSlotId>,
)
    requires
        t.epochs.state.closing is Some || now.nanos < t.epochs.state.open_started_at.nanos + duration,
    ensures
        ({
            let after = t.ticked(now, duration, reporter, obligations, signature, visible);
            &&& after.commands == t.commands || (after.commands.len() == t.commands.len() + 1
                && after.commands.last() is StartClose)
            &&& after.epochs.state.open_epoch == t.epochs.state.open_epoch
        }),
{
}

/// A close is published only after its frontiers were committed and that was
/// acknowledged; otherwise the same certificate can be tried again.
pub proof fn close_waits_for_commit(t: Turn, epoch: RaiEpoch, round: u32, hash: BlockHash, committee: Option<Weights>, acknowledged: bool)
    requires
        !t.epochs.close_hashes.contains_key(epoch),
    ensures
        ({
            let after = t.record_won(epoch, round, hash, committee, acknowledged);
            &&& after.epochs.close_hashes.contains_key(epoch) ==> acknowledged && after.commands.last() == (
            EpochCommand::Commit {
                epoch,
                frontiers: t.epochs.close_records[hash].frontiers,
                acknowledged: true,
            })
            &&& !acknowledged ==> after.epochs == t.epochs
        }),
{
}

/// Once the open epoch has lasted its duration and none is closing, a tick opens the
/// next epoch from then on, begins to close this one, and reports the obligations at
/// hand, to the others and to itself.
pub proof fn due_tick_opens_the_next_epoch(
    t: Turn,
    now: Timestamp,
    duration: u128,
    reporter: PublicKey,
    obligations: Set<RaiSlotId>,
    signature: Signature,
    visible: Set<RaiSlotId>,
)
    requires
        t.epochs.state.closing is None,
        t.epochs.state.open_epoch.number < u64::MAX,
        now.nanos >= t.epochs.state.open_started_at.nanos + duration,
    ensures
        ({
            let after = t.ticked(now, duration, reporter, obligations, signature, visible);
            let epoch = t.epochs.state.open_epoch;
            let report = Report { reporter, epoch, visible_obligations: obligations, signature };
            &&& after.epochs.state.open_epoch.number == epoch.number + 1
            &&& after.epochs.state.open_started_at == now
            &&& after.epochs.is_closing(epoch, RaiClosingPhase::CollectingReports)
            &&& after.epochs.state.closed_through == t.epochs.state.closed_through
            &&& after.epochs.reports == t.epochs.reports.with_report(report)
            &&& after.commands == t.commands.push(EpochCommand::Broadcast(report))
        }),
{
}

/// While the reports are collected, the cut is put to the vote when everybody with
/// weight has reported or five seconds have passed, if enough weight has reported by
/// then, and not before.
pub proof fn cut_waits_for_reports(
    t: Turn,
    now: Timestamp,
    duration: u128,
    reporter: PublicKey,
    obligations: Set<RaiSlotId>,
    signature: Signature,
    visible: Set<RaiSlotId>,
    epoch: RaiEpoch,
    committee: Weights,
)
    requires
        t.epochs.is_closing(epoch, RaiClosingPhase::CollectingReports),
        t.epochs.close_committee(epoch) == Some(committee),
    ensures
        ({
            let after = t.ticked(now, duration, reporter, obligations, signature, visible);
            let covered = forall|k: PublicKey| #[trigger]
                weight_of(committee, k) > 0 ==> t.epochs.reports.reports.contains_key(Pair(epoch, k));
            let over = now.nanos >= t.epochs.state.open_started_at.nanos + 5_000_000_000;
            &&& (covered || over) && t.epochs.reports.has_quorum(epoch, committee) ==> {
                &&& after.epochs.is_closing(epoch, RaiClosingPhase::ElectingCut)
                &&& after.commands.len() == t.commands.len() + 1
                &&& after.commands.last() matches EpochCommand::StartClose { kind, epoch: of, round, root, hash } && kind
                    == RaiCloseKind::Cut && of == epoch && round == 0 && hash == t.epochs.cut_for(epoch, visible).hash()
            }
            &&& !((covered || over) && t.epochs.reports.has_quorum(epoch, committee)) ==> after == t
        }),
{
    let reports = t.epochs.reports;
    assert(reports.has_full_coverage(epoch, committee) <==> forall|k: PublicKey| #[trigger]
        weight_of(committee, k) > 0 ==> reports.reports.contains_key(Pair(epoch, k))) by {
        if reports.has_full_coverage(epoch, committee) {
            assert forall|k: PublicKey| #[trigger] weight_of(committee, k) > 0 implies reports.reports.contains_key(
                Pair(epoch, k),
            ) by {
                assert(reports.reporters(epoch).contains(k));
            }
        }
    }
}

/// A drained epoch puts its record to the vote as soon as the weights it fixes are
/// known, and not before; the vote begins in round zero.
pub proof fn drained_epoch_elects_its_record(t: Turn, epoch: RaiEpoch, committee: Option<Weights>)
    requires
        t.epochs.is_closing(epoch, RaiClosingPhase::Draining),
        t.epochs.drains.contains_key(epoch),
        t.epochs.drain_frontiers.contains_key(epoch),
    ensures
        ({
            let after = t.record_started(epoch, committee);
            let complete = t.epochs.drains[epoch].is_complete();
            &&& complete && committee is Some ==> {
                &&& after.epochs.is_closing(epoch, RaiClosingPhase::ElectingRecord)
                &&& after.commands.len() == t.commands.len() + 1
                &&& after.commands.last() matches EpochCommand::StartClose { kind, epoch: of, round, root, hash } && kind
                    == RaiCloseKind::Record && of == epoch && round == 0 && hash == t.epochs.local_record().hash()
                &&& after.epochs.close_records.contains_key(t.epochs.local_record().hash())
                &&& after.epochs.close_record_committees.contains_key(t.epochs.local_record().hash())
                &&& after.epochs.close_record_committees[t.epochs.local_record().hash()] == committee->0
            }
            &&& !(complete && committee is Some) ==> after == t
        }),
{
}

/// A record that won closes its epoch exactly if its weights are known, it can be
/// installed and its commit was acknowledged; the commit is asked for either way.
pub proof fn won_record_is_committed(
    t: Turn,
    epoch: RaiEpoch,
    round: u32,
    hash: BlockHash,
    committee: Option<Weights>,
    acknowledged: bool,
)
    requires
        !t.epochs.close_hashes.contains_key(epoch),
    ensures
        ({
            let after = t.record_won(epoch, round, hash, committee, acknowledged);
            let fit = committee is Some && t.epochs.install_error(epoch, round, hash) is None;
            &&& !fit ==> after == t
            &&& fit ==> after.commands == t.commands.push(
                EpochCommand::Commit { epoch, frontiers: t.epochs.close_records[hash].frontiers, acknowledged },
            )
            &&& fit && acknowledged ==> after.epochs.close_hashes.contains_key(epoch) && after.epochs.close_hashes[epoch]
                == hash && after.epochs.state.closed_through == Some(epoch) && after.epochs.state.closing is None
            &&& !acknowledged ==> after.epochs == t.epochs
        }),
{
}

/// A cut that won is drained from the confirmed frontiers, and its slots are announced.
pub proof fn won_cut_is_drained(
    t: Turn,
    epoch: RaiEpoch,
    round: u32,
    hash: BlockHash,
    heights: Seq<(Account, ConfirmationHeightInfo)>,
)
    requires
        t.epochs.cut_error(epoch, round, hash) is None,
        !t.epochs.cut_hashes.contains_key(epoch),
        !t.epochs.drain_frontiers.contains_key(epoch),
    ensures
        ({
            let after = t.cut_installed(epoch, round, hash, heights);
            &&& after.epochs.is_closing(epoch, RaiClosingPhase::Draining)
            &&& after.epochs.drains.contains_key(epoch)
            &&& after.epochs.drains[epoch].obligations == t.epochs.close_cuts[hash].obligations
            &&& after.epochs.drain_frontiers.contains_key(epoch)
            &&& after.epochs.drain_frontiers[epoch] == collected(heights)
            &&& after.commands == t.commands.push(
                EpochCommand::ApplyCut { epoch, included: t.epochs.close_cuts[hash].obligations },
            )
        }),
{
}

/// Frontiers that an epoch drains from already are kept when its cut wins again.
pub proof fn drain_keeps_its_frontiers(
    t: Turn,
    epoch: RaiEpoch,
    round: u32,
    hash: BlockHash,
    heights: Seq<(Account, ConfirmationHeightInfo)>,
)
    requires
        t.epochs.cut_error(epoch, round, hash) is None,
        t.epochs.drain_frontiers.contains_key(epoch),
    ensures
        ({
            let after = t.cut_installed(epoch, round, hash, heights);
            &&& after.epochs.drain_frontiers.contains_key(epoch)
            &&& after.epochs.drain_frontiers[epoch] == t.epochs.drain_frontiers[epoch]
            &&& after.epochs.cut_hashes.contains_key(epoch) && after.epochs.cut_hashes[epoch] == hash
        }),
{
}

/// Votes about a slot that its epoch drains are taken down: a winner raises the frontiers by
/// its segment, a release does not, and without votes nothing changes.
pub proof fn slot_votes_are_taken_down(
    t: Turn,
    epoch: RaiEpoch,
    root: QualifiedRoot,
    evidence: ElectionVotes,
    segment: Seq<(Account, ConfirmationHeightInfo)>,
)
    requires
        t.epochs.drains.contains_key(epoch),
        t.epochs.drain_frontiers.contains_key(epoch),
    ensures
        ({
            let slot = RaiSlotId { epoch, root };
            let after = t.slot_drained(epoch, root, Some(evidence), segment);
            let outcome = t.epochs.drains[epoch].outcome(slot, evidence);
            &&& after.epochs.drains[epoch] == t.epochs.drains[epoch].with_evidence(slot, evidence)
            &&& (outcome matches Some(RaiDrainOutcome::Finalized(hash)) ==> t.slot_winner(epoch, root, Some(evidence)) == Some(hash)
                && after.epochs.drain_frontiers[epoch] == raised_by(t.epochs.drain_frontiers[epoch], segment))
            &&& (outcome matches Some(RaiDrainOutcome::Selected(hash)) ==> t.slot_winner(epoch, root, Some(evidence)) == Some(hash)
                && after.epochs.drain_frontiers[epoch] == raised_by(t.epochs.drain_frontiers[epoch], segment))
            &&& outcome is None || outcome == Some(RaiDrainOutcome::ReleasedTimeout) || outcome == Some(
                RaiDrainOutcome::ReleasedConflict,
            ) ==> t.slot_winner(epoch, root, Some(evidence)) is None && after.epochs.drain_frontiers == t.epochs.drain_frontiers
            &&& t.slot_drained(epoch, root, None, segment) == t
            &&& t.slot_winner(epoch, root, None) is None
        }),
{
}

/// Votes about an attempt are stored with its round and replace those stored before; the rounds
/// of the other kind are left alone.
pub proof fn round_votes_are_stored(t: Turn, epoch: RaiEpoch, round: u32, evidence: ElectionVotes)
    ensures
        ({
            let after = t.evidence_stored(RaiCloseKind::Cut, epoch, round, Some(evidence));
            let open = t.epochs.cut_rounds.contains_key(epoch) && t.epochs.cut_rounds[epoch].rounds.contains_key(round)
                && t.epochs.cut_rounds[epoch].decision is None;
            &&& open ==> after.epochs.cut_rounds[epoch].rounds[round].evidence == evidence
            &&& !open ==> after == t
            &&& after.epochs.record_rounds == t.epochs.record_rounds
            &&& after.commands == t.commands
        }),
        ({
            let after = t.evidence_stored(RaiCloseKind::Record, epoch, round, Some(evidence));
            let open = t.epochs.record_rounds.contains_key(epoch) && t.epochs.record_rounds[epoch].rounds.contains_key(round)
                && t.epochs.record_rounds[epoch].decision is None;
            &&& open ==> after.epochs.record_rounds[epoch].rounds[round].evidence == evidence
            &&& !open ==> after == t
            &&& after.epochs.cut_rounds == t.epochs.cut_rounds
            &&& after.commands == t.commands
        }),
        t.evidence_stored(RaiCloseKind::Cut, epoch, round, None) == t,
{
}

/// A closing epoch's next round is put to the vote under the number of its round, with the value
/// that the round starts with; a round that does not start sends nothing.
pub proof fn next_round_is_put_to_the_vote(t: Turn, epoch: RaiEpoch, round: u32, hash: BlockHash)
    requires
        t.epochs.is_closing(epoch, RaiClosingPhase::ElectingCut),
        t.epochs.cut_rounds.contains_key(epoch),
    ensures
        ({
            let after = t.round_advanced(RaiCloseKind::Cut, epoch);
            &&& t.epochs.next_cut_round() == Some((round, hash)) ==> {
                &&& after.commands.len() == t.commands.len() + 1
                &&& after.commands.last() matches EpochCommand::StartClose { kind, epoch: of, round: number, root, hash: value }
                    && kind == RaiCloseKind::Cut && of == epoch && value == hash && number
                    == after.epochs.cut_rounds[epoch].current_round && root == election_root("RAI/CloseCutId", epoch, round)
            }
            &&& t.epochs.next_cut_round() is None ==> after.commands == t.commands
            &&& after.epochs == t.epochs.cut_round_advanced()
        }),
{
}

/// A tick reports exactly if a report is due, and puts the cut to the vote exactly if that is due.
pub proof fn ticks_do_what_is_due(
    t: Turn,
    now: Timestamp,
    duration: u128,
    reporter: PublicKey,
    obligations: Set<RaiSlotId>,
    signature: Signature,
    visible: Set<RaiSlotId>,
)
    requires
        t.epochs.state.open_epoch.number < u64::MAX,
    ensures
        ({
            let after = t.ticked(now, duration, reporter, obligations, signature, visible);
            &&& t.is_report_due(now, duration) <==> after.commands.len() == t.commands.len() + 1 && after.commands.last() is Broadcast
            &&& t.is_cut_due(now) <==> after.commands.len() == t.commands.len() + 1 && after.commands.last() is StartClose
            &&& !t.is_report_due(now, duration) && !t.is_cut_due(now) ==> after == t
        }),
{
}

/// News of an attempt are stored first. Without a winner the next round begins, if one does; a cut
/// or a record that won is installed, unless it cannot be.
pub proof fn news_of_an_attempt(
    t: Turn,
    epoch: RaiEpoch,
    round: u32,
    evidence: Option<ElectionVotes>,
    hash: BlockHash,
    heights: Seq<(Account, ConfirmationHeightInfo)>,
    committee: Option<Weights>,
    acknowledged: bool,
)
    ensures
        ({
            let stored = t.evidence_stored(RaiCloseKind::Cut, epoch, round, evidence);
            let won = t.close_changed(RaiCloseKind::Cut, epoch, round, evidence, Some(hash), heights, committee, acknowledged);
            let open = t.close_changed(RaiCloseKind::Cut, epoch, round, evidence, None, heights, committee, acknowledged);
            &&& stored.epochs.cut_error(epoch, round, hash) is Some ==> won == stored
            &&& stored.epochs.cut_error(epoch, round, hash) is None ==> won.epochs.cut_hashes.contains_key(epoch)
                && won.epochs.cut_hashes[epoch] == hash
            &&& open.epochs == stored.epochs.cut_round_advanced()
        }),
        ({
            let stored = t.evidence_stored(RaiCloseKind::Record, epoch, round, evidence);
            let won = t.close_changed(RaiCloseKind::Record, epoch, round, evidence, Some(hash), heights, committee, acknowledged);
            let open = t.close_changed(RaiCloseKind::Record, epoch, round, evidence, None, heights, committee, acknowledged);
            &&& !acknowledged ==> won.epochs == stored.epochs
            &&& won.epochs.close_hashes.contains_key(epoch) && !stored.epochs.close_hashes.contains_key(epoch)
                ==> won.epochs.close_hashes[epoch] == hash && acknowledged && committee is Some
            &&& open.epochs == stored.epochs.record_round_advanced()
        }),
{
}

/// When the votes about the last open slot come in and the weights are known, the record goes to
/// the vote.
pub proof fn last_slot_starts_the_record(
    t: Turn,
    epoch: RaiEpoch,
    root: QualifiedRoot,
    evidence: Option<ElectionVotes>,
    segment: Seq<(Account, ConfirmationHeightInfo)>,
    committee: Weights,
)
    requires
        t.epochs.is_closing(epoch, RaiClosingPhase::Draining),
        t.epochs.drains.contains_key(epoch),
        t.epochs.drain_frontiers.contains_key(epoch),
    ensures
        ({
            let taken = t.slot_drained(epoch, root, evidence, segment);
            let after = t.slot_changed(epoch, root, evidence, segment, Some(committee));
            &&& taken.epochs.drains[epoch].is_complete() <==> after.epochs.is_closing(epoch, RaiClosingPhase::ElectingRecord)
            &&& !taken.epochs.drains[epoch].is_complete() ==> after == taken
            &&& t.slot_changed(epoch, root, evidence, segment, None) == taken
        }),
{
}

}
