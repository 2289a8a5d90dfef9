//! How the members of a committee close an epoch together.
//!
//! At the end of an epoch each member reports its pending elections. The ones
//! that enough members report make up the cut, whose elections must still end.
//! Then the members report what they finalized, in rounds, until all agree.
use vstd::prelude::*;

use crate::candidate_selection::{ancestors_are_followed_down, in_ledger, merge, selection_keeps_what_is_finalized};
use crate::dependency_closure::{
    asked_in, complete_closure_accounts_for_everything, is_bottom, is_elsewhere, no_hash, BlockGraph, Closure, ClosureError,
    Graph,
};
use crate::epoch_commitment::{
    closure_commitment, cut_slots_hash, cut_slots_message, hash_of, CompleteClosure, DependencyDeath, EpochEnd,
};
use crate::epoch_reports::{
    all_complete, check_all_complete, collect_reported_slots, collect_supported_slots, cut_needs_one_more_than_the_faulty,
    first_missing_part_is_asked_for, lists, pieces, pieces_make_up_the_whole, reported_slots, split, supported_slots, views,
    AddressedRequest, EpochReportChunk, EpochReportRequest, Partial, PartialReport, ReportChunk,
};
use crate::ordered::{
    ascending, copy_all, lemma_ascending, lemma_take_set, sorted_map_is_finite, sorted_set_is_finite, Duplicate, Key,
    Pair, SortedMap, SortedSet,
};
use crate::types::{BlockHash, PublicKey};
use crate::vote_gate::{EpochRoot, Gate, Policy, SlotRoot, VoteGate};

verus! {

broadcast use {sorted_map_is_finite, sorted_set_is_finite};

/// What is known of the branch that ends in a finalized block.
pub enum Branch {
    /// Its blocks, each after what it depends on.
    Whole(Vec<BlockHash>),
    /// One of its blocks is not at hand.
    Missing(BlockHash),
    /// The branch contradicts what is finalized, or is damaged.
    Refused,
}

/// When an epoch starts and when it closes.
#[derive(Clone, Copy, Debug, PartialEq, Eq, Structural)]
pub struct EpochStart {
    pub epoch: u64,
    pub starts_at_unix_ms: u64,
    pub closes_at_unix_ms: u64,
}

impl EpochStart {
    /// Closes no later than `other`.
    pub open spec fn capped_by(self, other: EpochStart) -> EpochStart {
        EpochStart {
            closes_at_unix_ms: if other.closes_at_unix_ms < self.closes_at_unix_ms {
                other.closes_at_unix_ms
            } else {
                self.closes_at_unix_ms
            },
            ..self
        }
    }

    fn capped(&self, other: &EpochStart) -> (r: EpochStart)
        ensures
            r == self.capped_by(*other),
    {
        let closes_at_unix_ms: u64 = if other.closes_at_unix_ms < self.closes_at_unix_ms {
            other.closes_at_unix_ms
        } else {
            self.closes_at_unix_ms
        };
        EpochStart { epoch: self.epoch, starts_at_unix_ms: self.starts_at_unix_ms, closes_at_unix_ms }
    }
}

/// What a member reports of how an epoch ended.
#[derive(Clone, Copy, Debug, PartialEq, Eq, Structural)]
pub struct EpochFinalization {
    pub reporter: PublicKey,
    pub epoch: u64,
    pub round: u32,
    pub finalized_hash: BlockHash,
    pub non_cut_count: u64,
}

impl DeepView for EpochFinalization {
    type V = EpochFinalization;

    open spec fn deep_view(&self) -> EpochFinalization {
        *self
    }
}

impl Duplicate for EpochFinalization {
    fn duplicate(&self) -> (r: Self) {
        *self
    }

    fn agrees(&self, other: &Self) -> (r: bool) {
        *self == *other
    }
}

/// Why a candidate cannot win any more.
#[derive(Clone, Copy, Debug, PartialEq, Eq, Structural)]
pub struct Loss {
    pub dependency: BlockHash,
    pub winner: BlockHash,
}

impl DeepView for Loss {
    type V = Loss;

    open spec fn deep_view(&self) -> Loss {
        *self
    }
}

/// A candidate of an election.
#[derive(Clone, Copy, Debug, PartialEq, Eq, Structural)]
pub struct Candidate {
    pub hash: BlockHash,
    pub slot: SlotRoot,
    pub previous: BlockHash,
    pub source: BlockHash,
}

/// An election that has not ended, with its leading candidate.
#[derive(Clone, Copy, Debug, PartialEq, Eq, Structural)]
pub struct PendingElection {
    pub slot: SlotRoot,
    pub hash: BlockHash,
}

/// Where the closing epoch stands.
#[derive(Clone, Copy, Debug, PartialEq, Eq, Structural)]
pub enum Phase {
    Waiting,
    Scheduled { start: EpochStart },
    Open { start: EpochStart },
    /// The reports about the pending elections come in.
    Collecting,
    /// The elections of the cut run to their end.
    Cut,
    /// The members agree on what is finalized.
    Converging,
    Complete,
}

/// Closes epochs together with the other members of the committee.
pub struct EpochCoordinator {
    pub phase: Phase,
    pub committee: SortedSet<PublicKey>,
    /// What came in of the reports about the closing epoch.
    pub reports: SortedMap<PublicKey, PartialReport>,
    /// What came in early of the reports about the epoch after it.
    pub next_epoch_reports: SortedMap<PublicKey, PartialReport>,
    /// The parts of the own reports, by epoch and index.
    pub local_report_chunks: SortedMap<Pair<u64, u16>, EpochReportChunk>,
    pub next_report_request_ms: u64,
    /// What was pending here when the epoch closed.
    pub local_snapshot: SortedMap<SlotRoot, BlockHash>,
    /// The elections that must end before the epoch is complete.
    pub cut: SortedSet<SlotRoot>,
    /// The elections for which votes and blocks are recovered.
    pub recovery_cut: SortedSet<SlotRoot>,
    pub finalization_round: u32,
    pub target_non_cut_count: u64,
    /// The reports of the current round.
    pub finalization_reports: SortedMap<PublicKey, EpochFinalization>,
    /// Reports of later rounds.
    pub future_finalization_reports: SortedMap<u32, SortedMap<PublicKey, EpochFinalization>>,
    /// The own reports, by epoch and round.
    pub local_round_reports: SortedMap<Pair<u64, u32>, EpochFinalization>,
    /// What the own report of the current round commits to.
    pub local_round_snapshot: Option<CompleteClosure>,
    /// How the cut stood in the own reports.
    pub local_round_cut_hashes: SortedMap<Pair<u64, u32>, BlockHash>,
    /// What would be committed to now.
    pub live_epoch_hash: Option<BlockHash>,
    /// Another member goes first in the current round.
    pub wait_for_round_peer: bool,
    pub closing_epoch: u64,
    pub open_epoch: Option<u64>,
    pub next_start: Option<EpochStart>,
    pub next_finalization_broadcast_ms: u64,
    /// The candidates that lost through a dependency.
    pub dependency_dead: SortedMap<BlockHash, Loss>,
    pub next_final_vote_recovery_ms: u64,
    pub recovery_pass_complete: bool,
    /// The candidates when the epoch closed.
    pub closing_candidates: Vec<Candidate>,
    /// The blocks that were recovered, with their slots.
    pub recovery_blocks: SortedMap<BlockHash, SlotRoot>,
    /// The blocks to ask for, with the epoch that needs them.
    pub missing_vote_blocks: SortedSet<Pair<u64, BlockHash>>,
    pub next_block_recovery_ms: u64,
    /// The finalized blocks whose dependencies are accounted for.
    pub expanded_finalizations: SortedSet<Pair<u64, BlockHash>>,
}

/// The model of the coordinator.
#[verifier::ext_equal]
pub struct Coordinator {
    pub phase: Phase,
    pub committee: Set<PublicKey>,
    pub reports: Map<PublicKey, Partial>,
    pub next_epoch_reports: Map<PublicKey, Partial>,
    pub local_report_chunks: Map<Pair<u64, u16>, ReportChunk>,
    pub next_report_request_ms: u64,
    pub local_snapshot: Map<SlotRoot, BlockHash>,
    pub cut: Set<SlotRoot>,
    pub recovery_cut: Set<SlotRoot>,
    pub finalization_round: u32,
    pub target_non_cut_count: u64,
    pub finalization_reports: Map<PublicKey, EpochFinalization>,
    pub future_finalization_reports: Map<u32, Map<PublicKey, EpochFinalization>>,
    pub local_round_reports: Map<Pair<u64, u32>, EpochFinalization>,
    pub local_round_snapshot: Option<EpochEnd>,
    pub local_round_cut_hashes: Map<Pair<u64, u32>, BlockHash>,
    pub live_epoch_hash: Option<BlockHash>,
    pub wait_for_round_peer: bool,
    pub closing_epoch: u64,
    pub open_epoch: Option<u64>,
    pub next_start: Option<EpochStart>,
    pub next_finalization_broadcast_ms: u64,
    pub dependency_dead: Map<BlockHash, Loss>,
    pub next_final_vote_recovery_ms: u64,
    pub recovery_pass_complete: bool,
    pub closing_candidates: Seq<Candidate>,
    pub recovery_blocks: Map<BlockHash, SlotRoot>,
    pub missing_vote_blocks: Set<Pair<u64, BlockHash>>,
    pub next_block_recovery_ms: u64,
    pub expanded_finalizations: Set<Pair<u64, BlockHash>>,
}

impl View for EpochCoordinator {
    type V = Coordinator;

    open spec fn view(&self) -> Coordinator {
        Coordinator {
            phase: self.phase,
            committee: self.committee@,
            reports: self.reports@,
            next_epoch_reports: self.next_epoch_reports@,
            local_report_chunks: self.local_report_chunks@,
            next_report_request_ms: self.next_report_request_ms,
            local_snapshot: self.local_snapshot@,
            cut: self.cut@,
            recovery_cut: self.recovery_cut@,
            finalization_round: self.finalization_round,
            target_non_cut_count: self.target_non_cut_count,
            finalization_reports: self.finalization_reports@,
            future_finalization_reports: self.future_finalization_reports@,
            local_round_reports: self.local_round_reports@,
            local_round_snapshot: self.local_round_snapshot.deep_view(),
            local_round_cut_hashes: self.local_round_cut_hashes@,
            live_epoch_hash: self.live_epoch_hash,
            wait_for_round_peer: self.wait_for_round_peer,
            closing_epoch: self.closing_epoch,
            open_epoch: self.open_epoch,
            next_start: self.next_start,
            next_finalization_broadcast_ms: self.next_finalization_broadcast_ms,
            dependency_dead: self.dependency_dead@,
            next_final_vote_recovery_ms: self.next_final_vote_recovery_ms,
            recovery_pass_complete: self.recovery_pass_complete,
            closing_candidates: self.closing_candidates@,
            recovery_blocks: self.recovery_blocks@,
            missing_vote_blocks: self.missing_vote_blocks@,
            next_block_recovery_ms: self.next_block_recovery_ms,
            expanded_finalizations: self.expanded_finalizations@,
        }
    }
}

impl Coordinator {
    /// Nothing has happened yet.
    pub open spec fn fresh(committee: Set<PublicKey>) -> Coordinator {
        Coordinator {
            phase: Phase::Waiting,
            committee,
            reports: Map::empty(),
            next_epoch_reports: Map::empty(),
            local_report_chunks: Map::empty(),
            next_report_request_ms: 0,
            local_snapshot: Map::empty(),
            cut: Set::empty(),
            recovery_cut: Set::empty(),
            finalization_round: 0,
            target_non_cut_count: 0,
            finalization_reports: Map::empty(),
            future_finalization_reports: Map::empty(),
            local_round_reports: Map::empty(),
            local_round_snapshot: None,
            local_round_cut_hashes: Map::empty(),
            live_epoch_hash: None,
            wait_for_round_peer: false,
            closing_epoch: 0,
            open_epoch: None,
            next_start: None,
            next_finalization_broadcast_ms: 0,
            dependency_dead: Map::empty(),
            next_final_vote_recovery_ms: 0,
            recovery_pass_complete: false,
            closing_candidates: Seq::empty(),
            recovery_blocks: Map::empty(),
            missing_vote_blocks: Set::empty(),
            next_block_recovery_ms: 0,
            expanded_finalizations: Set::empty(),
        }
    }

    /// A next start is scheduled only behind the epoch at hand.
    pub open spec fn is_ordered(self) -> bool {
        &&& self.phase == Phase::Waiting ==> self.next_start is None
        &&& match self.next_start {
            Some(next) => next.epoch == self.closing_epoch + 1,
            None => true,
        }
    }

    /// The epoch is the one after the epoch at hand.
    pub open spec fn is_next(self, epoch: u64) -> bool {
        epoch == self.closing_epoch + 1
    }

    /// After the start of an epoch was announced.
    pub open spec fn scheduled(self, start: EpochStart) -> Coordinator {
        match self.phase {
            Phase::Scheduled { start: current } if start.epoch == current.epoch => Coordinator {
                phase: Phase::Scheduled { start: current.capped_by(start) },
                ..self
            },
            Phase::Open { start: current } if start.epoch == current.epoch => Coordinator {
                phase: Phase::Open { start: current.capped_by(start) },
                ..self
            },
            Phase::Waiting => Coordinator {
                phase: Phase::Scheduled { start },
                closing_epoch: start.epoch,
                reports: if self.is_next(start.epoch) {
                    self.next_epoch_reports
                } else {
                    self.reports
                },
                next_epoch_reports: if self.is_next(start.epoch) {
                    Map::empty()
                } else {
                    self.next_epoch_reports
                },
                ..self
            },
            _ => if self.is_next(start.epoch) {
                Coordinator {
                    next_start: Some(
                        match self.next_start {
                            Some(next) => next.capped_by(start),
                            None => start,
                        },
                    ),
                    ..self
                }
            } else {
                self
            },
        }
    }

    /// The vote gate after the start of an epoch was announced.
    pub open spec fn gate_when_scheduled(self, gate: Gate, start: EpochStart) -> Gate {
        if self.phase == Phase::Waiting {
            Gate { policy: Policy::Paused, finalized: gate.finalized.remove(start.epoch), ..gate }
        } else {
            gate
        }
    }

    /// A part of a report counts: it is authentic, from a member, and about the
    /// epoch at hand or the next one.
    pub open spec fn heeds(self, chunk: ReportChunk, authentic: bool) -> bool {
        &&& authentic
        &&& self.committee.contains(chunk.reporter)
        &&& chunk.epoch == self.closing_epoch || self.is_next(chunk.epoch)
    }

    /// What came in of the report that the part belongs to.
    pub open spec fn partial(self, chunk: ReportChunk) -> Partial {
        let reports = if self.is_next(chunk.epoch) {
            self.next_epoch_reports
        } else {
            self.reports
        };
        if reports.contains_key(chunk.reporter) {
            reports[chunk.reporter]
        } else {
            Partial::nothing()
        }
    }

    /// After a part of a report came in.
    pub open spec fn reported(self, chunk: ReportChunk, authentic: bool) -> Coordinator {
        if !self.heeds(chunk, authentic) {
            self
        } else if self.is_next(chunk.epoch) {
            Coordinator {
                next_epoch_reports: self.next_epoch_reports.insert(chunk.reporter, self.partial(chunk).with(chunk)),
                ..self
            }
        } else {
            Coordinator { reports: self.reports.insert(chunk.reporter, self.partial(chunk).with(chunk)), ..self }
        }
    }

    /// A part of a report widens the provisional cut.
    pub open spec fn widens_cut(self, chunk: ReportChunk, authentic: bool) -> bool {
        &&& self.heeds(chunk, authentic)
        &&& !self.is_next(chunk.epoch)
        &&& self.partial(chunk).takes(chunk)
        &&& match self.phase {
            Phase::Open { start } => true,
            Phase::Collecting | Phase::Cut => true,
            _ => false,
        }
    }

    /// The part of the own report that a request is answered with.
    pub open spec fn response(self, request: EpochReportRequest, authentic: bool) -> Option<ReportChunk> {
        let place = Pair(request.epoch, request.chunk_index);
        if authentic && self.committee.contains(request.requester) && self.local_report_chunks.contains_key(place) {
            Some(self.local_report_chunks[place])
        } else {
            None
        }
    }

    /// The part to ask a member for.
    pub open spec fn wanted(self, reporter: PublicKey) -> Option<u16> {
        if self.reports.contains_key(reporter) {
            self.reports[reporter].gap(0)
        } else {
            Some(0)
        }
    }

    /// The requests to the members of a list.
    pub open spec fn requests(self, key: PublicKey, members: Seq<PublicKey>) -> Seq<AddressedRequest>
        decreases members.len(),
    {
        if members.len() == 0 {
            Seq::empty()
        } else {
            let before = self.requests(key, members.drop_last());
            let reporter = members.last();
            if reporter != key && self.wanted(reporter) is Some {
                before.push(
                    AddressedRequest {
                        reporter,
                        request: EpochReportRequest {
                            requester: key,
                            epoch: self.closing_epoch,
                            chunk_index: self.wanted(reporter)->0,
                        },
                    },
                )
            } else {
                before
            }
        }
    }

    /// The requests for all parts that are missing.
    pub open spec fn missing_requests(self, key: Option<PublicKey>) -> Seq<AddressedRequest> {
        match key {
            Some(key) => self.requests(key, ascending(self.committee)),
            None => Seq::empty(),
        }
    }

    /// Parts of reports are asked for.
    pub open spec fn asks_for_reports(self, now: u64) -> bool {
        self.phase == Phase::Collecting && now >= self.next_report_request_ms
    }

    /// The state after missing reports were asked for.
    pub open spec fn reports_asked(self, now: u64) -> Coordinator {
        Coordinator { next_report_request_ms: (now + 1_000) as u64, ..self }
    }

    /// Votes are asked for at this time.
    pub open spec fn asks_for_votes(self, now: u64) -> bool {
        now >= self.next_final_vote_recovery_ms
    }

    /// The state after votes were asked for.
    pub open spec fn votes_asked(self, now: u64) -> Coordinator {
        Coordinator { next_final_vote_recovery_ms: (now + 1_000) as u64, ..self }
    }

    /// The own reports are sent again at this time.
    pub open spec fn rebroadcasts(self, now: u64) -> bool {
        now >= self.next_finalization_broadcast_ms
    }

    /// The state after the own reports were sent again.
    pub open spec fn rebroadcast(self, now: u64) -> Coordinator {
        Coordinator { next_finalization_broadcast_ms: (now + 250) as u64, ..self }
    }

    /// The state after the blocks that are still missing were asked for.
    pub open spec fn blocks_asked(self, now: u64, missing: Set<Pair<u64, BlockHash>>) -> Coordinator {
        Coordinator { missing_vote_blocks: missing, next_block_recovery_ms: (now + 1_000) as u64, ..self }
    }

    /// A report of how the epoch ended counts: it is authentic, from a member,
    /// about the epoch that closes, and not about an earlier round.
    pub open spec fn hears(self, report: EpochFinalization, authentic: bool) -> bool {
        &&& match self.phase {
            Phase::Collecting | Phase::Cut | Phase::Converging => true,
            _ => false,
        }
        &&& report.epoch == self.closing_epoch
        &&& self.committee.contains(report.reporter)
        &&& authentic
        &&& report.round >= self.finalization_round
    }

    /// The reports of a later round.
    pub open spec fn future(self, round: u32) -> Map<PublicKey, EpochFinalization> {
        if self.future_finalization_reports.contains_key(round) {
            self.future_finalization_reports[round]
        } else {
            Map::empty()
        }
    }

    /// After a report of how the epoch ended came in. The first one of a member
    /// and a round stays.
    pub open spec fn heard(self, report: EpochFinalization, authentic: bool) -> Coordinator {
        if !self.hears(report, authentic) {
            self
        } else if report.round > self.finalization_round {
            let round = self.future(report.round);
            Coordinator {
                future_finalization_reports: self.future_finalization_reports.insert(
                    report.round,
                    if round.contains_key(report.reporter) {
                        round
                    } else {
                        round.insert(report.reporter, report)
                    },
                ),
                ..self
            }
        } else if self.finalization_reports.contains_key(report.reporter) {
            self
        } else {
            Coordinator {
                finalization_reports: self.finalization_reports.insert(report.reporter, report),
                ..self
            }
        }
    }
}

/// What the end of an epoch makes a node report.
pub open spec fn own_chunks(key: PublicKey, epoch: u64, parts: Seq<Seq<SlotRoot>>) -> Seq<ReportChunk> {
    Seq::new(
        parts.len(),
        |i: int|
            ReportChunk {
                reporter: key,
                epoch,
                chunk_index: i as u16,
                chunk_count: parts.len() as u16,
                elections: parts[i],
            },
    )
}

/// The slots of elections.
pub open spec fn slots_of(pending: Seq<PendingElection>) -> Seq<SlotRoot> {
    Seq::new(pending.len(), |i: int| pending[i].slot)
}

/// A report in parts. A report about no election has one empty part.
pub open spec fn report_parts(elections: Seq<SlotRoot>, size: int) -> Seq<Seq<SlotRoot>> {
    if elections.len() == 0 {
        seq![Seq::empty()]
    } else {
        pieces(elections, size)
    }
}

/// The leading candidates by slot; of two for one slot the last counts.
pub open spec fn leaders(pending: Seq<PendingElection>) -> Map<SlotRoot, BlockHash>
    decreases pending.len(),
{
    if pending.len() == 0 {
        Map::empty()
    } else {
        leaders(pending.drop_last()).insert(pending.last().slot, pending.last().hash)
    }
}

/// The hashes of those slots that are in the cut, or of those that are not.
pub open spec fn hashes_where(snapshot: Map<SlotRoot, BlockHash>, slots: Seq<SlotRoot>, cut: Set<SlotRoot>, inside: bool) -> Seq<
    BlockHash,
>
    decreases slots.len(),
{
    if slots.len() == 0 {
        Seq::empty()
    } else {
        let before = hashes_where(snapshot, slots.drop_last(), cut, inside);
        if cut.contains(slots.last()) == inside {
            before.push(snapshot[slots.last()])
        } else {
            before
        }
    }
}

/// The blocks that candidates of the cut stand on.
pub open spec fn foundations(candidates: Seq<Candidate>, cut: Set<SlotRoot>) -> Set<BlockHash> {
    Set::new(
        |h: BlockHash|
            exists|i: int|
                0 <= i < candidates.len() && cut.contains((#[trigger] candidates[i]).slot) && (candidates[i].previous == h
                    || candidates[i].source == h),
    )
}

/// What the node has to do once the cut is known.
pub struct CutInstallation {
    /// The elections that may still be voted on.
    pub drain_cut: SortedSet<SlotRoot>,
    pub cut_hash: BlockHash,
    /// The leading candidates of the own pending elections in the cut.
    pub cut: Vec<BlockHash>,
    /// The leading candidates of the other ones.
    pub non_cut: Vec<BlockHash>,
    /// The recovered blocks that are candidates in the cut.
    pub recovered: SortedSet<BlockHash>,
}

/// Which blocks to attach to elections and which ones to ask for.
pub struct BlockRecovery {
    pub attach: SortedSet<Pair<u64, BlockHash>>,
    pub batches: SortedMap<u64, SortedSet<BlockHash>>,
}

/// The hashes of each epoch.
pub open spec fn by_epoch(wanted: Set<Pair<u64, BlockHash>>) -> Map<u64, Set<BlockHash>> {
    Map::new(
        |epoch: u64| exists|h: BlockHash| #[trigger] wanted.contains(Pair(epoch, h)),
        |epoch: u64| Set::new(|h: BlockHash| wanted.contains(Pair(epoch, h))),
    )
}

impl Coordinator {
    /// The epoch that opens while `epoch` closes.
    pub open spec fn opening(self, epoch: u64) -> Option<u64> {
        match self.next_start {
            Some(next) => if next.epoch == epoch + 1 {
                Some(next.epoch)
            } else {
                None
            },
            None => None,
        }
    }

    /// After the pending elections were noted at the end of an epoch.
    pub open spec fn noted(self, epoch: u64, pending: Seq<PendingElection>, candidates: Seq<Candidate>) -> Coordinator {
        Coordinator {
            closing_candidates: candidates,
            local_snapshot: leaders(pending),
            open_epoch: self.opening(epoch),
            ..self
        }
    }

    /// After an own part was filed and taken in. What was filed first stays.
    pub open spec fn filed(self, chunk: ReportChunk) -> Coordinator {
        let place = Pair(chunk.epoch, chunk.chunk_index);
        Coordinator {
            local_report_chunks: if self.local_report_chunks.contains_key(place) {
                self.local_report_chunks
            } else {
                self.local_report_chunks.insert(place, chunk)
            },
            ..self.reported(chunk, true)
        }
    }

    /// After several own parts were filed.
    pub open spec fn filed_all(self, chunks: Seq<ReportChunk>) -> Coordinator
        decreases chunks.len(),
    {
        if chunks.len() == 0 {
            self
        } else {
            self.filed_all(chunks.drop_last()).filed(chunks.last())
        }
    }

    /// The parts of the own report.
    pub open spec fn own_report(self, key: PublicKey, epoch: u64, pending: Seq<PendingElection>, size: int) -> Seq<
        ReportChunk,
    > {
        own_chunks(key, epoch, report_parts(slots_of(pending), size))
    }

    /// After the epoch was closed here.
    pub open spec fn closing(
        self,
        epoch: u64,
        pending: Seq<PendingElection>,
        candidates: Seq<Candidate>,
        key: Option<PublicKey>,
        size: int,
    ) -> Coordinator {
        let noted = self.noted(epoch, pending, candidates);
        match key {
            Some(key) => Coordinator { phase: Phase::Collecting, ..noted }.filed_all(
                self.own_report(key, epoch, pending, size),
            ),
            None => noted,
        }
    }

    /// The vote gate after the epoch was closed here.
    pub open spec fn gate_when_closed(self, gate: Gate, epoch: u64) -> Gate {
        Gate {
            policy: Policy::Collecting { closing_epoch: epoch, open_epoch: self.opening(epoch) },
            finalized: match self.opening(epoch) {
                Some(open) => gate.finalized.remove(open),
                None => gate.finalized,
            },
            ..gate
        }
    }

    /// The cut: what enough members report and what no earlier epoch finalized.
    pub open spec fn agreed_cut(self, finalized_earlier: Set<SlotRoot>) -> Set<SlotRoot> {
        supported_slots(self.reports, self.committee.len()).difference(finalized_earlier)
    }

    /// What may be voted on while the cut drains: all that is reported, and
    /// what the candidates of the cut depend on.
    pub open spec fn drained_by(self, finalized_earlier: Set<SlotRoot>, repair: Seq<Candidate>, graph: Graph) -> Set<
        SlotRoot,
    > {
        let cut = self.agreed_cut(finalized_earlier);
        reported_slots(self.reports).union(graph.ancestor_slots(foundations(self.closing_candidates + repair, cut)))
    }

    /// After the cut was installed.
    pub open spec fn with_cut(self, cut: Set<SlotRoot>) -> Coordinator {
        Coordinator {
            cut,
            recovery_cut: cut,
            phase: Phase::Cut,
            next_final_vote_recovery_ms: 0,
            recovery_pass_complete: false,
            ..self
        }
    }

    /// The elections to ask votes for.
    pub open spec fn vote_slots(self, unfinalized: Set<SlotRoot>, missing: Set<SlotRoot>) -> Set<SlotRoot> {
        if self.phase == Phase::Cut || self.phase == Phase::Converging {
            unfinalized.union(missing)
        } else {
            unfinalized
        }
    }

    /// After the vote of a member named blocks.
    pub open spec fn saw_vote(
        self,
        voter: PublicKey,
        epoch: u64,
        hashes: Seq<BlockHash>,
        authentic: bool,
        known: Set<BlockHash>,
    ) -> Coordinator {
        if authentic && self.committee.contains(voter) {
            Coordinator {
                missing_vote_blocks: self.missing_vote_blocks.union(
                    Set::new(
                        |p: Pair<u64, BlockHash>|
                            p.0 == epoch && hashes.contains(p.1) && !known.contains(p.1) && p.1 != no_hash(),
                    ),
                ),
                ..self
            }
        } else {
            self
        }
    }

    /// After an epoch came to wait for a block.
    pub open spec fn waits_for(self, epoch: u64, hash: BlockHash) -> Coordinator {
        Coordinator { missing_vote_blocks: self.missing_vote_blocks.insert(Pair(epoch, hash)), ..self }
    }

    /// The epochs that wait for a block.
    pub open spec fn waiting_epochs(self, hash: BlockHash) -> Set<u64> {
        Set::new(|epoch: u64| self.missing_vote_blocks.contains(Pair(epoch, hash)))
    }

    /// After a block was recovered.
    pub open spec fn recovered(self, hash: BlockHash, slot: SlotRoot) -> Coordinator {
        Coordinator {
            recovery_blocks: if self.recovery_blocks.contains_key(hash) {
                self.recovery_blocks
            } else {
                self.recovery_blocks.insert(hash, slot)
            },
            ..self
        }
    }

    /// With more blocks to ask for.
    pub open spec fn missing_more(self, found: Set<Pair<u64, BlockHash>>) -> Coordinator {
        Coordinator { missing_vote_blocks: self.missing_vote_blocks.union(found), ..self }
    }

    /// Blocks are asked for.
    pub open spec fn asks_for_blocks(self, now: u64) -> bool {
        now >= self.next_block_recovery_ms && self.missing_vote_blocks != Set::<Pair<u64, BlockHash>>::empty()
    }

    /// The blocks that are still unknown.
    pub open spec fn still_missing(self, saved: Set<BlockHash>, retained: Set<BlockHash>) -> Set<Pair<u64, BlockHash>> {
        Set::new(
            |p: Pair<u64, BlockHash>|
                self.missing_vote_blocks.contains(p) && !saved.contains(p.1) && !retained.contains(p.1),
        )
    }

    /// The blocks that are in the ledger but not in their election.
    pub open spec fn attachable(self, saved: Set<BlockHash>, active: Set<Pair<u64, BlockHash>>) -> Set<
        Pair<u64, BlockHash>,
    > {
        Set::new(
            |p: Pair<u64, BlockHash>|
                self.missing_vote_blocks.contains(p) && saved.contains(p.1) && !active.contains(p),
        )
    }

    /// The own reports, in the order of their epochs and rounds.
    pub open spec fn own_finalizations(self) -> Seq<EpochFinalization> {
        let places = ascending(self.local_round_reports.dom());
        Seq::new(places.len(), |i: int| self.local_round_reports[places[i]])
    }
}

proof fn lemma_pieces_len<T>(q: Seq<T>, size: int, n: int)
    requires
        size > 0,
        n >= 0,
        q.len() <= size * n,
    ensures
        pieces(q, size).len() <= n,
    decreases q.len(),
{
    if q.len() == 0 {
    } else if q.len() <= size {
        assert(n > 0) by (nonlinear_arith)
            requires
                n >= 0,
                0 < q.len() <= size * n,
        ;
    } else {
        assert(size * (n - 1) == size * n - size) by (nonlinear_arith);
        assert(n > 0) by (nonlinear_arith)
            requires
                n >= 0,
                0 < q.len() <= size * n,
        ;
        lemma_pieces_len(q.skip(size), size, n - 1);
    }
}

/// What is known about the epoch that closes.
pub struct EpochFacts {
    pub graph: BlockGraph,
    /// What the epoch finalized so far.
    pub finalized: SortedMap<SlotRoot, BlockHash>,
    /// The candidates at hand.
    pub repair: SortedMap<SlotRoot, SortedSet<BlockHash>>,
    /// The candidates of the cut that the votes speak for.
    pub observed: SortedSet<BlockHash>,
    /// The elections that have ended, whether or not they finalized a block.
    pub terminated: SortedSet<SlotRoot>,
    /// The elections for which votes are still to be recovered.
    pub wanting: SortedSet<SlotRoot>,
}

/// The model of what is known about the epoch.
#[verifier::ext_equal]
pub struct Facts {
    pub graph: Graph,
    pub finalized: Map<SlotRoot, BlockHash>,
    pub repair: Map<SlotRoot, Set<BlockHash>>,
    pub observed: Set<BlockHash>,
    pub terminated: Set<SlotRoot>,
    pub wanting: Set<SlotRoot>,
}

impl View for EpochFacts {
    type V = Facts;

    open spec fn view(&self) -> Facts {
        Facts {
            graph: self.graph@,
            finalized: self.finalized@,
            repair: self.repair@,
            observed: self.observed@,
            terminated: self.terminated@,
            wanting: self.wanting@,
        }
    }
}

impl Facts {
    /// The block is a candidate for one of the slots.
    pub open spec fn offers(self, slots: Set<SlotRoot>, hash: BlockHash) -> bool {
        exists|slot: SlotRoot| #[trigger]
            self.repair.contains_key(slot) && slots.contains(slot) && self.repair[slot].contains(hash)
    }

    /// The candidates that lost through a dependency.
    pub open spec fn losses(self, epoch: u64, slots: Set<SlotRoot>) -> Map<BlockHash, Loss> {
        Map::new(
            |h: BlockHash| self.offers(slots, h) && self.graph.load(epoch, h) is FinalizedConflict,
            |h: BlockHash|
                Loss { dependency: self.graph.load(epoch, h)->hash, winner: self.graph.load(epoch, h)->winner },
        )
    }

    /// The blocks to ask for on account of the candidates.
    pub open spec fn lacking(self, epoch: u64, slots: Set<SlotRoot>) -> Set<BlockHash> {
        Set::new(
            |x: BlockHash|
                exists|h: BlockHash| #[trigger]
                    self.offers(slots, h) && self.graph.closed(epoch, seq![h]).missing.contains(x),
        )
    }

    /// Every candidate for the slot has lost.
    pub open spec fn is_lost(self, slot: SlotRoot, dead: Map<BlockHash, Loss>) -> bool {
        &&& self.repair.contains_key(slot)
        &&& self.repair[slot] != Set::<BlockHash>::empty()
        &&& self.repair[slot].subset_of(dead.dom())
    }

    /// The slots that are finalized or can still be won.
    pub open spec fn unresolved(self, slots: Set<SlotRoot>, dead: Map<BlockHash, Loss>) -> Set<SlotRoot> {
        Set::new(
            |slot: SlotRoot| slots.contains(slot) && (self.finalized.contains_key(slot) || !self.is_lost(slot, dead)),
        )
    }

    /// The elections that have ended. A finalized slot has none left.
    pub open spec fn ended(self) -> Set<SlotRoot> {
        self.terminated.union(self.finalized.dom())
    }

    /// Every election of the cut that can still be won has ended.
    pub open spec fn is_resolved(self, cut: Set<SlotRoot>, dead: Map<BlockHash, Loss>) -> bool {
        self.unresolved(cut, dead).subset_of(self.ended())
    }

    /// The lost candidates of the slots of the cut that nothing can win any more.
    pub open spec fn deaths(self, cut: Set<SlotRoot>, dead: Map<BlockHash, Loss>) -> Set<DependencyDeath> {
        Set::new(
            |d: DependencyDeath|
                self.offers(cut.difference(self.unresolved(cut, dead)), d.candidate) && dead.contains_key(d.candidate)
                    && dead[d.candidate] == (Loss { dependency: d.dependency, winner: d.winner }),
        )
    }

    /// What was finalized, in the order in which its dependencies are explored.
    pub open spec fn roots(self) -> Seq<BlockHash> {
        ascending(self.finalized.values())
    }

    /// What was finalized with all that it depends on.
    pub open spec fn carried(self, epoch: u64) -> Closure {
        self.graph.closed(epoch, self.roots()).closure
    }

    /// With more finalized blocks.
    pub open spec fn merged(self, more: Map<SlotRoot, BlockHash>) -> Facts {
        Facts {
            graph: Graph { certified: self.graph.certified.union_prefer_right(more), ..self.graph },
            finalized: self.finalized.union_prefer_right(more),
            ..self
        }
    }

    /// With all that the finalized blocks depend on, if it is known and compatible.
    pub open spec fn expanded(self, epoch: u64) -> Facts {
        match self.carried(epoch) {
            Closure::Complete(members) => self.merged(members),
            _ => self,
        }
    }

    /// What the epoch takes in, if that can be told.
    pub open spec fn taken(self, epoch: u64) -> Option<Map<SlotRoot, BlockHash>> {
        match self.carried(epoch) {
            Closure::Complete(members) => self.merged(members).graph.selection(epoch, members, ascending(self.observed)),
            _ => None,
        }
    }

    /// How the epoch would end now, if that can be told.
    pub open spec fn end(self, epoch: u64, cut: Set<SlotRoot>, dead: Map<BlockHash, Loss>) -> Option<EpochEnd> {
        match self.taken(epoch) {
            Some(finalized) => Some(EpochEnd::of(finalized, self.deaths(cut, dead), cut)),
            None => None,
        }
    }

    /// The blocks to ask for before the end of the epoch can be told.
    pub open spec fn asks(self, epoch: u64) -> Set<BlockHash> {
        let own = self.graph.closed(epoch, self.roots()).missing;
        match self.carried(epoch) {
            Closure::Complete(members) => own.union(
                self.merged(members).graph.asked_for_all(epoch, ascending(self.observed)),
            ),
            _ => own,
        }
    }
}

impl EpochFacts {
    fn offered(&self, slots: &SortedSet<SlotRoot>) -> (r: SortedSet<BlockHash>)
        ensures
            r@ == Set::new(|h: BlockHash| self@.offers(slots@, h)),
    {
        let mut r: SortedSet<BlockHash> = SortedSet::new();
        let items = slots.to_vec();
        for i in 0..items.len()
            invariant
                items@ == ascending(slots@),
                forall|h: BlockHash|
                    r@.contains(h) == exists|j: int|
                        0 <= j < i && self@.repair.contains_key(#[trigger] items@[j]) && self@.repair[items@[j]].contains(
                            h,
                        ),
        {
            let slot = items[i];
            let ghost before = r@;
            if let Some(hashes) = self.repair.get(&slot) {
                r.extend(hashes);
            }
            proof {
                assert(items@[i as int] == slot);
                assert forall|h: BlockHash|
                    r@.contains(h) == exists|j: int|
                        0 <= j < i + 1 && self@.repair.contains_key(#[trigger] items@[j])
                            && self@.repair[items@[j]].contains(h) by {
                    if before.contains(h) {
                        let j = choose|j: int|
                            0 <= j < i && self@.repair.contains_key(#[trigger] items@[j])
                                && self@.repair[items@[j]].contains(h);
                        assert(self@.repair.contains_key(items@[j]));
                    }
                }
            }
        }
        proof {
            lemma_ascending(slots@);
            assert forall|h: BlockHash| r@.contains(h) == self@.offers(slots@, h) by {
                if r@.contains(h) {
                    let j = choose|j: int|
                        0 <= j < items@.len() && self@.repair.contains_key(#[trigger] items@[j])
                            && self@.repair[items@[j]].contains(h);
                    assert(items@.contains(items@[j]));
                    assert(slots@.contains(items@[j]));
                }
                if self@.offers(slots@, h) {
                    let slot = choose|slot: SlotRoot| #[trigger]
                        self@.repair.contains_key(slot) && slots@.contains(slot) && self@.repair[slot].contains(h);
                    assert(items@.contains(slot));
                    let j = choose|j: int| 0 <= j < items@.len() && items@[j] == slot;
                    assert(self@.repair.contains_key(items@[j]));
                }
            }
            assert(r@ =~= Set::new(|h: BlockHash| self@.offers(slots@, h)));
        }
        r
    }

    fn losses(&self, epoch: u64, slots: &SortedSet<SlotRoot>, missing: &mut SortedSet<Pair<u64, BlockHash>>) -> (r: SortedMap<
        BlockHash,
        Loss,
    >)
        ensures
            r@ == self@.losses(epoch, slots@),
            final(missing)@ == old(missing)@.union(asked_in(epoch, self@.lacking(epoch, slots@))),
    {
        let hashes = self.offered(slots);
        let items = hashes.to_vec();
        let mut r: SortedMap<BlockHash, Loss> = SortedMap::new();
        let ghost mut found: Set<BlockHash> = Set::empty();
        proof {
            assert(missing@ =~= old(missing)@.union(asked_in(epoch, found)));
        }
        for i in 0..items.len()
            invariant
                missing@ == old(missing)@.union(asked_in(epoch, found)),
                forall|x: BlockHash|
                    found.contains(x) == exists|j: int|
                        0 <= j < i && self@.graph.closed(epoch, seq![#[trigger] items@[j]]).missing.contains(x),
                forall|h: BlockHash| #[trigger]
                    r@.contains_key(h) == (items@.take(i as int).contains(h) && self@.graph.load(
                        epoch,
                        h,
                    ) is FinalizedConflict),
                forall|h: BlockHash| #[trigger]
                    r@.contains_key(h) ==> r@[h] == (Loss {
                        dependency: self@.graph.load(epoch, h)->hash,
                        winner: self@.graph.load(epoch, h)->winner,
                    }),
        {
            let hash = items[i];
            let mut single: Vec<BlockHash> = Vec::new();
            single.push(hash);
            let ghost before = found;
            let ghost own = self@.graph.closed(epoch, seq![hash]).missing;
            proof {
                assert(single@ =~= seq![hash]);
                let a = items@.take(i as int);
                let b = items@.take(i + 1);
                lemma_take_set(items@, i as int);
                assert forall|h: BlockHash| b.contains(h) == (a.contains(h) || h == hash) by {
                    assert(a.to_set().contains(h) == a.contains(h));
                    assert(b.to_set().contains(h) == b.contains(h));
                }
            }
            match self.graph.checked_dependency_closure(epoch, &single, missing) {
                Err(ClosureError::FinalizedConflict { hash: dependency, winner }) => {
                    r.insert(hash, Loss { dependency, winner });
                },
                _ => {},
            }
            proof {
                found = found.union(own);
                assert(missing@ =~= old(missing)@.union(asked_in(epoch, found)));
                assert forall|x: BlockHash|
                    found.contains(x) == exists|j: int|
                        0 <= j < i + 1 && self@.graph.closed(epoch, seq![#[trigger] items@[j]]).missing.contains(x) by {
                    if before.contains(x) {
                        let j = choose|j: int|
                            0 <= j < i && self@.graph.closed(epoch, seq![#[trigger] items@[j]]).missing.contains(x);
                        assert(self@.graph.closed(epoch, seq![items@[j]]).missing.contains(x));
                    }
                    if own.contains(x) {
                        assert(items@[i as int] == hash);
                    }
                }
            }
        }
        proof {
            lemma_ascending(hashes@);
            assert(items@.take(items@.len() as int) =~= items@);
            assert forall|h: BlockHash| items@.contains(h) == self@.offers(slots@, h) by {
                assert(items@.to_set().contains(h) == items@.contains(h));
                assert(hashes@.contains(h) == self@.offers(slots@, h));
            }
            assert(r@ =~= self@.losses(epoch, slots@)) by {
                assert forall|h: BlockHash| r@.contains_key(h) == self@.losses(epoch, slots@).contains_key(h) by {}
            }
            assert forall|x: BlockHash| found.contains(x) == self@.lacking(epoch, slots@).contains(x) by {
                if found.contains(x) {
                    let j = choose|j: int|
                        0 <= j < items@.len() && self@.graph.closed(epoch, seq![#[trigger] items@[j]]).missing.contains(
                            x,
                        );
                    assert(items@.contains(items@[j]));
                    assert(self@.offers(slots@, items@[j]));
                }
                if self@.lacking(epoch, slots@).contains(x) {
                    let h = choose|h: BlockHash| #[trigger]
                        self@.offers(slots@, h) && self@.graph.closed(epoch, seq![h]).missing.contains(x);
                    assert(items@.contains(h));
                    let j = choose|j: int| 0 <= j < items@.len() && items@[j] == h;
                    assert(self@.graph.closed(epoch, seq![items@[j]]).missing.contains(x));
                }
            }
            assert(found =~= self@.lacking(epoch, slots@));
        }
        r
    }

    fn is_lost(&self, slot: &SlotRoot, dead: &SortedMap<BlockHash, Loss>) -> (r: bool)
        ensures
            r == self@.is_lost(*slot, dead@),
    {
        match self.repair.get(slot) {
            None => false,
            Some(hashes) => !hashes.is_empty() && hashes.is_subset(&dead.key_set()),
        }
    }

    /// The slots that are finalized or can still be won.
    pub fn unresolved_slots(&self, slots: &SortedSet<SlotRoot>, dead: &SortedMap<BlockHash, Loss>) -> (r: SortedSet<SlotRoot>)
        ensures
            r@ == self@.unresolved(slots@, dead@),
    {
        let mut r: SortedSet<SlotRoot> = SortedSet::new();
        let items = slots.to_vec();
        for i in 0..items.len()
            invariant
                r@ == self@.unresolved(items@.take(i as int).to_set(), dead@),
        {
            let slot = items[i];
            if self.finalized.contains_key(&slot) || !self.is_lost(&slot, dead) {
                r.insert(slot);
            }
            proof {
                lemma_take_set(items@, i as int);
                assert(r@ =~= self@.unresolved(items@.take(i + 1).to_set(), dead@));
            }
        }
        proof {
            lemma_ascending(slots@);
            assert(items@.take(items@.len() as int) =~= items@);
        }
        r
    }

    /// Whether every election of the cut that can still be won has ended.
    pub fn cut_is_resolved(&self, cut: &SortedSet<SlotRoot>, dead: &SortedMap<BlockHash, Loss>) -> (r: bool)
        ensures
            r == self@.is_resolved(cut@, dead@),
    {
        let mut ended = self.finalized.key_set();
        ended.extend(&self.terminated);
        proof {
            assert(ended@ =~= self@.ended());
        }
        self.unresolved_slots(cut, dead).is_subset(&ended)
    }

    fn deaths(&self, cut: &SortedSet<SlotRoot>, dead: &SortedMap<BlockHash, Loss>) -> (r: SortedSet<DependencyDeath>)
        ensures
            r@ == self@.deaths(cut@, dead@),
    {
        let remaining = self.unresolved_slots(cut, dead);
        let excluded = cut.difference(&remaining);
        let hashes = self.offered(&excluded);
        let items = hashes.to_vec();
        let mut r: SortedSet<DependencyDeath> = SortedSet::new();
        proof {
            assert(r@ =~= Set::new(|d: DependencyDeath| deaths_among(items@.take(0), dead@, d)));
        }
        for i in 0..items.len()
            invariant
                r@ == Set::new(|d: DependencyDeath| deaths_among(items@.take(i as int), dead@, d)),
        {
            let hash = items[i];
            if let Some(loss) = dead.get(&hash) {
                r.insert(DependencyDeath { candidate: hash, dependency: loss.dependency, winner: loss.winner });
            }
            proof {
                let a = items@.take(i as int);
                let b = items@.take(i + 1);
                lemma_take_set(items@, i as int);
                assert forall|h: BlockHash| b.contains(h) == (a.contains(h) || h == hash) by {
                    assert(a.to_set().contains(h) == a.contains(h));
                    assert(b.to_set().contains(h) == b.contains(h));
                }
                assert(r@ =~= Set::new(|d: DependencyDeath| deaths_among(b, dead@, d)));
            }
        }
        proof {
            lemma_ascending(hashes@);
            assert(items@.take(items@.len() as int) =~= items@);
            assert forall|d: DependencyDeath| r@.contains(d) == self@.deaths(cut@, dead@).contains(d) by {
                assert(items@.to_set().contains(d.candidate) == items@.contains(d.candidate));
                assert(hashes@.contains(d.candidate) == self@.offers(excluded@, d.candidate));
            }
            assert(r@ =~= self@.deaths(cut@, dead@));
        }
        r
    }

    /// Takes more finalized blocks in.
    pub fn merge_finalized(&mut self, more: &SortedMap<SlotRoot, BlockHash>)
        ensures
            final(self)@ == old(self)@.merged(more@),
    {
        merge(&mut self.graph.certified, more);
        merge(&mut self.finalized, more);
    }
}

/// The candidate is in the list and has lost in that way.
pub open spec fn deaths_among(hashes: Seq<BlockHash>, dead: Map<BlockHash, Loss>, d: DependencyDeath) -> bool {
    hashes.contains(d.candidate) && dead.contains_key(d.candidate) && dead[d.candidate] == (Loss {
        dependency: d.dependency,
        winner: d.winner,
    })
}

impl Coordinator {
    /// The finalized blocks whose dependencies are not accounted for.
    pub open spec fn unexpanded(self, epoch: u64, finalized: Map<SlotRoot, BlockHash>) -> Set<BlockHash> {
        Set::new(|h: BlockHash| finalized.values().contains(h) && !self.expanded_finalizations.contains(Pair(epoch, h)))
    }

    /// The candidates that have lost.
    pub open spec fn losses(self, facts: Facts) -> Map<BlockHash, Loss> {
        facts.losses(self.closing_epoch, self.cut.union(self.recovery_cut))
    }

    /// The end of the epoch is looked for, and not put off.
    pub open spec fn looks(self, facts: Facts, require_complete: bool) -> bool {
        require_complete ==> facts.is_resolved(self.cut, self.losses(facts))
    }

    /// How the epoch would end now, if that can be told.
    pub open spec fn end(self, facts: Facts, require_complete: bool) -> Option<EpochEnd> {
        if self.looks(facts, require_complete) {
            facts.end(self.closing_epoch, self.cut, self.losses(facts))
        } else {
            None
        }
    }

    /// What is known after the end was looked for.
    pub open spec fn facts_after(self, facts: Facts, require_complete: bool) -> Facts {
        if self.looks(facts, require_complete) {
            facts.expanded(self.closing_epoch)
        } else {
            facts
        }
    }

    /// After the end of the epoch was looked for.
    pub open spec fn looked(self, facts: Facts, require_complete: bool) -> Coordinator {
        let lacking = facts.lacking(self.closing_epoch, self.cut.union(self.recovery_cut));
        Coordinator {
            dependency_dead: self.losses(facts),
            missing_vote_blocks: self.missing_vote_blocks.union(
                asked_in(
                    self.closing_epoch,
                    if self.looks(facts, require_complete) {
                        lacking.union(facts.asks(self.closing_epoch))
                    } else {
                        lacking
                    },
                ),
            ),
            ..self
        }
    }

    /// With what would be committed to now.
    pub open spec fn lively(self, end: Option<EpochEnd>) -> Coordinator {
        Coordinator {
            live_epoch_hash: match end {
                Some(end) => Some(end.commitment(self.closing_epoch, self.cut).hash),
                None => None,
            },
            ..self
        }
    }

    /// The own report of the current round is out.
    pub open spec fn has_reported(self) -> bool {
        self.local_round_reports.contains_key(Pair(self.closing_epoch, self.finalization_round))
    }

    /// The cut ended differently than in the report of the round before.
    pub open spec fn cut_is_updated(self, end: EpochEnd) -> bool {
        let place = Pair(self.closing_epoch, (self.finalization_round - 1) as u32);
        self.finalization_round > 0 && self.local_round_cut_hashes.contains_key(place)
            && self.local_round_cut_hashes[place] != end.cut_winners_hash
    }

    /// Another member has reported in the current round.
    pub open spec fn peer_reported(self, key: PublicKey) -> bool {
        exists|k: PublicKey| #[trigger] self.finalization_reports.contains_key(k) && k != key
    }

    /// The report of the current round is put off.
    pub open spec fn holds_back(self, key: PublicKey, end: EpochEnd) -> bool {
        let count = end.commitment(self.closing_epoch, self.cut).non_cut_count;
        ||| self.finalization_round > 0 && count < self.target_non_cut_count
        ||| self.wait_for_round_peer && count == self.target_non_cut_count && !self.cut_is_updated(end)
            && !self.peer_reported(key)
    }

    /// The own report about the end of the epoch.
    pub open spec fn own_finalization(self, key: PublicKey, end: EpochEnd) -> EpochFinalization {
        let commitment = end.commitment(self.closing_epoch, self.cut);
        EpochFinalization {
            reporter: key,
            epoch: self.closing_epoch,
            round: self.finalization_round,
            finalized_hash: commitment.hash,
            non_cut_count: commitment.non_cut_count,
        }
    }

    /// The report that goes out now.
    pub open spec fn reports_now(self, key: Option<PublicKey>, end: Option<EpochEnd>, resolved: bool) -> Option<
        EpochFinalization,
    > {
        match (key, end) {
            (Some(key), Some(end)) => if !self.has_reported() && resolved && !self.holds_back(key, end) {
                Some(self.own_finalization(key, end))
            } else {
                None
            },
            _ => None,
        }
    }

    /// After the node decided whether to report the end of the epoch.
    pub open spec fn committed(self, key: Option<PublicKey>, end: Option<EpochEnd>, resolved: bool) -> Coordinator {
        let place = Pair(self.closing_epoch, self.finalization_round);
        match (key, self.reports_now(key, end, resolved)) {
            (Some(key), Some(report)) => Coordinator {
                local_round_cut_hashes: self.local_round_cut_hashes.insert(place, end->0.cut_winners_hash),
                local_round_snapshot: end,
                local_round_reports: self.local_round_reports.insert(place, report),
                finalization_reports: self.finalization_reports.insert(key, report),
                next_finalization_broadcast_ms: 0,
                ..self
            },
            (Some(key), None) => if !self.has_reported() && (end is None || !resolved) {
                Coordinator {
                    phase: Phase::Cut,
                    recovery_pass_complete: false,
                    next_final_vote_recovery_ms: 0,
                    ..self
                }
            } else {
                self
            },
            _ => self,
        }
    }

    /// After the end of the epoch was looked for and perhaps reported.
    pub open spec fn sent(self, facts: Facts, key: Option<PublicKey>) -> Coordinator {
        let end = self.end(facts, false);
        let resolved = self.facts_after(facts, false).is_resolved(self.cut, self.losses(facts));
        self.looked(facts, false).lively(end).committed(key, end, resolved)
    }

    /// The report that goes out when the end of the epoch is looked for.
    pub open spec fn sends(self, facts: Facts, key: Option<PublicKey>) -> Option<EpochFinalization> {
        let end = self.end(facts, false);
        let resolved = self.facts_after(facts, false).is_resolved(self.cut, self.losses(facts));
        self.looked(facts, false).lively(end).reports_now(key, end, resolved)
    }

    /// What is known after the cut was looked at.
    pub open spec fn drained_facts(self, facts: Facts, recovered: Map<SlotRoot, BlockHash>) -> Facts {
        self.facts_after(facts, false).merged(recovered)
    }

    /// After the cut was looked at, before anything is reported.
    pub open spec fn drained(self, facts: Facts) -> Coordinator {
        let after = self.facts_after(facts, false);
        Coordinator {
            recovery_pass_complete: after.unresolved(self.recovery_cut, self.losses(facts)).disjoint(after.wanting),
            ..self.looked(facts, false).lively(self.end(facts, false))
        }
    }

    /// The cut has drained.
    pub open spec fn has_drained(self, facts: Facts, recovered: Map<SlotRoot, BlockHash>) -> bool {
        self.drained_facts(facts, recovered).is_resolved(self.cut, self.losses(facts)) && self.drained(
            facts,
        ).recovery_pass_complete
    }
}

/// What the node has to do next.
pub enum EpochStep {
    Idle,
    /// The scheduled epoch starts.
    Start,
    /// The epoch closes.
    Close { epoch: u64 },
    /// All reports are in.
    InstallCut,
    /// The cut is to be looked at.
    Drain,
    /// The reports about the end of the epoch are to be looked at.
    Converge,
}

/// An epoch on whose end all members agree.
pub struct SealedEpoch {
    pub epoch: u64,
    pub round: u32,
    pub non_cut_count: u64,
    pub finalized_hash: BlockHash,
    pub included_cut: SortedSet<BlockHash>,
    pub finalized: SortedMap<SlotRoot, BlockHash>,
}

/// The model of a sealed epoch.
#[verifier::ext_equal]
pub struct Sealed {
    pub epoch: u64,
    pub round: u32,
    pub non_cut_count: u64,
    pub finalized_hash: BlockHash,
    pub included_cut: Set<BlockHash>,
    pub finalized: Map<SlotRoot, BlockHash>,
}

impl DeepView for SealedEpoch {
    type V = Sealed;

    open spec fn deep_view(&self) -> Sealed {
        Sealed {
            epoch: self.epoch,
            round: self.round,
            non_cut_count: self.non_cut_count,
            finalized_hash: self.finalized_hash,
            included_cut: self.included_cut@,
            finalized: self.finalized@,
        }
    }
}

/// What came of the reports about the end of the epoch.
pub struct Convergence {
    /// The own report that goes out.
    pub report: Option<EpochFinalization>,
    pub sealed: Option<SealedEpoch>,
}

/// The block that the ledger has for a slot.
#[derive(Clone, Copy, Debug, PartialEq, Eq, Structural)]
pub struct Successor {
    pub hash: BlockHash,
    pub confirmed: bool,
}

impl DeepView for Successor {
    type V = Successor;

    open spec fn deep_view(&self) -> Successor {
        *self
    }
}

/// What the ledger holds of the absent elections of the cut.
pub struct CutRecovery {
    /// The confirmed blocks, which are finalized.
    pub finalized: SortedMap<SlotRoot, BlockHash>,
    /// The other blocks, whose elections are started again.
    pub restart: SortedSet<BlockHash>,
}

/// The reports agree.
pub open spec fn agree(reports: Map<PublicKey, EpochFinalization>) -> bool {
    forall|a: PublicKey, b: PublicKey|
        #![trigger reports.contains_key(a), reports.contains_key(b)]
        reports.contains_key(a) && reports.contains_key(b) ==> reports[a].finalized_hash == reports[b].finalized_hash
            && reports[a].non_cut_count == reports[b].non_cut_count
}

/// No report has a larger count, and one has this count.
pub open spec fn is_highest(reports: Map<PublicKey, EpochFinalization>, count: u64) -> bool {
    &&& exists|k: PublicKey| #[trigger] reports.contains_key(k) && reports[k].non_cut_count == count
    &&& forall|k: PublicKey| #[trigger] reports.contains_key(k) ==> reports[k].non_cut_count <= count
}

/// The largest count of a report.
pub open spec fn highest(reports: Map<PublicKey, EpochFinalization>) -> u64 {
    choose|count: u64| is_highest(reports, count)
}

/// All reports have the same count.
pub open spec fn all_tied(reports: Map<PublicKey, EpochFinalization>) -> bool {
    forall|k: PublicKey| #[trigger] reports.contains_key(k) ==> reports[k].non_cut_count == highest(reports)
}

impl Coordinator {
    /// What is due at a time.
    pub open spec fn step(self, now: u64) -> EpochStep {
        match self.phase {
            Phase::Scheduled { start } => if now >= start.starts_at_unix_ms {
                EpochStep::Start
            } else {
                EpochStep::Idle
            },
            Phase::Open { start } => if now >= start.closes_at_unix_ms {
                EpochStep::Close { epoch: start.epoch }
            } else {
                EpochStep::Idle
            },
            Phase::Collecting => if all_complete(self.reports, self.committee.len()) {
                EpochStep::InstallCut
            } else {
                EpochStep::Idle
            },
            Phase::Cut => EpochStep::Drain,
            Phase::Converging => EpochStep::Converge,
            _ => EpochStep::Idle,
        }
    }

    /// All members have reported in the current round.
    pub open spec fn round_is_complete(self) -> bool {
        self.finalization_reports.len() == self.committee.len()
    }

    /// One of the reports; where they agree, it speaks for all.
    pub open spec fn first_report(self) -> EpochFinalization {
        self.finalization_reports[ascending(self.finalization_reports.dom())[0]]
    }

    /// All members agree on the end that the own report commits to.
    pub open spec fn seals(self) -> bool {
        &&& self.round_is_complete()
        &&& agree(self.finalization_reports)
        &&& match self.local_round_snapshot {
            Some(end) => {
                let commitment = end.commitment(self.closing_epoch, self.cut);
                commitment.hash == self.first_report().finalized_hash && commitment.non_cut_count
                    == self.first_report().non_cut_count
            },
            None => false,
        }
    }

    /// The own reports but those about the closing epoch in other rounds.
    pub open spec fn reports_of_this_round(self) -> Map<Pair<u64, u32>, EpochFinalization> {
        Map::new(
            |p: Pair<u64, u32>|
                self.local_round_reports.contains_key(p) && (p.0 != self.closing_epoch || p.1 == self.finalization_round),
            |p: Pair<u64, u32>| self.local_round_reports[p],
        )
    }

    /// The own reports but those about the closing epoch in earlier rounds.
    pub open spec fn reports_still_needed(self) -> Map<Pair<u64, u32>, EpochFinalization> {
        Map::new(
            |p: Pair<u64, u32>|
                self.local_round_reports.contains_key(p) && (p.0 != self.closing_epoch || p.1 >= self.finalization_round),
            |p: Pair<u64, u32>| self.local_round_reports[p],
        )
    }

    /// How the cut stood in the own reports that are kept.
    pub open spec fn cut_hashes_still_needed(self) -> Map<Pair<u64, u32>, BlockHash> {
        Map::new(
            |p: Pair<u64, u32>| self.local_round_cut_hashes.contains_key(p) && self.local_round_reports.contains_key(p),
            |p: Pair<u64, u32>| self.local_round_cut_hashes[p],
        )
    }

    /// The parts of the own reports about the closing epoch and later ones.
    pub open spec fn chunks_still_needed(self) -> Map<Pair<u64, u16>, ReportChunk> {
        Map::new(
            |p: Pair<u64, u16>| self.local_report_chunks.contains_key(p) && p.0 >= self.closing_epoch,
            |p: Pair<u64, u16>| self.local_report_chunks[p],
        )
    }

    /// After the epoch was sealed.
    pub open spec fn sealed(self) -> Coordinator {
        match self.next_start {
            None => Coordinator {
                phase: Phase::Complete,
                local_round_reports: self.reports_of_this_round(),
                ..self
            },
            Some(start) => Coordinator {
                phase: Phase::Open { start },
                committee: self.committee,
                reports: self.next_epoch_reports,
                local_report_chunks: self.chunks_still_needed(),
                local_round_reports: self.reports_of_this_round(),
                local_round_cut_hashes: self.local_round_cut_hashes,
                closing_epoch: start.epoch,
                closing_candidates: self.closing_candidates,
                missing_vote_blocks: self.missing_vote_blocks,
                next_block_recovery_ms: self.next_block_recovery_ms,
                expanded_finalizations: self.expanded_finalizations,
                ..Coordinator::fresh(self.committee)
            },
        }
    }

    /// A member waits for another one in the next round: it has the highest
    /// count and, if all have it, it is not the first of the committee.
    pub open spec fn waits(self, key: Option<PublicKey>) -> bool {
        match key {
            Some(key) => {
                &&& self.finalization_reports.contains_key(key)
                &&& self.finalization_reports[key].non_cut_count == highest(self.finalization_reports)
                &&& !all_tied(self.finalization_reports) || self.committee == Set::<PublicKey>::empty()
                    || ascending(self.committee)[0] != key
            },
            None => false,
        }
    }

    /// After a round in which the members did not agree.
    pub open spec fn advanced(self, key: Option<PublicKey>) -> Coordinator {
        let round = (self.finalization_round + 1) as u32;
        let kept = Coordinator { local_round_reports: self.reports_still_needed(), ..self };
        Coordinator {
            wait_for_round_peer: self.waits(key),
            local_round_snapshot: None,
            target_non_cut_count: highest(self.finalization_reports),
            finalization_round: round,
            local_round_cut_hashes: kept.cut_hashes_still_needed(),
            next_finalization_broadcast_ms: 0,
            finalization_reports: self.future(round),
            future_finalization_reports: self.future_finalization_reports.remove(round),
            ..kept
        }
    }

    /// After the reports about the end of the epoch were looked at.
    pub open spec fn evaluated(self, key: Option<PublicKey>) -> Coordinator {
        if !self.round_is_complete() {
            self
        } else if !agree(self.finalization_reports) {
            self.advanced(key)
        } else if self.seals() {
            self.sealed()
        } else {
            self
        }
    }

    /// The epoch that is sealed when the reports are looked at.
    pub open spec fn sealing(self) -> Option<Sealed> {
        if self.seals() {
            let end = self.local_round_snapshot->0;
            Some(
                Sealed {
                    epoch: self.closing_epoch,
                    round: self.finalization_round,
                    non_cut_count: self.first_report().non_cut_count,
                    finalized_hash: self.first_report().finalized_hash,
                    included_cut: end.cut_winners,
                    finalized: end.finalized,
                },
            )
        } else {
            None
        }
    }

    /// The vote gate after the reports were looked at.
    pub open spec fn gate_when_evaluated(self, gate: Gate) -> Gate {
        if self.seals() && self.next_start is Some {
            Gate { policy: Policy::Open, ..gate }
        } else {
            gate
        }
    }
}

/// Sorts the absent elections of the cut by what the ledger has for them.
pub fn recover_cut(missing: &Vec<SlotRoot>, successors: &SortedMap<SlotRoot, Successor>) -> (r: CutRecovery)
    ensures
        r.finalized@ == Map::new(
            |slot: SlotRoot| missing@.contains(slot) && successors@.contains_key(slot) && successors@[slot].confirmed,
            |slot: SlotRoot| successors@[slot].hash,
        ),
        r.restart@ == Set::new(
            |h: BlockHash|
                exists|slot: SlotRoot| #[trigger]
                    successors@.contains_key(slot) && missing@.contains(slot) && !successors@[slot].confirmed
                        && successors@[slot].hash == h,
        ),
{
    let mut finalized: SortedMap<SlotRoot, BlockHash> = SortedMap::new();
    let mut restart: SortedSet<BlockHash> = SortedSet::new();
    for i in 0..missing.len()
        invariant
            forall|slot: SlotRoot| #[trigger]
                finalized@.contains_key(slot) == (missing@.take(i as int).contains(slot) && successors@.contains_key(slot)
                    && successors@[slot].confirmed),
            forall|slot: SlotRoot| #[trigger] finalized@.contains_key(slot) ==> finalized@[slot] == successors@[slot].hash,
            forall|h: BlockHash|
                restart@.contains(h) == exists|slot: SlotRoot| #[trigger]
                    successors@.contains_key(slot) && missing@.take(i as int).contains(slot)
                        && !successors@[slot].confirmed && successors@[slot].hash == h,
    {
        let slot = missing[i];
        let ghost before = restart@;
        let ghost had = finalized@;
        proof {
            let a = missing@.take(i as int);
            let b = missing@.take(i + 1);
            lemma_take_set(missing@, i as int);
            assert forall|s: SlotRoot| b.contains(s) == (a.contains(s) || s == slot) by {
                assert(a.to_set().contains(s) == a.contains(s));
                assert(b.to_set().contains(s) == b.contains(s));
            }
        }
        if let Some(successor) = successors.get(&slot) {
            if successor.confirmed {
                finalized.insert(slot, successor.hash);
            } else {
                restart.insert(successor.hash);
            }
        }
        proof {
            assert forall|s: SlotRoot| #[trigger]
                finalized@.contains_key(s) == (missing@.take(i + 1).contains(s) && successors@.contains_key(s)
                    && successors@[s].confirmed) by {
                if s != slot {
                    assert(finalized@.contains_key(s) == had.contains_key(s));
                }
            }
            assert forall|h: BlockHash|
                restart@.contains(h) == exists|s: SlotRoot| #[trigger]
                    successors@.contains_key(s) && missing@.take(i + 1).contains(s) && !successors@[s].confirmed
                        && successors@[s].hash == h by {
                if before.contains(h) {
                    let s = choose|s: SlotRoot| #[trigger]
                        successors@.contains_key(s) && missing@.take(i as int).contains(s) && !successors@[s].confirmed
                            && successors@[s].hash == h;
                    assert(missing@.take(i + 1).contains(s));
                }
            }
        }
    }
    proof {
        assert(missing@.take(missing@.len() as int) =~= missing@);
        assert(finalized@ =~= Map::new(
            |slot: SlotRoot| missing@.contains(slot) && successors@.contains_key(slot) && successors@[slot].confirmed,
            |slot: SlotRoot| successors@[slot].hash,
        ));
        assert(restart@ =~= Set::new(
            |h: BlockHash|
                exists|slot: SlotRoot| #[trigger]
                    successors@.contains_key(slot) && missing@.contains(slot) && !successors@[slot].confirmed
                        && successors@[slot].hash == h,
        ));
    }
    CutRecovery { finalized, restart }
}

impl EpochCoordinator {
    /// A coordinator for the members of a committee.
    pub fn new(committee: SortedSet<PublicKey>) -> (r: Self)
        ensures
            r@ == Coordinator::fresh(committee@),
            r@.is_ordered(),
    {
        EpochCoordinator {
            phase: Phase::Waiting,
            committee,
            reports: SortedMap::new(),
            next_epoch_reports: SortedMap::new(),
            local_report_chunks: SortedMap::new(),
            next_report_request_ms: 0,
            local_snapshot: SortedMap::new(),
            cut: SortedSet::new(),
            recovery_cut: SortedSet::new(),
            finalization_round: 0,
            target_non_cut_count: 0,
            finalization_reports: SortedMap::new(),
            future_finalization_reports: SortedMap::new(),
            local_round_reports: SortedMap::new(),
            local_round_snapshot: None,
            local_round_cut_hashes: SortedMap::new(),
            live_epoch_hash: None,
            wait_for_round_peer: false,
            closing_epoch: 0,
            open_epoch: None,
            next_start: None,
            next_finalization_broadcast_ms: 0,
            dependency_dead: SortedMap::new(),
            next_final_vote_recovery_ms: 0,
            recovery_pass_complete: false,
            closing_candidates: Vec::new(),
            recovery_blocks: SortedMap::new(),
            missing_vote_blocks: SortedSet::new(),
            next_block_recovery_ms: 0,
            expanded_finalizations: SortedSet::new(),
        }
    }

    fn is_next(&self, epoch: u64) -> (r: bool)
        ensures
            r == self@.is_next(epoch),
    {
        self.closing_epoch < u64::MAX && epoch == self.closing_epoch + 1
    }

    /// Takes notice of when an epoch starts. Returns whether the epoch is the
    /// first one, whose earlier finalizations are void.
    pub fn schedule(&mut self, gate: &mut VoteGate, start: EpochStart) -> (r: bool)
        requires
            old(self)@.is_ordered(),
        ensures
            final(self)@ == old(self)@.scheduled(start),
            final(gate)@ == old(self)@.gate_when_scheduled(old(gate)@, start),
            r == (old(self)@.phase == Phase::Waiting),
            final(self)@.is_ordered(),
    {
        match self.phase {
            Phase::Scheduled { start: current } => {
                if start.epoch == current.epoch {
                    self.phase = Phase::Scheduled { start: current.capped(&start) };
                    return false;
                }
            },
            Phase::Open { start: current } => {
                if start.epoch == current.epoch {
                    self.phase = Phase::Open { start: current.capped(&start) };
                    return false;
                }
            },
            Phase::Waiting => {
                gate.pause();
                gate.clear_finalized(start.epoch);
                if self.is_next(start.epoch) {
                    let mut early: SortedMap<PublicKey, PartialReport> = SortedMap::new();
                    core::mem::swap(&mut early, &mut self.next_epoch_reports);
                    self.reports = early;
                }
                self.closing_epoch = start.epoch;
                self.phase = Phase::Scheduled { start };
                return true;
            },
            _ => {},
        }
        if self.is_next(start.epoch) {
            self.next_start = Some(
                match self.next_start {
                    Some(next) => next.capped(&start),
                    None => start,
                },
            );
        }
        false
    }

    /// Takes a part of a report in. Returns the provisional cut, if the part widens it.
    pub fn receive_report(&mut self, chunk: &EpochReportChunk, authentic: bool) -> (r: Option<SortedSet<SlotRoot>>)
        ensures
            final(self)@ == old(self)@.reported(chunk.deep_view(), authentic),
            match r {
                Some(cut) => old(self)@.widens_cut(chunk.deep_view(), authentic) && cut@ == reported_slots(
                    final(self)@.reports,
                ),
                None => !old(self)@.widens_cut(chunk.deep_view(), authentic),
            },
    {
        if !authentic || !self.committee.contains(&chunk.reporter) {
            return None;
        }
        // A peer may have closed the epoch at hand before this node.
        let future = self.is_next(chunk.epoch);
        if !future && chunk.epoch != self.closing_epoch {
            return None;
        }
        let taken: bool;
        if future {
            let mut report = match self.next_epoch_reports.remove(&chunk.reporter) {
                Some(report) => report,
                None => PartialReport::new(),
            };
            taken = report.take(chunk);
            self.next_epoch_reports.insert(chunk.reporter, report);
            proof {
                assert(self@.next_epoch_reports =~= old(self)@.reported(chunk.deep_view(), authentic).next_epoch_reports);
            }
        } else {
            let mut report = match self.reports.remove(&chunk.reporter) {
                Some(report) => report,
                None => PartialReport::new(),
            };
            taken = report.take(chunk);
            self.reports.insert(chunk.reporter, report);
            proof {
                assert(self@.reports =~= old(self)@.reported(chunk.deep_view(), authentic).reports);
            }
        }
        if !taken || future {
            return None;
        }
        match self.phase {
            Phase::Open { start: _ } | Phase::Collecting | Phase::Cut => {},
            _ => {
                return None;
            },
        }
        Some(collect_reported_slots(&self.reports))
    }

    /// The part of the own report that a request is answered with.
    pub fn receive_report_request(&self, request: &EpochReportRequest, authentic: bool) -> (r: Option<EpochReportChunk>)
        ensures
            match r {
                Some(chunk) => self@.response(*request, authentic) == Some(chunk.deep_view()),
                None => self@.response(*request, authentic) is None,
            },
    {
        if !authentic || !self.committee.contains(&request.requester) {
            return None;
        }
        match self.local_report_chunks.get(&Pair(request.epoch, request.chunk_index)) {
            Some(chunk) => Some(chunk.copied()),
            None => None,
        }
    }

    /// The requests for all parts of reports that are missing; `key` is the
    /// node's own key in the committee.
    pub fn missing_report_requests(&self, key: Option<PublicKey>) -> (r: Vec<AddressedRequest>)
        ensures
            r@ == self@.missing_requests(key),
    {
        let mut requests: Vec<AddressedRequest> = Vec::new();
        let key = match key {
            Some(key) => key,
            None => {
                return requests;
            },
        };
        let members = self.committee.to_vec();
        for i in 0..members.len()
            invariant
                members@ == ascending(self@.committee),
                requests@ == self@.requests(key, members@.take(i as int)),
        {
            let reporter = members[i];
            let missing: Option<u16> = match self.reports.get(&reporter) {
                Some(report) => report.first_gap(),
                None => Some(0),
            };
            proof {
                assert(members@.take(i + 1).drop_last() =~= members@.take(i as int));
            }
            if reporter != key {
                if let Some(chunk_index) = missing {
                    let request = EpochReportRequest { requester: key, epoch: self.closing_epoch, chunk_index };
                    requests.push(AddressedRequest { reporter, request });
                }
            }
        }
        proof {
            assert(members@.take(members@.len() as int) =~= members@);
        }
        requests
    }

    /// The requests that are due for parts of reports.
    pub fn request_missing_reports(&mut self, now: u64, key: Option<PublicKey>) -> (r: Vec<AddressedRequest>)
        requires
            now <= u64::MAX - 1_000,
        ensures
            r@ == if old(self)@.asks_for_reports(now) {
                old(self)@.missing_requests(key)
            } else {
                Seq::empty()
            },
            final(self)@ == if old(self)@.asks_for_reports(now) {
                old(self)@.reports_asked(now)
            } else {
                old(self)@
            },
    {
        match self.phase {
            Phase::Collecting => {},
            _ => {
                return Vec::new();
            },
        }
        if now < self.next_report_request_ms {
            return Vec::new();
        }
        let requests = self.missing_report_requests(key);
        self.next_report_request_ms = now + 1_000;
        requests
    }

    /// Takes a report of how the epoch ended in.
    pub fn receive_finalization(&mut self, report: EpochFinalization, authentic: bool)
        ensures
            final(self)@ == old(self)@.heard(report, authentic),
    {
        match self.phase {
            Phase::Collecting | Phase::Cut | Phase::Converging => {},
            _ => {
                return;
            },
        }
        if report.epoch != self.closing_epoch || !self.committee.contains(&report.reporter) || !authentic {
            return;
        }
        if report.round < self.finalization_round {
            return;
        }
        if report.round > self.finalization_round {
            let mut round = match self.future_finalization_reports.remove(&report.round) {
                Some(round) => round,
                None => SortedMap::new(),
            };
            if !round.contains_key(&report.reporter) {
                round.insert(report.reporter, report);
            }
            self.future_finalization_reports.insert(report.round, round);
            proof {
                assert(self@.future_finalization_reports =~= old(self)@.heard(
                    report,
                    authentic,
                ).future_finalization_reports);
            }
        } else if !self.finalization_reports.contains_key(&report.reporter) {
            self.finalization_reports.insert(report.reporter, report);
        }
    }

    /// The node's own key in the committee: the first of its keys that is a member.
    pub fn committee_key(&self, keys: &Vec<PublicKey>) -> (r: Option<PublicKey>)
        ensures
            match r {
                Some(key) => exists|i: int|
                    0 <= i < keys@.len() && #[trigger] keys@[i] == key && self@.committee.contains(key) && forall|j: int|
                        0 <= j < i ==> !self@.committee.contains(#[trigger] keys@[j]),
                None => forall|i: int| 0 <= i < keys@.len() ==> !self@.committee.contains(#[trigger] keys@[i]),
            },
    {
        for i in 0..keys.len()
            invariant
                forall|j: int| 0 <= j < i ==> !self@.committee.contains(#[trigger] keys@[j]),
        {
            if self.committee.contains(&keys[i]) {
                proof {
                    assert(keys@[i as int] == keys[i as int]);
                }
                return Some(keys[i]);
            }
        }
        None
    }


    /// Closes an epoch here: notes what is pending and files the own report, in
    /// parts of at most `size` elections. `key` is the own key in the committee;
    /// without one nothing is reported. The vote gate lets votes of the next epoch
    /// pass, if that is scheduled.
    pub fn close(
        &mut self,
        gate: &mut VoteGate,
        epoch: u64,
        pending: &Vec<PendingElection>,
        candidates: Vec<Candidate>,
        key: Option<PublicKey>,
        size: usize,
    ) -> (r: Vec<EpochReportChunk>)
        requires
            size > 0,
            pending@.len() <= size * u16::MAX,
        ensures
            final(self)@ == old(self)@.closing(epoch, pending@, candidates@, key, size as int),
            final(gate)@ == old(self)@.gate_when_closed(old(gate)@, epoch),
            r.deep_view() == match key {
                Some(key) => old(self)@.own_report(key, epoch, pending@, size as int),
                None => Seq::empty(),
            },
    {
        gate.pause();
        self.closing_candidates = candidates;
        let mut elections: Vec<SlotRoot> = Vec::new();
        let mut snapshot: SortedMap<SlotRoot, BlockHash> = SortedMap::new();
        for i in 0..pending.len()
            invariant
                elections@ == slots_of(pending@.take(i as int)),
                snapshot@ == leaders(pending@.take(i as int)),
        {
            let election = pending[i];
            elections.push(election.slot);
            snapshot.insert(election.slot, election.hash);
            proof {
                assert(pending@.take(i + 1).drop_last() =~= pending@.take(i as int));
                assert(elections@ =~= slots_of(pending@.take(i + 1)));
            }
        }
        proof {
            assert(pending@.take(pending@.len() as int) =~= pending@);
        }
        self.local_snapshot = snapshot;
        self.open_epoch = match self.next_start {
            Some(next) => if epoch < u64::MAX && next.epoch == epoch + 1 {
                Some(next.epoch)
            } else {
                None
            },
            None => None,
        };
        if let Some(open) = self.open_epoch {
            gate.clear_finalized(open);
        }
        gate.start_collecting(epoch, self.open_epoch);
        let ghost noted = self@;
        proof {
            assert(noted == old(self)@.noted(epoch, pending@, candidates@));
        }
        let mut chunks: Vec<EpochReportChunk> = Vec::new();
        let key = match key {
            Some(key) => key,
            None => {
                proof {
                    assert(chunks.deep_view() =~= Seq::empty());
                }
                return chunks;
            },
        };
        let mut parts: Vec<Vec<SlotRoot>> = split(&elections, size);
        if elections.len() == 0 {
            parts = Vec::new();
            parts.push(Vec::new());
        }
        let ghost all = old(self)@.own_report(key, epoch, pending@, size as int);
        proof {
            lemma_pieces_len(elections@, size as int, u16::MAX as int);
            assert(views(parts@) =~= report_parts(slots_of(pending@), size as int));
            assert(parts@.len() == views(parts@).len());
        }
        self.phase = Phase::Collecting;
        let ghost collecting = Coordinator { phase: Phase::Collecting, ..noted };
        let chunk_count: u16 = parts.len() as u16;
        proof {
            assert(chunks.deep_view() =~= all.take(0));
        }
        for i in 0..parts.len()
            invariant
                parts@.len() == chunk_count,
                all == own_chunks(key, epoch, views(parts@)),
                chunks.deep_view() == all.take(i as int),
                self@ == collecting.filed_all(all.take(i as int)),
        {
            let chunk = EpochReportChunk {
                reporter: key,
                epoch,
                chunk_index: i as u16,
                chunk_count,
                elections: copy_all(&parts[i]),
            };
            let ghost before = self@;
            proof {
                assert(views(parts@)[i as int] == parts@[i as int]@);
                assert(chunk.deep_view() == all[i as int]);
                assert(all.take(i + 1).drop_last() =~= all.take(i as int));
                assert(all.take(i + 1).last() == all[i as int]);
            }
            let place = Pair(epoch, i as u16);
            let known: bool = self.local_report_chunks.contains_key(&place);
            if !known {
                self.local_report_chunks.insert(place, chunk.copied());
            }
            self.receive_report(&chunk, true);
            proof {
                assert(self@ == before.filed(all[i as int]));
            }
            let ghost earlier = chunks.deep_view();
            chunks.push(chunk);
            proof {
                assert(chunks.deep_view() =~= earlier.push(chunk.deep_view()));
                assert(all.take(i + 1) =~= all.take(i as int).push(all[i as int]));
            }
        }
        proof {
            assert(all.take(parts@.len() as int) =~= all);
        }
        chunks
    }

    /// The elections that a report names already.
    pub fn provisional_cut(&self) -> (r: SortedSet<SlotRoot>)
        ensures
            r@ == reported_slots(self@.reports),
    {
        collect_reported_slots(&self.reports)
    }

    /// Whether every member has reported completely.
    pub fn all_reports_complete(&self) -> (r: bool)
        ensures
            r == all_complete(self@.reports, self@.committee.len()),
    {
        check_all_complete(&self.reports, self.committee.len())
    }

    /// Adds the blocks that candidates of the cut stand on.
    fn push_foundations(candidates: &Vec<Candidate>, cut: &SortedSet<SlotRoot>, found: &mut Vec<BlockHash>)
        ensures
            final(found)@.to_set() == old(found)@.to_set().union(foundations(candidates@, cut@)),
    {
        let ghost start = found@.to_set();
        proof {
            assert(start.union(foundations(candidates@.take(0), cut@)) =~= start);
        }
        for i in 0..candidates.len()
            invariant
                start == old(found)@.to_set(),
                found@.to_set() == start.union(foundations(candidates@.take(i as int), cut@)),
        {
            let candidate = candidates[i];
            let ghost before = found@;
            if cut.contains(&candidate.slot) {
                found.push(candidate.previous);
                found.push(candidate.source);
                proof {
                    lemma_push_set(before, candidate.previous);
                    lemma_push_set(before.push(candidate.previous), candidate.source);
                }
            }
            proof {
                let a = candidates@.take(i as int);
                let b = candidates@.take(i + 1);
                assert forall|h: BlockHash|
                    foundations(b, cut@).contains(h) == (foundations(a, cut@).contains(h) || (cut@.contains(candidate.slot)
                        && (candidate.previous == h || candidate.source == h))) by {
                    if foundations(b, cut@).contains(h) {
                        let j = choose|j: int|
                            0 <= j < b.len() && cut@.contains((#[trigger] b[j]).slot) && (b[j].previous == h || b[j].source
                                == h);
                        if j < i {
                            assert(a[j] == b[j]);
                        }
                    }
                    if foundations(a, cut@).contains(h) {
                        let j = choose|j: int|
                            0 <= j < a.len() && cut@.contains((#[trigger] a[j]).slot) && (a[j].previous == h || a[j].source
                                == h);
                        assert(b[j] == a[j]);
                    }
                    assert(b[i as int] == candidate);
                }
                assert(found@.to_set() =~= start.union(foundations(b, cut@)));
            }
        }
        proof {
            assert(candidates@.take(candidates@.len() as int) =~= candidates@);
        }
    }

    /// Installs the cut that the reports agree on. `repair` has the candidates
    /// that are at hand, `finalized` what the epoch finalized here so far.
    pub fn install_cut(
        &mut self,
        gate: &mut VoteGate,
        epoch: u64,
        finalized_earlier: &SortedSet<SlotRoot>,
        repair: &Vec<Candidate>,
        graph: &BlockGraph,
        finalized: SortedMap<SlotRoot, BlockHash>,
    ) -> (r: CutInstallation)
        ensures
            final(self)@ == old(self)@.with_cut(old(self)@.agreed_cut(finalized_earlier@)),
            r.drain_cut@ == old(self)@.drained_by(finalized_earlier@, repair@, graph@),
            final(gate)@ == (Gate {
                policy: Policy::Draining {
                    closing_epoch: epoch,
                    open_epoch: old(self)@.open_epoch,
                    cut: r.drain_cut@,
                },
                cut_generation: if old(gate)@.cut_generation == u64::MAX {
                    0
                } else {
                    (old(gate)@.cut_generation + 1) as u64
                },
                finalized: old(gate)@.finalized.insert(epoch, finalized@),
                ..old(gate)@
            }),
            r.cut_hash == hash_of(cut_slots_message(final(self)@.cut)),
            r.cut@ == hashes_where(
                old(self)@.local_snapshot,
                ascending(old(self)@.local_snapshot.dom()),
                final(self)@.cut,
                true,
            ),
            r.non_cut@ == hashes_where(
                old(self)@.local_snapshot,
                ascending(old(self)@.local_snapshot.dom()),
                final(self)@.cut,
                false,
            ),
            r.recovered@ == Set::new(
                |h: BlockHash|
                    old(self)@.recovery_blocks.contains_key(h) && final(self)@.cut.contains(
                        old(self)@.recovery_blocks[h],
                    ),
            ),
    {
        let mut drain_cut = collect_reported_slots(&self.reports);
        let cut = collect_supported_slots(&self.reports, self.committee.len()).difference(finalized_earlier);
        let mut found: Vec<BlockHash> = Vec::new();
        Self::push_foundations(&self.closing_candidates, &cut, &mut found);
        Self::push_foundations(repair, &cut, &mut found);
        proof {
            let a = self.closing_candidates@;
            let b = repair@;
            let both = a + b;
            let empty = Seq::<BlockHash>::empty();
            assert(empty.to_set() =~= Set::empty());
            assert forall|h: BlockHash|
                foundations(both, cut@).contains(h) == (foundations(a, cut@).contains(h) || foundations(
                    b,
                    cut@,
                ).contains(h)) by {
                if foundations(both, cut@).contains(h) {
                    let j = choose|j: int|
                        0 <= j < both.len() && cut@.contains((#[trigger] both[j]).slot) && (both[j].previous == h
                            || both[j].source == h);
                    if j < a.len() {
                        assert(a[j] == both[j]);
                    } else {
                        assert(b[j - a.len()] == both[j]);
                    }
                }
                if foundations(a, cut@).contains(h) {
                    let j = choose|j: int|
                        0 <= j < a.len() && cut@.contains((#[trigger] a[j]).slot) && (a[j].previous == h || a[j].source
                            == h);
                    assert(both[j] == a[j]);
                }
                if foundations(b, cut@).contains(h) {
                    let j = choose|j: int|
                        0 <= j < b.len() && cut@.contains((#[trigger] b[j]).slot) && (b[j].previous == h || b[j].source
                            == h);
                    assert(both[a.len() + j] == b[j]);
                }
            }
            assert(found@.to_set() =~= foundations(both, cut@));
        }
        let below = graph.ancestor_slots(&found);
        drain_cut.extend(&below);
        gate.install_cut(epoch, self.open_epoch, drain_cut.duplicate());
        gate.set_finalized(epoch, finalized);
        let recovered = self.recovered_in(&cut);
        let cut_hashes = self.snapshot_hashes(&cut, true);
        let non_cut_hashes = self.snapshot_hashes(&cut, false);
        let cut_hash = cut_slots_hash(&cut);
        self.recovery_cut = cut.duplicate();
        self.cut = cut;
        self.phase = Phase::Cut;
        self.next_final_vote_recovery_ms = 0;
        self.recovery_pass_complete = false;
        CutInstallation { drain_cut, cut_hash, cut: cut_hashes, non_cut: non_cut_hashes, recovered }
    }

    fn recovered_in(&self, cut: &SortedSet<SlotRoot>) -> (r: SortedSet<BlockHash>)
        ensures
            r@ == Set::new(|h: BlockHash| self@.recovery_blocks.contains_key(h) && cut@.contains(self@.recovery_blocks[h])),
    {
        let mut r: SortedSet<BlockHash> = SortedSet::new();
        let count: usize = self.recovery_blocks.len();
        let ghost q = ascending(self@.recovery_blocks.dom());
        proof {
            lemma_ascending(self@.recovery_blocks.dom());
        }
        for i in 0..count
            invariant
                count == self@.recovery_blocks.len(),
                q == ascending(self@.recovery_blocks.dom()),
                q.len() == count,
                r@ == Set::new(|h: BlockHash| q.take(i as int).to_set().contains(h) && cut@.contains(self@.recovery_blocks[h])),
        {
            let hash = self.recovery_blocks.key_at(i);
            let slot = *self.recovery_blocks.value_at(i);
            if cut.contains(&slot) {
                r.insert(hash);
            }
            proof {
                lemma_take_set(q, i as int);
                assert(r@ =~= Set::new(
                    |h: BlockHash| q.take(i + 1).to_set().contains(h) && cut@.contains(self@.recovery_blocks[h]),
                ));
            }
        }
        proof {
            assert(q.take(count as int) =~= q);
            assert(r@ =~= Set::new(
                |h: BlockHash| self@.recovery_blocks.contains_key(h) && cut@.contains(self@.recovery_blocks[h]),
            ));
        }
        r
    }

    fn snapshot_hashes(&self, cut: &SortedSet<SlotRoot>, inside: bool) -> (r: Vec<BlockHash>)
        ensures
            r@ == hashes_where(self@.local_snapshot, ascending(self@.local_snapshot.dom()), cut@, inside),
    {
        let mut r: Vec<BlockHash> = Vec::new();
        let count: usize = self.local_snapshot.len();
        let ghost q = ascending(self@.local_snapshot.dom());
        for i in 0..count
            invariant
                count == self@.local_snapshot.len(),
                q == ascending(self@.local_snapshot.dom()),
                q.len() == count,
                r@ == hashes_where(self@.local_snapshot, q.take(i as int), cut@, inside),
        {
            let slot = self.local_snapshot.key_at(i);
            proof {
                assert(q.take(i + 1).drop_last() =~= q.take(i as int));
            }
            if cut.contains(&slot) == inside {
                r.push(*self.local_snapshot.value_at(i));
            }
        }
        proof {
            assert(q.take(count as int) =~= q);
        }
        r
    }

    /// The elections to ask votes for: those that are not finalized and, while
    /// the cut drains, those of the cut that are absent.
    pub fn vote_recovery_slots(&self, unfinalized: &Vec<SlotRoot>, missing: &Vec<SlotRoot>) -> (r: Vec<SlotRoot>)
        ensures
            r@ == ascending(self@.vote_slots(unfinalized@.to_set(), missing@.to_set())),
    {
        let mut slots = SortedSet::from_vec(unfinalized);
        match self.phase {
            Phase::Cut | Phase::Converging => {
                slots.extend(&SortedSet::from_vec(missing));
            },
            _ => {},
        }
        slots.to_vec()
    }

    /// The requests for votes that are due, in lists of at most `size`
    /// elections. Each goes to every member.
    pub fn request_election_votes(
        &mut self,
        now: u64,
        unfinalized: &Vec<SlotRoot>,
        missing: &Vec<SlotRoot>,
        size: usize,
    ) -> (r: Vec<Vec<SlotRoot>>)
        requires
            size > 0,
            now <= u64::MAX - 1_000,
        ensures
            views(r@) == if old(self)@.asks_for_votes(now) {
                pieces(ascending(old(self)@.vote_slots(unfinalized@.to_set(), missing@.to_set())), size as int)
            } else {
                Seq::empty()
            },
            final(self)@ == if old(self)@.asks_for_votes(now) {
                old(self)@.votes_asked(now)
            } else {
                old(self)@
            },
    {
        if now < self.next_final_vote_recovery_ms {
            let none: Vec<Vec<SlotRoot>> = Vec::new();
            proof {
                assert(views(none@) =~= Seq::empty());
            }
            return none;
        }
        let slots = self.vote_recovery_slots(unfinalized, missing);
        self.next_final_vote_recovery_ms = now + 1_000;
        split(&slots, size)
    }

    /// The own reports, if it is time to send them again.
    pub fn rebroadcast_finalizations(&mut self, now: u64) -> (r: Vec<EpochFinalization>)
        requires
            now <= u64::MAX - 250,
        ensures
            r@ == if old(self)@.rebroadcasts(now) {
                old(self)@.own_finalizations()
            } else {
                Seq::empty()
            },
            final(self)@ == if old(self)@.rebroadcasts(now) {
                old(self)@.rebroadcast(now)
            } else {
                old(self)@
            },
    {
        let mut r: Vec<EpochFinalization> = Vec::new();
        if now < self.next_finalization_broadcast_ms {
            return r;
        }
        let count: usize = self.local_round_reports.len();
        for i in 0..count
            invariant
                self@ == old(self)@,
                count == self@.local_round_reports.len(),
                count == ascending(self@.local_round_reports.dom()).len(),
                r@ == self@.own_finalizations().take(i as int),
        {
            r.push(*self.local_round_reports.value_at(i));
            proof {
                assert(r@ =~= self@.own_finalizations().take(i + 1));
            }
        }
        proof {
            assert(self@.own_finalizations().take(count as int) =~= self@.own_finalizations());
        }
        self.next_finalization_broadcast_ms = now + 250;
        r
    }

    /// Takes notice of the blocks that a vote names. `known` are the blocks at
    /// hand, `active` those in an election of the epoch. Returns the blocks to
    /// attach to their elections.
    pub fn observe_vote_blocks(
        &mut self,
        voter: &PublicKey,
        epoch: u64,
        hashes: &Vec<BlockHash>,
        authentic: bool,
        known: &SortedSet<BlockHash>,
        active: &SortedSet<BlockHash>,
    ) -> (r: SortedSet<BlockHash>)
        ensures
            final(self)@ == old(self)@.saw_vote(*voter, epoch, hashes@, authentic, known@),
            r@ == Set::new(
                |h: BlockHash|
                    authentic && old(self)@.committee.contains(*voter) && hashes@.contains(h) && known@.contains(h)
                        && !active@.contains(h),
            ),
    {
        let mut attach: SortedSet<BlockHash> = SortedSet::new();
        if !self.committee.contains(voter) || !authentic {
            proof {
                assert(attach@ =~= Set::new(|h: BlockHash| false));
            }
            return attach;
        }
        proof {
            let none = Set::new(
                |p: Pair<u64, BlockHash>|
                    p.0 == epoch && hashes@.take(0).contains(p.1) && !known@.contains(p.1) && p.1 != no_hash(),
            );
            assert(self@.missing_vote_blocks =~= old(self)@.missing_vote_blocks.union(none));
            assert(attach@ =~= Set::new(
                |h: BlockHash| hashes@.take(0).contains(h) && known@.contains(h) && !active@.contains(h),
            ));
        }
        for i in 0..hashes.len()
            invariant
                self@ == (Coordinator {
                    missing_vote_blocks: old(self)@.missing_vote_blocks.union(
                        Set::new(
                            |p: Pair<u64, BlockHash>|
                                p.0 == epoch && hashes@.take(i as int).contains(p.1) && !known@.contains(p.1) && p.1
                                    != no_hash(),
                        ),
                    ),
                    ..old(self)@
                }),
                attach@ == Set::new(
                    |h: BlockHash| hashes@.take(i as int).contains(h) && known@.contains(h) && !active@.contains(h),
                ),
        {
            let hash = hashes[i];
            proof {
                let a = hashes@.take(i as int);
                let b = hashes@.take(i + 1);
                lemma_take_set(hashes@, i as int);
                assert forall|h: BlockHash| b.contains(h) == (a.contains(h) || h == hash) by {
                    assert(a.to_set().contains(h) == a.contains(h));
                    assert(b.to_set().contains(h) == b.contains(h));
                }
            }
            if known.contains(&hash) {
                if !active.contains(&hash) {
                    attach.insert(hash);
                }
            } else if !hash.is_zero() {
                self.missing_vote_blocks.insert(Pair(epoch, hash));
            }
            proof {
                assert(attach@ =~= Set::new(
                    |h: BlockHash| hashes@.take(i + 1).contains(h) && known@.contains(h) && !active@.contains(h),
                ));
                let more = Set::new(
                    |p: Pair<u64, BlockHash>|
                        p.0 == epoch && hashes@.take(i + 1).contains(p.1) && !known@.contains(p.1) && p.1 != no_hash(),
                );
                assert(self@.missing_vote_blocks =~= old(self)@.missing_vote_blocks.union(more));
            }
        }
        proof {
            assert(hashes@.take(hashes@.len() as int) =~= hashes@);
        }
        attach
    }

    /// Takes notice of a recovered block. Returns the epochs whose elections it
    /// is to be attached to; where there are none, it belongs to the cut.
    pub fn receive_recovery_block(&mut self, hash: BlockHash, slot: SlotRoot) -> (r: Vec<u64>)
        ensures
            final(self)@ == old(self)@.recovered(hash, slot),
            r@ == ascending(old(self)@.waiting_epochs(hash)),
    {
        let mut epochs: SortedSet<u64> = SortedSet::new();
        let wanted = self.missing_vote_blocks.to_vec();
        for i in 0..wanted.len()
            invariant
                epochs@ == Set::new(|e: u64| wanted@.take(i as int).contains(Pair(e, hash))),
        {
            let pair = wanted[i];
            if pair.1 == hash {
                epochs.insert(pair.0);
            }
            proof {
                let a = wanted@.take(i as int);
                let b = wanted@.take(i + 1);
                lemma_take_set(wanted@, i as int);
                assert forall|p: Pair<u64, BlockHash>| b.contains(p) == (a.contains(p) || p == pair) by {
                    assert(a.to_set().contains(p) == a.contains(p));
                    assert(b.to_set().contains(p) == b.contains(p));
                }
                assert(epochs@ =~= Set::new(|e: u64| b.contains(Pair(e, hash))));
            }
        }
        proof {
            assert(wanted@.take(wanted@.len() as int) =~= wanted@);
            lemma_ascending(self@.missing_vote_blocks);
            assert forall|e: u64| epochs@.contains(e) == self@.waiting_epochs(hash).contains(e) by {
                assert(wanted@.to_set().contains(Pair(e, hash)) == wanted@.contains(Pair(e, hash)));
            }
            assert(epochs@ =~= self@.waiting_epochs(hash));
        }
        if !self.recovery_blocks.contains_key(&hash) {
            self.recovery_blocks.insert(hash, slot);
        }
        epochs.to_vec()
    }

    /// Decides on the blocks to install so that the ledger holds a finalized
    /// block: those of its branch that are not yet among the `held` ones, each
    /// after what it depends on. Where the branch has a gap, its block is asked for.
    pub fn install_finalized_branch(
        &mut self,
        epoch: u64,
        hash: BlockHash,
        branch: &Branch,
        held: &SortedSet<BlockHash>,
    ) -> (r: Vec<BlockHash>)
        ensures
            final(self)@ == match *branch {
                Branch::Missing(missing) if !held@.contains(hash) => old(self)@.waits_for(epoch, missing),
                _ => old(self)@,
            },
            r@ == match *branch {
                Branch::Whole(blocks) if !held@.contains(hash) => blocks@.filter(|b: BlockHash| !held@.contains(b)),
                _ => Seq::empty(),
            },
    {
        let mut r: Vec<BlockHash> = Vec::new();
        if held.contains(&hash) {
            return r;
        }
        match branch {
            Branch::Whole(blocks) => {
                let ghost fresh = |b: BlockHash| !held@.contains(b);
                proof {
                    reveal(Seq::filter);
                    assert(r@ =~= blocks@.take(0).filter(fresh));
                }
                for i in 0..blocks.len()
                    invariant
                        fresh == (|b: BlockHash| !held@.contains(b)),
                        r@ == blocks@.take(i as int).filter(fresh),
                {
                    if !held.contains(&blocks[i]) {
                        r.push(blocks[i]);
                    }
                    proof {
                        reveal(Seq::filter);
                        assert(blocks@.take(i + 1).drop_last() =~= blocks@.take(i as int));
                    }
                }
                proof {
                    assert(blocks@.take(blocks@.len() as int) =~= blocks@);
                }
            },
            Branch::Missing(missing) => {
                self.missing_vote_blocks.insert(Pair(epoch, *missing));
                proof {
                    assert(self@ =~= old(self)@.waits_for(epoch, *missing));
                }
            },
            Branch::Refused => {},
        }
        r
    }

    /// Decides on the blocks to attach and to ask for, if it is time to.
    /// `found` are blocks that were found to be missing, `saved` the ones in the
    /// ledger, `retained` the ones kept besides, `active` those in an election.
    pub fn recover_blocks(
        &mut self,
        now: u64,
        found: &SortedSet<Pair<u64, BlockHash>>,
        saved: &SortedSet<BlockHash>,
        retained: &SortedSet<BlockHash>,
        active: &SortedSet<Pair<u64, BlockHash>>,
    ) -> (r: Option<BlockRecovery>)
        requires
            now <= u64::MAX - 1_000,
        ensures
            ({
                let more = old(self)@.missing_more(found@);
                match r {
                    None => !more.asks_for_blocks(now) && final(self)@ == more,
                    Some(recovery) => {
                        &&& more.asks_for_blocks(now)
                        &&& recovery.attach@ == more.attachable(saved@, active@)
                        &&& recovery.batches@ == by_epoch(more.still_missing(saved@, retained@))
                        &&& final(self)@ == more.blocks_asked(now, more.still_missing(saved@, retained@))
                    },
                }
            }),
    {
        self.missing_vote_blocks.extend(found);
        let ghost more = self@;
        if now < self.next_block_recovery_ms || self.missing_vote_blocks.is_empty() {
            return None;
        }
        let mut attach: SortedSet<Pair<u64, BlockHash>> = SortedSet::new();
        let mut left: SortedSet<Pair<u64, BlockHash>> = SortedSet::new();
        let mut batches: SortedMap<u64, SortedSet<BlockHash>> = SortedMap::new();
        let wanted = self.missing_vote_blocks.to_vec();
        proof {
            assert(attach@ =~= Set::new(
                |p: Pair<u64, BlockHash>| wanted@.take(0).contains(p) && saved@.contains(p.1) && !active@.contains(p),
            ));
            assert(left@ =~= Set::new(
                |p: Pair<u64, BlockHash>| wanted@.take(0).contains(p) && !saved@.contains(p.1) && !retained@.contains(p.1),
            ));
            assert(batches@ =~= by_epoch(left@));
        }
        for i in 0..wanted.len()
            invariant
                self@ == more,
                attach@ == Set::new(
                    |p: Pair<u64, BlockHash>|
                        wanted@.take(i as int).contains(p) && saved@.contains(p.1) && !active@.contains(p),
                ),
                left@ == Set::new(
                    |p: Pair<u64, BlockHash>|
                        wanted@.take(i as int).contains(p) && !saved@.contains(p.1) && !retained@.contains(p.1),
                ),
                batches@ == by_epoch(left@),
        {
            let pair = wanted[i];
            proof {
                let a = wanted@.take(i as int);
                let b = wanted@.take(i + 1);
                lemma_take_set(wanted@, i as int);
                assert forall|p: Pair<u64, BlockHash>| b.contains(p) == (a.contains(p) || p == pair) by {
                    assert(a.to_set().contains(p) == a.contains(p));
                    assert(b.to_set().contains(p) == b.contains(p));
                }
            }
            if saved.contains(&pair.1) {
                if !active.contains(&pair) {
                    attach.insert(pair);
                }
            } else if !retained.contains(&pair.1) {
                let ghost before = left@;
                left.insert(pair);
                let mut batch = match batches.remove(&pair.0) {
                    Some(batch) => batch,
                    None => SortedSet::new(),
                };
                let ghost had = batch@;
                batch.insert(pair.1);
                batches.insert(pair.0, batch);
                proof {
                    lemma_by_epoch(before, pair, had);
                    assert(batches@ =~= by_epoch(before).remove(pair.0).insert(pair.0, had.insert(pair.1)));
                }
            }
            proof {
                assert(attach@ =~= Set::new(
                    |p: Pair<u64, BlockHash>|
                        wanted@.take(i + 1).contains(p) && saved@.contains(p.1) && !active@.contains(p),
                ));
                assert(left@ =~= Set::new(
                    |p: Pair<u64, BlockHash>|
                        wanted@.take(i + 1).contains(p) && !saved@.contains(p.1) && !retained@.contains(p.1),
                ));
            }
        }
        proof {
            assert(wanted@.take(wanted@.len() as int) =~= wanted@);
            lemma_ascending(self@.missing_vote_blocks);
            assert forall|p: Pair<u64, BlockHash>| wanted@.contains(p) == more.missing_vote_blocks.contains(p) by {
                assert(wanted@.to_set().contains(p) == wanted@.contains(p));
            }
            assert(attach@ =~= more.attachable(saved@, active@));
            assert(left@ =~= more.still_missing(saved@, retained@));
        }
        self.missing_vote_blocks = left;
        self.next_block_recovery_ms = now + 1_000;
        Some(BlockRecovery { attach, batches })
    }


    /// How the epoch would end now. Adds to `facts` what is finalized along, and
    /// takes note of the candidates that lost and of the blocks to ask for.
    /// With `require_complete`, there is no end before the cut is resolved.
    pub fn epoch_dependency_closure(&mut self, facts: &mut EpochFacts, require_complete: bool) -> (r: Option<CompleteClosure>)
        requires
            old(facts)@.graph.heights_fit(),
        ensures
            r.deep_view() == old(self)@.end(old(facts)@, require_complete),
            final(self)@ == old(self)@.looked(old(facts)@, require_complete),
            final(facts)@ == old(self)@.facts_after(old(facts)@, require_complete),
    {
        let epoch: u64 = self.closing_epoch;
        let mut slots = self.cut.duplicate();
        slots.extend(&self.recovery_cut);
        let ghost known = facts@;
        let ghost wanted = self@.missing_vote_blocks;
        let ghost lacking = known.lacking(epoch, slots@);
        let dead = facts.losses(epoch, &slots, &mut self.missing_vote_blocks);
        let resolved = facts.cut_is_resolved(&self.cut, &dead);
        if require_complete && !resolved {
            self.dependency_dead = dead;
            return None;
        }
        let deaths = facts.deaths(&self.cut, &dead);
        self.dependency_dead = dead;
        let observed = facts.observed.to_vec();
        let roots = facts.finalized.value_set().to_vec();
        let ghost own = known.graph.closed(epoch, known.roots()).missing;
        let members = match facts.graph.dependency_closure(epoch, &roots, &mut self.missing_vote_blocks) {
            Some(members) => members,
            None => {
                proof {
                    lemma_asked_twice(wanted, epoch, lacking, own);
                    assert(self@ =~= old(self)@.looked(old(facts)@, require_complete));
                }
                return None;
            },
        };
        facts.merge_finalized(&members);
        proof {
            lemma_asked_twice(wanted, epoch, lacking, own);
            lemma_asked_twice(
                wanted,
                epoch,
                lacking.union(own),
                facts@.graph.asked_for_all(epoch, ascending(known.observed)),
            );
            lemma_union_associates(lacking, own, facts@.graph.asked_for_all(epoch, ascending(known.observed)));
        }
        match facts.graph.select_compatible_candidates(epoch, members, &observed, &mut self.missing_vote_blocks) {
            Some(finalized) => {
                proof {
                    assert(self@ =~= old(self)@.looked(old(facts)@, require_complete));
                }
                Some(CompleteClosure::new(finalized, deaths, &self.cut))
            },
            None => {
                proof {
                    assert(self@ =~= old(self)@.looked(old(facts)@, require_complete));
                }
                None
            },
        }
    }

    /// How the epoch ends, once the cut is resolved.
    pub fn complete_cut_dependency_closure(&mut self, facts: &mut EpochFacts) -> (r: Option<CompleteClosure>)
        requires
            old(facts)@.graph.heights_fit(),
        ensures
            r.deep_view() == old(self)@.end(old(facts)@, true),
            final(self)@ == old(self)@.looked(old(facts)@, true),
            final(facts)@ == old(self)@.facts_after(old(facts)@, true),
    {
        self.epoch_dependency_closure(facts, true)
    }

    fn note_live_end(&mut self, end: &Option<CompleteClosure>)
        ensures
            final(self)@ == old(self)@.lively(end.deep_view()),
    {
        self.live_epoch_hash = match end {
            Some(end) => Some(closure_commitment(self.closing_epoch, &self.cut, end).hash),
            None => None,
        };
    }

    fn peer_reported(&self, key: &PublicKey) -> (r: bool)
        ensures
            r == self@.peer_reported(*key),
    {
        let count: usize = self.finalization_reports.len();
        let ghost q = ascending(self@.finalization_reports.dom());
        for i in 0..count
            invariant
                count == self@.finalization_reports.len(),
                q == ascending(self@.finalization_reports.dom()),
                q.len() == count,
                forall|j: int| 0 <= j < i ==> #[trigger] q[j] == *key,
        {
            let peer = self.finalization_reports.key_at(i);
            if peer != *key {
                return true;
            }
        }
        proof {
            lemma_ascending(self@.finalization_reports.dom());
            assert forall|k: PublicKey| #[trigger] self@.finalization_reports.contains_key(k) implies k == *key by {
                assert(q.contains(k));
            }
        }
        false
    }

    fn cut_is_updated(&self, end: &CompleteClosure) -> (r: bool)
        ensures
            r == self@.cut_is_updated(end.deep_view()),
    {
        if self.finalization_round == 0 {
            return false;
        }
        match self.local_round_cut_hashes.get(&Pair(self.closing_epoch, self.finalization_round - 1)) {
            Some(previous) => *previous != end.cut_winners_hash,
            None => false,
        }
    }

    /// Decides whether to report the end of the epoch in the current round.
    /// `end` is how it would end now, and `resolved` tells whether the cut is
    /// resolved; where it is not, the cut is drained again.
    pub fn commit_finalization(&mut self, key: Option<PublicKey>, end: Option<CompleteClosure>, resolved: bool) -> (r: Option<
        EpochFinalization,
    >)
        ensures
            r == old(self)@.reports_now(key, end.deep_view(), resolved),
            final(self)@ == old(self)@.committed(key, end.deep_view(), resolved),
    {
        let key = match key {
            Some(key) => key,
            None => {
                return None;
            },
        };
        let place = Pair(self.closing_epoch, self.finalization_round);
        if self.local_round_reports.contains_key(&place) {
            return None;
        }
        let end = match end {
            Some(end) if resolved => end,
            _ => {
                self.phase = Phase::Cut;
                self.recovery_pass_complete = false;
                self.next_final_vote_recovery_ms = 0;
                return None;
            },
        };
        let commitment = closure_commitment(self.closing_epoch, &self.cut, &end);
        if self.finalization_round > 0 && commitment.non_cut_count < self.target_non_cut_count {
            return None;
        }
        // At the target count, a new outcome of the cut is progress enough to
        // go first in a round.
        if self.wait_for_round_peer && commitment.non_cut_count == self.target_non_cut_count && !self.cut_is_updated(&end)
            && !self.peer_reported(&key) {
            return None;
        }
        let report = EpochFinalization {
            reporter: key,
            epoch: self.closing_epoch,
            round: self.finalization_round,
            finalized_hash: commitment.hash,
            non_cut_count: commitment.non_cut_count,
        };
        self.local_round_cut_hashes.insert(place, end.cut_winners_hash);
        self.local_round_snapshot = Some(end);
        self.local_round_reports.insert(place, report);
        self.finalization_reports.insert(key, report);
        self.next_finalization_broadcast_ms = 0;
        Some(report)
    }

    /// Looks for the end of the epoch and reports it, unless that is to wait.
    pub fn send_local_finalization(&mut self, facts: &mut EpochFacts, key: Option<PublicKey>) -> (r: Option<EpochFinalization>)
        requires
            old(facts)@.graph.heights_fit(),
        ensures
            r == old(self)@.sends(old(facts)@, key),
            final(self)@ == old(self)@.sent(old(facts)@, key),
            final(facts)@ == old(self)@.facts_after(old(facts)@, false),
    {
        let end = self.epoch_dependency_closure(facts, false);
        self.note_live_end(&end);
        let resolved = facts.cut_is_resolved(&self.cut, &self.dependency_dead);
        self.commit_finalization(key, end, resolved)
    }

    /// Looks at the cut while it drains. `recovered` are slots of the cut that
    /// are cemented in the ledger. Once the cut has drained, the end of the
    /// epoch is reported.
    pub fn drain(
        &mut self,
        gate: &mut VoteGate,
        facts: &mut EpochFacts,
        recovered: &SortedMap<SlotRoot, BlockHash>,
        key: Option<PublicKey>,
    ) -> (r: Option<EpochFinalization>)
        requires
            old(facts)@.graph.heights_fit(),
        ensures
            ({
                let c = old(self)@.drained(old(facts)@);
                let f = old(self)@.drained_facts(old(facts)@, recovered@);
                let converging = Coordinator { phase: Phase::Converging, ..c };
                &&& final(gate)@ == (Gate {
                    finalized: old(gate)@.finalized.insert(old(self)@.closing_epoch, f.finalized),
                    ..old(gate)@
                })
                &&& if old(self)@.has_drained(old(facts)@, recovered@) {
                    &&& r == converging.sends(f, key)
                    &&& final(self)@ == converging.sent(f, key)
                    &&& final(facts)@ == converging.facts_after(f, false)
                } else {
                    &&& r is None
                    &&& final(self)@ == c
                    &&& final(facts)@ == f
                }
            }),
    {
        let end = self.epoch_dependency_closure(facts, false);
        let open = facts.unresolved_slots(&self.recovery_cut, &self.dependency_dead);
        self.recovery_pass_complete = open.is_disjoint(&facts.wanting);
        self.note_live_end(&end);
        facts.merge_finalized(recovered);
        gate.set_finalized(self.closing_epoch, facts.finalized.duplicate());
        let resolved = facts.cut_is_resolved(&self.cut, &self.dependency_dead);
        if resolved && self.recovery_pass_complete {
            self.phase = Phase::Converging;
            return self.send_local_finalization(facts, key);
        }
        None
    }

    /// The finalized blocks of an epoch with all that they depend on, if they
    /// hold anything new. `None` if something is unknown or incompatible.
    pub fn expand_finalizations(&mut self, epoch: u64, graph: &BlockGraph, finalized: &SortedMap<SlotRoot, BlockHash>) -> (r: Option<
        SortedMap<SlotRoot, BlockHash>,
    >)
        ensures
            ({
                let fresh = old(self)@.unexpanded(epoch, finalized@);
                let explored = graph@.closed(epoch, ascending(fresh));
                if fresh == Set::<BlockHash>::empty() {
                    r is None && final(self)@ == old(self)@
                } else {
                    &&& match r {
                        Some(members) => explored.closure == Closure::Complete(members@),
                        None => !(explored.closure is Complete),
                    }
                    &&& final(self)@ == (Coordinator {
                        missing_vote_blocks: old(self)@.missing_vote_blocks.union(asked_in(epoch, explored.missing)),
                        expanded_finalizations: if r is Some {
                            old(self)@.expanded_finalizations.union(asked_in(epoch, fresh))
                        } else {
                            old(self)@.expanded_finalizations
                        },
                        ..old(self)@
                    })
                }
            }),
    {
        let mut fresh: SortedSet<BlockHash> = SortedSet::new();
        let all = finalized.value_set();
        let items = all.to_vec();
        for i in 0..items.len()
            invariant
                self@ == old(self)@,
                fresh@ == Set::new(
                    |h: BlockHash|
                        items@.take(i as int).to_set().contains(h) && !self@.expanded_finalizations.contains(
                            Pair(epoch, h),
                        ),
                ),
        {
            let hash = items[i];
            if !self.expanded_finalizations.contains(&Pair(epoch, hash)) {
                fresh.insert(hash);
            }
            proof {
                lemma_take_set(items@, i as int);
                assert(fresh@ =~= Set::new(
                    |h: BlockHash|
                        items@.take(i + 1).to_set().contains(h) && !self@.expanded_finalizations.contains(Pair(epoch, h)),
                ));
            }
        }
        proof {
            lemma_ascending(all@);
            assert(items@.take(items@.len() as int) =~= items@);
            assert(fresh@ =~= self@.unexpanded(epoch, finalized@));
        }
        if fresh.is_empty() {
            return None;
        }
        let roots = fresh.to_vec();
        match graph.dependency_closure(epoch, &roots, &mut self.missing_vote_blocks) {
            None => None,
            Some(members) => {
                proof {
                    assert(self@.expanded_finalizations =~= old(self)@.expanded_finalizations.union(
                        asked_in(epoch, roots@.take(0).to_set()),
                    ));
                }
                for i in 0..roots.len()
                    invariant
                        self@ == (Coordinator {
                            missing_vote_blocks: self@.missing_vote_blocks,
                            expanded_finalizations: old(self)@.expanded_finalizations.union(
                                asked_in(epoch, roots@.take(i as int).to_set()),
                            ),
                            ..old(self)@
                        }),
                        self@.missing_vote_blocks == old(self)@.missing_vote_blocks.union(
                            asked_in(epoch, graph@.closed(epoch, roots@).missing),
                        ),
                {
                    self.expanded_finalizations.insert(Pair(epoch, roots[i]));
                    proof {
                        lemma_take_set(roots@, i as int);
                        assert(self@.expanded_finalizations =~= old(self)@.expanded_finalizations.union(
                            asked_in(epoch, roots@.take(i + 1).to_set()),
                        ));
                    }
                }
                proof {
                    lemma_ascending(fresh@);
                    assert(roots@.take(roots@.len() as int) =~= roots@);
                }
                Some(members)
            },
        }
    }


    /// What is due at a time.
    pub fn next_step(&self, now: u64) -> (r: EpochStep)
        ensures
            r == self@.step(now),
    {
        match self.phase {
            Phase::Scheduled { start } => if now >= start.starts_at_unix_ms {
                EpochStep::Start
            } else {
                EpochStep::Idle
            },
            Phase::Open { start } => if now >= start.closes_at_unix_ms {
                EpochStep::Close { epoch: start.epoch }
            } else {
                EpochStep::Idle
            },
            Phase::Collecting => if self.all_reports_complete() {
                EpochStep::InstallCut
            } else {
                EpochStep::Idle
            },
            Phase::Cut => EpochStep::Drain,
            Phase::Converging => EpochStep::Converge,
            _ => EpochStep::Idle,
        }
    }

    /// Starts the scheduled epoch: votes pass again.
    pub fn start(&mut self, gate: &mut VoteGate)
        ensures
            match old(self)@.phase {
                Phase::Scheduled { start } => {
                    &&& final(self)@ == (Coordinator { phase: Phase::Open { start }, ..old(self)@ })
                    &&& final(gate)@ == (Gate { policy: Policy::Open, ..old(gate)@ })
                },
                _ => final(self)@ == old(self)@ && final(gate)@ == old(gate)@,
            },
    {
        if let Phase::Scheduled { start } = self.phase {
            gate.open();
            self.phase = Phase::Open { start };
        }
    }

    fn keep_reports_of_this_round(&mut self)
        ensures
            final(self)@ == (Coordinator {
                local_round_reports: old(self)@.reports_of_this_round(),
                ..old(self)@
            }),
    {
        let keys = self.local_round_reports.keys_vec();
        let ghost kept = old(self)@.reports_of_this_round();
        proof {
            lemma_ascending(self@.local_round_reports.dom());
        }
        for i in 0..keys.len()
            invariant
                keys@ == ascending(old(self)@.local_round_reports.dom()),
                kept == old(self)@.reports_of_this_round(),
                self@ == (Coordinator { local_round_reports: self@.local_round_reports, ..old(self)@ }),
                forall|k: Pair<u64, u32>| #[trigger]
                    self@.local_round_reports.contains_key(k) == (old(self)@.local_round_reports.contains_key(k) && (kept.contains_key(k)
                        || !keys@.take(i as int).to_set().contains(k))),
                forall|k: Pair<u64, u32>| #[trigger]
                    self@.local_round_reports.contains_key(k) ==> self@.local_round_reports[k] == old(self)@.local_round_reports[k],
        {
            let key = keys[i];
            proof {
                lemma_take_set(keys@, i as int);
                lemma_ascending(old(self)@.local_round_reports.dom());
                assert(keys@.contains(keys@[i as int]));
                assert(old(self)@.local_round_reports.dom().contains(key));
            }
            if !(key.0 != self.closing_epoch || key.1 == self.finalization_round) {
                self.local_round_reports.remove(&key);
            }
        }
        proof {
            assert(keys@.take(keys@.len() as int) =~= keys@);
            assert(self@.local_round_reports =~= kept);
        }
    }

    fn keep_reports_still_needed(&mut self)
        ensures
            final(self)@ == (Coordinator {
                local_round_reports: old(self)@.reports_still_needed(),
                ..old(self)@
            }),
    {
        let keys = self.local_round_reports.keys_vec();
        let ghost kept = old(self)@.reports_still_needed();
        proof {
            lemma_ascending(self@.local_round_reports.dom());
        }
        for i in 0..keys.len()
            invariant
                keys@ == ascending(old(self)@.local_round_reports.dom()),
                kept == old(self)@.reports_still_needed(),
                self@ == (Coordinator { local_round_reports: self@.local_round_reports, ..old(self)@ }),
                forall|k: Pair<u64, u32>| #[trigger]
                    self@.local_round_reports.contains_key(k) == (old(self)@.local_round_reports.contains_key(k) && (kept.contains_key(k)
                        || !keys@.take(i as int).to_set().contains(k))),
                forall|k: Pair<u64, u32>| #[trigger]
                    self@.local_round_reports.contains_key(k) ==> self@.local_round_reports[k] == old(self)@.local_round_reports[k],
        {
            let key = keys[i];
            proof {
                lemma_take_set(keys@, i as int);
                lemma_ascending(old(self)@.local_round_reports.dom());
                assert(keys@.contains(keys@[i as int]));
                assert(old(self)@.local_round_reports.dom().contains(key));
            }
            if !(key.0 != self.closing_epoch || key.1 >= self.finalization_round) {
                self.local_round_reports.remove(&key);
            }
        }
        proof {
            assert(keys@.take(keys@.len() as int) =~= keys@);
            assert(self@.local_round_reports =~= kept);
        }
    }

    fn keep_cut_hashes_still_needed(&mut self)
        ensures
            final(self)@ == (Coordinator {
                local_round_cut_hashes: old(self)@.cut_hashes_still_needed(),
                ..old(self)@
            }),
    {
        let keys = self.local_round_cut_hashes.keys_vec();
        let ghost kept = old(self)@.cut_hashes_still_needed();
        proof {
            lemma_ascending(self@.local_round_cut_hashes.dom());
        }
        for i in 0..keys.len()
            invariant
                keys@ == ascending(old(self)@.local_round_cut_hashes.dom()),
                kept == old(self)@.cut_hashes_still_needed(),
                self@ == (Coordinator { local_round_cut_hashes: self@.local_round_cut_hashes, ..old(self)@ }),
                forall|k: Pair<u64, u32>| #[trigger]
                    self@.local_round_cut_hashes.contains_key(k) == (old(self)@.local_round_cut_hashes.contains_key(k) && (kept.contains_key(k)
                        || !keys@.take(i as int).to_set().contains(k))),
                forall|k: Pair<u64, u32>| #[trigger]
                    self@.local_round_cut_hashes.contains_key(k) ==> self@.local_round_cut_hashes[k] == old(self)@.local_round_cut_hashes[k],
        {
            let key = keys[i];
            proof {
                lemma_take_set(keys@, i as int);
                lemma_ascending(old(self)@.local_round_cut_hashes.dom());
                assert(keys@.contains(keys@[i as int]));
                assert(old(self)@.local_round_cut_hashes.dom().contains(key));
            }
            if !(self.local_round_reports.contains_key(&key)) {
                self.local_round_cut_hashes.remove(&key);
            }
        }
        proof {
            assert(keys@.take(keys@.len() as int) =~= keys@);
            assert(self@.local_round_cut_hashes =~= kept);
        }
    }

    fn keep_chunks_still_needed(&mut self)
        ensures
            final(self)@ == (Coordinator {
                local_report_chunks: old(self)@.chunks_still_needed(),
                ..old(self)@
            }),
    {
        let keys = self.local_report_chunks.keys_vec();
        let ghost kept = old(self)@.chunks_still_needed();
        proof {
            lemma_ascending(self@.local_report_chunks.dom());
        }
        for i in 0..keys.len()
            invariant
                keys@ == ascending(old(self)@.local_report_chunks.dom()),
                kept == old(self)@.chunks_still_needed(),
                self@ == (Coordinator { local_report_chunks: self@.local_report_chunks, ..old(self)@ }),
                forall|k: Pair<u64, u16>| #[trigger]
                    self@.local_report_chunks.contains_key(k) == (old(self)@.local_report_chunks.contains_key(k) && (kept.contains_key(k)
                        || !keys@.take(i as int).to_set().contains(k))),
                forall|k: Pair<u64, u16>| #[trigger]
                    self@.local_report_chunks.contains_key(k) ==> self@.local_report_chunks[k] == old(self)@.local_report_chunks[k],
        {
            let key = keys[i];
            proof {
                lemma_take_set(keys@, i as int);
                lemma_ascending(old(self)@.local_report_chunks.dom());
                assert(keys@.contains(keys@[i as int]));
                assert(old(self)@.local_report_chunks.dom().contains(key));
            }
            if !(key.0 >= self.closing_epoch) {
                self.local_report_chunks.remove(&key);
            }
        }
        proof {
            assert(keys@.take(keys@.len() as int) =~= keys@);
            assert(self@.local_report_chunks =~= kept);
        }
    }

    fn reports_agree(&self) -> (r: bool)
        requires
            self@.finalization_reports != Map::<PublicKey, EpochFinalization>::empty(),
        ensures
            r == agree(self@.finalization_reports),
    {
        let count: usize = self.finalization_reports.len();
        let ghost q = ascending(self@.finalization_reports.dom());
        let ghost reports = self@.finalization_reports;
        let first = *self.finalization_reports.value_at(0);
        proof {
            assert(reports.contains_key(q[0]));
        }
        for i in 0..count
            invariant
                count == self@.finalization_reports.len(),
                reports == self@.finalization_reports,
                q == ascending(reports.dom()),
                q.len() == count,
                count > 0,
                reports.contains_key(q[0]),
                first == reports[q[0]],
                forall|j: int|
                    0 <= j < i ==> reports[#[trigger] q[j]].finalized_hash == first.finalized_hash
                        && reports[q[j]].non_cut_count == first.non_cut_count,
        {
            let report = *self.finalization_reports.value_at(i);
            if report.finalized_hash != first.finalized_hash || report.non_cut_count != first.non_cut_count {
                proof {
                    assert(reports.contains_key(q[i as int]));
                    assert(reports.contains_key(q[0]));
                }
                return false;
            }
        }
        proof {
            lemma_ascending(reports.dom());
            assert forall|k: PublicKey| #[trigger] reports.contains_key(k) implies reports[k].finalized_hash
                == first.finalized_hash && reports[k].non_cut_count == first.non_cut_count by {
                assert(q.contains(k));
                let j = choose|j: int| 0 <= j < q.len() && q[j] == k;
                assert(reports[q[j]].finalized_hash == first.finalized_hash);
            }
        }
        true
    }

    fn highest_count(&self) -> (r: u64)
        requires
            self@.finalization_reports != Map::<PublicKey, EpochFinalization>::empty(),
        ensures
            r == highest(self@.finalization_reports),
            is_highest(self@.finalization_reports, r),
    {
        let count: usize = self.finalization_reports.len();
        let ghost q = ascending(self@.finalization_reports.dom());
        let ghost reports = self@.finalization_reports;
        let mut r: u64 = self.finalization_reports.value_at(0).non_cut_count;
        proof {
            assert(reports.contains_key(q[0]));
        }
        for i in 0..count
            invariant
                count == self@.finalization_reports.len(),
                reports == self@.finalization_reports,
                q == ascending(reports.dom()),
                q.len() == count,
                exists|k: PublicKey| #[trigger] reports.contains_key(k) && reports[k].non_cut_count == r,
                forall|j: int| 0 <= j < i ==> reports[#[trigger] q[j]].non_cut_count <= r,
        {
            let other: u64 = self.finalization_reports.value_at(i).non_cut_count;
            if other > r {
                r = other;
                proof {
                    assert(reports.contains_key(q[i as int]));
                }
            }
        }
        proof {
            lemma_ascending(reports.dom());
            assert forall|k: PublicKey| #[trigger] reports.contains_key(k) implies reports[k].non_cut_count <= r by {
                assert(q.contains(k));
                let j = choose|j: int| 0 <= j < q.len() && q[j] == k;
                assert(reports[q[j]].non_cut_count <= r);
            }
            assert(is_highest(reports, r));
            lemma_highest(reports, r, highest(reports));
        }
        r
    }

    fn counts_are_tied(&self, count: u64) -> (r: bool)
        requires
            count == highest(self@.finalization_reports),
        ensures
            r == all_tied(self@.finalization_reports),
    {
        let size: usize = self.finalization_reports.len();
        let ghost reports = self@.finalization_reports;
        let ghost q = ascending(reports.dom());
        for i in 0..size
            invariant
                size == self@.finalization_reports.len(),
                reports == self@.finalization_reports,
                count == highest(reports),
                q == ascending(reports.dom()),
                q.len() == size,
                forall|j: int| 0 <= j < i ==> reports[#[trigger] q[j]].non_cut_count == count,
        {
            if self.finalization_reports.value_at(i).non_cut_count != count {
                proof {
                    assert(reports.contains_key(q[i as int]));
                }
                return false;
            }
        }
        proof {
            lemma_ascending(reports.dom());
            assert forall|k: PublicKey| #[trigger] reports.contains_key(k) implies reports[k].non_cut_count == count by {
                assert(q.contains(k));
                let j = choose|j: int| 0 <= j < q.len() && q[j] == k;
                assert(reports[q[j]].non_cut_count == count);
            }
        }
        true
    }

    fn waits(&self, key: &Option<PublicKey>, count: u64) -> (r: bool)
        requires
            count == highest(self@.finalization_reports),
        ensures
            r == self@.waits(*key),
    {
        let key = match key {
            Some(key) => key,
            None => {
                return false;
            },
        };
        match self.finalization_reports.get(key) {
            Some(report) => {
                if report.non_cut_count != count {
                    return false;
                }
            },
            None => {
                return false;
            },
        }
        if !self.counts_are_tied(count) || self.committee.is_empty() {
            return true;
        }
        self.committee.at(0) != *key
    }

    /// Goes on to the next round.
    fn advance_round(&mut self, key: &Option<PublicKey>)
        requires
            old(self)@.finalization_reports != Map::<PublicKey, EpochFinalization>::empty(),
            old(self)@.finalization_round < u32::MAX,
        ensures
            final(self)@ == old(self)@.advanced(*key),
    {
        let count: u64 = self.highest_count();
        let wait = self.waits(key, count);
        self.keep_reports_still_needed();
        self.keep_cut_hashes_still_needed();
        self.wait_for_round_peer = wait;
        self.local_round_snapshot = None;
        self.target_non_cut_count = count;
        self.finalization_round = self.finalization_round + 1;
        self.next_finalization_broadcast_ms = 0;
        let next = self.future_finalization_reports.remove(&self.finalization_round);
        self.finalization_reports = match next {
            Some(reports) => reports,
            None => SortedMap::new(),
        };
    }

    /// Leaves the sealed epoch behind.
    fn seal(&mut self, gate: &mut VoteGate)
        requires
            old(self)@.is_ordered(),
        ensures
            final(self)@ == old(self)@.sealed(),
            final(gate)@ == if old(self)@.next_start is Some {
                Gate { policy: Policy::Open, ..old(gate)@ }
            } else {
                old(gate)@
            },
    {
        self.keep_reports_of_this_round();
        let start = match self.next_start {
            Some(start) => start,
            None => {
                self.phase = Phase::Complete;
                return;
            },
        };
        self.keep_chunks_still_needed();
        let mut fresh = EpochCoordinator::new(self.committee.duplicate());
        core::mem::swap(&mut fresh, self);
        let EpochCoordinator {
            next_epoch_reports,
            local_report_chunks,
            local_round_reports,
            local_round_cut_hashes,
            closing_candidates,
            missing_vote_blocks,
            next_block_recovery_ms,
            expanded_finalizations,
            ..
        } = fresh;
        self.phase = Phase::Open { start };
        self.reports = next_epoch_reports;
        self.local_report_chunks = local_report_chunks;
        self.local_round_reports = local_round_reports;
        self.local_round_cut_hashes = local_round_cut_hashes;
        self.closing_epoch = start.epoch;
        self.closing_candidates = closing_candidates;
        self.missing_vote_blocks = missing_vote_blocks;
        self.next_block_recovery_ms = next_block_recovery_ms;
        self.expanded_finalizations = expanded_finalizations;
        gate.open();
    }

    /// Looks at the reports of the current round, once every member has
    /// reported. If all agree with the own report, the epoch is sealed;
    /// otherwise the next round begins. `key` is the own key in the committee.
    pub fn evaluate_finalizations(&mut self, gate: &mut VoteGate, key: Option<PublicKey>) -> (r: Option<SealedEpoch>)
        requires
            old(self)@.is_ordered(),
            old(self)@.committee != Set::<PublicKey>::empty(),
            old(self)@.finalization_round < u32::MAX,
        ensures
            r.deep_view() == old(self)@.sealing(),
            final(self)@ == old(self)@.evaluated(key),
            final(gate)@ == old(self)@.gate_when_evaluated(old(gate)@),
    {
        if self.finalization_reports.len() != self.committee.len() {
            return None;
        }
        proof {
            if self@.finalization_reports =~= Map::empty() {
                assert(self@.committee.len() == 0);
                assert(self@.committee =~= Set::empty());
            }
        }
        if !self.reports_agree() {
            self.advance_round(&key);
            return None;
        }
        let first = *self.finalization_reports.value_at(0);
        let (finalized, included_cut) = match &self.local_round_snapshot {
            None => {
                return None;
            },
            Some(end) => {
                let commitment = closure_commitment(self.closing_epoch, &self.cut, end);
                if commitment.hash != first.finalized_hash || commitment.non_cut_count != first.non_cut_count {
                    return None;
                }
                (end.finalized.duplicate(), end.cut_winners.duplicate())
            },
        };
        let sealed = SealedEpoch {
            epoch: self.closing_epoch,
            round: self.finalization_round,
            non_cut_count: first.non_cut_count,
            finalized_hash: first.finalized_hash,
            included_cut,
            finalized,
        };
        self.seal(gate);
        Some(sealed)
    }

    /// Reports the end of the epoch if it is time to, and looks at what the
    /// members reported.
    pub fn converge(&mut self, gate: &mut VoteGate, facts: &mut EpochFacts, key: Option<PublicKey>) -> (r: Convergence)
        requires
            old(self)@.is_ordered(),
            old(self)@.phase != Phase::Waiting,
            old(self)@.committee != Set::<PublicKey>::empty(),
            old(self)@.finalization_round < u32::MAX,
            old(facts)@.graph.heights_fit(),
        ensures
            ({
                let c = old(self)@.sent(old(facts)@, key);
                let g = Gate {
                    finalized: old(gate)@.finalized.insert(old(self)@.closing_epoch, old(facts)@.finalized),
                    ..old(gate)@
                };
                &&& r.report == old(self)@.sends(old(facts)@, key)
                &&& r.sealed.deep_view() == c.sealing()
                &&& final(self)@ == c.evaluated(key)
                &&& final(gate)@ == c.gate_when_evaluated(g)
            }),
            final(facts)@ == old(self)@.facts_after(old(facts)@, false),
    {
        gate.set_finalized(self.closing_epoch, facts.finalized.duplicate());
        let report = self.send_local_finalization(facts, key);
        let sealed = self.evaluate_finalizations(gate, key);
        Convergence { report, sealed }
    }

}


proof fn lemma_push_set<T>(q: Seq<T>, x: T)
    ensures
        q.push(x).to_set() == q.to_set().insert(x),
{
    lemma_take_set(q.push(x), q.len() as int);
    assert(q.push(x).take(q.len() as int) =~= q);
    assert(q.push(x).take((q.len() + 1) as int) =~= q.push(x));
}

proof fn lemma_by_epoch(wanted: Set<Pair<u64, BlockHash>>, pair: Pair<u64, BlockHash>, had: Set<BlockHash>)
    requires
        had == if by_epoch(wanted).contains_key(pair.0) {
            by_epoch(wanted)[pair.0]
        } else {
            Set::empty()
        },
    ensures
        by_epoch(wanted.insert(pair)) == by_epoch(wanted).remove(pair.0).insert(pair.0, had.insert(pair.1)),
{
    let a = by_epoch(wanted);
    let b = by_epoch(wanted.insert(pair));
    let c = a.remove(pair.0).insert(pair.0, had.insert(pair.1));
    assert forall|h: BlockHash| had.contains(h) == wanted.contains(Pair(pair.0, h)) by {
        if wanted.contains(Pair(pair.0, h)) {
            assert(a.contains_key(pair.0));
        }
    }
    assert forall|e: u64| b.contains_key(e) == c.contains_key(e) by {
        if b.contains_key(e) {
            let h = choose|h: BlockHash| #[trigger] wanted.insert(pair).contains(Pair(e, h));
            if e != pair.0 {
                assert(wanted.contains(Pair(e, h)));
            }
        }
        if c.contains_key(e) {
            if e == pair.0 {
                assert(wanted.insert(pair).contains(Pair(e, pair.1)));
            } else {
                assert(a.contains_key(e));
                let h = choose|h: BlockHash| #[trigger] wanted.contains(Pair(e, h));
                assert(wanted.insert(pair).contains(Pair(e, h)));
            }
        }
    }
    assert forall|e: u64| #[trigger] b.contains_key(e) implies b[e] == c[e] by {
        if e == pair.0 {
            assert(b[e] =~= had.insert(pair.1));
        } else {
            assert(b[e] =~= a[e]);
        }
    }
    assert(b =~= c);
}

/// The first report of a member and a round is never replaced.
pub proof fn first_commitment_is_kept(c: Coordinator, report: EpochFinalization, authentic: bool, member: PublicKey, round: u32)
    ensures
        c.finalization_reports.contains_key(member) ==> c.heard(report, authentic).finalization_reports.contains_key(member)
            && c.heard(report, authentic).finalization_reports[member] == c.finalization_reports[member],
        c.future(round).contains_key(member) ==> c.heard(report, authentic).future(round).contains_key(member) && c.heard(
            report,
            authentic,
        ).future(round)[member] == c.future(round)[member],
{
}

/// A report about the next epoch leaves the cut of the epoch at hand as it is.
pub proof fn early_report_leaves_the_cut(c: Coordinator, chunk: ReportChunk, authentic: bool)
    requires
        c.is_next(chunk.epoch),
    ensures
        c.reported(chunk, authentic).reports == c.reports,
        !c.widens_cut(chunk, authentic),
{
}

/// Whatever the members of the cut depend on, and every reported election, may
/// still be voted on while the cut drains.
pub proof fn cut_may_drain(c: Coordinator, finalized_earlier: Set<SlotRoot>, repair: Seq<Candidate>, graph: Graph)
    ensures
        c.agreed_cut(finalized_earlier).subset_of(c.drained_by(finalized_earlier, repair, graph)),
        reported_slots(c.reports).subset_of(c.drained_by(finalized_earlier, repair, graph)),
{
    let cut = c.agreed_cut(finalized_earlier);
    assert forall|slot: SlotRoot| cut.contains(slot) implies reported_slots(c.reports).contains(slot) by {
        crate::epoch_reports::lemma_supported_is_reported(c.reports, slot);
    }
}


proof fn lemma_asked_twice(base: Set<Pair<u64, BlockHash>>, epoch: u64, a: Set<BlockHash>, b: Set<BlockHash>)
    ensures
        base.union(asked_in(epoch, a)).union(asked_in(epoch, b)) == base.union(asked_in(epoch, a.union(b))),
{
    assert(base.union(asked_in(epoch, a)).union(asked_in(epoch, b)) =~= base.union(asked_in(epoch, a.union(b))));
}

proof fn lemma_union_associates(a: Set<BlockHash>, b: Set<BlockHash>, c: Set<BlockHash>)
    ensures
        a.union(b).union(c) == a.union(b.union(c)),
{
    assert(a.union(b).union(c) =~= a.union(b.union(c)));
}

/// The own report of a round is never replaced, nor what it commits to.
pub proof fn round_commitment_is_immutable(c: Coordinator, facts: Facts, key: Option<PublicKey>)
    requires
        c.has_reported(),
    ensures
        c.sends(facts, key) is None,
        c.sent(facts, key).local_round_reports == c.local_round_reports,
        c.sent(facts, key).local_round_snapshot == c.local_round_snapshot,
        c.sent(facts, key).finalization_reports == c.finalization_reports,
{
}

/// A node that waits for a peer reports as soon as a peer has reported, if it
/// has caught up with the target.
pub proof fn a_peer_ends_the_wait(c: Coordinator, key: PublicKey, end: EpochEnd)
    requires
        !c.has_reported(),
        c.peer_reported(key),
        end.commitment(c.closing_epoch, c.cut).non_cut_count >= c.target_non_cut_count,
    ensures
        c.reports_now(Some(key), Some(end), true) == Some(c.own_finalization(key, end)),
{
}

/// A count above the target is reported whether or not a peer has reported.
pub proof fn the_target_is_no_cap(c: Coordinator, key: PublicKey, end: EpochEnd)
    requires
        !c.has_reported(),
        end.commitment(c.closing_epoch, c.cut).non_cut_count > c.target_non_cut_count,
    ensures
        c.reports_now(Some(key), Some(end), true) == Some(c.own_finalization(key, end)),
{
}

/// A new outcome of the cut lets a node that has caught up go first.
pub proof fn an_updated_cut_ends_the_wait(c: Coordinator, key: PublicKey, end: EpochEnd)
    requires
        !c.has_reported(),
        c.cut_is_updated(end),
        end.commitment(c.closing_epoch, c.cut).non_cut_count >= c.target_non_cut_count,
    ensures
        c.reports_now(Some(key), Some(end), true) == Some(c.own_finalization(key, end)),
{
}

/// A slot with a candidate that has not lost is open, and so is a finalized one.
pub proof fn a_viable_candidate_keeps_its_slot_open(
    facts: Facts,
    slots: Set<SlotRoot>,
    dead: Map<BlockHash, Loss>,
    slot: SlotRoot,
    hash: BlockHash,
)
    requires
        slots.contains(slot),
        facts.finalized.contains_key(slot) || (facts.repair.contains_key(slot) && facts.repair[slot].contains(hash)
            && !dead.contains_key(hash)),
    ensures
        facts.unresolved(slots, dead).contains(slot),
{
}


proof fn lemma_highest(reports: Map<PublicKey, EpochFinalization>, a: u64, b: u64)
    requires
        is_highest(reports, a),
        is_highest(reports, b),
    ensures
        a == b,
{
    let j = choose|k: PublicKey| #[trigger] reports.contains_key(k) && reports[k].non_cut_count == a;
    let k = choose|k: PublicKey| #[trigger] reports.contains_key(k) && reports[k].non_cut_count == b;
    assert(reports.contains_key(j) && reports.contains_key(k));
}

/// An epoch is sealed only if every member of the committee reported what the
/// own report commits to.
pub proof fn sealing_needs_every_member(c: Coordinator, member: PublicKey)
    requires
        c.seals(),
        c.committee.finite(),
        c.finalization_reports.dom().subset_of(c.committee),
        c.committee.contains(member),
    ensures
        c.finalization_reports.contains_key(member),
        c.finalization_reports[member].finalized_hash == c.local_round_snapshot->0.commitment(c.closing_epoch, c.cut).hash,
        c.finalization_reports[member].non_cut_count == c.local_round_snapshot->0.commitment(
            c.closing_epoch,
            c.cut,
        ).non_cut_count,
{
    let dom = c.finalization_reports.dom();
    vstd::set_lib::lemma_subset_equality(dom, c.committee);
    lemma_ascending(dom);
    let q = ascending(dom);
    assert(q.contains(member));
    assert(dom.contains(q[0])) by {
        assert(q.contains(q[0]));
    }
    assert(c.finalization_reports.contains_key(q[0]));
    assert(c.finalization_reports.contains_key(member));
}

/// Where all counts are tied, exactly one member goes first in the next round.
pub proof fn a_tie_has_one_initiator(c: Coordinator, member: PublicKey)
    requires
        c.committee.finite(),
        c.finalization_reports.dom() == c.committee,
        all_tied(c.finalization_reports),
        c.committee.contains(member),
    ensures
        !c.waits(Some(member)) <==> member == ascending(c.committee)[0],
{
    assert(c.finalization_reports.contains_key(member));
}

/// A member whose count lags does not wait in the next round, and one with the
/// highest count waits for it.
pub proof fn lagging_members_go_first(c: Coordinator, lagging: PublicKey, leading: PublicKey)
    requires
        c.finalization_reports.contains_key(lagging),
        c.finalization_reports.contains_key(leading),
        c.finalization_reports[lagging].non_cut_count < c.finalization_reports[leading].non_cut_count,
        c.finalization_reports[leading].non_cut_count == highest(c.finalization_reports),
    ensures
        !c.waits(Some(lagging)),
        c.waits(Some(leading)),
{
}

/// The own report of the sealed round stays, so that it can be sent again.
pub proof fn sealed_report_is_kept(c: Coordinator)
    requires
        c.has_reported(),
    ensures
        ({
            let place = Pair(c.closing_epoch, c.finalization_round);
            &&& c.sealed().local_round_reports.contains_key(place)
            &&& c.sealed().local_round_reports[place] == c.local_round_reports[place]
        }),
{
}

/// The own report of a round that ended without agreement stays for members that lag.
pub proof fn report_of_the_last_round_is_kept(c: Coordinator, key: Option<PublicKey>)
    requires
        c.has_reported(),
    ensures
        ({
            let place = Pair(c.closing_epoch, c.finalization_round);
            &&& c.advanced(key).local_round_reports.contains_key(place)
            &&& c.advanced(key).local_round_reports[place] == c.local_round_reports[place]
        }),
{
}

/// A report about the next epoch that came early counts once the epoch before is sealed.
pub proof fn early_report_survives_sealing(c: Coordinator, chunk: ReportChunk, authentic: bool)
    requires
        c.next_start is Some,
        c.is_next(chunk.epoch),
        c.heeds(chunk, authentic),
    ensures
        c.reported(chunk, authentic).sealed().reports.contains_key(chunk.reporter),
        c.reported(chunk, authentic).sealed().reports[chunk.reporter] == c.partial(chunk).with(chunk),
{
}

/// The parts of the own report about the sealed epoch stay for members that still collect it.
pub proof fn sealed_chunks_are_kept(c: Coordinator, request: EpochReportRequest, authentic: bool)
    requires
        request.epoch == c.closing_epoch,
    ensures
        c.sealed().response(request, authentic) == c.response(request, authentic),
{
}

/// Whatever is done keeps a scheduled start behind the epoch at hand.
pub proof fn starts_stay_in_order(c: Coordinator, start: EpochStart, key: Option<PublicKey>)
    requires
        c.is_ordered(),
    ensures
        c.scheduled(start).is_ordered(),
        c.evaluated(key).is_ordered(),
{
}

/// Two members of the round reported differently.
pub open spec fn differ(reports: Map<PublicKey, EpochFinalization>, a: PublicKey, b: PublicKey) -> bool {
    &&& reports.contains_key(a)
    &&& reports.contains_key(b)
    &&& reports[a].finalized_hash != reports[b].finalized_hash || reports[a].non_cut_count != reports[b].non_cut_count
}

/// A round that every member reported in, and in which two reports differ, is
/// followed by the next one. It starts with exactly the reports that came early
/// for it, and nothing that came for a later round is lost; what its members must
/// reach is the highest count of the round before.
pub proof fn early_reports_open_the_next_round(c: Coordinator, key: Option<PublicKey>, a: PublicKey, b: PublicKey)
    requires
        c.finalization_reports.dom().finite(),
        c.finalization_reports.len() == c.committee.len(),
        differ(c.finalization_reports, a, b),
        c.finalization_round < u32::MAX,
    ensures
        ({
            let after = c.evaluated(key);
            let round = (c.finalization_round + 1) as u32;
            let early = c.future_finalization_reports;
            &&& after.finalization_round == c.finalization_round + 1
            &&& forall|k: PublicKey| #[trigger]
                after.finalization_reports.contains_key(k) <==> early.contains_key(round) && early[round].contains_key(k)
            &&& forall|k: PublicKey| #[trigger]
                after.finalization_reports.contains_key(k) ==> after.finalization_reports[k] == early[round][k]
            &&& !after.future_finalization_reports.contains_key(round)
            &&& forall|r: u32|
                r != round && early.contains_key(r) ==> #[trigger] after.future_finalization_reports.contains_key(r)
                    && after.future_finalization_reports[r] == early[r]
            &&& forall|k: PublicKey| #[trigger]
                c.finalization_reports.contains_key(k) ==> c.finalization_reports[k].non_cut_count
                    <= after.target_non_cut_count
            &&& exists|k: PublicKey| #[trigger]
                c.finalization_reports.contains_key(k) && c.finalization_reports[k].non_cut_count
                    == after.target_non_cut_count
            &&& after.local_round_snapshot is None
            &&& after.next_finalization_broadcast_ms == 0
            &&& after.phase == c.phase && after.committee == c.committee && after.closing_epoch == c.closing_epoch
            &&& after.cut == c.cut && after.reports == c.reports
            &&& c.sealing() is None
        }),
{
    let reports = c.finalization_reports;
    assert(!agree(reports)) by {
        if agree(reports) {
            assert(reports.contains_key(a) && reports.contains_key(b));
        }
    }
    lemma_highest_exists(reports, a);
    assert(is_highest(reports, highest(reports)));
}

proof fn lemma_highest_exists(reports: Map<PublicKey, EpochFinalization>, a: PublicKey)
    requires
        reports.dom().finite(),
        reports.contains_key(a),
    ensures
        exists|count: u64| is_highest(reports, count),
    decreases reports.len(),
{
    let rest = reports.remove(a);
    if forall|k: PublicKey| !#[trigger] rest.contains_key(k) {
        assert(is_highest(reports, reports[a].non_cut_count)) by {
            assert forall|k: PublicKey| #[trigger] reports.contains_key(k) implies reports[k].non_cut_count
                <= reports[a].non_cut_count by {
                assert(!rest.contains_key(k));
            }
        }
    } else {
        let b = choose|k: PublicKey| #[trigger] rest.contains_key(k);
        lemma_highest_exists(rest, b);
        let n = choose|count: u64| is_highest(rest, count);
        let m = if reports[a].non_cut_count > n {
            reports[a].non_cut_count
        } else {
            n
        };
        assert(is_highest(reports, m)) by {
            assert forall|k: PublicKey| #[trigger] reports.contains_key(k) implies reports[k].non_cut_count <= m by {
                assert(k != a ==> rest.contains_key(k));
            }
            if m == n {
                let k = choose|k: PublicKey| #[trigger] rest.contains_key(k) && rest[k].non_cut_count == n;
                assert(reports.contains_key(k));
            } else {
                assert(reports.contains_key(a));
            }
        }
    }
}

/// A member's authentic report that came while the round before was open counts
/// as soon as its own round begins.
pub proof fn early_report_counts_in_its_round(
    c: Coordinator,
    key: Option<PublicKey>,
    report: EpochFinalization,
    a: PublicKey,
    b: PublicKey,
)
    requires
        c.finalization_reports.dom().finite(),
        c.finalization_reports.len() == c.committee.len(),
        differ(c.finalization_reports, a, b),
        c.phase == Phase::Converging,
        report.epoch == c.closing_epoch,
        report.round == c.finalization_round + 1,
        c.committee.contains(report.reporter),
        c.future_finalization_reports.contains_key(report.round)
            ==> !c.future_finalization_reports[report.round].contains_key(report.reporter),
    ensures
        ({
            let after = c.heard(report, true).evaluated(key);
            &&& after.finalization_round == report.round
            &&& after.finalization_reports.contains_key(report.reporter)
            &&& after.finalization_reports[report.reporter] == report
        }),
{
    let heard = c.heard(report, true);
    early_reports_open_the_next_round(heard, key, a, b);
}

/// A report of the round at hand counts at once, the first one of each member; it
/// changes nothing else.
pub proof fn report_of_this_round_counts(c: Coordinator, report: EpochFinalization, member: PublicKey)
    requires
        c.phase == Phase::Collecting || c.phase == Phase::Cut || c.phase == Phase::Converging,
        report.epoch == c.closing_epoch,
        report.round == c.finalization_round,
        c.committee.contains(report.reporter),
    ensures
        ({
            let after = c.heard(report, true).finalization_reports;
            &&& after.contains_key(member) <==> c.finalization_reports.contains_key(member) || member == report.reporter
            &&& c.finalization_reports.contains_key(member) ==> after[member] == c.finalization_reports[member]
            &&& member == report.reporter && !c.finalization_reports.contains_key(member) ==> after[member] == report
        }),
        c.heard(report, true) == (Coordinator {
            finalization_reports: c.heard(report, true).finalization_reports,
            ..c
        }),
{
}

/// A report that is not authentic, comes from outside the committee, is about
/// another epoch or about a round that is over, or comes when none is awaited,
/// changes nothing.
pub proof fn stray_finalization_changes_nothing(c: Coordinator, report: EpochFinalization, authentic: bool)
    requires
        !authentic || !c.committee.contains(report.reporter) || report.epoch != c.closing_epoch || report.round
            < c.finalization_round || c.phase is Waiting || c.phase is Scheduled || c.phase is Open || c.phase is Complete,
    ensures
        c.heard(report, authentic) == c,
{
}

/// A round stays open until every member has reported.
pub proof fn open_round_stays(c: Coordinator, key: Option<PublicKey>)
    requires
        c.finalization_reports.len() < c.committee.len(),
    ensures
        c.evaluated(key) == c,
        c.sealing() is None,
{
}

/// After a round without agreement a member waits for a peer exactly if it
/// reported, no member's count exceeds its own, and it is not the least member of
/// the committee in a round where all counts are equal.
pub proof fn leaders_wait_for_the_others(c: Coordinator, key: PublicKey, a: PublicKey, b: PublicKey)
    requires
        c.committee.finite(),
        c.committee.contains(key),
        c.finalization_reports.dom().finite(),
        c.finalization_reports.len() == c.committee.len(),
        differ(c.finalization_reports, a, b),
        c.finalization_round < u32::MAX,
    ensures
        ({
            let reports = c.finalization_reports;
            c.evaluated(Some(key)).wait_for_round_peer <==> {
                &&& reports.contains_key(key)
                &&& forall|k: PublicKey| #[trigger]
                    reports.contains_key(k) ==> reports[k].non_cut_count <= reports[key].non_cut_count
                &&& (exists|k: PublicKey| #[trigger]
                    reports.contains_key(k) && reports[k].non_cut_count != reports[key].non_cut_count) || (exists|
                    k: PublicKey,
                | #[trigger]
                    c.committee.contains(k) && k.rank() < key.rank())
            }
        }),
        !c.evaluated(None).wait_for_round_peer,
{
    let reports = c.finalization_reports;
    early_reports_open_the_next_round(c, Some(key), a, b);
    lemma_highest_exists(reports, a);
    assert(is_highest(reports, highest(reports)));
    assert(!agree(reports)) by {
        if agree(reports) {
            assert(reports.contains_key(a) && reports.contains_key(b));
        }
    }
    let q = ascending(c.committee);
    lemma_ascending(c.committee);
    assert(q.contains(key));
    let at = choose|at: int| 0 <= at < q.len() && q[at] == key;
    if q[0] != key {
        assert(at > 0);
        assert(q[0].rank() < q[at].rank());
        assert(c.committee.contains(q[0]));
    } else {
        assert forall|k: PublicKey| #[trigger] c.committee.contains(k) implies k.rank() >= key.rank() by {
            assert(q.contains(k));
            let i = choose|i: int| 0 <= i < q.len() && q[i] == k;
            assert(i > 0 ==> q[0].rank() < q[i].rank());
        }
    }
    if reports.contains_key(key) && reports[key].non_cut_count == highest(reports) {
        if !all_tied(reports) {
            let k = choose|k: PublicKey| #[trigger] reports.contains_key(k) && reports[k].non_cut_count != highest(reports);
            assert(reports.contains_key(k));
        }
    }
    if reports.contains_key(key) && forall|k: PublicKey| #[trigger]
        reports.contains_key(k) ==> reports[k].non_cut_count <= reports[key].non_cut_count {
        assert(is_highest(reports, reports[key].non_cut_count));
        lemma_highest(reports, reports[key].non_cut_count, highest(reports));
    }
}

/// Where every member reported what the own snapshot commits to, the epoch is
/// sealed with the winners of that snapshot, and the epoch after it, if it was
/// announced, is open, with the reports that came early for it.
pub proof fn agreement_seals_the_epoch(c: Coordinator, key: Option<PublicKey>, end: EpochEnd)
    requires
        c.committee.finite(),
        c.committee != Set::<PublicKey>::empty(),
        c.finalization_reports.dom() == c.committee,
        c.local_round_snapshot == Some(end),
        forall|k: PublicKey| #[trigger]
            c.committee.contains(k) ==> c.finalization_reports[k].finalized_hash == end.commitment(c.closing_epoch, c.cut).hash
                && c.finalization_reports[k].non_cut_count == end.commitment(c.closing_epoch, c.cut).non_cut_count,
    ensures
        c.sealing() is Some,
        ({
            let sealed = c.sealing()->0;
            &&& sealed.epoch == c.closing_epoch
            &&& sealed.round == c.finalization_round
            &&& sealed.finalized_hash == end.commitment(c.closing_epoch, c.cut).hash
            &&& sealed.non_cut_count == end.commitment(c.closing_epoch, c.cut).non_cut_count
            &&& sealed.finalized == end.finalized
            &&& sealed.included_cut == end.cut_winners
        }),
        ({
            let after = c.evaluated(key);
            &&& after.committee == c.committee
            &&& c.next_start is None ==> after.phase == Phase::Complete && after.closing_epoch == c.closing_epoch
            &&& c.next_start matches Some(start) ==> {
                &&& after.phase == (Phase::Open { start })
                &&& after.closing_epoch == start.epoch
                &&& after.reports == c.next_epoch_reports
                &&& after.next_epoch_reports == Map::<PublicKey, Partial>::empty()
                &&& after.next_start is None
                &&& after.cut == Set::<SlotRoot>::empty()
                &&& after.finalization_round == 0
                &&& after.target_non_cut_count == 0
                &&& after.finalization_reports == Map::<PublicKey, EpochFinalization>::empty()
                &&& after.future_finalization_reports == Map::<u32, Map<PublicKey, EpochFinalization>>::empty()
                &&& after.missing_vote_blocks == c.missing_vote_blocks
            }
        }),
{
    let dom = c.finalization_reports.dom();
    lemma_ascending(dom);
    let q = ascending(dom);
    assert(q.len() > 0) by {
        if forall|k: PublicKey| !#[trigger] dom.contains(k) {
            assert(dom =~= Set::empty());
        }
        let k = choose|k: PublicKey| #[trigger] dom.contains(k);
        assert(q.contains(k));
    }
    assert(c.committee.contains(q[0]));
    assert(agree(c.finalization_reports)) by {
        assert forall|a: PublicKey, b: PublicKey|
            #![trigger c.finalization_reports.contains_key(a), c.finalization_reports.contains_key(b)]
            c.finalization_reports.contains_key(a) && c.finalization_reports.contains_key(b) implies c.finalization_reports[a].finalized_hash
            == c.finalization_reports[b].finalized_hash && c.finalization_reports[a].non_cut_count
            == c.finalization_reports[b].non_cut_count by {
            assert(c.committee.contains(a) && c.committee.contains(b));
        }
    }
}

proof fn lemma_requests(c: Coordinator, key: PublicKey, members: Seq<PublicKey>, wish: AddressedRequest)
    ensures
        c.requests(key, members).contains(wish) <==> {
            &&& members.contains(wish.reporter)
            &&& wish.reporter != key
            &&& c.wanted(wish.reporter) == Some(wish.request.chunk_index)
            &&& wish.request.requester == key
            &&& wish.request.epoch == c.closing_epoch
        },
    decreases members.len(),
{
    if members.len() > 0 {
        let rest = members.drop_last();
        lemma_requests(c, key, rest, wish);
        let before = c.requests(key, rest);
        let after = c.requests(key, members);
        assert(members.contains(wish.reporter) == (rest.contains(wish.reporter) || members.last() == wish.reporter)) by {
            if rest.contains(wish.reporter) {
                let i = choose|i: int| 0 <= i < rest.len() && rest[i] == wish.reporter;
                assert(members[i] == wish.reporter);
            }
            if members.last() == wish.reporter {
                assert(members[members.len() - 1] == wish.reporter);
            }
            if members.contains(wish.reporter) {
                let i = choose|i: int| 0 <= i < members.len() && members[i] == wish.reporter;
                if i < rest.len() {
                    assert(rest[i] == wish.reporter);
                }
            }
        }
        if before.contains(wish) {
            let i = choose|i: int| 0 <= i < before.len() && before[i] == wish;
            assert(after[i] == wish);
        }
        if after != before {
            assert(after[before.len() as int] == after.last());
        }
        if after.contains(wish) && !before.contains(wish) {
            let i = choose|i: int| 0 <= i < after.len() && after[i] == wish;
            if i < before.len() {
                assert(before[i] == wish);
            }
        }
    }
}

/// Every other member that a part of the report is missing of is asked for the
/// first missing part: the very first one where nothing came yet. Nobody else is
/// asked, nor for anything else.
pub proof fn missing_parts_are_asked_for(c: Coordinator, key: PublicKey, wish: AddressedRequest)
    requires
        c.committee.finite(),
    ensures
        c.missing_requests(Some(key)).contains(wish) <==> {
            &&& c.committee.contains(wish.reporter)
            &&& wish.reporter != key
            &&& wish.request.requester == key
            &&& wish.request.epoch == c.closing_epoch
            &&& if c.reports.contains_key(wish.reporter) {
                let report = c.reports[wish.reporter];
                &&& wish.request.chunk_index < report.count
                &&& !report.chunks.contains_key(wish.request.chunk_index)
                &&& forall|j: u16| j < wish.request.chunk_index ==> #[trigger] report.chunks.contains_key(j)
            } else {
                wish.request.chunk_index == 0
            }
        },
        c.missing_requests(None) == Seq::<AddressedRequest>::empty(),
{
    let q = ascending(c.committee);
    lemma_ascending(c.committee);
    lemma_requests(c, key, q, wish);
    assert(q.contains(wish.reporter) == c.committee.contains(wish.reporter)) by {
        assert(q.to_set().contains(wish.reporter) == q.contains(wish.reporter));
    }
    if c.reports.contains_key(wish.reporter) {
        first_missing_part_is_asked_for(c.reports[wish.reporter]);
    }
}

/// An epoch starts when its time has come and closes when its time is over; the
/// cut is installed once every member's report is whole.
pub proof fn steps_follow_the_clock(c: Coordinator, now: u64, start: EpochStart)
    ensures
        c.phase == (Phase::Scheduled { start }) ==> (c.step(now) == EpochStep::Start <==> now >= start.starts_at_unix_ms),
        c.phase == (Phase::Open { start }) ==> (c.step(now) == (EpochStep::Close { epoch: start.epoch }) <==> now
            >= start.closes_at_unix_ms),
        c.step(now) == EpochStep::Start ==> c.phase is Scheduled,
        c.step(now) is Close ==> c.phase is Open,
        c.step(now) == EpochStep::InstallCut <==> {
            &&& c.phase == Phase::Collecting
            &&& c.reports.len() == c.committee.len()
            &&& forall|k: PublicKey| #[trigger]
                c.reports.contains_key(k) ==> c.reports[k].count > 0 && c.reports[k].chunks.len() == c.reports[k].count
        },
        c.step(now) == EpochStep::Drain <==> c.phase == Phase::Cut,
        c.step(now) == EpochStep::Converge <==> c.phase == Phase::Converging,
{
}

/// A part of a report is taken exactly if it is authentic, from a member, and
/// about the epoch that closes or the one after it; each goes to the reports about
/// its own epoch.
pub proof fn parts_go_to_their_epoch(c: Coordinator, chunk: ReportChunk, authentic: bool)
    ensures
        ({
            let after = c.reported(chunk, authentic);
            let taken = authentic && c.committee.contains(chunk.reporter);
            &&& taken && chunk.epoch == c.closing_epoch ==> {
                &&& after.reports.contains_key(chunk.reporter)
                &&& !c.reports.contains_key(chunk.reporter) ==> {
                    &&& after.reports[chunk.reporter].count == chunk.chunk_count
                    &&& after.reports[chunk.reporter].chunks == Map::<u16, Seq<SlotRoot>>::empty().insert(
                        chunk.chunk_index,
                        chunk.elections,
                    )
                }
                &&& after.next_epoch_reports == c.next_epoch_reports
                &&& after.reports.remove(chunk.reporter) =~= c.reports.remove(chunk.reporter)
            }
            &&& taken && chunk.epoch == c.closing_epoch + 1 ==> {
                &&& after.next_epoch_reports.contains_key(chunk.reporter)
                &&& !c.next_epoch_reports.contains_key(chunk.reporter) ==> {
                    &&& after.next_epoch_reports[chunk.reporter].count == chunk.chunk_count
                    &&& after.next_epoch_reports[chunk.reporter].chunks == Map::<u16, Seq<SlotRoot>>::empty().insert(
                        chunk.chunk_index,
                        chunk.elections,
                    )
                }
                &&& after.reports == c.reports
                &&& after.next_epoch_reports.remove(chunk.reporter) =~= c.next_epoch_reports.remove(chunk.reporter)
            }
            &&& !taken || (chunk.epoch != c.closing_epoch && chunk.epoch != c.closing_epoch + 1) ==> after == c
        }),
{
}

/// The start of an epoch is taken once; after that its close can only be moved
/// forward, never back. The start of the epoch after it waits, whatever goes on.
pub proof fn close_only_moves_forward(c: Coordinator, start: EpochStart, current: EpochStart)
    ensures
        ({
            let after = c.scheduled(start);
            &&& c.phase == Phase::Waiting ==> after.phase == (Phase::Scheduled { start }) && after.closing_epoch == start.epoch
            &&& (c.phase == (Phase::Scheduled { start: current }) || c.phase == (Phase::Open { start: current })) && start.epoch
                == current.epoch ==> {
                &&& after.phase is Scheduled <==> c.phase is Scheduled
                &&& match after.phase {
                    Phase::Scheduled { start: now } | Phase::Open { start: now } => {
                        &&& now.epoch == current.epoch
                        &&& now.starts_at_unix_ms == current.starts_at_unix_ms
                        &&& now.closes_at_unix_ms <= current.closes_at_unix_ms
                        &&& now.closes_at_unix_ms <= start.closes_at_unix_ms
                        &&& now.closes_at_unix_ms == current.closes_at_unix_ms || now.closes_at_unix_ms
                            == start.closes_at_unix_ms
                    },
                    _ => false,
                }
                &&& after.next_start == c.next_start
            }
            &&& c.is_ordered() && !(c.phase is Waiting) && start.epoch == c.closing_epoch + 1 && (c.phase matches
                Phase::Scheduled { start: s } ==> s.epoch == c.closing_epoch) && (c.phase matches Phase::Open { start: s }
                ==> s.epoch == c.closing_epoch) ==> {
                &&& after.phase == c.phase
                &&& after.next_start is Some
                &&& after.next_start->0.epoch == start.epoch
                &&& after.next_start->0.closes_at_unix_ms <= start.closes_at_unix_ms
                &&& c.next_start is None ==> after.next_start == Some(start)
            }
        }),
{
}

/// Whoever announces the next epoch while this one waits finds the reports that
/// came early for it.
pub proof fn early_parts_count_when_scheduled(c: Coordinator, start: EpochStart)
    requires
        c.phase == Phase::Waiting,
        start.epoch == c.closing_epoch + 1,
    ensures
        c.scheduled(start).reports == c.next_epoch_reports,
        c.scheduled(start).next_epoch_reports == Map::<PublicKey, Partial>::empty(),
{
}

/// A request for a part of the own report is answered, with exactly that part, for
/// a member whose request is authentic, and for nobody else.
pub proof fn members_get_the_part_they_ask_for(c: Coordinator, request: EpochReportRequest, authentic: bool)
    ensures
        c.response(request, authentic) is Some <==> authentic && c.committee.contains(request.requester)
            && c.local_report_chunks.contains_key(Pair(request.epoch, request.chunk_index)),
        c.response(request, authentic) matches Some(chunk) ==> chunk == c.local_report_chunks[Pair(
            request.epoch,
            request.chunk_index,
        )],
{
}

/// The parts of the own report list every pending election, in order and nothing
/// else, in pieces of the given size; a report about no election has one empty
/// part.
pub proof fn own_report_lists_every_pending_election(
    c: Coordinator,
    key: PublicKey,
    epoch: u64,
    pending: Seq<PendingElection>,
    size: int,
)
    requires
        size > 0,
        pieces(slots_of(pending), size).len() <= u16::MAX,
    ensures
        ({
            let report = c.own_report(key, epoch, pending, size);
            &&& report.len() > 0
            &&& forall|i: int|
                0 <= i < report.len() ==> {
                    &&& (#[trigger] report[i]).reporter == key
                    &&& report[i].epoch == epoch
                    &&& report[i].chunk_index == i
                    &&& report[i].chunk_count == report.len()
                    &&& report[i].elections.len() <= size
                }
            &&& Seq::new(report.len(), |i: int| report[i].elections).flatten() == Seq::new(
                pending.len(),
                |i: int| pending[i].slot,
            )
        }),
{
    let slots = slots_of(pending);
    let report = c.own_report(key, epoch, pending, size);
    let parts = report_parts(slots, size);
    assert(Seq::new(report.len(), |i: int| report[i].elections) =~= parts);
    assert(Seq::new(pending.len(), |i: int| pending[i].slot) =~= slots);
    pieces_make_up_the_whole(slots, size);
    if slots.len() == 0 {
        assert(parts =~= seq![Seq::<SlotRoot>::empty()]);
        assert(parts.flatten() == parts.first() + parts.drop_first().flatten());
        assert(parts.drop_first() =~= Seq::empty());
        assert(parts.flatten() =~= slots);
    } else if parts.len() == 0 {
        assert(parts.flatten() =~= Seq::<SlotRoot>::empty());
    }
}

/// Of the elections that at least one more than a tolerable number of members
/// listed, the cut holds exactly those that were not finalized earlier.
pub proof fn cut_is_what_enough_members_list(
    c: Coordinator,
    finalized_earlier: Set<SlotRoot>,
    f: nat,
    slot: SlotRoot,
    named: Set<PublicKey>,
)
    requires
        3 * f < c.committee.len() <= 3 * f + 3,
        forall|k: PublicKey| #[trigger] named.contains(k) <==> lists(c.reports, k, slot),
    ensures
        c.agreed_cut(finalized_earlier).contains(slot) <==> named.len() >= f + 1 && !finalized_earlier.contains(slot),
        ({
            let after = c.with_cut(c.agreed_cut(finalized_earlier));
            &&& after.cut.contains(slot) <==> named.len() >= f + 1 && !finalized_earlier.contains(slot)
            &&& after.recovery_cut == after.cut
            &&& after.phase == Phase::Cut
        }),
{
    cut_needs_one_more_than_the_faulty(c.reports, c.committee.len(), f, slot, named);
}

/// A slot that any member lists may be voted on while the cut drains, and so may
/// the slot of every ancestor of what an election of the cut builds on.
pub proof fn listed_elections_may_drain(
    c: Coordinator,
    finalized_earlier: Set<SlotRoot>,
    repair: Seq<Candidate>,
    graph: Graph,
    slot: SlotRoot,
)
    ensures
        (exists|k: PublicKey| #[trigger] lists(c.reports, k, slot)) ==> c.drained_by(
            finalized_earlier,
            repair,
            graph,
        ).contains(slot),
{
    if exists|k: PublicKey| #[trigger] lists(c.reports, k, slot) {
        let k = choose|k: PublicKey| #[trigger] lists(c.reports, k, slot);
        let i = choose|i: u16|
            c.reports[k].chunks.contains_key(i) && (#[trigger] c.reports[k].chunks[i]).contains(slot);
        assert(c.reports.contains_key(k));
        assert(c.reports[k].chunks.contains_key(i));
        assert(c.reports[k].names(slot));
        assert(reported_slots(c.reports).contains(slot));
    }
}

/// The blocks of an authentic member's vote that are not known are missed; the
/// empty hash is none, and a stranger's vote makes nothing missed.
pub proof fn unknown_blocks_of_votes_are_missed(
    c: Coordinator,
    voter: PublicKey,
    epoch: u64,
    hashes: Seq<BlockHash>,
    authentic: bool,
    known: Set<BlockHash>,
    p: Pair<u64, BlockHash>,
)
    ensures
        c.saw_vote(voter, epoch, hashes, authentic, known).missing_vote_blocks.contains(p) <==> {
            ||| c.missing_vote_blocks.contains(p)
            ||| authentic && c.committee.contains(voter) && p.0 == epoch && hashes.contains(p.1) && !known.contains(p.1)
                && p.1 != no_hash()
        },
{
}

/// Of the missed blocks, those that are saved but take no part yet are attached,
/// and those that are neither saved nor held back are asked for; none is both.
pub proof fn missed_blocks_are_attached_or_asked_for(
    c: Coordinator,
    saved: Set<BlockHash>,
    retained: Set<BlockHash>,
    active: Set<Pair<u64, BlockHash>>,
    epoch: u64,
    hash: BlockHash,
)
    ensures
        ({
            let missed = c.missing_vote_blocks.contains(Pair(epoch, hash));
            let asked = by_epoch(c.still_missing(saved, retained));
            &&& asked.contains_key(epoch) && asked[epoch].contains(hash) <==> missed && !saved.contains(hash)
                && !retained.contains(hash)
            &&& c.attachable(saved, active).contains(Pair(epoch, hash)) <==> missed && saved.contains(hash)
                && !active.contains(Pair(epoch, hash))
        }),
{
    let still = c.still_missing(saved, retained);
    if still.contains(Pair(epoch, hash)) {
        assert(by_epoch(still).contains_key(epoch));
    }
}

/// A member with a key reports in a round exactly if it has not yet, what it finalized is
/// known and every election of the cut has ended, its count reaches the highest count of
/// the round before, and, where it waits and its count only equals that, a peer has
/// reported or the outcome of the cut changed since the last round. What it reports is what
/// it finalized.
pub proof fn member_reports_once_it_may(c: Coordinator, key: PublicKey, end: EpochEnd, resolved: bool)
    ensures
        ({
            let place = Pair(c.closing_epoch, c.finalization_round);
            let last = Pair(c.closing_epoch, (c.finalization_round - 1) as u32);
            let count = end.commitment(c.closing_epoch, c.cut).non_cut_count;
            let peer = exists|k: PublicKey| k != key && #[trigger] c.finalization_reports.contains_key(k);
            let updated = c.finalization_round > 0 && c.local_round_cut_hashes.contains_key(last)
                && c.local_round_cut_hashes[last] != end.cut_winners_hash;
            let may = !c.local_round_reports.contains_key(place) && resolved && (c.finalization_round == 0 || count
                >= c.target_non_cut_count) && (!c.wait_for_round_peer || count != c.target_non_cut_count || peer || updated);
            let report = EpochFinalization {
                reporter: key,
                epoch: c.closing_epoch,
                round: c.finalization_round,
                finalized_hash: end.commitment(c.closing_epoch, c.cut).hash,
                non_cut_count: count,
            };
            &&& c.reports_now(Some(key), Some(end), resolved) == if may {
                Some(report)
            } else {
                None
            }
            &&& may ==> {
                let after = c.committed(Some(key), Some(end), resolved);
                &&& after.finalization_reports == c.finalization_reports.insert(key, report)
                &&& after.local_round_reports == c.local_round_reports.insert(place, report)
                &&& after.local_round_snapshot == Some(end)
                &&& after.local_round_cut_hashes == c.local_round_cut_hashes.insert(place, end.cut_winners_hash)
                &&& after.phase == c.phase
            }
            &&& !may && !c.local_round_reports.contains_key(place) && !resolved ==> c.committed(Some(key), Some(end), resolved).phase
                == Phase::Cut
            &&& c.reports_now(None, Some(end), resolved) is None
            &&& c.reports_now(Some(key), None, resolved) is None
            &&& !c.local_round_reports.contains_key(place) ==> c.committed(Some(key), None, resolved).phase == Phase::Cut
        }),
{
}

/// A slot of the cut stays open exactly if it is finalized or not all of its candidates
/// have lost; a slot nobody offered a candidate for stays open.
pub proof fn slot_ends_when_all_candidates_lost(facts: Facts, slots: Set<SlotRoot>, dead: Map<BlockHash, Loss>, slot: SlotRoot)
    ensures
        facts.unresolved(slots, dead).contains(slot) <==> slots.contains(slot) && (facts.finalized.contains_key(slot)
            || !facts.repair.contains_key(slot) || facts.repair[slot] == Set::<BlockHash>::empty() || exists|h: BlockHash|
            #[trigger] facts.repair[slot].contains(h) && !dead.contains_key(h)),
{
    if facts.repair.contains_key(slot) {
        if !facts.repair[slot].subset_of(dead.dom()) {
            let h = choose|h: BlockHash| facts.repair[slot].contains(h) && !dead.dom().contains(h);
            assert(facts.repair[slot].contains(h) && !dead.contains_key(h));
        }
    }
}

/// A candidate of the given slots has lost exactly if its closure meets a block that lost
/// its slot to a finalized one; the loss names the two.
pub proof fn candidate_loses_to_a_finalized_block(facts: Facts, epoch: u64, slots: Set<SlotRoot>, hash: BlockHash)
    ensures
        ({
            let losses = facts.losses(epoch, slots);
            let offered = exists|slot: SlotRoot| #[trigger]
                facts.repair.contains_key(slot) && slots.contains(slot) && facts.repair[slot].contains(hash);
            let closure = facts.graph.closed(epoch, seq![hash]).closure;
            &&& losses.contains_key(hash) <==> offered && closure is FinalizedConflict
            &&& losses.contains_key(hash) ==> closure == (Closure::FinalizedConflict {
                hash: losses[hash].dependency,
                winner: losses[hash].winner,
            })
        }),
{
}

/// The cut is resolved exactly if each of its open slots has ended: its election is over,
/// or it is finalized.
pub proof fn cut_is_resolved_when_its_slots_ended(facts: Facts, cut: Set<SlotRoot>, dead: Map<BlockHash, Loss>)
    ensures
        facts.is_resolved(cut, dead) <==> forall|slot: SlotRoot| #[trigger]
            cut.contains(slot) ==> facts.terminated.contains(slot) || facts.finalized.contains_key(slot) || (
            facts.repair.contains_key(slot) && facts.repair[slot] != Set::<BlockHash>::empty() && forall|h: BlockHash| #[trigger]
                facts.repair[slot].contains(h) ==> dead.contains_key(h)),
{
    if facts.is_resolved(cut, dead) {
        assert forall|slot: SlotRoot| #[trigger] cut.contains(slot) implies facts.terminated.contains(slot)
            || facts.finalized.contains_key(slot) || (facts.repair.contains_key(slot) && facts.repair[slot] != Set::<
            BlockHash,
        >::empty() && forall|h: BlockHash| #[trigger] facts.repair[slot].contains(h) ==> dead.contains_key(h)) by {
            if facts.unresolved(cut, dead).contains(slot) {
                assert(facts.ended().contains(slot));
            } else {
                slot_ends_when_all_candidates_lost(facts, cut, dead, slot);
            }
        }
    } else {
        let slot = choose|slot: SlotRoot| facts.unresolved(cut, dead).contains(slot) && !facts.ended().contains(slot);
        slot_ends_when_all_candidates_lost(facts, cut, dead, slot);
        assert(cut.contains(slot));
    }
}

/// What an epoch ends with holds every finalized block at hand, unless another epoch
/// finalizes it.
pub proof fn end_keeps_the_finalized_blocks(
    facts: Facts,
    epoch: u64,
    cut: Set<SlotRoot>,
    dead: Map<BlockHash, Loss>,
    slot: SlotRoot,
)
    requires
        facts.graph.blocks.dom().finite(),
        facts.finalized.dom().finite(),
        facts.end(epoch, cut, dead) is Some,
        facts.finalized.contains_key(slot),
        !is_bottom(facts.graph, facts.finalized[slot]),
        !is_elsewhere(facts.graph, epoch, facts.finalized[slot]),
    ensures
        ({
            let hash = facts.finalized[slot];
            let end = facts.end(epoch, cut, dead)->0;
            &&& facts.graph.blocks.contains_key(hash)
            &&& end.finalized.contains_key(facts.graph.blocks[hash].slot)
            &&& end.finalized[facts.graph.blocks[hash].slot] == hash
        }),
{
    let hash = facts.finalized[slot];
    let values = facts.finalized.values();
    assert(values.contains(hash));
    assert(values =~= facts.finalized.dom().map(|s: SlotRoot| facts.finalized[s]));
    facts.finalized.dom().lemma_map_finite(|s: SlotRoot| facts.finalized[s]);
    lemma_ascending(values);
    let roots = facts.roots();
    assert(roots.contains(hash));
    complete_closure_accounts_for_everything(facts.graph, epoch, roots, hash, slot, hash);
    let members = facts.carried(epoch)->Complete_0;
    let at = facts.graph.blocks[hash].slot;
    selection_keeps_what_is_finalized(facts.merged(members).graph, epoch, members, ascending(facts.observed), at);
}

proof fn lemma_leaders(pending: Seq<PendingElection>, slot: SlotRoot)
    ensures
        leaders(pending).contains_key(slot) ==> exists|i: int|
            0 <= i < pending.len() && (#[trigger] pending[i]).slot == slot && pending[i].hash == leaders(pending)[slot]
                && forall|j: int| i < j < pending.len() ==> (#[trigger] pending[j]).slot != slot,
        !leaders(pending).contains_key(slot) ==> forall|i: int| 0 <= i < pending.len() ==> (#[trigger] pending[i]).slot != slot,
    decreases pending.len(),
{
    if pending.len() > 0 {
        let front = pending.drop_last();
        let n = pending.len() - 1;
        lemma_leaders(front, slot);
        assert forall|i: int| 0 <= i < n implies #[trigger] front[i] == pending[i] by {
        }
        assert forall|i: int| 0 <= i < n implies #[trigger] pending[i] == front[i] by {
        }
        if pending[n].slot == slot {
        } else if leaders(front).contains_key(slot) {
            let i = choose|i: int|
                0 <= i < front.len() && (#[trigger] front[i]).slot == slot && front[i].hash == leaders(front)[slot] && forall|
                    j: int,
                | i < j < front.len() ==> (#[trigger] front[j]).slot != slot;
            assert(pending[i] == front[i]);
        }
    }
}

/// The own snapshot holds for each pending slot the block that is listed last for it, and
/// nothing for other slots; of the next epoch it is noted whether its start was announced.
pub proof fn snapshot_holds_the_pending_blocks(
    c: Coordinator,
    epoch: u64,
    pending: Seq<PendingElection>,
    candidates: Seq<Candidate>,
    slot: SlotRoot,
)
    ensures
        ({
            let after = c.noted(epoch, pending, candidates);
            &&& after.local_snapshot.contains_key(slot) ==> exists|i: int|
                0 <= i < pending.len() && (#[trigger] pending[i]).slot == slot && pending[i].hash == after.local_snapshot[slot]
                    && forall|j: int| i < j < pending.len() ==> (#[trigger] pending[j]).slot != slot
            &&& !after.local_snapshot.contains_key(slot) ==> forall|i: int|
                0 <= i < pending.len() ==> (#[trigger] pending[i]).slot != slot
            &&& after.closing_candidates == candidates
            &&& after.open_epoch is Some <==> c.next_start is Some && c.next_start->0.epoch == epoch + 1
            &&& after.open_epoch is Some ==> after.open_epoch->0 == epoch + 1
        }),
{
    lemma_leaders(pending, slot);
}

/// Closing an epoch lets only the next one vote on, if it was announced, and forgets what
/// was finalized in it before; scheduling the first epoch pauses all votes.
pub proof fn closing_lets_the_next_epoch_vote(c: Coordinator, gate: Gate, epoch: u64, root: EpochRoot)
    ensures
        ({
            let after = c.gate_when_closed(gate, epoch);
            &&& after.policy.allows(root) <==> c.next_start is Some && c.next_start->0.epoch == epoch + 1 && root.epoch == epoch
                + 1
            &&& after.policy.closing() == Some(epoch)
            &&& after.cut_generation == gate.cut_generation
        }),
        ({
            let start = EpochStart { epoch, starts_at_unix_ms: 0, closes_at_unix_ms: 0 };
            let after = c.gate_when_scheduled(gate, start);
            &&& c.phase == Phase::Waiting ==> !after.policy.allows(root) && !after.finalized.contains_key(epoch)
            &&& c.phase != Phase::Waiting ==> after == gate
        }),
        c.sealing() is Some && c.next_start is Some ==> c.gate_when_evaluated(gate).policy.allows(root),
        c.sealing() is None || c.next_start is None ==> c.gate_when_evaluated(gate) == gate,
{
}

proof fn lemma_hashes_where(
    snapshot: Map<SlotRoot, BlockHash>,
    slots: Seq<SlotRoot>,
    cut: Set<SlotRoot>,
    inside: bool,
    hash: BlockHash,
)
    ensures
        hashes_where(snapshot, slots, cut, inside).contains(hash) <==> exists|i: int|
            0 <= i < slots.len() && cut.contains(#[trigger] slots[i]) == inside && snapshot[slots[i]] == hash,
        hashes_where(snapshot, slots, cut, true).len() + hashes_where(snapshot, slots, cut, false).len() == slots.len(),
    decreases slots.len(),
{
    if slots.len() > 0 {
        let front = slots.drop_last();
        let n = slots.len() - 1;
        lemma_hashes_where(snapshot, front, cut, inside, hash);
        let before = hashes_where(snapshot, front, cut, inside);
        let after = hashes_where(snapshot, slots, cut, inside);
        if after.contains(hash) {
            let k = choose|k: int| 0 <= k < after.len() && after[k] == hash;
            if k < before.len() {
                assert(before[k] == hash);
                let i = choose|i: int|
                    0 <= i < front.len() && cut.contains(#[trigger] front[i]) == inside && snapshot[front[i]] == hash;
                assert(slots[i] == front[i]);
            } else {
                assert(slots[n] == slots.last());
            }
        }
        if exists|i: int| 0 <= i < slots.len() && cut.contains(#[trigger] slots[i]) == inside && snapshot[slots[i]] == hash {
            let i = choose|i: int|
                0 <= i < slots.len() && cut.contains(#[trigger] slots[i]) == inside && snapshot[slots[i]] == hash;
            if i < n {
                assert(front[i] == slots[i]);
                let k = choose|k: int| 0 <= k < before.len() && before[k] == hash;
                assert(after[k] == hash);
            } else {
                assert(after[before.len() as int] == hash);
            }
        }
    }
}

/// The blocks of the own snapshot fall into those of the cut and the others: each slot's
/// block is in the one list or in the other.
pub proof fn snapshot_falls_apart_at_the_cut(snapshot: Map<SlotRoot, BlockHash>, cut: Set<SlotRoot>, hash: BlockHash)
    requires
        snapshot.dom().finite(),
    ensures
        ({
            let slots = ascending(snapshot.dom());
            let inside = hashes_where(snapshot, slots, cut, true);
            let outside = hashes_where(snapshot, slots, cut, false);
            &&& inside.len() + outside.len() == snapshot.len()
            &&& inside.contains(hash) <==> exists|slot: SlotRoot| #[trigger]
                snapshot.contains_key(slot) && cut.contains(slot) && snapshot[slot] == hash
            &&& outside.contains(hash) <==> exists|slot: SlotRoot| #[trigger]
                snapshot.contains_key(slot) && !cut.contains(slot) && snapshot[slot] == hash
        }),
{
    let slots = ascending(snapshot.dom());
    lemma_ascending(snapshot.dom());
    lemma_hashes_where(snapshot, slots, cut, true, hash);
    lemma_hashes_where(snapshot, slots, cut, false, hash);
    assert forall|slot: SlotRoot| #[trigger] snapshot.contains_key(slot) implies exists|i: int|
        0 <= i < slots.len() && #[trigger] slots[i] == slot by {
        assert(slots.contains(slot));
        let i = choose|i: int| 0 <= i < slots.len() && slots[i] == slot;
    }
    assert forall|i: int| 0 <= i < slots.len() implies snapshot.contains_key(#[trigger] slots[i]) by {
        assert(snapshot.dom().contains(slots[i]));
    }
}

/// Which own reports are kept: after a round without agreement those of that round and
/// later ones, after sealing those of the sealed round, and always those of other epochs.
/// Of the parts of own reports those about epochs before the sealed one are dropped.
pub proof fn old_reports_are_dropped(c: Coordinator, key: Option<PublicKey>, epoch: u64, round: u32, part: u16)
    ensures
        c.advanced(key).local_round_reports.contains_key(Pair(epoch, round)) <==> c.local_round_reports.contains_key(
            Pair(epoch, round),
        ) && (epoch == c.closing_epoch ==> round >= c.finalization_round),
        c.sealed().local_round_reports.contains_key(Pair(epoch, round)) <==> c.local_round_reports.contains_key(
            Pair(epoch, round),
        ) && (epoch == c.closing_epoch ==> round == c.finalization_round),
        c.next_start is Some ==> (c.sealed().local_report_chunks.contains_key(Pair(epoch, part))
            <==> c.local_report_chunks.contains_key(Pair(epoch, part)) && epoch >= c.closing_epoch),
        c.local_round_cut_hashes.contains_key(Pair(epoch, round)) && c.advanced(key).local_round_reports.contains_key(
            Pair(epoch, round),
        ) ==> c.advanced(key).local_round_cut_hashes.contains_key(Pair(epoch, round)),
{
}

/// Votes are asked for on the unfinalized slots, and once there is a cut on those of its
/// slots that no election runs for.
pub proof fn missing_slots_are_asked_about(c: Coordinator, unfinalized: Set<SlotRoot>, missing: Set<SlotRoot>, slot: SlotRoot)
    ensures
        c.vote_slots(unfinalized, missing).contains(slot) <==> unfinalized.contains(slot) || (missing.contains(slot) && (c.phase
            == Phase::Cut || c.phase == Phase::Converging)),
{
}

/// What an election of the cut builds on may still be voted on while the cut drains, if the
/// ledger has it.
pub proof fn foundations_of_the_cut_may_drain(
    c: Coordinator,
    finalized_earlier: Set<SlotRoot>,
    repair: Seq<Candidate>,
    graph: Graph,
    candidate: Candidate,
    hash: BlockHash,
)
    requires
        c.closing_candidates.contains(candidate) || repair.contains(candidate),
        c.agreed_cut(finalized_earlier).contains(candidate.slot),
        hash == candidate.previous || hash == candidate.source,
        in_ledger(graph, hash),
    ensures
        c.drained_by(finalized_earlier, repair, graph).contains(graph.blocks[hash].slot),
{
    let cut = c.agreed_cut(finalized_earlier);
    let all = c.closing_candidates + repair;
    if c.closing_candidates.contains(candidate) {
        let i = choose|i: int| 0 <= i < c.closing_candidates.len() && c.closing_candidates[i] == candidate;
        assert(all[i] == candidate);
    } else {
        let i = choose|i: int| 0 <= i < repair.len() && repair[i] == candidate;
        assert(all[c.closing_candidates.len() + i] == candidate);
    }
    let start = foundations(all, cut);
    assert(start.contains(hash));
    ancestors_are_followed_down(graph, start, hash, hash);
}

/// Draining is over exactly if every slot of the cut has ended and no open slot of it wants
/// recovery.
pub proof fn drain_ends_with_the_cut(c: Coordinator, facts: Facts, recovered: Map<SlotRoot, BlockHash>)
    ensures
        ({
            let dead = facts.losses(c.closing_epoch, c.cut.union(c.recovery_cut));
            let after = c.facts_after(facts, false);
            c.has_drained(facts, recovered) <==> {
                &&& c.drained_facts(facts, recovered).is_resolved(c.cut, dead)
                &&& forall|slot: SlotRoot| #[trigger]
                    after.unresolved(c.recovery_cut, dead).contains(slot) ==> !after.wanting.contains(slot)
            }
        }),
{
    let dead = facts.losses(c.closing_epoch, c.cut.union(c.recovery_cut));
    let after = c.facts_after(facts, false);
    let open = after.unresolved(c.recovery_cut, dead);
    if open.disjoint(after.wanting) {
        assert forall|slot: SlotRoot| #[trigger] open.contains(slot) implies !after.wanting.contains(slot) by {
        }
    } else {
        let slot = choose|slot: SlotRoot| open.contains(slot) && after.wanting.contains(slot);
        assert(open.contains(slot));
    }
}

/// A block that was missed by several epochs is handed to each of them, and a recovered
/// block keeps the slot it was first recovered for.
pub proof fn recovered_block_goes_to_every_epoch(c: Coordinator, hash: BlockHash, slot: SlotRoot, epoch: u64)
    ensures
        c.waiting_epochs(hash).contains(epoch) <==> c.missing_vote_blocks.contains(Pair(epoch, hash)),
        c.recovered(hash, slot).recovery_blocks.contains_key(hash),
        c.recovery_blocks.contains_key(hash) ==> c.recovered(hash, slot).recovery_blocks[hash] == c.recovery_blocks[hash],
        !c.recovery_blocks.contains_key(hash) ==> c.recovered(hash, slot).recovery_blocks[hash] == slot,
{
}

/// What was asked for is asked for again a second later and not before, and the own reports
/// are sent again a quarter of a second later and not before.
pub proof fn requests_are_spaced(c: Coordinator, now: u64, then: u64, missing: Set<Pair<u64, BlockHash>>)
    requires
        now <= u64::MAX - 1_000,
    ensures
        c.reports_asked(now).asks_for_reports(then) <==> c.phase == Phase::Collecting && then - now >= 1_000,
        c.votes_asked(now).asks_for_votes(then) <==> then - now >= 1_000,
        c.rebroadcast(now).rebroadcasts(then) <==> then - now >= 250,
        c.blocks_asked(now, missing).asks_for_blocks(then) <==> then - now >= 1_000 && missing != Set::<
            Pair<u64, BlockHash>,
        >::empty(),
        c.blocks_asked(now, missing).missing_vote_blocks == missing,
        c.reports_asked(now).reports == c.reports,
        c.rebroadcast(now).local_round_reports == c.local_round_reports,
{
}

/// Every own report that is kept is sent again, and nothing else.
pub proof fn kept_reports_are_sent_again(c: Coordinator, report: EpochFinalization)
    requires
        c.local_round_reports.dom().finite(),
    ensures
        c.own_finalizations().contains(report) <==> exists|place: Pair<u64, u32>| #[trigger]
            c.local_round_reports.contains_key(place) && c.local_round_reports[place] == report,
        c.own_finalizations().len() == c.local_round_reports.len(),
{
    let places = ascending(c.local_round_reports.dom());
    lemma_ascending(c.local_round_reports.dom());
    let list = c.own_finalizations();
    if list.contains(report) {
        let i = choose|i: int| 0 <= i < list.len() && list[i] == report;
        assert(c.local_round_reports.dom().contains(places[i]));
        assert(c.local_round_reports.contains_key(places[i]));
    }
    if exists|place: Pair<u64, u32>| #[trigger]
        c.local_round_reports.contains_key(place) && c.local_round_reports[place] == report {
        let place = choose|place: Pair<u64, u32>| #[trigger]
            c.local_round_reports.contains_key(place) && c.local_round_reports[place] == report;
        assert(places.contains(place));
        let i = choose|i: int| 0 <= i < places.len() && places[i] == place;
        assert(list[i] == report);
    }
}

/// What the next epoch takes over from a sealed one: what is missed, what was expanded, the
/// candidates and what the own reports need. Everything else starts empty.
pub proof fn next_epoch_starts_clean(c: Coordinator, start: EpochStart)
    requires
        c.next_start == Some(start),
    ensures
        ({
            let after = c.sealed();
            &&& after.missing_vote_blocks == c.missing_vote_blocks
            &&& after.next_block_recovery_ms == c.next_block_recovery_ms
            &&& after.expanded_finalizations == c.expanded_finalizations
            &&& after.closing_candidates == c.closing_candidates
            &&& after.local_round_cut_hashes == c.local_round_cut_hashes
            &&& after.recovery_cut == Set::<SlotRoot>::empty()
            &&& after.local_snapshot == Map::<SlotRoot, BlockHash>::empty()
            &&& after.recovery_blocks == Map::<BlockHash, SlotRoot>::empty()
            &&& after.dependency_dead == Map::<BlockHash, Loss>::empty()
            &&& after.local_round_snapshot is None
            &&& after.live_epoch_hash is None
            &&& after.open_epoch is None
            &&& !after.wait_for_round_peer
            &&& !after.recovery_pass_complete
            &&& after.next_report_request_ms == 0
            &&& after.next_finalization_broadcast_ms == 0
            &&& after.next_final_vote_recovery_ms == 0
        }),
{
}

/// While an epoch closes, a member's authentic report about a later round is kept for that
/// round, the first one of each member, and counts for nothing yet.
pub proof fn early_finalization_is_kept(c: Coordinator, report: EpochFinalization, round: u32, member: PublicKey)
    requires
        c.phase == Phase::Collecting || c.phase == Phase::Cut || c.phase == Phase::Converging,
        report.epoch == c.closing_epoch,
        report.round > c.finalization_round,
        c.committee.contains(report.reporter),
    ensures
        ({
            let before = c.future_finalization_reports;
            let after = c.heard(report, true).future_finalization_reports;
            let held = before.contains_key(round) && before[round].contains_key(member);
            let new = round == report.round && member == report.reporter;
            &&& after.contains_key(round) && after[round].contains_key(member) <==> held || new
            &&& held ==> after[round][member] == before[round][member]
            &&& new && !held ==> after[round][member] == report
        }),
        c.heard(report, true).finalization_reports == c.finalization_reports,
        c.heard(report, true).finalization_round == c.finalization_round,
{
}

proof fn lemma_filed(c: Coordinator, chunks: Seq<ReportChunk>, key: PublicKey, epoch: u64, n: u16, i: int)
    requires
        c.committee.contains(key),
        c.closing_epoch == epoch,
        chunks.len() <= n,
        n > 0,
        !c.reports.contains_key(key),
        forall|j: u16| !#[trigger] c.local_report_chunks.contains_key(Pair(epoch, j)),
        forall|j: int|
            0 <= j < chunks.len() ==> {
                &&& (#[trigger] chunks[j]).reporter == key
                &&& chunks[j].epoch == epoch
                &&& chunks[j].chunk_index == j
                &&& chunks[j].chunk_count == n
            },
    ensures
        ({
            let after = c.filed_all(chunks);
            &&& after.closing_epoch == c.closing_epoch && after.committee == c.committee && after.phase == c.phase
            &&& chunks.len() == 0 ==> !after.reports.contains_key(key)
            &&& chunks.len() > 0 ==> {
                &&& after.reports.contains_key(key)
                &&& after.reports[key].count == n
                &&& forall|j: u16| #[trigger] after.reports[key].chunks.contains_key(j) <==> j < chunks.len()
            }
            &&& forall|j: u16| #[trigger] after.local_report_chunks.contains_key(Pair(epoch, j)) <==> j < chunks.len()
            &&& 0 <= i < chunks.len() ==> after.reports[key].chunks[i as u16] == chunks[i].elections
                && after.local_report_chunks[Pair(epoch, i as u16)] == chunks[i]
        }),
    decreases chunks.len(),
{
    if chunks.len() > 0 {
        let front = chunks.drop_last();
        let last = chunks.last();
        assert forall|j: int| 0 <= j < front.len() implies {
            &&& (#[trigger] front[j]).reporter == key
            &&& front[j].epoch == epoch
            &&& front[j].chunk_index == j
            &&& front[j].chunk_count == n
        } by {
            assert(front[j] == chunks[j]);
        }
        lemma_filed(c, front, key, epoch, n, i);
        assert(last == chunks[chunks.len() - 1]);
        let before = c.filed_all(front);
        let after = c.filed_all(chunks);
        assert(after == before.filed(last));
        assert(before.heeds(last, true));
        assert(!before.local_report_chunks.contains_key(Pair(epoch, last.chunk_index)));
        if front.len() > 0 {
            assert(!before.reports[key].chunks.contains_key(last.chunk_index));
        }
        if 0 <= i < front.len() {
            assert(front[i] == chunks[i]);
        }
    }
}

/// A member that closes an epoch files its own report: every part is there to be answered
/// from, the report is complete, and it lists exactly the pending elections. It then collects
/// the reports of the others.
pub proof fn own_report_is_filed(
    c: Coordinator,
    epoch: u64,
    pending: Seq<PendingElection>,
    candidates: Seq<Candidate>,
    key: PublicKey,
    size: int,
    i: int,
)
    requires
        size > 0,
        c.committee.contains(key),
        c.closing_epoch == epoch,
        !c.reports.contains_key(key),
        forall|j: u16| !#[trigger] c.local_report_chunks.contains_key(Pair(epoch, j)),
        pieces(slots_of(pending), size).len() <= u16::MAX,
        0 <= i < c.own_report(key, epoch, pending, size).len(),
    ensures
        ({
            let after = c.closing(epoch, pending, candidates, Some(key), size);
            let report = c.own_report(key, epoch, pending, size);
            &&& after.phase == Phase::Collecting
            &&& after.reports.contains_key(key)
            &&& after.reports[key].count == report.len()
            &&& forall|j: u16| #[trigger] after.reports[key].chunks.contains_key(j) <==> j < report.len()
            &&& after.reports[key].chunks[i as u16] == report[i].elections
            &&& after.local_report_chunks.contains_key(Pair(epoch, i as u16))
            &&& after.local_report_chunks[Pair(epoch, i as u16)] == report[i]
        }),
        c.closing(epoch, pending, candidates, None, size).phase == c.phase,
{
    own_report_lists_every_pending_election(c, key, epoch, pending, size);
    let report = c.own_report(key, epoch, pending, size);
    let noted = Coordinator { phase: Phase::Collecting, ..c.noted(epoch, pending, candidates) };
    lemma_filed(noted, report, key, epoch, report.len() as u16, i);
}

/// What is missed is added to what was missed before, and finalized blocks are expanded once in
/// each epoch.
pub proof fn missed_blocks_add_up(
    c: Coordinator,
    epoch: u64,
    hash: BlockHash,
    found: Set<Pair<u64, BlockHash>>,
    finalized: Map<SlotRoot, BlockHash>,
    p: Pair<u64, BlockHash>,
)
    ensures
        c.waits_for(epoch, hash).missing_vote_blocks.contains(p) <==> c.missing_vote_blocks.contains(p) || p == Pair(
            epoch,
            hash,
        ),
        c.missing_more(found).missing_vote_blocks.contains(p) <==> c.missing_vote_blocks.contains(p) || found.contains(p),
        c.unexpanded(epoch, finalized).contains(hash) <==> !c.expanded_finalizations.contains(Pair(epoch, hash)) && exists|
            slot: SlotRoot,
        | #[trigger] finalized.contains_key(slot) && finalized[slot] == hash,
{
    if c.unexpanded(epoch, finalized).contains(hash) {
        let slot = choose|slot: SlotRoot| #[trigger] finalized.contains_key(slot) && finalized[slot] == hash;
        assert(finalized.contains_key(slot));
    }
}

/// The candidates that died are those of the slots of the cut that are no longer open, each with
/// what it lost to.
pub proof fn deaths_name_the_losers(facts: Facts, cut: Set<SlotRoot>, dead: Map<BlockHash, Loss>, d: DependencyDeath)
    ensures
        facts.deaths(cut, dead).contains(d) <==> {
            &&& dead.contains_key(d.candidate)
            &&& dead[d.candidate].dependency == d.dependency
            &&& dead[d.candidate].winner == d.winner
            &&& exists|slot: SlotRoot| #[trigger]
                cut.contains(slot) && !facts.finalized.contains_key(slot) && facts.repair.contains_key(slot)
                    && facts.repair[slot].contains(d.candidate) && forall|h: BlockHash| #[trigger]
                    facts.repair[slot].contains(h) ==> dead.contains_key(h)
        },
{
    let lost = cut.difference(facts.unresolved(cut, dead));
    if facts.deaths(cut, dead).contains(d) {
        let slot = choose|slot: SlotRoot| #[trigger]
            facts.repair.contains_key(slot) && lost.contains(slot) && facts.repair[slot].contains(d.candidate);
        slot_ends_when_all_candidates_lost(facts, cut, dead, slot);
        assert(cut.contains(slot));
    }
    if dead.contains_key(d.candidate) && exists|slot: SlotRoot| #[trigger]
        cut.contains(slot) && !facts.finalized.contains_key(slot) && facts.repair.contains_key(slot)
            && facts.repair[slot].contains(d.candidate) && forall|h: BlockHash| #[trigger]
            facts.repair[slot].contains(h) ==> dead.contains_key(h) {
        let slot = choose|slot: SlotRoot| #[trigger]
            cut.contains(slot) && !facts.finalized.contains_key(slot) && facts.repair.contains_key(slot)
                && facts.repair[slot].contains(d.candidate) && forall|h: BlockHash| #[trigger]
                facts.repair[slot].contains(h) ==> dead.contains_key(h);
        slot_ends_when_all_candidates_lost(facts, cut, dead, slot);
        assert(facts.repair[slot] != Set::<BlockHash>::empty());
        assert(lost.contains(slot));
        assert(facts.repair.contains_key(slot));
        assert(facts.offers(lost, d.candidate));
        assert(dead[d.candidate] == (Loss { dependency: d.dependency, winner: d.winner }) || dead[d.candidate].dependency
            != d.dependency || dead[d.candidate].winner != d.winner);
    }
}

}
