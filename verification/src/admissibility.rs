//! Which values elections may decide for.
use vstd::prelude::*;

use crate::close_state::{CloseState, EpochRecord, RaiCloseAttempt, RaiCloseState};
use crate::close_values::{CloseRecordEntries, RaiClosedSlotState};
use crate::committee::RaiEpoch;
use crate::frontier_record::{close_frontiers, closed_frontiers, RaiFrontiers};
use crate::types::{Account, BlockHash, RaiElectionId, RaiElectionValue, RaiSlot};

verus! {

/// Why a value is not admissible.
#[derive(Clone, Copy, Debug, PartialEq, Eq, Structural)]
pub enum RaiAdmissibilityError {
    IncompatibleElectionValue,
    InadmissibleSlotBlock,
    UnknownCloseCut,
    IncompleteCloseCut,
    MissingCloseRecordPackage,
}

/// The settled states of slots.
pub type ClosedEntries = Map<RaiSlot, RaiClosedSlotState>;

/// The frontier of each account.
pub type AccountFrontiers = Map<Account, BlockHash>;

/// Judges blocks and close records.
pub trait RaiAdmissibilityValidator<R: EpochRecord>: Sized {
    /// The verdict on a block for a slot.
    spec fn slot_verdict(&self, slot: RaiSlot, epoch: RaiEpoch, block: BlockHash) -> Result<(), RaiAdmissibilityError>;

    /// The verdict on a close record with its entries.
    spec fn record_verdict(
        &self,
        record: R::V,
        entries: ClosedEntries,
        attempt: RaiCloseAttempt,
        hash: BlockHash,
    ) -> Result<(), RaiAdmissibilityError>;

    /// The frontiers that a close yields, or why it yields none.
    spec fn frontiers_verdict(
        &self,
        epoch: RaiEpoch,
        previous: AccountFrontiers,
        entries: ClosedEntries,
    ) -> Result<AccountFrontiers, RaiAdmissibilityError>;

    fn derive_close_frontiers(
        &self,
        epoch: RaiEpoch,
        previous_frontiers: &RaiFrontiers,
        entries: &CloseRecordEntries,
    ) -> (r: Result<RaiFrontiers, RaiAdmissibilityError>)
        ensures
            match r {
                Ok(frontiers) => self.frontiers_verdict(epoch, previous_frontiers@, entries@) == Ok::<
                    _,
                    RaiAdmissibilityError,
                >(frontiers@),
                Err(error) => self.frontiers_verdict(epoch, previous_frontiers@, entries@) == Err::<AccountFrontiers, _>(
                    error,
                ),
            },
    ;

    fn validate_slot_block(&self, slot: RaiSlot, epoch: RaiEpoch, block_hash: &BlockHash) -> (r: Result<
        (),
        RaiAdmissibilityError,
    >)
        ensures
            r == self.slot_verdict(slot, epoch, *block_hash),
    ;

    fn validate_close_record(
        &self,
        record: &R,
        entries: &CloseRecordEntries,
        attempt: RaiCloseAttempt,
        hash: &BlockHash,
    ) -> (r: Result<(), RaiAdmissibilityError>)
        ensures
            r == self.record_verdict(record.deep_view(), entries@, attempt, *hash),
    ;
}

/// Accepts every block and every close record.
#[derive(Clone, Copy, Debug, PartialEq, Eq, Structural)]
pub struct RaiDefaultAdmissibilityValidator {}

impl Default for RaiDefaultAdmissibilityValidator {
    fn default() -> (r: Self)
        ensures
            r == (RaiDefaultAdmissibilityValidator {  }),
    {
        RaiDefaultAdmissibilityValidator {  }
    }
}

impl<R: EpochRecord> RaiAdmissibilityValidator<R> for RaiDefaultAdmissibilityValidator {
    open spec fn slot_verdict(&self, slot: RaiSlot, epoch: RaiEpoch, block: BlockHash) -> Result<
        (),
        RaiAdmissibilityError,
    > {
        Ok(())
    }

    open spec fn record_verdict(
        &self,
        record: R::V,
        entries: ClosedEntries,
        attempt: RaiCloseAttempt,
        hash: BlockHash,
    ) -> Result<(), RaiAdmissibilityError> {
        Ok(())
    }

    open spec fn frontiers_verdict(
        &self,
        epoch: RaiEpoch,
        previous: AccountFrontiers,
        entries: ClosedEntries,
    ) -> Result<AccountFrontiers, RaiAdmissibilityError> {
        Ok(closed_frontiers(previous, entries))
    }

    fn derive_close_frontiers(
        &self,
        epoch: RaiEpoch,
        previous_frontiers: &RaiFrontiers,
        entries: &CloseRecordEntries,
    ) -> (r: Result<RaiFrontiers, RaiAdmissibilityError>) {
        Ok(close_frontiers(previous_frontiers, entries))
    }

    fn validate_slot_block(&self, slot: RaiSlot, epoch: RaiEpoch, block_hash: &BlockHash) -> (r: Result<
        (),
        RaiAdmissibilityError,
    >) {
        Ok(())
    }

    fn validate_close_record(
        &self,
        record: &R,
        entries: &CloseRecordEntries,
        attempt: RaiCloseAttempt,
        hash: &BlockHash,
    ) -> (r: Result<(), RaiAdmissibilityError>) {
        Ok(())
    }
}

/// The verdict on a value of an election.
pub open spec fn verdict<R: EpochRecord, A: RaiAdmissibilityValidator<R>>(
    state: CloseState<R::V>,
    validator: &A,
    id: RaiElectionId,
    value: RaiElectionValue,
) -> Result<(), RaiAdmissibilityError> {
    match (id, value) {
        (RaiElectionId::Slot { slot, epoch }, RaiElectionValue::Block(hash)) => validator.slot_verdict(
            slot,
            epoch,
            hash,
        ),
        (_, RaiElectionValue::Timeout) => Ok(()),
        (RaiElectionId::CloseCut { epoch, .. }, RaiElectionValue::CloseCutHash(hash)) => if state.epoch(
            epoch,
        ).visibility.close_values.contains_key(hash) {
            Ok(())
        } else {
            Err(RaiAdmissibilityError::UnknownCloseCut)
        },
        (RaiElectionId::CloseRecord { epoch, attempt }, RaiElectionValue::CloseRecordHash(hash)) => {
            let records = state.epoch(epoch).records;
            if records.contains_key(hash) && R::fits(records[hash].record, epoch) && R::digest(records[hash].record)
                == hash {
                validator.record_verdict(records[hash].record, records[hash].entries, attempt, hash)
            } else {
                Err(RaiAdmissibilityError::MissingCloseRecordPackage)
            }
        },
        _ => Err(RaiAdmissibilityError::IncompatibleElectionValue),
    }
}

/// Judges election values against the epochs and a validator.
pub struct RaiAdmissibility<'a, R: EpochRecord, A: RaiAdmissibilityValidator<R>> {
    close_state: &'a RaiCloseState<R>,
    validator: &'a A,
}

impl<'a, R: EpochRecord, A: RaiAdmissibilityValidator<R>> RaiAdmissibility<'a, R, A> {
    pub closed spec fn state(&self) -> CloseState<R::V> {
        self.close_state@
    }

    pub closed spec fn judge(&self) -> &A {
        self.validator
    }

    pub fn new(close_state: &'a RaiCloseState<R>, validator: &'a A) -> (r: Self)
        ensures
            r.state() == close_state@,
            r.judge() == validator,
    {
        RaiAdmissibility { close_state, validator }
    }

    pub fn validate(&self, election_id: &RaiElectionId, value: &RaiElectionValue) -> (r: Result<
        (),
        RaiAdmissibilityError,
    >)
        ensures
            r == verdict::<R, A>(self.state(), self.judge(), *election_id, *value),
    {
        match (election_id, value) {
            (RaiElectionId::Slot { slot, epoch }, RaiElectionValue::Block(hash)) => self.validator.validate_slot_block(
                *slot,
                *epoch,
                hash,
            ),
            (_, RaiElectionValue::Timeout) => Ok(()),
            (RaiElectionId::CloseCut { epoch, .. }, RaiElectionValue::CloseCutHash(hash)) => {
                if self.close_state.close_value(*epoch, hash).is_none() {
                    return Err(RaiAdmissibilityError::UnknownCloseCut);
                }
                Ok(())
            },
            (RaiElectionId::CloseRecord { epoch, attempt }, RaiElectionValue::CloseRecordHash(hash)) => {
                match self.close_state.close_record_value(*epoch, hash) {
                    None => Err(RaiAdmissibilityError::MissingCloseRecordPackage),
                    Some(package) => {
                        if !package.record.fits_epoch(*epoch) || package.record.hash() != *hash {
                            return Err(RaiAdmissibilityError::MissingCloseRecordPackage);
                        }
                        self.validator.validate_close_record(&package.record, &package.entries, *attempt, hash)
                    },
                }
            },
            _ => Err(RaiAdmissibilityError::IncompatibleElectionValue),
        }
    }
}

/// A timeout is always admissible, and a value of the wrong kind never is.
pub proof fn timeouts_are_admissible<R: EpochRecord, A: RaiAdmissibilityValidator<R>>(
    state: CloseState<R::V>,
    validator: &A,
    id: RaiElectionId,
    block: BlockHash,
)
    ensures
        verdict::<R, A>(state, validator, id, RaiElectionValue::Timeout) is Ok,
        id !is Slot ==> verdict::<R, A>(state, validator, id, RaiElectionValue::Block(block)) is Err,
        id !is CloseCut ==> verdict::<R, A>(state, validator, id, RaiElectionValue::CloseCutHash(block)) is Err,
        id !is CloseRecord ==> verdict::<R, A>(state, validator, id, RaiElectionValue::CloseRecordHash(block)) is Err,
{
}

/// What is voted on must fit its election: a block is judged for its slot, a cut must be
/// known to the epoch, and a record's package must be there, belong to the epoch and
/// have the hash, and is judged then. A timeout fits everywhere, anything else nowhere.
pub proof fn values_fit_their_election<R: EpochRecord, A: RaiAdmissibilityValidator<R>>(
    state: CloseState<R::V>,
    validator: &A,
    id: RaiElectionId,
    hash: BlockHash,
)
    ensures
        verdict::<R, A>(state, validator, id, RaiElectionValue::Timeout) is Ok,
        match id {
            RaiElectionId::Slot { slot, epoch } => {
                &&& verdict::<R, A>(state, validator, id, RaiElectionValue::Block(hash)) == validator.slot_verdict(
                    slot,
                    epoch,
                    hash,
                )
                &&& verdict::<R, A>(state, validator, id, RaiElectionValue::CloseCutHash(hash)) == Err::<(), _>(
                    RaiAdmissibilityError::IncompatibleElectionValue,
                )
                &&& verdict::<R, A>(state, validator, id, RaiElectionValue::CloseRecordHash(hash)) == Err::<(), _>(
                    RaiAdmissibilityError::IncompatibleElectionValue,
                )
            },
            RaiElectionId::CloseCut { epoch, attempt } => {
                &&& verdict::<R, A>(state, validator, id, RaiElectionValue::CloseCutHash(hash)) is Ok <==> state.epoch(
                    epoch,
                ).visibility.close_values.contains_key(hash)
                &&& verdict::<R, A>(state, validator, id, RaiElectionValue::Block(hash)) == Err::<(), _>(
                    RaiAdmissibilityError::IncompatibleElectionValue,
                )
                &&& verdict::<R, A>(state, validator, id, RaiElectionValue::CloseRecordHash(hash)) == Err::<(), _>(
                    RaiAdmissibilityError::IncompatibleElectionValue,
                )
            },
            RaiElectionId::CloseRecord { epoch, attempt } => {
                let records = state.epoch(epoch).records;
                let there = records.contains_key(hash) && R::fits(records[hash].record, epoch) && R::digest(
                    records[hash].record,
                ) == hash;
                &&& there ==> verdict::<R, A>(state, validator, id, RaiElectionValue::CloseRecordHash(hash))
                    == validator.record_verdict(records[hash].record, records[hash].entries, attempt, hash)
                &&& !there ==> verdict::<R, A>(state, validator, id, RaiElectionValue::CloseRecordHash(hash)) == Err::<(), _>(
                    RaiAdmissibilityError::MissingCloseRecordPackage,
                )
                &&& verdict::<R, A>(state, validator, id, RaiElectionValue::Block(hash)) == Err::<(), _>(
                    RaiAdmissibilityError::IncompatibleElectionValue,
                )
                &&& verdict::<R, A>(state, validator, id, RaiElectionValue::CloseCutHash(hash)) == Err::<(), _>(
                    RaiAdmissibilityError::IncompatibleElectionValue,
                )
            },
        },
{
}

}
