use rai_consensus::admissibility::{RaiAdmissibilityError, RaiAdmissibilityValidator};
use rai_consensus::close_state::EpochRecord;
use rai_consensus::close_values::RaiClosedSlotState;
use rai_consensus::frontier_record::RaiFrontierRecord;
use rai_consensus::ledger_admissibility::{is_descending, LedgerBlock, LedgerRaiAdmissibilityValidator};
use rai_consensus::ordered::SortedMap;
use rai_consensus::types::{Account, BlockHash, RaiSlot};

fn empty_ledger() -> LedgerRaiAdmissibilityValidator {
    LedgerRaiAdmissibilityValidator::new(SortedMap::new())
}

#[test]
fn rejects_unknown_slot_block() {
    let validator = empty_ledger();

    let result = validator.validate_slot_block(RaiSlot::new(Account::zero(), 0), 0, &BlockHash::from(1));

    assert_eq!(result, Err(RaiAdmissibilityError::InadmissibleSlotBlock));
}

#[test]
fn epoch_zero_frontiers_are_derived_only_from_the_close_cut() {
    let validator = empty_ledger();

    let frontiers = validator.derive_close_frontiers(0, &SortedMap::new(), &SortedMap::new()).unwrap();

    assert!(frontiers.is_empty());
}

#[test]
fn rejects_close_record_with_unknown_frontier() {
    let validator = empty_ledger();
    let mut frontiers = SortedMap::new();
    frontiers.insert(Account::from(1), BlockHash::from(2));
    let record = RaiFrontierRecord { epoch: 0, previous_close_hash: BlockHash::zero(), frontiers };

    assert_eq!(
        validator.validate_close_record(&record, &SortedMap::new(), 0, &record.hash()),
        Err(RaiAdmissibilityError::MissingCloseRecordPackage)
    );
}

#[test]
fn accepts_what_the_ledger_holds() {
    let account = Account::from(1);
    let mut blocks = SortedMap::new();
    blocks.insert(BlockHash::from(10), LedgerBlock { account, height: 1, previous: BlockHash::zero() });
    blocks.insert(BlockHash::from(20), LedgerBlock { account, height: 2, previous: BlockHash::from(10) });
    assert!(is_descending(&blocks));
    let validator = LedgerRaiAdmissibilityValidator::new(blocks);
    let slot = RaiSlot::new(account, 2);

    assert_eq!(validator.validate_slot_block(slot, 0, &BlockHash::from(20)), Ok(()));
    assert_eq!(
        validator.validate_slot_block(slot, 0, &BlockHash::from(10)),
        Err(RaiAdmissibilityError::InadmissibleSlotBlock)
    );

    let mut entries = SortedMap::new();
    entries.insert(slot, RaiClosedSlotState::Finalized(BlockHash::from(20)));
    let frontiers = validator.derive_close_frontiers(0, &SortedMap::new(), &entries).unwrap();
    assert_eq!(frontiers.get(&account), Some(&BlockHash::from(20)));
    let record = RaiFrontierRecord { epoch: 0, previous_close_hash: BlockHash::zero(), frontiers };
    assert_eq!(validator.validate_close_record(&record, &entries, 0, &record.hash()), Ok(()));
}
