use rai_consensus::active_elections::RaiElectionOutcome;
use rai_consensus::bytes::{push_be, read_be};
use rai_consensus::candidate_selection::merge;
use rai_consensus::close_state::{RaiCloseRecord, RaiCloseState, RaiEpochTransitionError};
use rai_consensus::close_values::{hash_carry_entries, hash_entries, hash_finalized_entries, RaiClosedSlotState};
use rai_consensus::codec::{Codec, DecodeError, Reader};
use rai_consensus::committee::{RaiCommittee, RaiCommitteeDeriver, RaiCommitteeThresholds};
use rai_consensus::epoch_reports::{
    check_all_complete, collect_reported_slots, collect_supported_slots, split, PartialReport,
};
use rai_consensus::ordered::{stable_sort, SortedMap, SortedSet};
use rai_consensus::persistence::{read_thresholds, read_u64s, write_thresholds, write_u64s};
use rai_consensus::rep_weights::RepWeights;
use rai_consensus::types::{
    Account, Amount, BlockHash, PublicKey, RaiElectionValue, RaiSlot, Root, Timestamp,
};
use rai_consensus::vote_gate::SlotRoot;
use rai_consensus::vote_processor::closed_slot_state_from_outcome;

fn numbers(values: &[u64]) -> SortedSet<u64> {
    SortedSet::from_vec(&values.to_vec())
}

fn slot_root(value: u64) -> SlotRoot {
    SlotRoot { root: Root::from(value), previous: BlockHash::from(value) }
}

fn report(count: u16, parts: &[(u16, u64)]) -> PartialReport {
    let mut chunks = SortedMap::new();
    for (index, value) in parts {
        chunks.insert(*index, vec![slot_root(*value)]);
    }
    PartialReport { chunk_count: count, chunks }
}

#[test]
fn numbers_are_written_with_the_highest_byte_first() {
    let mut out = vec![9];
    push_be(&mut out, 0x0102_0304, 5);
    assert_eq!(out, vec![9, 0, 1, 2, 3, 4]);
    assert_eq!(read_be(&out, 1, 5), 0x0102_0304);
}

#[test]
fn hashes_survive_their_bytes() {
    let hash = BlockHash { hi: 1 << 127, lo: 0xabcd };
    let mut out = Vec::new();
    hash.push_bytes(&mut out);
    assert_eq!(out.len(), 32);
    assert_eq!(out[0], 0x80);
    assert_eq!(out[31], 0xcd);
    assert_eq!(BlockHash::from_bytes(&out), hash);

    let slot = RaiSlot::new(Account::from(1), 2);
    let mut out = Vec::new();
    slot.push_bytes(&mut out);
    assert_eq!((out.len(), out[31], out[39]), (40, 1, 2));
}

#[test]
fn sets_are_ordered_and_hold_nothing_twice() {
    let mut set = numbers(&[3, 1, 2, 3]);
    assert_eq!(set.to_vec(), vec![1, 2, 3]);
    assert!(!set.insert(2));
    assert!(set.remove(&2));
    assert!(set.extend(&numbers(&[1, 5])));
    assert!(!set.extend(&numbers(&[1, 5])));
    assert_eq!(set.to_vec(), vec![1, 3, 5]);
    assert_eq!(set.difference(&numbers(&[3])).to_vec(), vec![1, 5]);
    assert_eq!(set.intersection(&numbers(&[3, 4])).to_vec(), vec![3]);
    assert!(numbers(&[1, 5]).is_subset(&set));
    assert!(!numbers(&[1, 2]).is_subset(&set));
    assert!(set.is_disjoint(&numbers(&[2, 4])));
}

#[test]
fn maps_are_ordered_by_key() {
    let mut map: SortedMap<u64, SortedSet<u64>> = SortedMap::new();
    map.insert(2, numbers(&[7]));
    map.insert(1, numbers(&[8, 9]));
    assert_eq!(map.key_set().to_vec(), vec![1, 2]);
    assert_eq!(map.member_set().to_vec(), vec![7, 8, 9]);
    assert_eq!(map.remove(&2).unwrap().to_vec(), vec![7]);
    assert!(map.get(&2).is_none());
}

#[test]
fn committee_thresholds_have_exact_values() {
    let thresholds = RaiCommitteeThresholds::for_size(4);
    assert_eq!((thresholds.max_faulty, thresholds.max_offline), (1, 0));
    assert_eq!((thresholds.notarization, thresholds.fast, thresholds.finalization), (3, 4, 3));
    let thresholds = RaiCommitteeThresholds::with_faults(10, 2, 3);
    assert_eq!((thresholds.notarization, thresholds.fast, thresholds.finalization), (5, 7, 5));
}

#[test]
fn an_empty_committee_reaches_no_quorum() {
    let committee = RaiCommitteeDeriver::new().derive_committee(&Vec::new());
    assert!(committee.is_empty());
    assert!(!committee.has_final_quorum(0));
    assert!(!committee.has_visibility_quorum(1));

    let members = (1..=4u64).map(|id| (PublicKey::from(id), Amount::raw(100))).collect();
    let committee: RaiCommittee = RaiCommitteeDeriver::new().derive_committee(&members);
    assert!(committee.has_visibility_quorum(2) && !committee.has_visibility_quorum(1));
    assert!(committee.has_notarization_quorum(3) && !committee.has_notarization_quorum(2));
    assert!(committee.has_final_quorum(3) && !committee.has_final_quorum(2));
    assert!(committee.has_fast_quorum(4) && !committee.has_fast_quorum(3));
}

#[test]
fn weights_add_up() {
    let mut weights = RepWeights::new();
    weights.insert(PublicKey::from(2), Amount::raw(5));
    weights.insert(PublicKey::from(1), Amount::raw(7));
    assert_eq!(weights.total(), Amount::raw(12));
    assert_eq!((weights.rep_at(0), weights.amount_at(0)), (PublicKey::from(1), Amount::raw(7)));
}

#[test]
fn members_are_sorted_stably() {
    let committee = RaiCommitteeDeriver::new()
        .derive_committee(&vec![(PublicKey::from(2), Amount::raw(1)), (PublicKey::from(1), Amount::raw(1))]);
    let mut members = committee.members().clone();
    members.reverse();
    assert_eq!(&stable_sort(&members), committee.members());
}

#[test]
fn elections_are_reported_in_pieces() {
    assert_eq!(split(&vec![1, 2, 3, 4, 5], 2), vec![vec![1, 2], vec![3, 4], vec![5]]);
    assert!(split(&Vec::<u64>::new(), 2).iter().all(|piece| piece.is_empty()));
}

#[test]
fn the_cut_needs_more_reports_than_members_may_be_faulty() {
    let mut reports = SortedMap::new();
    reports.insert(PublicKey::from(1), report(1, &[(0, 10)]));
    reports.insert(PublicKey::from(2), report(2, &[(0, 10), (1, 11)]));
    assert_eq!(collect_supported_slots(&reports, 4).to_vec(), vec![slot_root(10)]);
    assert_eq!(collect_reported_slots(&reports).to_vec(), vec![slot_root(10), slot_root(11)]);
    assert!(check_all_complete(&reports, 2));
    assert!(!check_all_complete(&reports, 3));

    reports.insert(PublicKey::from(3), report(2, &[(1, 12)]));
    assert!(!check_all_complete(&reports, 3));
    assert_eq!(reports.get(&PublicKey::from(3)).unwrap().first_gap(), Some(0));
}

#[test]
fn later_winners_replace_earlier_ones() {
    let mut known = SortedMap::new();
    known.insert(slot_root(1), BlockHash::from(1));
    let mut more = SortedMap::new();
    more.insert(slot_root(1), BlockHash::from(2));
    more.insert(slot_root(2), BlockHash::from(3));
    merge(&mut known, &more);
    assert_eq!(known.get(&slot_root(1)), Some(&BlockHash::from(2)));
    assert_eq!(known.len(), 2);
}

#[test]
fn stored_numbers_are_read_back() {
    let mut bytes = Vec::new();
    write_u64s(&mut bytes, &vec![1, u64::MAX]);
    let mut reader = Reader::new(&bytes);
    assert_eq!(read_u64s(&mut reader), Ok(vec![1, u64::MAX]));
    assert_eq!(reader.expect_finished(), Ok(()));

    let thresholds = RaiCommitteeThresholds::for_size(7);
    let mut bytes = Vec::new();
    write_thresholds(&mut bytes, thresholds);
    assert_eq!(read_thresholds(&mut Reader::new(&bytes)), Ok(thresholds));

    bytes.push(1);
    let mut reader = Reader::new(&bytes);
    assert_eq!(read_thresholds(&mut reader), Ok(thresholds));
    assert_eq!(reader.expect_finished(), Err(DecodeError::TooMuchData));
    let short = vec![1, 2];
    assert_eq!(u64::read(&mut Reader::new(&short)), Err(DecodeError::UnexpectedEnd));
}

#[test]
fn time_passes_at_the_deadline() {
    let start = Timestamp { nanos: 10 };
    assert!(!Timestamp { nanos: 14 }.is_after(start, 5));
    assert!(Timestamp { nanos: 15 }.is_after(start, 5));
    assert!(!Timestamp { nanos: u128::MAX }.is_after(start, u128::MAX));
}

#[test]
fn outcomes_settle_slots() {
    let block = RaiElectionValue::Block(BlockHash::from(1));
    let settled = closed_slot_state_from_outcome;
    let finalized = Some(RaiClosedSlotState::Finalized(BlockHash::from(1)));
    assert_eq!(settled(RaiElectionOutcome::Final(block)), finalized);
    assert_eq!(settled(RaiElectionOutcome::Fast(block)), finalized);
    assert_eq!(settled(RaiElectionOutcome::Notarized(block)), Some(RaiClosedSlotState::Carry(BlockHash::from(1))));
    assert_eq!(settled(RaiElectionOutcome::Timeout), Some(RaiClosedSlotState::Released));
    assert_eq!(settled(RaiElectionOutcome::SafetyFault), None);
}

#[test]
fn hashes_of_entries_tell_settled_states_apart() {
    let slot = RaiSlot::new(Account::from(1), 1);
    let mut finalized = SortedMap::new();
    finalized.insert(slot, RaiClosedSlotState::Finalized(BlockHash::from(2)));
    let mut carried = SortedMap::new();
    carried.insert(slot, RaiClosedSlotState::Carry(BlockHash::from(2)));
    let empty = SortedMap::new();

    assert_eq!(hash_finalized_entries(&carried), hash_finalized_entries(&empty));
    assert_ne!(hash_finalized_entries(&finalized), hash_finalized_entries(&empty));
    assert_eq!(hash_carry_entries(&finalized), hash_carry_entries(&empty));
    assert_ne!(hash_carry_entries(&carried), hash_carry_entries(&empty));
    assert_ne!(hash_entries(&carried), hash_entries(&finalized));
}

#[test]
fn only_known_records_are_certified() {
    let mut state = RaiCloseState::<RaiCloseRecord>::new();
    let record = RaiCloseRecord::new(BlockHash::zero(), BlockHash::from(1), BlockHash::from(2));
    let hash = BlockHash::from(3);
    assert_eq!(state.certify_close_record(0, &hash), Err(RaiEpochTransitionError::CloseRecordMissing));
    assert!(state.cache_close_record_value(0, hash, record, SortedMap::new()));
    assert!(!state.cache_close_record_value(0, hash, record, SortedMap::new()));
    assert_eq!(state.certify_close_record(0, &hash), Ok(()));
    assert_eq!(state.certified_close_hash(0), Some(hash));
}
