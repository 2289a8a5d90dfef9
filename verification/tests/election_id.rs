use rai_consensus::election_id::{rai_close_cut_root, rai_close_record_root};
use rai_consensus::types::{BlockHash, RaiEpoch};

#[test]
fn synthetic_roots_are_deterministic_and_domain_separated() {
    let epoch = RaiEpoch::new(7);
    assert_eq!(rai_close_cut_root(epoch, 3), rai_close_cut_root(epoch, 3));
    assert_eq!(rai_close_record_root(epoch, 3), rai_close_record_root(epoch, 3));
    assert_ne!(rai_close_cut_root(epoch, 3), rai_close_record_root(epoch, 3));
}

#[test]
fn epoch_and_round_are_part_of_the_identity() {
    assert_ne!(rai_close_cut_root(RaiEpoch::new(7), 3), rai_close_cut_root(RaiEpoch::new(8), 3));
    assert_ne!(rai_close_cut_root(RaiEpoch::new(7), 3), rai_close_cut_root(RaiEpoch::new(7), 4));
}

#[test]
fn an_election_root_stands_on_no_block() {
    assert_eq!(rai_close_cut_root(RaiEpoch::new(7), 3).previous, BlockHash::zero());
}
