//! The bytes in which elections, epochs and committees are stored.
use vstd::prelude::*;

use crate::active_elections::{RaiElectionStatus, RaiTallySnapshot, StoredTally};
use crate::bytes::be_bytes;
use crate::close_state::{RaiCloseAttempt, RaiEpochPhase};
use crate::close_values::{RaiCloseValueSnapshot, StoredCloseValue};
use crate::codec::{lemma_join, Codec, DecodeError, Parsed, Reader};
use crate::committee::{
    committee_snapshot_round_trip, Membership, RaiCommittee, RaiCommitteeMember, RaiCommitteeSnapshot,
    RaiCommitteeThresholds, RaiEpoch,
};
use crate::ordered::{
    ascending, copy_all, is_sorted, lemma_ascending, lemma_map_of_pairs, map_of, pairs_of, sorted_map_is_finite,
    stable_sorted, SortedMap,
};
use crate::types::{
    Account, Amount, BlockHash, PendingReport, PublicKey, RaiElectionId, RaiElectionValue, RaiPendingReport, RaiSlot,
    RaiVoteKind, Signature,
};

verus! {

broadcast use sorted_map_is_finite;

/// The first byte of everything that is stored.
pub const SNAPSHOT_VERSION: u8 = 1;

/// The two halves of a hash or a key.
#[derive(Clone, Copy, PartialEq, Eq, Structural)]
pub struct Halves {
    pub hi: u128,
    pub lo: u128,
}

impl DeepView for Halves {
    type V = Halves;

    open spec fn deep_view(&self) -> Halves {
        *self
    }
}

impl Codec for Halves {
    open spec fn encoding(value: Halves) -> Seq<u8> {
        u128::encoding(value.hi) + (u128::encoding(value.lo))
    }

    open spec fn parse(bytes: Seq<u8>) -> Result<Parsed<Halves>, DecodeError> {
        match u128::parse(bytes) {
            Err(error) => Err(error),
            Ok(p0) => {
                match u128::parse(p0.rest) {
                    Err(error) => Err(error),
                    Ok(p1) => {
                        Ok(Parsed { value: Halves { hi: p0.value, lo: p1.value }, rest: p1.rest })
                    },
                }
            },
        }
    }

    open spec fn fits(value: Halves) -> bool {
        &&& u128::fits(value.hi)
        &&& u128::fits(value.lo)
    }

    fn write(&self, out: &mut Vec<u8>) {
        let ghost before = out@;
        self.hi.write(out);
        self.lo.write(out);
        proof {
            assert(out@ =~= before + Self::encoding(self.deep_view()));
        }
    }

    fn read(reader: &mut Reader<'_>) -> (r: Result<Self, DecodeError>) {
        let hi = match u128::read(reader) {
            Ok(value) => value,
            Err(error) => return Err(error),
        };
        let lo = match u128::read(reader) {
            Ok(value) => value,
            Err(error) => return Err(error),
        };
        Ok(Halves { hi, lo })
    }

    proof fn round_trip(value: Halves, rest: Seq<u8>) {
        lemma_join(u128::encoding(value.hi), u128::encoding(value.lo), rest);
        u128::round_trip(value.hi, (u128::encoding(value.lo)) + rest);
        u128::round_trip(value.lo, rest);
    }

    proof fn canonical(bytes: Seq<u8>) {
        u128::canonical(bytes);
        let p0 = u128::parse(bytes)->Ok_0;
        u128::canonical(p0.rest);
        let p1 = u128::parse(p0.rest)->Ok_0;
        let value = Self::parse(bytes)->Ok_0.value;
        lemma_join(u128::encoding(value.hi), u128::encoding(value.lo), p1.rest);
    }
}

impl Codec for BlockHash {
    open spec fn encoding(value: BlockHash) -> Seq<u8> {
        Halves::encoding(Halves { hi: value.hi, lo: value.lo })
    }

    open spec fn parse(bytes: Seq<u8>) -> Result<Parsed<BlockHash>, DecodeError> {
        match Halves::parse(bytes) {
            Err(error) => Err(error),
            Ok(p) => Ok(Parsed { value: BlockHash { hi: p.value.hi, lo: p.value.lo }, rest: p.rest }),
        }
    }

    open spec fn fits(value: BlockHash) -> bool {
        Halves::fits(Halves { hi: value.hi, lo: value.lo })
    }

    fn write(&self, out: &mut Vec<u8>) {
        (Halves { hi: self.hi, lo: self.lo }).write(out);
    }

    fn read(reader: &mut Reader<'_>) -> (r: Result<Self, DecodeError>) {
        match Halves::read(reader) {
            Ok(halves) => Ok(BlockHash { hi: halves.hi, lo: halves.lo }),
            Err(error) => Err(error),
        }
    }

    proof fn round_trip(value: BlockHash, rest: Seq<u8>) {
        Halves::round_trip(Halves { hi: value.hi, lo: value.lo }, rest);
    }

    proof fn canonical(bytes: Seq<u8>) {
        Halves::canonical(bytes);
    }
}

impl Codec for PublicKey {
    open spec fn encoding(value: PublicKey) -> Seq<u8> {
        Halves::encoding(Halves { hi: value.hi, lo: value.lo })
    }

    open spec fn parse(bytes: Seq<u8>) -> Result<Parsed<PublicKey>, DecodeError> {
        match Halves::parse(bytes) {
            Err(error) => Err(error),
            Ok(p) => Ok(Parsed { value: PublicKey { hi: p.value.hi, lo: p.value.lo }, rest: p.rest }),
        }
    }

    open spec fn fits(value: PublicKey) -> bool {
        Halves::fits(Halves { hi: value.hi, lo: value.lo })
    }

    fn write(&self, out: &mut Vec<u8>) {
        (Halves { hi: self.hi, lo: self.lo }).write(out);
    }

    fn read(reader: &mut Reader<'_>) -> (r: Result<Self, DecodeError>) {
        match Halves::read(reader) {
            Ok(halves) => Ok(PublicKey { hi: halves.hi, lo: halves.lo }),
            Err(error) => Err(error),
        }
    }

    proof fn round_trip(value: PublicKey, rest: Seq<u8>) {
        Halves::round_trip(Halves { hi: value.hi, lo: value.lo }, rest);
    }

    proof fn canonical(bytes: Seq<u8>) {
        Halves::canonical(bytes);
    }
}

impl Codec for Account {
    open spec fn encoding(value: Account) -> Seq<u8> {
        Halves::encoding(Halves { hi: value.hi, lo: value.lo })
    }

    open spec fn parse(bytes: Seq<u8>) -> Result<Parsed<Account>, DecodeError> {
        match Halves::parse(bytes) {
            Err(error) => Err(error),
            Ok(p) => Ok(Parsed { value: Account { hi: p.value.hi, lo: p.value.lo }, rest: p.rest }),
        }
    }

    open spec fn fits(value: Account) -> bool {
        Halves::fits(Halves { hi: value.hi, lo: value.lo })
    }

    fn write(&self, out: &mut Vec<u8>) {
        (Halves { hi: self.hi, lo: self.lo }).write(out);
    }

    fn read(reader: &mut Reader<'_>) -> (r: Result<Self, DecodeError>) {
        match Halves::read(reader) {
            Ok(halves) => Ok(Account { hi: halves.hi, lo: halves.lo }),
            Err(error) => Err(error),
        }
    }

    proof fn round_trip(value: Account, rest: Seq<u8>) {
        Halves::round_trip(Halves { hi: value.hi, lo: value.lo }, rest);
    }

    proof fn canonical(bytes: Seq<u8>) {
        Halves::canonical(bytes);
    }
}

impl Codec for Amount {
    open spec fn encoding(value: Amount) -> Seq<u8> {
        u128::encoding(value.raw)
    }

    open spec fn parse(bytes: Seq<u8>) -> Result<Parsed<Amount>, DecodeError> {
        match u128::parse(bytes) {
            Err(error) => Err(error),
            Ok(p0) => {
                Ok(Parsed { value: Amount { raw: p0.value }, rest: p0.rest })
            },
        }
    }

    open spec fn fits(value: Amount) -> bool {
        &&& u128::fits(value.raw)
    }

    fn write(&self, out: &mut Vec<u8>) {
        let ghost before = out@;
        self.raw.write(out);
        proof {
            assert(out@ =~= before + Self::encoding(self.deep_view()));
        }
    }

    fn read(reader: &mut Reader<'_>) -> (r: Result<Self, DecodeError>) {
        let raw = match u128::read(reader) {
            Ok(value) => value,
            Err(error) => return Err(error),
        };
        Ok(Amount { raw })
    }

    proof fn round_trip(value: Amount, rest: Seq<u8>) {
        u128::round_trip(value.raw, rest);
    }

    proof fn canonical(bytes: Seq<u8>) {
        u128::canonical(bytes);
        let p0 = u128::parse(bytes)->Ok_0;
        let value = Self::parse(bytes)->Ok_0.value;
    }
}

impl Codec for Signature {
    open spec fn encoding(value: Signature) -> Seq<u8> {
        u128::encoding(value.r_hi) + (u128::encoding(value.r_lo) + (u128::encoding(value.s_hi) + (u128::encoding(value.s_lo))))
    }

    open spec fn parse(bytes: Seq<u8>) -> Result<Parsed<Signature>, DecodeError> {
        match u128::parse(bytes) {
            Err(error) => Err(error),
            Ok(p0) => {
                match u128::parse(p0.rest) {
                    Err(error) => Err(error),
                    Ok(p1) => {
                        match u128::parse(p1.rest) {
                            Err(error) => Err(error),
                            Ok(p2) => {
                                match u128::parse(p2.rest) {
                                    Err(error) => Err(error),
                                    Ok(p3) => {
                                        Ok(Parsed { value: Signature { r_hi: p0.value, r_lo: p1.value, s_hi: p2.value, s_lo: p3.value }, rest: p3.rest })
                                    },
                                }
                            },
                        }
                    },
                }
            },
        }
    }

    open spec fn fits(value: Signature) -> bool {
        &&& u128::fits(value.r_hi)
        &&& u128::fits(value.r_lo)
        &&& u128::fits(value.s_hi)
        &&& u128::fits(value.s_lo)
    }

    fn write(&self, out: &mut Vec<u8>) {
        let ghost before = out@;
        self.r_hi.write(out);
        self.r_lo.write(out);
        self.s_hi.write(out);
        self.s_lo.write(out);
        proof {
            assert(out@ =~= before + Self::encoding(self.deep_view()));
        }
    }

    fn read(reader: &mut Reader<'_>) -> (r: Result<Self, DecodeError>) {
        let r_hi = match u128::read(reader) {
            Ok(value) => value,
            Err(error) => return Err(error),
        };
        let r_lo = match u128::read(reader) {
            Ok(value) => value,
            Err(error) => return Err(error),
        };
        let s_hi = match u128::read(reader) {
            Ok(value) => value,
            Err(error) => return Err(error),
        };
        let s_lo = match u128::read(reader) {
            Ok(value) => value,
            Err(error) => return Err(error),
        };
        Ok(Signature { r_hi, r_lo, s_hi, s_lo })
    }

    proof fn round_trip(value: Signature, rest: Seq<u8>) {
        lemma_join(u128::encoding(value.r_hi), u128::encoding(value.r_lo) + (u128::encoding(value.s_hi) + (u128::encoding(value.s_lo))), rest);
        u128::round_trip(value.r_hi, (u128::encoding(value.r_lo) + (u128::encoding(value.s_hi) + (u128::encoding(value.s_lo)))) + rest);
        lemma_join(u128::encoding(value.r_lo), u128::encoding(value.s_hi) + (u128::encoding(value.s_lo)), rest);
        u128::round_trip(value.r_lo, (u128::encoding(value.s_hi) + (u128::encoding(value.s_lo))) + rest);
        lemma_join(u128::encoding(value.s_hi), u128::encoding(value.s_lo), rest);
        u128::round_trip(value.s_hi, (u128::encoding(value.s_lo)) + rest);
        u128::round_trip(value.s_lo, rest);
    }

    proof fn canonical(bytes: Seq<u8>) {
        u128::canonical(bytes);
        let p0 = u128::parse(bytes)->Ok_0;
        u128::canonical(p0.rest);
        let p1 = u128::parse(p0.rest)->Ok_0;
        u128::canonical(p1.rest);
        let p2 = u128::parse(p1.rest)->Ok_0;
        u128::canonical(p2.rest);
        let p3 = u128::parse(p2.rest)->Ok_0;
        let value = Self::parse(bytes)->Ok_0.value;
        lemma_join(u128::encoding(value.s_hi), u128::encoding(value.s_lo), p3.rest);
        lemma_join(u128::encoding(value.r_lo), u128::encoding(value.s_hi) + (u128::encoding(value.s_lo)), p3.rest);
        lemma_join(u128::encoding(value.r_hi), u128::encoding(value.r_lo) + (u128::encoding(value.s_hi) + (u128::encoding(value.s_lo))), p3.rest);
    }
}

impl Codec for RaiSlot {
    open spec fn encoding(value: RaiSlot) -> Seq<u8> {
        Account::encoding(value.account) + (u64::encoding(value.account_height))
    }

    open spec fn parse(bytes: Seq<u8>) -> Result<Parsed<RaiSlot>, DecodeError> {
        match Account::parse(bytes) {
            Err(error) => Err(error),
            Ok(p0) => {
                match u64::parse(p0.rest) {
                    Err(error) => Err(error),
                    Ok(p1) => {
                        Ok(Parsed { value: RaiSlot { account: p0.value, account_height: p1.value }, rest: p1.rest })
                    },
                }
            },
        }
    }

    open spec fn fits(value: RaiSlot) -> bool {
        &&& Account::fits(value.account)
        &&& u64::fits(value.account_height)
    }

    fn write(&self, out: &mut Vec<u8>) {
        let ghost before = out@;
        self.account.write(out);
        self.account_height.write(out);
        proof {
            assert(out@ =~= before + Self::encoding(self.deep_view()));
        }
    }

    fn read(reader: &mut Reader<'_>) -> (r: Result<Self, DecodeError>) {
        let account = match Account::read(reader) {
            Ok(value) => value,
            Err(error) => return Err(error),
        };
        let account_height = match u64::read(reader) {
            Ok(value) => value,
            Err(error) => return Err(error),
        };
        Ok(RaiSlot { account, account_height })
    }

    proof fn round_trip(value: RaiSlot, rest: Seq<u8>) {
        lemma_join(Account::encoding(value.account), u64::encoding(value.account_height), rest);
        Account::round_trip(value.account, (u64::encoding(value.account_height)) + rest);
        u64::round_trip(value.account_height, rest);
    }

    proof fn canonical(bytes: Seq<u8>) {
        Account::canonical(bytes);
        let p0 = Account::parse(bytes)->Ok_0;
        u64::canonical(p0.rest);
        let p1 = u64::parse(p0.rest)->Ok_0;
        let value = Self::parse(bytes)->Ok_0.value;
        lemma_join(Account::encoding(value.account), u64::encoding(value.account_height), p1.rest);
    }
}

impl Codec for RaiElectionId {
    open spec fn encoding(value: RaiElectionId) -> Seq<u8> {
        match value {
            RaiElectionId::Slot { slot, epoch } => u8::encoding(0) + (RaiSlot::encoding(slot) + (u64::encoding(epoch))),
            RaiElectionId::CloseCut { epoch, attempt } => u8::encoding(1) + (u64::encoding(epoch) + (u64::encoding(attempt))),
            RaiElectionId::CloseRecord { epoch, attempt } => u8::encoding(2) + (u64::encoding(epoch) + (u64::encoding(attempt))),
        }
    }

    open spec fn parse(bytes: Seq<u8>) -> Result<Parsed<RaiElectionId>, DecodeError> {
        match u8::parse(bytes) {
            Err(error) => Err(error),
            Ok(tag) => if tag.value == 0 {
                match RaiSlot::parse(tag.rest) {
                    Err(error) => Err(error),
                    Ok(p0) => {
                        match u64::parse(p0.rest) {
                            Err(error) => Err(error),
                            Ok(p1) => {
                                Ok(Parsed { value: RaiElectionId::Slot { slot: p0.value, epoch: p1.value }, rest: p1.rest })
                            },
                        }
                    },
                }
            } else if tag.value == 1 {
                match u64::parse(tag.rest) {
                    Err(error) => Err(error),
                    Ok(p0) => {
                        match u64::parse(p0.rest) {
                            Err(error) => Err(error),
                            Ok(p1) => {
                                Ok(Parsed { value: RaiElectionId::CloseCut { epoch: p0.value, attempt: p1.value }, rest: p1.rest })
                            },
                        }
                    },
                }
            } else if tag.value == 2 {
                match u64::parse(tag.rest) {
                    Err(error) => Err(error),
                    Ok(p0) => {
                        match u64::parse(p0.rest) {
                            Err(error) => Err(error),
                            Ok(p1) => {
                                Ok(Parsed { value: RaiElectionId::CloseRecord { epoch: p0.value, attempt: p1.value }, rest: p1.rest })
                            },
                        }
                    },
                }
            } else {
                Err(DecodeError::InvalidData)
            },
        }
    }

    open spec fn fits(value: RaiElectionId) -> bool {
        true
    }

    fn write(&self, out: &mut Vec<u8>) {
        let ghost before = out@;
        match self {
            RaiElectionId::Slot { slot, epoch } => {
                let tag: u8 = 0;
                tag.write(out);
                slot.write(out);
                epoch.write(out);
            },
            RaiElectionId::CloseCut { epoch, attempt } => {
                let tag: u8 = 1;
                tag.write(out);
                epoch.write(out);
                attempt.write(out);
            },
            RaiElectionId::CloseRecord { epoch, attempt } => {
                let tag: u8 = 2;
                tag.write(out);
                epoch.write(out);
                attempt.write(out);
            },
        }
        proof {
            assert(out@ =~= before + Self::encoding(self.deep_view()));
        }
    }

    fn read(reader: &mut Reader<'_>) -> (r: Result<Self, DecodeError>) {
        let tag = match u8::read(reader) {
            Ok(tag) => tag,
            Err(error) => return Err(error),
        };
        if tag == 0 {
            let slot = match RaiSlot::read(reader) {
                Ok(value) => value,
                Err(error) => return Err(error),
            };
            let epoch = match u64::read(reader) {
                Ok(value) => value,
                Err(error) => return Err(error),
            };
            Ok(RaiElectionId::Slot { slot, epoch })
        } else if tag == 1 {
            let epoch = match u64::read(reader) {
                Ok(value) => value,
                Err(error) => return Err(error),
            };
            let attempt = match u64::read(reader) {
                Ok(value) => value,
                Err(error) => return Err(error),
            };
            Ok(RaiElectionId::CloseCut { epoch, attempt })
        } else if tag == 2 {
            let epoch = match u64::read(reader) {
                Ok(value) => value,
                Err(error) => return Err(error),
            };
            let attempt = match u64::read(reader) {
                Ok(value) => value,
                Err(error) => return Err(error),
            };
            Ok(RaiElectionId::CloseRecord { epoch, attempt })
        } else {
            Err(DecodeError::InvalidData)
        }
    }

    proof fn round_trip(value: RaiElectionId, rest: Seq<u8>) {
        match value {
            RaiElectionId::Slot { slot, epoch } => {
                lemma_join(u8::encoding(0), RaiSlot::encoding(slot) + (u64::encoding(epoch)), rest);
                u8::round_trip(0, (RaiSlot::encoding(slot) + (u64::encoding(epoch))) + rest);
                lemma_join(RaiSlot::encoding(slot), u64::encoding(epoch), rest);
                RaiSlot::round_trip(slot, (u64::encoding(epoch)) + rest);
                u64::round_trip(epoch, rest);
            },
            RaiElectionId::CloseCut { epoch, attempt } => {
                lemma_join(u8::encoding(1), u64::encoding(epoch) + (u64::encoding(attempt)), rest);
                u8::round_trip(1, (u64::encoding(epoch) + (u64::encoding(attempt))) + rest);
                lemma_join(u64::encoding(epoch), u64::encoding(attempt), rest);
                u64::round_trip(epoch, (u64::encoding(attempt)) + rest);
                u64::round_trip(attempt, rest);
            },
            RaiElectionId::CloseRecord { epoch, attempt } => {
                lemma_join(u8::encoding(2), u64::encoding(epoch) + (u64::encoding(attempt)), rest);
                u8::round_trip(2, (u64::encoding(epoch) + (u64::encoding(attempt))) + rest);
                lemma_join(u64::encoding(epoch), u64::encoding(attempt), rest);
                u64::round_trip(epoch, (u64::encoding(attempt)) + rest);
                u64::round_trip(attempt, rest);
            },
        }
    }

    proof fn canonical(bytes: Seq<u8>) {
        u8::canonical(bytes);
        let tag = u8::parse(bytes)->Ok_0;
        if tag.value == 0 {
            RaiSlot::canonical(tag.rest);
            let p0 = RaiSlot::parse(tag.rest)->Ok_0;
            u64::canonical(p0.rest);
            let p1 = u64::parse(p0.rest)->Ok_0;
            lemma_join(RaiSlot::encoding(p0.value), u64::encoding(p1.value), p1.rest);
            lemma_join(u8::encoding(0), RaiSlot::encoding(p0.value) + (u64::encoding(p1.value)), p1.rest);
        }
        if tag.value == 1 {
            u64::canonical(tag.rest);
            let p0 = u64::parse(tag.rest)->Ok_0;
            u64::canonical(p0.rest);
            let p1 = u64::parse(p0.rest)->Ok_0;
            lemma_join(u64::encoding(p0.value), u64::encoding(p1.value), p1.rest);
            lemma_join(u8::encoding(1), u64::encoding(p0.value) + (u64::encoding(p1.value)), p1.rest);
        }
        if tag.value == 2 {
            u64::canonical(tag.rest);
            let p0 = u64::parse(tag.rest)->Ok_0;
            u64::canonical(p0.rest);
            let p1 = u64::parse(p0.rest)->Ok_0;
            lemma_join(u64::encoding(p0.value), u64::encoding(p1.value), p1.rest);
            lemma_join(u8::encoding(2), u64::encoding(p0.value) + (u64::encoding(p1.value)), p1.rest);
        }
    }
}

impl Codec for RaiElectionValue {
    open spec fn encoding(value: RaiElectionValue) -> Seq<u8> {
        match value {
            RaiElectionValue::Block(hash) => u8::encoding(0) + (BlockHash::encoding(hash)),
            RaiElectionValue::CloseCutHash(hash) => u8::encoding(1) + (BlockHash::encoding(hash)),
            RaiElectionValue::CloseRecordHash(hash) => u8::encoding(2) + (BlockHash::encoding(hash)),
            RaiElectionValue::Timeout => u8::encoding(3),
        }
    }

    open spec fn parse(bytes: Seq<u8>) -> Result<Parsed<RaiElectionValue>, DecodeError> {
        match u8::parse(bytes) {
            Err(error) => Err(error),
            Ok(tag) => if tag.value == 0 {
                match BlockHash::parse(tag.rest) {
                    Err(error) => Err(error),
                    Ok(p0) => {
                        Ok(Parsed { value: RaiElectionValue::Block(p0.value), rest: p0.rest })
                    },
                }
            } else if tag.value == 1 {
                match BlockHash::parse(tag.rest) {
                    Err(error) => Err(error),
                    Ok(p0) => {
                        Ok(Parsed { value: RaiElectionValue::CloseCutHash(p0.value), rest: p0.rest })
                    },
                }
            } else if tag.value == 2 {
                match BlockHash::parse(tag.rest) {
                    Err(error) => Err(error),
                    Ok(p0) => {
                        Ok(Parsed { value: RaiElectionValue::CloseRecordHash(p0.value), rest: p0.rest })
                    },
                }
            } else if tag.value == 3 {
                Ok(Parsed { value: RaiElectionValue::Timeout, rest: tag.rest })
            } else {
                Err(DecodeError::InvalidData)
            },
        }
    }

    open spec fn fits(value: RaiElectionValue) -> bool {
        true
    }

    fn write(&self, out: &mut Vec<u8>) {
        let ghost before = out@;
        match self {
            RaiElectionValue::Block(hash) => {
                let tag: u8 = 0;
                tag.write(out);
                hash.write(out);
            },
            RaiElectionValue::CloseCutHash(hash) => {
                let tag: u8 = 1;
                tag.write(out);
                hash.write(out);
            },
            RaiElectionValue::CloseRecordHash(hash) => {
                let tag: u8 = 2;
                tag.write(out);
                hash.write(out);
            },
            RaiElectionValue::Timeout => {
                let tag: u8 = 3;
                tag.write(out);
            },
        }
        proof {
            assert(out@ =~= before + Self::encoding(self.deep_view()));
        }
    }

    fn read(reader: &mut Reader<'_>) -> (r: Result<Self, DecodeError>) {
        let tag = match u8::read(reader) {
            Ok(tag) => tag,
            Err(error) => return Err(error),
        };
        if tag == 0 {
            let hash = match BlockHash::read(reader) {
                Ok(value) => value,
                Err(error) => return Err(error),
            };
            Ok(RaiElectionValue::Block(hash))
        } else if tag == 1 {
            let hash = match BlockHash::read(reader) {
                Ok(value) => value,
                Err(error) => return Err(error),
            };
            Ok(RaiElectionValue::CloseCutHash(hash))
        } else if tag == 2 {
            let hash = match BlockHash::read(reader) {
                Ok(value) => value,
                Err(error) => return Err(error),
            };
            Ok(RaiElectionValue::CloseRecordHash(hash))
        } else if tag == 3 {
            Ok(RaiElectionValue::Timeout)
        } else {
            Err(DecodeError::InvalidData)
        }
    }

    proof fn round_trip(value: RaiElectionValue, rest: Seq<u8>) {
        match value {
            RaiElectionValue::Block(hash) => {
                lemma_join(u8::encoding(0), BlockHash::encoding(hash), rest);
                u8::round_trip(0, (BlockHash::encoding(hash)) + rest);
                BlockHash::round_trip(hash, rest);
            },
            RaiElectionValue::CloseCutHash(hash) => {
                lemma_join(u8::encoding(1), BlockHash::encoding(hash), rest);
                u8::round_trip(1, (BlockHash::encoding(hash)) + rest);
                BlockHash::round_trip(hash, rest);
            },
            RaiElectionValue::CloseRecordHash(hash) => {
                lemma_join(u8::encoding(2), BlockHash::encoding(hash), rest);
                u8::round_trip(2, (BlockHash::encoding(hash)) + rest);
                BlockHash::round_trip(hash, rest);
            },
            RaiElectionValue::Timeout => {
                u8::round_trip(3, rest);
            },
        }
    }

    proof fn canonical(bytes: Seq<u8>) {
        u8::canonical(bytes);
        let tag = u8::parse(bytes)->Ok_0;
        if tag.value == 0 {
            BlockHash::canonical(tag.rest);
            let p0 = BlockHash::parse(tag.rest)->Ok_0;
            lemma_join(u8::encoding(0), BlockHash::encoding(p0.value), p0.rest);
        }
        if tag.value == 1 {
            BlockHash::canonical(tag.rest);
            let p0 = BlockHash::parse(tag.rest)->Ok_0;
            lemma_join(u8::encoding(1), BlockHash::encoding(p0.value), p0.rest);
        }
        if tag.value == 2 {
            BlockHash::canonical(tag.rest);
            let p0 = BlockHash::parse(tag.rest)->Ok_0;
            lemma_join(u8::encoding(2), BlockHash::encoding(p0.value), p0.rest);
        }
    }
}

impl Codec for RaiVoteKind {
    open spec fn encoding(value: RaiVoteKind) -> Seq<u8> {
        match value {
            RaiVoteKind::First => u8::encoding(0),
            RaiVoteKind::Notarization => u8::encoding(1),
            RaiVoteKind::Final => u8::encoding(2),
        }
    }

    open spec fn parse(bytes: Seq<u8>) -> Result<Parsed<RaiVoteKind>, DecodeError> {
        match u8::parse(bytes) {
            Err(error) => Err(error),
            Ok(tag) => if tag.value == 0 {
                Ok(Parsed { value: RaiVoteKind::First, rest: tag.rest })
            } else if tag.value == 1 {
                Ok(Parsed { value: RaiVoteKind::Notarization, rest: tag.rest })
            } else if tag.value == 2 {
                Ok(Parsed { value: RaiVoteKind::Final, rest: tag.rest })
            } else {
                Err(DecodeError::InvalidData)
            },
        }
    }

    open spec fn fits(value: RaiVoteKind) -> bool {
        true
    }

    fn write(&self, out: &mut Vec<u8>) {
        let ghost before = out@;
        match self {
            RaiVoteKind::First => {
                let tag: u8 = 0;
                tag.write(out);
            },
            RaiVoteKind::Notarization => {
                let tag: u8 = 1;
                tag.write(out);
            },
            RaiVoteKind::Final => {
                let tag: u8 = 2;
                tag.write(out);
            },
        }
        proof {
            assert(out@ =~= before + Self::encoding(self.deep_view()));
        }
    }

    fn read(reader: &mut Reader<'_>) -> (r: Result<Self, DecodeError>) {
        let tag = match u8::read(reader) {
            Ok(tag) => tag,
            Err(error) => return Err(error),
        };
        if tag == 0 {
            Ok(RaiVoteKind::First)
        } else if tag == 1 {
            Ok(RaiVoteKind::Notarization)
        } else if tag == 2 {
            Ok(RaiVoteKind::Final)
        } else {
            Err(DecodeError::InvalidData)
        }
    }

    proof fn round_trip(value: RaiVoteKind, rest: Seq<u8>) {
        match value {
            RaiVoteKind::First => {
                u8::round_trip(0, rest);
            },
            RaiVoteKind::Notarization => {
                u8::round_trip(1, rest);
            },
            RaiVoteKind::Final => {
                u8::round_trip(2, rest);
            },
        }
    }

    proof fn canonical(bytes: Seq<u8>) {
        u8::canonical(bytes);
        let tag = u8::parse(bytes)->Ok_0;
    }
}

impl Codec for RaiEpochPhase {
    open spec fn encoding(value: RaiEpochPhase) -> Seq<u8> {
        match value {
            RaiEpochPhase::Open => u8::encoding(0),
            RaiEpochPhase::Closing => u8::encoding(1),
            RaiEpochPhase::Closed => u8::encoding(2),
        }
    }

    open spec fn parse(bytes: Seq<u8>) -> Result<Parsed<RaiEpochPhase>, DecodeError> {
        match u8::parse(bytes) {
            Err(error) => Err(error),
            Ok(tag) => if tag.value == 0 {
                Ok(Parsed { value: RaiEpochPhase::Open, rest: tag.rest })
            } else if tag.value == 1 {
                Ok(Parsed { value: RaiEpochPhase::Closing, rest: tag.rest })
            } else if tag.value == 2 {
                Ok(Parsed { value: RaiEpochPhase::Closed, rest: tag.rest })
            } else {
                Err(DecodeError::InvalidData)
            },
        }
    }

    open spec fn fits(value: RaiEpochPhase) -> bool {
        true
    }

    fn write(&self, out: &mut Vec<u8>) {
        let ghost before = out@;
        match self {
            RaiEpochPhase::Open => {
                let tag: u8 = 0;
                tag.write(out);
            },
            RaiEpochPhase::Closing => {
                let tag: u8 = 1;
                tag.write(out);
            },
            RaiEpochPhase::Closed => {
                let tag: u8 = 2;
                tag.write(out);
            },
        }
        proof {
            assert(out@ =~= before + Self::encoding(self.deep_view()));
        }
    }

    fn read(reader: &mut Reader<'_>) -> (r: Result<Self, DecodeError>) {
        let tag = match u8::read(reader) {
            Ok(tag) => tag,
            Err(error) => return Err(error),
        };
        if tag == 0 {
            Ok(RaiEpochPhase::Open)
        } else if tag == 1 {
            Ok(RaiEpochPhase::Closing)
        } else if tag == 2 {
            Ok(RaiEpochPhase::Closed)
        } else {
            Err(DecodeError::InvalidData)
        }
    }

    proof fn round_trip(value: RaiEpochPhase, rest: Seq<u8>) {
        match value {
            RaiEpochPhase::Open => {
                u8::round_trip(0, rest);
            },
            RaiEpochPhase::Closing => {
                u8::round_trip(1, rest);
            },
            RaiEpochPhase::Closed => {
                u8::round_trip(2, rest);
            },
        }
    }

    proof fn canonical(bytes: Seq<u8>) {
        u8::canonical(bytes);
        let tag = u8::parse(bytes)->Ok_0;
    }
}

impl Codec for RaiElectionStatus {
    open spec fn encoding(value: RaiElectionStatus) -> Seq<u8> {
        match value {
            RaiElectionStatus::Active => u8::encoding(0),
            RaiElectionStatus::Confirmed => u8::encoding(1),
        }
    }

    open spec fn parse(bytes: Seq<u8>) -> Result<Parsed<RaiElectionStatus>, DecodeError> {
        match u8::parse(bytes) {
            Err(error) => Err(error),
            Ok(tag) => if tag.value == 0 {
                Ok(Parsed { value: RaiElectionStatus::Active, rest: tag.rest })
            } else if tag.value == 1 {
                Ok(Parsed { value: RaiElectionStatus::Confirmed, rest: tag.rest })
            } else {
                Err(DecodeError::InvalidData)
            },
        }
    }

    open spec fn fits(value: RaiElectionStatus) -> bool {
        true
    }

    fn write(&self, out: &mut Vec<u8>) {
        let ghost before = out@;
        match self {
            RaiElectionStatus::Active => {
                let tag: u8 = 0;
                tag.write(out);
            },
            RaiElectionStatus::Confirmed => {
                let tag: u8 = 1;
                tag.write(out);
            },
        }
        proof {
            assert(out@ =~= before + Self::encoding(self.deep_view()));
        }
    }

    fn read(reader: &mut Reader<'_>) -> (r: Result<Self, DecodeError>) {
        let tag = match u8::read(reader) {
            Ok(tag) => tag,
            Err(error) => return Err(error),
        };
        if tag == 0 {
            Ok(RaiElectionStatus::Active)
        } else if tag == 1 {
            Ok(RaiElectionStatus::Confirmed)
        } else {
            Err(DecodeError::InvalidData)
        }
    }

    proof fn round_trip(value: RaiElectionStatus, rest: Seq<u8>) {
        match value {
            RaiElectionStatus::Active => {
                u8::round_trip(0, rest);
            },
            RaiElectionStatus::Confirmed => {
                u8::round_trip(1, rest);
            },
        }
    }

    proof fn canonical(bytes: Seq<u8>) {
        u8::canonical(bytes);
        let tag = u8::parse(bytes)->Ok_0;
    }
}

impl Codec for RaiPendingReport {
    open spec fn encoding(value: PendingReport) -> Seq<u8> {
        Vec::<RaiSlot>::encoding(value.slots) + (PublicKey::encoding(value.reporter) + (u64::encoding(value.epoch) + (Signature::encoding(value.signature))))
    }

    open spec fn parse(bytes: Seq<u8>) -> Result<Parsed<PendingReport>, DecodeError> {
        match Vec::<RaiSlot>::parse(bytes) {
            Err(error) => Err(error),
            Ok(p0) => {
                match PublicKey::parse(p0.rest) {
                    Err(error) => Err(error),
                    Ok(p1) => {
                        match u64::parse(p1.rest) {
                            Err(error) => Err(error),
                            Ok(p2) => {
                                match Signature::parse(p2.rest) {
                                    Err(error) => Err(error),
                                    Ok(p3) => {
                                        Ok(Parsed { value: PendingReport { slots: p0.value, reporter: p1.value, epoch: p2.value, signature: p3.value }, rest: p3.rest })
                                    },
                                }
                            },
                        }
                    },
                }
            },
        }
    }

    open spec fn fits(value: PendingReport) -> bool {
        &&& Vec::<RaiSlot>::fits(value.slots)
        &&& PublicKey::fits(value.reporter)
        &&& u64::fits(value.epoch)
        &&& Signature::fits(value.signature)
    }

    fn write(&self, out: &mut Vec<u8>) {
        let ghost before = out@;
        self.slots.write(out);
        self.reporter.write(out);
        self.epoch.write(out);
        self.signature.write(out);
        proof {
            assert(self.slots.deep_view() =~= self.slots@);
            assert(out@ =~= before + Self::encoding(self.deep_view()));
        }
    }

    fn read(reader: &mut Reader<'_>) -> (r: Result<Self, DecodeError>) {
        let slots = match Vec::<RaiSlot>::read(reader) {
            Ok(value) => value,
            Err(error) => return Err(error),
        };
        let reporter = match PublicKey::read(reader) {
            Ok(value) => value,
            Err(error) => return Err(error),
        };
        let epoch = match u64::read(reader) {
            Ok(value) => value,
            Err(error) => return Err(error),
        };
        let signature = match Signature::read(reader) {
            Ok(value) => value,
            Err(error) => return Err(error),
        };
        proof {
            assert(slots.deep_view() =~= slots@);
        }
        Ok(RaiPendingReport { slots, reporter, epoch, signature })
    }

    proof fn round_trip(value: PendingReport, rest: Seq<u8>) {
        lemma_join(Vec::<RaiSlot>::encoding(value.slots), PublicKey::encoding(value.reporter) + (u64::encoding(value.epoch) + (Signature::encoding(value.signature))), rest);
        Vec::<RaiSlot>::round_trip(value.slots, (PublicKey::encoding(value.reporter) + (u64::encoding(value.epoch) + (Signature::encoding(value.signature)))) + rest);
        lemma_join(PublicKey::encoding(value.reporter), u64::encoding(value.epoch) + (Signature::encoding(value.signature)), rest);
        PublicKey::round_trip(value.reporter, (u64::encoding(value.epoch) + (Signature::encoding(value.signature))) + rest);
        lemma_join(u64::encoding(value.epoch), Signature::encoding(value.signature), rest);
        u64::round_trip(value.epoch, (Signature::encoding(value.signature)) + rest);
        Signature::round_trip(value.signature, rest);
    }

    proof fn canonical(bytes: Seq<u8>) {
        Vec::<RaiSlot>::canonical(bytes);
        let p0 = Vec::<RaiSlot>::parse(bytes)->Ok_0;
        PublicKey::canonical(p0.rest);
        let p1 = PublicKey::parse(p0.rest)->Ok_0;
        u64::canonical(p1.rest);
        let p2 = u64::parse(p1.rest)->Ok_0;
        Signature::canonical(p2.rest);
        let p3 = Signature::parse(p2.rest)->Ok_0;
        let value = Self::parse(bytes)->Ok_0.value;
        lemma_join(u64::encoding(value.epoch), Signature::encoding(value.signature), p3.rest);
        lemma_join(PublicKey::encoding(value.reporter), u64::encoding(value.epoch) + (Signature::encoding(value.signature)), p3.rest);
        lemma_join(Vec::<RaiSlot>::encoding(value.slots), PublicKey::encoding(value.reporter) + (u64::encoding(value.epoch) + (Signature::encoding(value.signature))), p3.rest);
    }
}

impl Codec for RaiCloseValueSnapshot {
    open spec fn encoding(value: StoredCloseValue) -> Seq<u8> {
        BlockHash::encoding(value.hash) + (Vec::<RaiSlot>::encoding(value.slots))
    }

    open spec fn parse(bytes: Seq<u8>) -> Result<Parsed<StoredCloseValue>, DecodeError> {
        match BlockHash::parse(bytes) {
            Err(error) => Err(error),
            Ok(p0) => {
                match Vec::<RaiSlot>::parse(p0.rest) {
                    Err(error) => Err(error),
                    Ok(p1) => {
                        Ok(Parsed { value: StoredCloseValue { hash: p0.value, slots: p1.value }, rest: p1.rest })
                    },
                }
            },
        }
    }

    open spec fn fits(value: StoredCloseValue) -> bool {
        &&& BlockHash::fits(value.hash)
        &&& Vec::<RaiSlot>::fits(value.slots)
    }

    fn write(&self, out: &mut Vec<u8>) {
        let ghost before = out@;
        self.hash.write(out);
        self.slots.write(out);
        proof {
            assert(self.slots.deep_view() =~= self.slots@);
            assert(out@ =~= before + Self::encoding(self.deep_view()));
        }
    }

    fn read(reader: &mut Reader<'_>) -> (r: Result<Self, DecodeError>) {
        let hash = match BlockHash::read(reader) {
            Ok(value) => value,
            Err(error) => return Err(error),
        };
        let slots = match Vec::<RaiSlot>::read(reader) {
            Ok(value) => value,
            Err(error) => return Err(error),
        };
        proof {
            assert(slots.deep_view() =~= slots@);
        }
        Ok(RaiCloseValueSnapshot { hash, slots })
    }

    proof fn round_trip(value: StoredCloseValue, rest: Seq<u8>) {
        lemma_join(BlockHash::encoding(value.hash), Vec::<RaiSlot>::encoding(value.slots), rest);
        BlockHash::round_trip(value.hash, (Vec::<RaiSlot>::encoding(value.slots)) + rest);
        Vec::<RaiSlot>::round_trip(value.slots, rest);
    }

    proof fn canonical(bytes: Seq<u8>) {
        BlockHash::canonical(bytes);
        let p0 = BlockHash::parse(bytes)->Ok_0;
        Vec::<RaiSlot>::canonical(p0.rest);
        let p1 = Vec::<RaiSlot>::parse(p0.rest)->Ok_0;
        let value = Self::parse(bytes)->Ok_0.value;
        lemma_join(BlockHash::encoding(value.hash), Vec::<RaiSlot>::encoding(value.slots), p1.rest);
    }
}

impl Codec for RaiTallySnapshot {
    open spec fn encoding(value: StoredTally) -> Seq<u8> {
        RaiElectionValue::encoding(value.value) + (Vec::<usize>::encoding(value.per_committee))
    }

    open spec fn parse(bytes: Seq<u8>) -> Result<Parsed<StoredTally>, DecodeError> {
        match RaiElectionValue::parse(bytes) {
            Err(error) => Err(error),
            Ok(p0) => {
                match Vec::<usize>::parse(p0.rest) {
                    Err(error) => Err(error),
                    Ok(p1) => {
                        Ok(Parsed { value: StoredTally { value: p0.value, per_committee: p1.value }, rest: p1.rest })
                    },
                }
            },
        }
    }

    open spec fn fits(value: StoredTally) -> bool {
        &&& RaiElectionValue::fits(value.value)
        &&& Vec::<usize>::fits(value.per_committee)
    }

    fn write(&self, out: &mut Vec<u8>) {
        let ghost before = out@;
        self.value.write(out);
        self.per_committee.write(out);
        proof {
            assert(self.per_committee.deep_view() =~= self.per_committee@);
            assert(out@ =~= before + Self::encoding(self.deep_view()));
        }
    }

    fn read(reader: &mut Reader<'_>) -> (r: Result<Self, DecodeError>) {
        let value = match RaiElectionValue::read(reader) {
            Ok(value) => value,
            Err(error) => return Err(error),
        };
        let per_committee = match Vec::<usize>::read(reader) {
            Ok(value) => value,
            Err(error) => return Err(error),
        };
        proof {
            assert(per_committee.deep_view() =~= per_committee@);
        }
        Ok(RaiTallySnapshot { value, per_committee })
    }

    proof fn round_trip(value: StoredTally, rest: Seq<u8>) {
        lemma_join(RaiElectionValue::encoding(value.value), Vec::<usize>::encoding(value.per_committee), rest);
        RaiElectionValue::round_trip(value.value, (Vec::<usize>::encoding(value.per_committee)) + rest);
        Vec::<usize>::round_trip(value.per_committee, rest);
    }

    proof fn canonical(bytes: Seq<u8>) {
        RaiElectionValue::canonical(bytes);
        let p0 = RaiElectionValue::parse(bytes)->Ok_0;
        Vec::<usize>::canonical(p0.rest);
        let p1 = Vec::<usize>::parse(p0.rest)->Ok_0;
        let value = Self::parse(bytes)->Ok_0.value;
        lemma_join(RaiElectionValue::encoding(value.value), Vec::<usize>::encoding(value.per_committee), p1.rest);
    }
}

impl Codec for RaiCommitteeThresholds {
    open spec fn encoding(value: RaiCommitteeThresholds) -> Seq<u8> {
        usize::encoding(value.size) + (usize::encoding(value.max_faulty) + (usize::encoding(value.max_offline) + (usize::encoding(value.notarization) + (usize::encoding(value.fast) + (usize::encoding(value.finalization))))))
    }

    open spec fn parse(bytes: Seq<u8>) -> Result<Parsed<RaiCommitteeThresholds>, DecodeError> {
        match usize::parse(bytes) {
            Err(error) => Err(error),
            Ok(p0) => {
                match usize::parse(p0.rest) {
                    Err(error) => Err(error),
                    Ok(p1) => {
                        match usize::parse(p1.rest) {
                            Err(error) => Err(error),
                            Ok(p2) => {
                                match usize::parse(p2.rest) {
                                    Err(error) => Err(error),
                                    Ok(p3) => {
                                        match usize::parse(p3.rest) {
                                            Err(error) => Err(error),
                                            Ok(p4) => {
                                                match usize::parse(p4.rest) {
                                                    Err(error) => Err(error),
                                                    Ok(p5) => {
                                                        Ok(Parsed { value: RaiCommitteeThresholds { size: p0.value, max_faulty: p1.value, max_offline: p2.value, notarization: p3.value, fast: p4.value, finalization: p5.value }, rest: p5.rest })
                                                    },
                                                }
                                            },
                                        }
                                    },
                                }
                            },
                        }
                    },
                }
            },
        }
    }

    open spec fn fits(value: RaiCommitteeThresholds) -> bool {
        &&& usize::fits(value.size)
        &&& usize::fits(value.max_faulty)
        &&& usize::fits(value.max_offline)
        &&& usize::fits(value.notarization)
        &&& usize::fits(value.fast)
        &&& usize::fits(value.finalization)
    }

    fn write(&self, out: &mut Vec<u8>) {
        let ghost before = out@;
        self.size.write(out);
        let ghost b1 = out@;
        self.max_faulty.write(out);
        let ghost b2 = out@;
        self.max_offline.write(out);
        let ghost b3 = out@;
        self.notarization.write(out);
        let ghost b4 = out@;
        self.fast.write(out);
        self.finalization.write(out);
        proof {
            let value = self.deep_view();
            lemma_join(b4, usize::encoding(value.fast), usize::encoding(value.finalization));
            lemma_join(b3, usize::encoding(value.notarization), usize::encoding(value.fast) + (usize::encoding(value.finalization)));
            lemma_join(b2, usize::encoding(value.max_offline), usize::encoding(value.notarization) + (usize::encoding(value.fast) + (usize::encoding(value.finalization))));
            lemma_join(b1, usize::encoding(value.max_faulty), usize::encoding(value.max_offline) + (usize::encoding(value.notarization) + (usize::encoding(value.fast) + (usize::encoding(value.finalization)))));
            lemma_join(before, usize::encoding(value.size), usize::encoding(value.max_faulty) + (usize::encoding(value.max_offline) + (usize::encoding(value.notarization) + (usize::encoding(value.fast) + (usize::encoding(value.finalization))))));
        }
    }

    fn read(reader: &mut Reader<'_>) -> (r: Result<Self, DecodeError>) {
        let size = match usize::read(reader) {
            Ok(value) => value,
            Err(error) => return Err(error),
        };
        let max_faulty = match usize::read(reader) {
            Ok(value) => value,
            Err(error) => return Err(error),
        };
        let max_offline = match usize::read(reader) {
            Ok(value) => value,
            Err(error) => return Err(error),
        };
        let notarization = match usize::read(reader) {
            Ok(value) => value,
            Err(error) => return Err(error),
        };
        let fast = match usize::read(reader) {
            Ok(value) => value,
            Err(error) => return Err(error),
        };
        let finalization = match usize::read(reader) {
            Ok(value) => value,
            Err(error) => return Err(error),
        };
        Ok(RaiCommitteeThresholds { size, max_faulty, max_offline, notarization, fast, finalization })
    }

    proof fn round_trip(value: RaiCommitteeThresholds, rest: Seq<u8>) {
        lemma_join(usize::encoding(value.size), usize::encoding(value.max_faulty) + (usize::encoding(value.max_offline) + (usize::encoding(value.notarization) + (usize::encoding(value.fast) + (usize::encoding(value.finalization))))), rest);
        usize::round_trip(value.size, (usize::encoding(value.max_faulty) + (usize::encoding(value.max_offline) + (usize::encoding(value.notarization) + (usize::encoding(value.fast) + (usize::encoding(value.finalization)))))) + rest);
        lemma_join(usize::encoding(value.max_faulty), usize::encoding(value.max_offline) + (usize::encoding(value.notarization) + (usize::encoding(value.fast) + (usize::encoding(value.finalization)))), rest);
        usize::round_trip(value.max_faulty, (usize::encoding(value.max_offline) + (usize::encoding(value.notarization) + (usize::encoding(value.fast) + (usize::encoding(value.finalization))))) + rest);
        lemma_join(usize::encoding(value.max_offline), usize::encoding(value.notarization) + (usize::encoding(value.fast) + (usize::encoding(value.finalization))), rest);
        usize::round_trip(value.max_offline, (usize::encoding(value.notarization) + (usize::encoding(value.fast) + (usize::encoding(value.finalization)))) + rest);
        lemma_join(usize::encoding(value.notarization), usize::encoding(value.fast) + (usize::encoding(value.finalization)), rest);
        usize::round_trip(value.notarization, (usize::encoding(value.fast) + (usize::encoding(value.finalization))) + rest);
        lemma_join(usize::encoding(value.fast), usize::encoding(value.finalization), rest);
        usize::round_trip(value.fast, (usize::encoding(value.finalization)) + rest);
        usize::round_trip(value.finalization, rest);
    }

    proof fn canonical(bytes: Seq<u8>) {
        usize::canonical(bytes);
        let p0 = usize::parse(bytes)->Ok_0;
        usize::canonical(p0.rest);
        let p1 = usize::parse(p0.rest)->Ok_0;
        usize::canonical(p1.rest);
        let p2 = usize::parse(p1.rest)->Ok_0;
        usize::canonical(p2.rest);
        let p3 = usize::parse(p2.rest)->Ok_0;
        usize::canonical(p3.rest);
        let p4 = usize::parse(p3.rest)->Ok_0;
        usize::canonical(p4.rest);
        let p5 = usize::parse(p4.rest)->Ok_0;
        let value = Self::parse(bytes)->Ok_0.value;
        lemma_join(usize::encoding(value.fast), usize::encoding(value.finalization), p5.rest);
        lemma_join(usize::encoding(value.notarization), usize::encoding(value.fast) + (usize::encoding(value.finalization)), p5.rest);
        lemma_join(usize::encoding(value.max_offline), usize::encoding(value.notarization) + (usize::encoding(value.fast) + (usize::encoding(value.finalization))), p5.rest);
        lemma_join(usize::encoding(value.max_faulty), usize::encoding(value.max_offline) + (usize::encoding(value.notarization) + (usize::encoding(value.fast) + (usize::encoding(value.finalization)))), p5.rest);
        lemma_join(usize::encoding(value.size), usize::encoding(value.max_faulty) + (usize::encoding(value.max_offline) + (usize::encoding(value.notarization) + (usize::encoding(value.fast) + (usize::encoding(value.finalization))))), p5.rest);
    }
}

impl Codec for RaiCommitteeMember {
    open spec fn encoding(value: RaiCommitteeMember) -> Seq<u8> {
        PublicKey::encoding(value.account) + (Amount::encoding(value.balance))
    }

    open spec fn parse(bytes: Seq<u8>) -> Result<Parsed<RaiCommitteeMember>, DecodeError> {
        match PublicKey::parse(bytes) {
            Err(error) => Err(error),
            Ok(p0) => {
                match Amount::parse(p0.rest) {
                    Err(error) => Err(error),
                    Ok(p1) => {
                        Ok(Parsed { value: RaiCommitteeMember { account: p0.value, balance: p1.value }, rest: p1.rest })
                    },
                }
            },
        }
    }

    open spec fn fits(value: RaiCommitteeMember) -> bool {
        &&& PublicKey::fits(value.account)
        &&& Amount::fits(value.balance)
    }

    fn write(&self, out: &mut Vec<u8>) {
        let ghost before = out@;
        self.account.write(out);
        self.balance.write(out);
        proof {
            assert(out@ =~= before + Self::encoding(self.deep_view()));
        }
    }

    fn read(reader: &mut Reader<'_>) -> (r: Result<Self, DecodeError>) {
        let account = match PublicKey::read(reader) {
            Ok(value) => value,
            Err(error) => return Err(error),
        };
        let balance = match Amount::read(reader) {
            Ok(value) => value,
            Err(error) => return Err(error),
        };
        Ok(RaiCommitteeMember { account, balance })
    }

    proof fn round_trip(value: RaiCommitteeMember, rest: Seq<u8>) {
        lemma_join(PublicKey::encoding(value.account), Amount::encoding(value.balance), rest);
        PublicKey::round_trip(value.account, (Amount::encoding(value.balance)) + rest);
        Amount::round_trip(value.balance, rest);
    }

    proof fn canonical(bytes: Seq<u8>) {
        PublicKey::canonical(bytes);
        let p0 = PublicKey::parse(bytes)->Ok_0;
        Amount::canonical(p0.rest);
        let p1 = Amount::parse(p0.rest)->Ok_0;
        let value = Self::parse(bytes)->Ok_0.value;
        lemma_join(PublicKey::encoding(value.account), Amount::encoding(value.balance), p1.rest);
    }
}

impl Codec for RaiCommitteeSnapshot {
    open spec fn encoding(value: Membership) -> Seq<u8> {
        RaiCommitteeThresholds::encoding(value.thresholds) + (Vec::<RaiCommitteeMember>::encoding(value.members))
    }

    open spec fn parse(bytes: Seq<u8>) -> Result<Parsed<Membership>, DecodeError> {
        match RaiCommitteeThresholds::parse(bytes) {
            Err(error) => Err(error),
            Ok(p0) => {
                match Vec::<RaiCommitteeMember>::parse(p0.rest) {
                    Err(error) => Err(error),
                    Ok(p1) => {
                        Ok(Parsed { value: Membership { thresholds: p0.value, members: p1.value }, rest: p1.rest })
                    },
                }
            },
        }
    }

    open spec fn fits(value: Membership) -> bool {
        &&& RaiCommitteeThresholds::fits(value.thresholds)
        &&& Vec::<RaiCommitteeMember>::fits(value.members)
    }

    fn write(&self, out: &mut Vec<u8>) {
        let ghost before = out@;
        self.thresholds.write(out);
        self.members.write(out);
        proof {
            assert(self.members.deep_view() =~= self.members@);
            assert(out@ =~= before + Self::encoding(self.deep_view()));
        }
    }

    fn read(reader: &mut Reader<'_>) -> (r: Result<Self, DecodeError>) {
        let thresholds = match RaiCommitteeThresholds::read(reader) {
            Ok(value) => value,
            Err(error) => return Err(error),
        };
        let members = match Vec::<RaiCommitteeMember>::read(reader) {
            Ok(value) => value,
            Err(error) => return Err(error),
        };
        proof {
            assert(members.deep_view() =~= members@);
        }
        Ok(RaiCommitteeSnapshot { thresholds, members })
    }

    proof fn round_trip(value: Membership, rest: Seq<u8>) {
        lemma_join(RaiCommitteeThresholds::encoding(value.thresholds), Vec::<RaiCommitteeMember>::encoding(value.members), rest);
        RaiCommitteeThresholds::round_trip(value.thresholds, (Vec::<RaiCommitteeMember>::encoding(value.members)) + rest);
        Vec::<RaiCommitteeMember>::round_trip(value.members, rest);
    }

    proof fn canonical(bytes: Seq<u8>) {
        RaiCommitteeThresholds::canonical(bytes);
        let p0 = RaiCommitteeThresholds::parse(bytes)->Ok_0;
        Vec::<RaiCommitteeMember>::canonical(p0.rest);
        let p1 = Vec::<RaiCommitteeMember>::parse(p0.rest)->Ok_0;
        let value = Self::parse(bytes)->Ok_0.value;
        lemma_join(RaiCommitteeThresholds::encoding(value.thresholds), Vec::<RaiCommitteeMember>::encoding(value.members), p1.rest);
    }
}

/// A closed slot as it is stored: with the value that its election decided for.
#[derive(Clone, Copy, Debug, PartialEq, Eq, Structural)]
pub struct RaiClosedSlotSnapshot {
    pub slot: RaiSlot,
    pub outcome: RaiElectionValue,
}

impl DeepView for RaiClosedSlotSnapshot {
    type V = RaiClosedSlotSnapshot;

    open spec fn deep_view(&self) -> RaiClosedSlotSnapshot {
        *self
    }
}

impl Codec for RaiClosedSlotSnapshot {
    open spec fn encoding(value: RaiClosedSlotSnapshot) -> Seq<u8> {
        RaiSlot::encoding(value.slot) + (RaiElectionValue::encoding(value.outcome))
    }

    open spec fn parse(bytes: Seq<u8>) -> Result<Parsed<RaiClosedSlotSnapshot>, DecodeError> {
        match RaiSlot::parse(bytes) {
            Err(error) => Err(error),
            Ok(p0) => {
                match RaiElectionValue::parse(p0.rest) {
                    Err(error) => Err(error),
                    Ok(p1) => {
                        Ok(Parsed { value: RaiClosedSlotSnapshot { slot: p0.value, outcome: p1.value }, rest: p1.rest })
                    },
                }
            },
        }
    }

    open spec fn fits(value: RaiClosedSlotSnapshot) -> bool {
        &&& RaiSlot::fits(value.slot)
        &&& RaiElectionValue::fits(value.outcome)
    }

    fn write(&self, out: &mut Vec<u8>) {
        let ghost before = out@;
        self.slot.write(out);
        self.outcome.write(out);
        proof {
            assert(out@ =~= before + Self::encoding(self.deep_view()));
        }
    }

    fn read(reader: &mut Reader<'_>) -> (r: Result<Self, DecodeError>) {
        let slot = match RaiSlot::read(reader) {
            Ok(value) => value,
            Err(error) => return Err(error),
        };
        let outcome = match RaiElectionValue::read(reader) {
            Ok(value) => value,
            Err(error) => return Err(error),
        };
        Ok(RaiClosedSlotSnapshot { slot, outcome })
    }

    proof fn round_trip(value: RaiClosedSlotSnapshot, rest: Seq<u8>) {
        lemma_join(RaiSlot::encoding(value.slot), RaiElectionValue::encoding(value.outcome), rest);
        RaiSlot::round_trip(value.slot, (RaiElectionValue::encoding(value.outcome)) + rest);
        RaiElectionValue::round_trip(value.outcome, rest);
    }

    proof fn canonical(bytes: Seq<u8>) {
        RaiSlot::canonical(bytes);
        let p0 = RaiSlot::parse(bytes)->Ok_0;
        RaiElectionValue::canonical(p0.rest);
        let p1 = RaiElectionValue::parse(p0.rest)->Ok_0;
        let value = Self::parse(bytes)->Ok_0.value;
        lemma_join(RaiSlot::encoding(value.slot), RaiElectionValue::encoding(value.outcome), p1.rest);
    }
}

/// One epoch as it is stored.
#[derive(Debug, PartialEq, Eq)]
pub struct RaiCloseEpochSnapshot {
    pub epoch: RaiEpoch,
    pub phase: RaiEpochPhase,
    pub pending_reports: Vec<RaiPendingReport>,
    pub visible_slots: Vec<RaiSlot>,
    pub close_values: Vec<RaiCloseValueSnapshot>,
    pub started_close_attempts: Vec<RaiCloseAttempt>,
    pub processed_close_attempts: Vec<RaiCloseAttempt>,
    pub cut_set: Option<Vec<RaiSlot>>,
    pub closed_slots: Vec<RaiClosedSlotSnapshot>,
}

/// The model of a stored epoch.
#[verifier::ext_equal]
pub struct StoredEpoch {
    pub epoch: RaiEpoch,
    pub phase: RaiEpochPhase,
    pub pending_reports: Seq<PendingReport>,
    pub visible_slots: Seq<RaiSlot>,
    pub close_values: Seq<StoredCloseValue>,
    pub started_close_attempts: Seq<RaiCloseAttempt>,
    pub processed_close_attempts: Seq<RaiCloseAttempt>,
    pub cut_set: Option<Seq<RaiSlot>>,
    pub closed_slots: Seq<RaiClosedSlotSnapshot>,
}

impl DeepView for RaiCloseEpochSnapshot {
    type V = StoredEpoch;

    open spec fn deep_view(&self) -> StoredEpoch {
        StoredEpoch {
            epoch: self.epoch.deep_view(),
            phase: self.phase.deep_view(),
            pending_reports: self.pending_reports.deep_view(),
            visible_slots: self.visible_slots.deep_view(),
            close_values: self.close_values.deep_view(),
            started_close_attempts: self.started_close_attempts.deep_view(),
            processed_close_attempts: self.processed_close_attempts.deep_view(),
            cut_set: self.cut_set.deep_view(),
            closed_slots: self.closed_slots.deep_view(),
        }
    }
}

impl Codec for RaiCloseEpochSnapshot {
    open spec fn encoding(value: StoredEpoch) -> Seq<u8> {
        u64::encoding(value.epoch) + (RaiEpochPhase::encoding(value.phase) + (Vec::<RaiPendingReport>::encoding(value.pending_reports) + (Vec::<RaiSlot>::encoding(value.visible_slots) + (Vec::<RaiCloseValueSnapshot>::encoding(value.close_values) + (Vec::<u64>::encoding(value.started_close_attempts) + (Vec::<u64>::encoding(value.processed_close_attempts) + (Option::<Vec<RaiSlot>>::encoding(value.cut_set) + (Vec::<RaiClosedSlotSnapshot>::encoding(value.closed_slots)))))))))
    }

    open spec fn parse(bytes: Seq<u8>) -> Result<Parsed<StoredEpoch>, DecodeError> {
        match u64::parse(bytes) {
            Err(error) => Err(error),
            Ok(p0) => {
                match RaiEpochPhase::parse(p0.rest) {
                    Err(error) => Err(error),
                    Ok(p1) => {
                        match Vec::<RaiPendingReport>::parse(p1.rest) {
                            Err(error) => Err(error),
                            Ok(p2) => {
                                match Vec::<RaiSlot>::parse(p2.rest) {
                                    Err(error) => Err(error),
                                    Ok(p3) => {
                                        match Vec::<RaiCloseValueSnapshot>::parse(p3.rest) {
                                            Err(error) => Err(error),
                                            Ok(p4) => {
                                                match Vec::<u64>::parse(p4.rest) {
                                                    Err(error) => Err(error),
                                                    Ok(p5) => {
                                                        match Vec::<u64>::parse(p5.rest) {
                                                            Err(error) => Err(error),
                                                            Ok(p6) => {
                                                                match Option::<Vec<RaiSlot>>::parse(p6.rest) {
                                                                    Err(error) => Err(error),
                                                                    Ok(p7) => {
                                                                        match Vec::<RaiClosedSlotSnapshot>::parse(p7.rest) {
                                                                            Err(error) => Err(error),
                                                                            Ok(p8) => {
                                                                                Ok(Parsed { value: StoredEpoch { epoch: p0.value, phase: p1.value, pending_reports: p2.value, visible_slots: p3.value, close_values: p4.value, started_close_attempts: p5.value, processed_close_attempts: p6.value, cut_set: p7.value, closed_slots: p8.value }, rest: p8.rest })
                                                                            },
                                                                        }
                                                                    },
                                                                }
                                                            },
                                                        }
                                                    },
                                                }
                                            },
                                        }
                                    },
                                }
                            },
                        }
                    },
                }
            },
        }
    }

    open spec fn fits(value: StoredEpoch) -> bool {
        &&& u64::fits(value.epoch)
        &&& RaiEpochPhase::fits(value.phase)
        &&& Vec::<RaiPendingReport>::fits(value.pending_reports)
        &&& Vec::<RaiSlot>::fits(value.visible_slots)
        &&& Vec::<RaiCloseValueSnapshot>::fits(value.close_values)
        &&& Vec::<u64>::fits(value.started_close_attempts)
        &&& Vec::<u64>::fits(value.processed_close_attempts)
        &&& Option::<Vec<RaiSlot>>::fits(value.cut_set)
        &&& Vec::<RaiClosedSlotSnapshot>::fits(value.closed_slots)
    }

    fn write(&self, out: &mut Vec<u8>) {
        let ghost before = out@;
        self.epoch.write(out);
        let ghost b1 = out@;
        self.phase.write(out);
        let ghost b2 = out@;
        self.pending_reports.write(out);
        let ghost b3 = out@;
        self.visible_slots.write(out);
        let ghost b4 = out@;
        self.close_values.write(out);
        let ghost b5 = out@;
        self.started_close_attempts.write(out);
        let ghost b6 = out@;
        self.processed_close_attempts.write(out);
        let ghost b7 = out@;
        self.cut_set.write(out);
        self.closed_slots.write(out);
        proof {
            let value = self.deep_view();
            lemma_join(b7, Option::<Vec<RaiSlot>>::encoding(value.cut_set), Vec::<RaiClosedSlotSnapshot>::encoding(value.closed_slots));
            lemma_join(b6, Vec::<u64>::encoding(value.processed_close_attempts), Option::<Vec<RaiSlot>>::encoding(value.cut_set) + (Vec::<RaiClosedSlotSnapshot>::encoding(value.closed_slots)));
            lemma_join(b5, Vec::<u64>::encoding(value.started_close_attempts), Vec::<u64>::encoding(value.processed_close_attempts) + (Option::<Vec<RaiSlot>>::encoding(value.cut_set) + (Vec::<RaiClosedSlotSnapshot>::encoding(value.closed_slots))));
            lemma_join(b4, Vec::<RaiCloseValueSnapshot>::encoding(value.close_values), Vec::<u64>::encoding(value.started_close_attempts) + (Vec::<u64>::encoding(value.processed_close_attempts) + (Option::<Vec<RaiSlot>>::encoding(value.cut_set) + (Vec::<RaiClosedSlotSnapshot>::encoding(value.closed_slots)))));
            lemma_join(b3, Vec::<RaiSlot>::encoding(value.visible_slots), Vec::<RaiCloseValueSnapshot>::encoding(value.close_values) + (Vec::<u64>::encoding(value.started_close_attempts) + (Vec::<u64>::encoding(value.processed_close_attempts) + (Option::<Vec<RaiSlot>>::encoding(value.cut_set) + (Vec::<RaiClosedSlotSnapshot>::encoding(value.closed_slots))))));
            lemma_join(b2, Vec::<RaiPendingReport>::encoding(value.pending_reports), Vec::<RaiSlot>::encoding(value.visible_slots) + (Vec::<RaiCloseValueSnapshot>::encoding(value.close_values) + (Vec::<u64>::encoding(value.started_close_attempts) + (Vec::<u64>::encoding(value.processed_close_attempts) + (Option::<Vec<RaiSlot>>::encoding(value.cut_set) + (Vec::<RaiClosedSlotSnapshot>::encoding(value.closed_slots)))))));
            lemma_join(b1, RaiEpochPhase::encoding(value.phase), Vec::<RaiPendingReport>::encoding(value.pending_reports) + (Vec::<RaiSlot>::encoding(value.visible_slots) + (Vec::<RaiCloseValueSnapshot>::encoding(value.close_values) + (Vec::<u64>::encoding(value.started_close_attempts) + (Vec::<u64>::encoding(value.processed_close_attempts) + (Option::<Vec<RaiSlot>>::encoding(value.cut_set) + (Vec::<RaiClosedSlotSnapshot>::encoding(value.closed_slots))))))));
            lemma_join(before, u64::encoding(value.epoch), RaiEpochPhase::encoding(value.phase) + (Vec::<RaiPendingReport>::encoding(value.pending_reports) + (Vec::<RaiSlot>::encoding(value.visible_slots) + (Vec::<RaiCloseValueSnapshot>::encoding(value.close_values) + (Vec::<u64>::encoding(value.started_close_attempts) + (Vec::<u64>::encoding(value.processed_close_attempts) + (Option::<Vec<RaiSlot>>::encoding(value.cut_set) + (Vec::<RaiClosedSlotSnapshot>::encoding(value.closed_slots)))))))));
        }
    }

    fn read(reader: &mut Reader<'_>) -> (r: Result<Self, DecodeError>) {
        let epoch = match u64::read(reader) {
            Ok(value) => value,
            Err(error) => return Err(error),
        };
        let phase = match RaiEpochPhase::read(reader) {
            Ok(value) => value,
            Err(error) => return Err(error),
        };
        let pending_reports = match Vec::<RaiPendingReport>::read(reader) {
            Ok(value) => value,
            Err(error) => return Err(error),
        };
        let visible_slots = match Vec::<RaiSlot>::read(reader) {
            Ok(value) => value,
            Err(error) => return Err(error),
        };
        let close_values = match Vec::<RaiCloseValueSnapshot>::read(reader) {
            Ok(value) => value,
            Err(error) => return Err(error),
        };
        let started_close_attempts = match Vec::<u64>::read(reader) {
            Ok(value) => value,
            Err(error) => return Err(error),
        };
        let processed_close_attempts = match Vec::<u64>::read(reader) {
            Ok(value) => value,
            Err(error) => return Err(error),
        };
        let cut_set = match Option::<Vec<RaiSlot>>::read(reader) {
            Ok(value) => value,
            Err(error) => return Err(error),
        };
        let closed_slots = match Vec::<RaiClosedSlotSnapshot>::read(reader) {
            Ok(value) => value,
            Err(error) => return Err(error),
        };
        Ok(RaiCloseEpochSnapshot { epoch, phase, pending_reports, visible_slots, close_values, started_close_attempts, processed_close_attempts, cut_set, closed_slots })
    }

    proof fn round_trip(value: StoredEpoch, rest: Seq<u8>) {
        lemma_join(u64::encoding(value.epoch), RaiEpochPhase::encoding(value.phase) + (Vec::<RaiPendingReport>::encoding(value.pending_reports) + (Vec::<RaiSlot>::encoding(value.visible_slots) + (Vec::<RaiCloseValueSnapshot>::encoding(value.close_values) + (Vec::<u64>::encoding(value.started_close_attempts) + (Vec::<u64>::encoding(value.processed_close_attempts) + (Option::<Vec<RaiSlot>>::encoding(value.cut_set) + (Vec::<RaiClosedSlotSnapshot>::encoding(value.closed_slots)))))))), rest);
        u64::round_trip(value.epoch, (RaiEpochPhase::encoding(value.phase) + (Vec::<RaiPendingReport>::encoding(value.pending_reports) + (Vec::<RaiSlot>::encoding(value.visible_slots) + (Vec::<RaiCloseValueSnapshot>::encoding(value.close_values) + (Vec::<u64>::encoding(value.started_close_attempts) + (Vec::<u64>::encoding(value.processed_close_attempts) + (Option::<Vec<RaiSlot>>::encoding(value.cut_set) + (Vec::<RaiClosedSlotSnapshot>::encoding(value.closed_slots))))))))) + rest);
        lemma_join(RaiEpochPhase::encoding(value.phase), Vec::<RaiPendingReport>::encoding(value.pending_reports) + (Vec::<RaiSlot>::encoding(value.visible_slots) + (Vec::<RaiCloseValueSnapshot>::encoding(value.close_values) + (Vec::<u64>::encoding(value.started_close_attempts) + (Vec::<u64>::encoding(value.processed_close_attempts) + (Option::<Vec<RaiSlot>>::encoding(value.cut_set) + (Vec::<RaiClosedSlotSnapshot>::encoding(value.closed_slots))))))), rest);
        RaiEpochPhase::round_trip(value.phase, (Vec::<RaiPendingReport>::encoding(value.pending_reports) + (Vec::<RaiSlot>::encoding(value.visible_slots) + (Vec::<RaiCloseValueSnapshot>::encoding(value.close_values) + (Vec::<u64>::encoding(value.started_close_attempts) + (Vec::<u64>::encoding(value.processed_close_attempts) + (Option::<Vec<RaiSlot>>::encoding(value.cut_set) + (Vec::<RaiClosedSlotSnapshot>::encoding(value.closed_slots)))))))) + rest);
        lemma_join(Vec::<RaiPendingReport>::encoding(value.pending_reports), Vec::<RaiSlot>::encoding(value.visible_slots) + (Vec::<RaiCloseValueSnapshot>::encoding(value.close_values) + (Vec::<u64>::encoding(value.started_close_attempts) + (Vec::<u64>::encoding(value.processed_close_attempts) + (Option::<Vec<RaiSlot>>::encoding(value.cut_set) + (Vec::<RaiClosedSlotSnapshot>::encoding(value.closed_slots)))))), rest);
        Vec::<RaiPendingReport>::round_trip(value.pending_reports, (Vec::<RaiSlot>::encoding(value.visible_slots) + (Vec::<RaiCloseValueSnapshot>::encoding(value.close_values) + (Vec::<u64>::encoding(value.started_close_attempts) + (Vec::<u64>::encoding(value.processed_close_attempts) + (Option::<Vec<RaiSlot>>::encoding(value.cut_set) + (Vec::<RaiClosedSlotSnapshot>::encoding(value.closed_slots))))))) + rest);
        lemma_join(Vec::<RaiSlot>::encoding(value.visible_slots), Vec::<RaiCloseValueSnapshot>::encoding(value.close_values) + (Vec::<u64>::encoding(value.started_close_attempts) + (Vec::<u64>::encoding(value.processed_close_attempts) + (Option::<Vec<RaiSlot>>::encoding(value.cut_set) + (Vec::<RaiClosedSlotSnapshot>::encoding(value.closed_slots))))), rest);
        Vec::<RaiSlot>::round_trip(value.visible_slots, (Vec::<RaiCloseValueSnapshot>::encoding(value.close_values) + (Vec::<u64>::encoding(value.started_close_attempts) + (Vec::<u64>::encoding(value.processed_close_attempts) + (Option::<Vec<RaiSlot>>::encoding(value.cut_set) + (Vec::<RaiClosedSlotSnapshot>::encoding(value.closed_slots)))))) + rest);
        lemma_join(Vec::<RaiCloseValueSnapshot>::encoding(value.close_values), Vec::<u64>::encoding(value.started_close_attempts) + (Vec::<u64>::encoding(value.processed_close_attempts) + (Option::<Vec<RaiSlot>>::encoding(value.cut_set) + (Vec::<RaiClosedSlotSnapshot>::encoding(value.closed_slots)))), rest);
        Vec::<RaiCloseValueSnapshot>::round_trip(value.close_values, (Vec::<u64>::encoding(value.started_close_attempts) + (Vec::<u64>::encoding(value.processed_close_attempts) + (Option::<Vec<RaiSlot>>::encoding(value.cut_set) + (Vec::<RaiClosedSlotSnapshot>::encoding(value.closed_slots))))) + rest);
        lemma_join(Vec::<u64>::encoding(value.started_close_attempts), Vec::<u64>::encoding(value.processed_close_attempts) + (Option::<Vec<RaiSlot>>::encoding(value.cut_set) + (Vec::<RaiClosedSlotSnapshot>::encoding(value.closed_slots))), rest);
        Vec::<u64>::round_trip(value.started_close_attempts, (Vec::<u64>::encoding(value.processed_close_attempts) + (Option::<Vec<RaiSlot>>::encoding(value.cut_set) + (Vec::<RaiClosedSlotSnapshot>::encoding(value.closed_slots)))) + rest);
        lemma_join(Vec::<u64>::encoding(value.processed_close_attempts), Option::<Vec<RaiSlot>>::encoding(value.cut_set) + (Vec::<RaiClosedSlotSnapshot>::encoding(value.closed_slots)), rest);
        Vec::<u64>::round_trip(value.processed_close_attempts, (Option::<Vec<RaiSlot>>::encoding(value.cut_set) + (Vec::<RaiClosedSlotSnapshot>::encoding(value.closed_slots))) + rest);
        lemma_join(Option::<Vec<RaiSlot>>::encoding(value.cut_set), Vec::<RaiClosedSlotSnapshot>::encoding(value.closed_slots), rest);
        Option::<Vec<RaiSlot>>::round_trip(value.cut_set, (Vec::<RaiClosedSlotSnapshot>::encoding(value.closed_slots)) + rest);
        Vec::<RaiClosedSlotSnapshot>::round_trip(value.closed_slots, rest);
    }

    proof fn canonical(bytes: Seq<u8>) {
        u64::canonical(bytes);
        let p0 = u64::parse(bytes)->Ok_0;
        RaiEpochPhase::canonical(p0.rest);
        let p1 = RaiEpochPhase::parse(p0.rest)->Ok_0;
        Vec::<RaiPendingReport>::canonical(p1.rest);
        let p2 = Vec::<RaiPendingReport>::parse(p1.rest)->Ok_0;
        Vec::<RaiSlot>::canonical(p2.rest);
        let p3 = Vec::<RaiSlot>::parse(p2.rest)->Ok_0;
        Vec::<RaiCloseValueSnapshot>::canonical(p3.rest);
        let p4 = Vec::<RaiCloseValueSnapshot>::parse(p3.rest)->Ok_0;
        Vec::<u64>::canonical(p4.rest);
        let p5 = Vec::<u64>::parse(p4.rest)->Ok_0;
        Vec::<u64>::canonical(p5.rest);
        let p6 = Vec::<u64>::parse(p5.rest)->Ok_0;
        Option::<Vec<RaiSlot>>::canonical(p6.rest);
        let p7 = Option::<Vec<RaiSlot>>::parse(p6.rest)->Ok_0;
        Vec::<RaiClosedSlotSnapshot>::canonical(p7.rest);
        let p8 = Vec::<RaiClosedSlotSnapshot>::parse(p7.rest)->Ok_0;
        let value = Self::parse(bytes)->Ok_0.value;
        lemma_join(Option::<Vec<RaiSlot>>::encoding(value.cut_set), Vec::<RaiClosedSlotSnapshot>::encoding(value.closed_slots), p8.rest);
        lemma_join(Vec::<u64>::encoding(value.processed_close_attempts), Option::<Vec<RaiSlot>>::encoding(value.cut_set) + (Vec::<RaiClosedSlotSnapshot>::encoding(value.closed_slots)), p8.rest);
        lemma_join(Vec::<u64>::encoding(value.started_close_attempts), Vec::<u64>::encoding(value.processed_close_attempts) + (Option::<Vec<RaiSlot>>::encoding(value.cut_set) + (Vec::<RaiClosedSlotSnapshot>::encoding(value.closed_slots))), p8.rest);
        lemma_join(Vec::<RaiCloseValueSnapshot>::encoding(value.close_values), Vec::<u64>::encoding(value.started_close_attempts) + (Vec::<u64>::encoding(value.processed_close_attempts) + (Option::<Vec<RaiSlot>>::encoding(value.cut_set) + (Vec::<RaiClosedSlotSnapshot>::encoding(value.closed_slots)))), p8.rest);
        lemma_join(Vec::<RaiSlot>::encoding(value.visible_slots), Vec::<RaiCloseValueSnapshot>::encoding(value.close_values) + (Vec::<u64>::encoding(value.started_close_attempts) + (Vec::<u64>::encoding(value.processed_close_attempts) + (Option::<Vec<RaiSlot>>::encoding(value.cut_set) + (Vec::<RaiClosedSlotSnapshot>::encoding(value.closed_slots))))), p8.rest);
        lemma_join(Vec::<RaiPendingReport>::encoding(value.pending_reports), Vec::<RaiSlot>::encoding(value.visible_slots) + (Vec::<RaiCloseValueSnapshot>::encoding(value.close_values) + (Vec::<u64>::encoding(value.started_close_attempts) + (Vec::<u64>::encoding(value.processed_close_attempts) + (Option::<Vec<RaiSlot>>::encoding(value.cut_set) + (Vec::<RaiClosedSlotSnapshot>::encoding(value.closed_slots)))))), p8.rest);
        lemma_join(RaiEpochPhase::encoding(value.phase), Vec::<RaiPendingReport>::encoding(value.pending_reports) + (Vec::<RaiSlot>::encoding(value.visible_slots) + (Vec::<RaiCloseValueSnapshot>::encoding(value.close_values) + (Vec::<u64>::encoding(value.started_close_attempts) + (Vec::<u64>::encoding(value.processed_close_attempts) + (Option::<Vec<RaiSlot>>::encoding(value.cut_set) + (Vec::<RaiClosedSlotSnapshot>::encoding(value.closed_slots))))))), p8.rest);
        lemma_join(u64::encoding(value.epoch), RaiEpochPhase::encoding(value.phase) + (Vec::<RaiPendingReport>::encoding(value.pending_reports) + (Vec::<RaiSlot>::encoding(value.visible_slots) + (Vec::<RaiCloseValueSnapshot>::encoding(value.close_values) + (Vec::<u64>::encoding(value.started_close_attempts) + (Vec::<u64>::encoding(value.processed_close_attempts) + (Option::<Vec<RaiSlot>>::encoding(value.cut_set) + (Vec::<RaiClosedSlotSnapshot>::encoding(value.closed_slots)))))))), p8.rest);
    }
}

/// All epochs as they are stored.
#[derive(Debug, PartialEq, Eq)]
pub struct RaiCloseStateSnapshot {
    pub current_epoch: RaiEpoch,
    pub epochs: Vec<RaiCloseEpochSnapshot>,
}

/// The model of all stored epochs.
#[verifier::ext_equal]
pub struct StoredState {
    pub current_epoch: RaiEpoch,
    pub epochs: Seq<StoredEpoch>,
}

impl DeepView for RaiCloseStateSnapshot {
    type V = StoredState;

    open spec fn deep_view(&self) -> StoredState {
        StoredState {
            current_epoch: self.current_epoch.deep_view(),
            epochs: self.epochs.deep_view(),
        }
    }
}

impl Codec for RaiCloseStateSnapshot {
    open spec fn encoding(value: StoredState) -> Seq<u8> {
        u64::encoding(value.current_epoch) + (Vec::<RaiCloseEpochSnapshot>::encoding(value.epochs))
    }

    open spec fn parse(bytes: Seq<u8>) -> Result<Parsed<StoredState>, DecodeError> {
        match u64::parse(bytes) {
            Err(error) => Err(error),
            Ok(p0) => {
                match Vec::<RaiCloseEpochSnapshot>::parse(p0.rest) {
                    Err(error) => Err(error),
                    Ok(p1) => {
                        Ok(Parsed { value: StoredState { current_epoch: p0.value, epochs: p1.value }, rest: p1.rest })
                    },
                }
            },
        }
    }

    open spec fn fits(value: StoredState) -> bool {
        &&& u64::fits(value.current_epoch)
        &&& Vec::<RaiCloseEpochSnapshot>::fits(value.epochs)
    }

    fn write(&self, out: &mut Vec<u8>) {
        let ghost before = out@;
        self.current_epoch.write(out);
        self.epochs.write(out);
        proof {
            assert(out@ =~= before + Self::encoding(self.deep_view()));
        }
    }

    fn read(reader: &mut Reader<'_>) -> (r: Result<Self, DecodeError>) {
        let current_epoch = match u64::read(reader) {
            Ok(value) => value,
            Err(error) => return Err(error),
        };
        let epochs = match Vec::<RaiCloseEpochSnapshot>::read(reader) {
            Ok(value) => value,
            Err(error) => return Err(error),
        };
        Ok(RaiCloseStateSnapshot { current_epoch, epochs })
    }

    proof fn round_trip(value: StoredState, rest: Seq<u8>) {
        lemma_join(u64::encoding(value.current_epoch), Vec::<RaiCloseEpochSnapshot>::encoding(value.epochs), rest);
        u64::round_trip(value.current_epoch, (Vec::<RaiCloseEpochSnapshot>::encoding(value.epochs)) + rest);
        Vec::<RaiCloseEpochSnapshot>::round_trip(value.epochs, rest);
    }

    proof fn canonical(bytes: Seq<u8>) {
        u64::canonical(bytes);
        let p0 = u64::parse(bytes)->Ok_0;
        Vec::<RaiCloseEpochSnapshot>::canonical(p0.rest);
        let p1 = Vec::<RaiCloseEpochSnapshot>::parse(p0.rest)->Ok_0;
        let value = Self::parse(bytes)->Ok_0.value;
        lemma_join(u64::encoding(value.current_epoch), Vec::<RaiCloseEpochSnapshot>::encoding(value.epochs), p1.rest);
    }
}

/// A vote as it is stored.
#[derive(Clone, Copy, Debug, PartialEq, Eq, Structural)]
pub struct RaiVoteSummary {
    pub voter: PublicKey,
    pub kind: RaiVoteKind,
    pub value: RaiElectionValue,
    pub committee_votes: usize,
}

impl DeepView for RaiVoteSummary {
    type V = RaiVoteSummary;

    open spec fn deep_view(&self) -> RaiVoteSummary {
        *self
    }
}

impl Codec for RaiVoteSummary {
    open spec fn encoding(value: RaiVoteSummary) -> Seq<u8> {
        PublicKey::encoding(value.voter) + (RaiVoteKind::encoding(value.kind) + (RaiElectionValue::encoding(value.value) + (usize::encoding(value.committee_votes))))
    }

    open spec fn parse(bytes: Seq<u8>) -> Result<Parsed<RaiVoteSummary>, DecodeError> {
        match PublicKey::parse(bytes) {
            Err(error) => Err(error),
            Ok(p0) => {
                match RaiVoteKind::parse(p0.rest) {
                    Err(error) => Err(error),
                    Ok(p1) => {
                        match RaiElectionValue::parse(p1.rest) {
                            Err(error) => Err(error),
                            Ok(p2) => {
                                match usize::parse(p2.rest) {
                                    Err(error) => Err(error),
                                    Ok(p3) => {
                                        Ok(Parsed { value: RaiVoteSummary { voter: p0.value, kind: p1.value, value: p2.value, committee_votes: p3.value }, rest: p3.rest })
                                    },
                                }
                            },
                        }
                    },
                }
            },
        }
    }

    open spec fn fits(value: RaiVoteSummary) -> bool {
        &&& PublicKey::fits(value.voter)
        &&& RaiVoteKind::fits(value.kind)
        &&& RaiElectionValue::fits(value.value)
        &&& usize::fits(value.committee_votes)
    }

    fn write(&self, out: &mut Vec<u8>) {
        let ghost before = out@;
        self.voter.write(out);
        self.kind.write(out);
        self.value.write(out);
        self.committee_votes.write(out);
        proof {
            assert(out@ =~= before + Self::encoding(self.deep_view()));
        }
    }

    fn read(reader: &mut Reader<'_>) -> (r: Result<Self, DecodeError>) {
        let voter = match PublicKey::read(reader) {
            Ok(value) => value,
            Err(error) => return Err(error),
        };
        let kind = match RaiVoteKind::read(reader) {
            Ok(value) => value,
            Err(error) => return Err(error),
        };
        let value = match RaiElectionValue::read(reader) {
            Ok(value) => value,
            Err(error) => return Err(error),
        };
        let committee_votes = match usize::read(reader) {
            Ok(value) => value,
            Err(error) => return Err(error),
        };
        Ok(RaiVoteSummary { voter, kind, value, committee_votes })
    }

    proof fn round_trip(value: RaiVoteSummary, rest: Seq<u8>) {
        lemma_join(PublicKey::encoding(value.voter), RaiVoteKind::encoding(value.kind) + (RaiElectionValue::encoding(value.value) + (usize::encoding(value.committee_votes))), rest);
        PublicKey::round_trip(value.voter, (RaiVoteKind::encoding(value.kind) + (RaiElectionValue::encoding(value.value) + (usize::encoding(value.committee_votes)))) + rest);
        lemma_join(RaiVoteKind::encoding(value.kind), RaiElectionValue::encoding(value.value) + (usize::encoding(value.committee_votes)), rest);
        RaiVoteKind::round_trip(value.kind, (RaiElectionValue::encoding(value.value) + (usize::encoding(value.committee_votes))) + rest);
        lemma_join(RaiElectionValue::encoding(value.value), usize::encoding(value.committee_votes), rest);
        RaiElectionValue::round_trip(value.value, (usize::encoding(value.committee_votes)) + rest);
        usize::round_trip(value.committee_votes, rest);
    }

    proof fn canonical(bytes: Seq<u8>) {
        PublicKey::canonical(bytes);
        let p0 = PublicKey::parse(bytes)->Ok_0;
        RaiVoteKind::canonical(p0.rest);
        let p1 = RaiVoteKind::parse(p0.rest)->Ok_0;
        RaiElectionValue::canonical(p1.rest);
        let p2 = RaiElectionValue::parse(p1.rest)->Ok_0;
        usize::canonical(p2.rest);
        let p3 = usize::parse(p2.rest)->Ok_0;
        let value = Self::parse(bytes)->Ok_0.value;
        lemma_join(RaiElectionValue::encoding(value.value), usize::encoding(value.committee_votes), p3.rest);
        lemma_join(RaiVoteKind::encoding(value.kind), RaiElectionValue::encoding(value.value) + (usize::encoding(value.committee_votes)), p3.rest);
        lemma_join(PublicKey::encoding(value.voter), RaiVoteKind::encoding(value.kind) + (RaiElectionValue::encoding(value.value) + (usize::encoding(value.committee_votes))), p3.rest);
    }
}

/// An election as it is stored.
#[derive(Debug, PartialEq, Eq)]
pub struct RaiElectionSnapshot {
    pub id: RaiElectionId,
    pub status: RaiElectionStatus,
    pub votes: Vec<RaiVoteSummary>,
    pub tallies: Vec<RaiTallySnapshot>,
    pub final_tallies: Vec<RaiTallySnapshot>,
    pub winner: Option<RaiElectionValue>,
    pub confirmed_value: Option<RaiElectionValue>,
}

/// The model of a stored election.
#[verifier::ext_equal]
pub struct StoredElection {
    pub id: RaiElectionId,
    pub status: RaiElectionStatus,
    pub votes: Seq<RaiVoteSummary>,
    pub tallies: Seq<StoredTally>,
    pub final_tallies: Seq<StoredTally>,
    pub winner: Option<RaiElectionValue>,
    pub confirmed_value: Option<RaiElectionValue>,
}

impl DeepView for RaiElectionSnapshot {
    type V = StoredElection;

    open spec fn deep_view(&self) -> StoredElection {
        StoredElection {
            id: self.id.deep_view(),
            status: self.status.deep_view(),
            votes: self.votes.deep_view(),
            tallies: self.tallies.deep_view(),
            final_tallies: self.final_tallies.deep_view(),
            winner: self.winner.deep_view(),
            confirmed_value: self.confirmed_value.deep_view(),
        }
    }
}

impl Codec for RaiElectionSnapshot {
    open spec fn encoding(value: StoredElection) -> Seq<u8> {
        RaiElectionId::encoding(value.id) + (RaiElectionStatus::encoding(value.status) + (Vec::<RaiVoteSummary>::encoding(value.votes) + (Vec::<RaiTallySnapshot>::encoding(value.tallies) + (Vec::<RaiTallySnapshot>::encoding(value.final_tallies) + (Option::<RaiElectionValue>::encoding(value.winner) + (Option::<RaiElectionValue>::encoding(value.confirmed_value)))))))
    }

    open spec fn parse(bytes: Seq<u8>) -> Result<Parsed<StoredElection>, DecodeError> {
        match RaiElectionId::parse(bytes) {
            Err(error) => Err(error),
            Ok(p0) => {
                match RaiElectionStatus::parse(p0.rest) {
                    Err(error) => Err(error),
                    Ok(p1) => {
                        match Vec::<RaiVoteSummary>::parse(p1.rest) {
                            Err(error) => Err(error),
                            Ok(p2) => {
                                match Vec::<RaiTallySnapshot>::parse(p2.rest) {
                                    Err(error) => Err(error),
                                    Ok(p3) => {
                                        match Vec::<RaiTallySnapshot>::parse(p3.rest) {
                                            Err(error) => Err(error),
                                            Ok(p4) => {
                                                match Option::<RaiElectionValue>::parse(p4.rest) {
                                                    Err(error) => Err(error),
                                                    Ok(p5) => {
                                                        match Option::<RaiElectionValue>::parse(p5.rest) {
                                                            Err(error) => Err(error),
                                                            Ok(p6) => {
                                                                Ok(Parsed { value: StoredElection { id: p0.value, status: p1.value, votes: p2.value, tallies: p3.value, final_tallies: p4.value, winner: p5.value, confirmed_value: p6.value }, rest: p6.rest })
                                                            },
                                                        }
                                                    },
                                                }
                                            },
                                        }
                                    },
                                }
                            },
                        }
                    },
                }
            },
        }
    }

    open spec fn fits(value: StoredElection) -> bool {
        &&& RaiElectionId::fits(value.id)
        &&& RaiElectionStatus::fits(value.status)
        &&& Vec::<RaiVoteSummary>::fits(value.votes)
        &&& Vec::<RaiTallySnapshot>::fits(value.tallies)
        &&& Vec::<RaiTallySnapshot>::fits(value.final_tallies)
        &&& Option::<RaiElectionValue>::fits(value.winner)
        &&& Option::<RaiElectionValue>::fits(value.confirmed_value)
    }

    fn write(&self, out: &mut Vec<u8>) {
        let ghost before = out@;
        self.id.write(out);
        let ghost b1 = out@;
        self.status.write(out);
        let ghost b2 = out@;
        self.votes.write(out);
        let ghost b3 = out@;
        self.tallies.write(out);
        let ghost b4 = out@;
        self.final_tallies.write(out);
        let ghost b5 = out@;
        self.winner.write(out);
        self.confirmed_value.write(out);
        proof {
            let value = self.deep_view();
            lemma_join(b5, Option::<RaiElectionValue>::encoding(value.winner), Option::<RaiElectionValue>::encoding(value.confirmed_value));
            lemma_join(b4, Vec::<RaiTallySnapshot>::encoding(value.final_tallies), Option::<RaiElectionValue>::encoding(value.winner) + (Option::<RaiElectionValue>::encoding(value.confirmed_value)));
            lemma_join(b3, Vec::<RaiTallySnapshot>::encoding(value.tallies), Vec::<RaiTallySnapshot>::encoding(value.final_tallies) + (Option::<RaiElectionValue>::encoding(value.winner) + (Option::<RaiElectionValue>::encoding(value.confirmed_value))));
            lemma_join(b2, Vec::<RaiVoteSummary>::encoding(value.votes), Vec::<RaiTallySnapshot>::encoding(value.tallies) + (Vec::<RaiTallySnapshot>::encoding(value.final_tallies) + (Option::<RaiElectionValue>::encoding(value.winner) + (Option::<RaiElectionValue>::encoding(value.confirmed_value)))));
            lemma_join(b1, RaiElectionStatus::encoding(value.status), Vec::<RaiVoteSummary>::encoding(value.votes) + (Vec::<RaiTallySnapshot>::encoding(value.tallies) + (Vec::<RaiTallySnapshot>::encoding(value.final_tallies) + (Option::<RaiElectionValue>::encoding(value.winner) + (Option::<RaiElectionValue>::encoding(value.confirmed_value))))));
            lemma_join(before, RaiElectionId::encoding(value.id), RaiElectionStatus::encoding(value.status) + (Vec::<RaiVoteSummary>::encoding(value.votes) + (Vec::<RaiTallySnapshot>::encoding(value.tallies) + (Vec::<RaiTallySnapshot>::encoding(value.final_tallies) + (Option::<RaiElectionValue>::encoding(value.winner) + (Option::<RaiElectionValue>::encoding(value.confirmed_value)))))));
        }
    }

    fn read(reader: &mut Reader<'_>) -> (r: Result<Self, DecodeError>) {
        let id = match RaiElectionId::read(reader) {
            Ok(value) => value,
            Err(error) => return Err(error),
        };
        let status = match RaiElectionStatus::read(reader) {
            Ok(value) => value,
            Err(error) => return Err(error),
        };
        let votes = match Vec::<RaiVoteSummary>::read(reader) {
            Ok(value) => value,
            Err(error) => return Err(error),
        };
        let tallies = match Vec::<RaiTallySnapshot>::read(reader) {
            Ok(value) => value,
            Err(error) => return Err(error),
        };
        let final_tallies = match Vec::<RaiTallySnapshot>::read(reader) {
            Ok(value) => value,
            Err(error) => return Err(error),
        };
        let winner = match Option::<RaiElectionValue>::read(reader) {
            Ok(value) => value,
            Err(error) => return Err(error),
        };
        let confirmed_value = match Option::<RaiElectionValue>::read(reader) {
            Ok(value) => value,
            Err(error) => return Err(error),
        };
        Ok(RaiElectionSnapshot { id, status, votes, tallies, final_tallies, winner, confirmed_value })
    }

    proof fn round_trip(value: StoredElection, rest: Seq<u8>) {
        lemma_join(RaiElectionId::encoding(value.id), RaiElectionStatus::encoding(value.status) + (Vec::<RaiVoteSummary>::encoding(value.votes) + (Vec::<RaiTallySnapshot>::encoding(value.tallies) + (Vec::<RaiTallySnapshot>::encoding(value.final_tallies) + (Option::<RaiElectionValue>::encoding(value.winner) + (Option::<RaiElectionValue>::encoding(value.confirmed_value)))))), rest);
        RaiElectionId::round_trip(value.id, (RaiElectionStatus::encoding(value.status) + (Vec::<RaiVoteSummary>::encoding(value.votes) + (Vec::<RaiTallySnapshot>::encoding(value.tallies) + (Vec::<RaiTallySnapshot>::encoding(value.final_tallies) + (Option::<RaiElectionValue>::encoding(value.winner) + (Option::<RaiElectionValue>::encoding(value.confirmed_value))))))) + rest);
        lemma_join(RaiElectionStatus::encoding(value.status), Vec::<RaiVoteSummary>::encoding(value.votes) + (Vec::<RaiTallySnapshot>::encoding(value.tallies) + (Vec::<RaiTallySnapshot>::encoding(value.final_tallies) + (Option::<RaiElectionValue>::encoding(value.winner) + (Option::<RaiElectionValue>::encoding(value.confirmed_value))))), rest);
        RaiElectionStatus::round_trip(value.status, (Vec::<RaiVoteSummary>::encoding(value.votes) + (Vec::<RaiTallySnapshot>::encoding(value.tallies) + (Vec::<RaiTallySnapshot>::encoding(value.final_tallies) + (Option::<RaiElectionValue>::encoding(value.winner) + (Option::<RaiElectionValue>::encoding(value.confirmed_value)))))) + rest);
        lemma_join(Vec::<RaiVoteSummary>::encoding(value.votes), Vec::<RaiTallySnapshot>::encoding(value.tallies) + (Vec::<RaiTallySnapshot>::encoding(value.final_tallies) + (Option::<RaiElectionValue>::encoding(value.winner) + (Option::<RaiElectionValue>::encoding(value.confirmed_value)))), rest);
        Vec::<RaiVoteSummary>::round_trip(value.votes, (Vec::<RaiTallySnapshot>::encoding(value.tallies) + (Vec::<RaiTallySnapshot>::encoding(value.final_tallies) + (Option::<RaiElectionValue>::encoding(value.winner) + (Option::<RaiElectionValue>::encoding(value.confirmed_value))))) + rest);
        lemma_join(Vec::<RaiTallySnapshot>::encoding(value.tallies), Vec::<RaiTallySnapshot>::encoding(value.final_tallies) + (Option::<RaiElectionValue>::encoding(value.winner) + (Option::<RaiElectionValue>::encoding(value.confirmed_value))), rest);
        Vec::<RaiTallySnapshot>::round_trip(value.tallies, (Vec::<RaiTallySnapshot>::encoding(value.final_tallies) + (Option::<RaiElectionValue>::encoding(value.winner) + (Option::<RaiElectionValue>::encoding(value.confirmed_value)))) + rest);
        lemma_join(Vec::<RaiTallySnapshot>::encoding(value.final_tallies), Option::<RaiElectionValue>::encoding(value.winner) + (Option::<RaiElectionValue>::encoding(value.confirmed_value)), rest);
        Vec::<RaiTallySnapshot>::round_trip(value.final_tallies, (Option::<RaiElectionValue>::encoding(value.winner) + (Option::<RaiElectionValue>::encoding(value.confirmed_value))) + rest);
        lemma_join(Option::<RaiElectionValue>::encoding(value.winner), Option::<RaiElectionValue>::encoding(value.confirmed_value), rest);
        Option::<RaiElectionValue>::round_trip(value.winner, (Option::<RaiElectionValue>::encoding(value.confirmed_value)) + rest);
        Option::<RaiElectionValue>::round_trip(value.confirmed_value, rest);
    }

    proof fn canonical(bytes: Seq<u8>) {
        RaiElectionId::canonical(bytes);
        let p0 = RaiElectionId::parse(bytes)->Ok_0;
        RaiElectionStatus::canonical(p0.rest);
        let p1 = RaiElectionStatus::parse(p0.rest)->Ok_0;
        Vec::<RaiVoteSummary>::canonical(p1.rest);
        let p2 = Vec::<RaiVoteSummary>::parse(p1.rest)->Ok_0;
        Vec::<RaiTallySnapshot>::canonical(p2.rest);
        let p3 = Vec::<RaiTallySnapshot>::parse(p2.rest)->Ok_0;
        Vec::<RaiTallySnapshot>::canonical(p3.rest);
        let p4 = Vec::<RaiTallySnapshot>::parse(p3.rest)->Ok_0;
        Option::<RaiElectionValue>::canonical(p4.rest);
        let p5 = Option::<RaiElectionValue>::parse(p4.rest)->Ok_0;
        Option::<RaiElectionValue>::canonical(p5.rest);
        let p6 = Option::<RaiElectionValue>::parse(p5.rest)->Ok_0;
        let value = Self::parse(bytes)->Ok_0.value;
        lemma_join(Option::<RaiElectionValue>::encoding(value.winner), Option::<RaiElectionValue>::encoding(value.confirmed_value), p6.rest);
        lemma_join(Vec::<RaiTallySnapshot>::encoding(value.final_tallies), Option::<RaiElectionValue>::encoding(value.winner) + (Option::<RaiElectionValue>::encoding(value.confirmed_value)), p6.rest);
        lemma_join(Vec::<RaiTallySnapshot>::encoding(value.tallies), Vec::<RaiTallySnapshot>::encoding(value.final_tallies) + (Option::<RaiElectionValue>::encoding(value.winner) + (Option::<RaiElectionValue>::encoding(value.confirmed_value))), p6.rest);
        lemma_join(Vec::<RaiVoteSummary>::encoding(value.votes), Vec::<RaiTallySnapshot>::encoding(value.tallies) + (Vec::<RaiTallySnapshot>::encoding(value.final_tallies) + (Option::<RaiElectionValue>::encoding(value.winner) + (Option::<RaiElectionValue>::encoding(value.confirmed_value)))), p6.rest);
        lemma_join(RaiElectionStatus::encoding(value.status), Vec::<RaiVoteSummary>::encoding(value.votes) + (Vec::<RaiTallySnapshot>::encoding(value.tallies) + (Vec::<RaiTallySnapshot>::encoding(value.final_tallies) + (Option::<RaiElectionValue>::encoding(value.winner) + (Option::<RaiElectionValue>::encoding(value.confirmed_value))))), p6.rest);
        lemma_join(RaiElectionId::encoding(value.id), RaiElectionStatus::encoding(value.status) + (Vec::<RaiVoteSummary>::encoding(value.votes) + (Vec::<RaiTallySnapshot>::encoding(value.tallies) + (Vec::<RaiTallySnapshot>::encoding(value.final_tallies) + (Option::<RaiElectionValue>::encoding(value.winner) + (Option::<RaiElectionValue>::encoding(value.confirmed_value)))))), p6.rest);
    }
}

/// All elections as they are stored.
#[derive(Debug, PartialEq, Eq)]
pub struct RaiActiveElectionsSnapshot {
    pub elections: Vec<RaiElectionSnapshot>,
}

/// The model of all stored elections.
#[verifier::ext_equal]
pub struct StoredElections {
    pub elections: Seq<StoredElection>,
}

impl DeepView for RaiActiveElectionsSnapshot {
    type V = StoredElections;

    open spec fn deep_view(&self) -> StoredElections {
        StoredElections {
            elections: self.elections.deep_view(),
        }
    }
}

impl Codec for RaiActiveElectionsSnapshot {
    open spec fn encoding(value: StoredElections) -> Seq<u8> {
        Vec::<RaiElectionSnapshot>::encoding(value.elections)
    }

    open spec fn parse(bytes: Seq<u8>) -> Result<Parsed<StoredElections>, DecodeError> {
        match Vec::<RaiElectionSnapshot>::parse(bytes) {
            Err(error) => Err(error),
            Ok(p0) => {
                Ok(Parsed { value: StoredElections { elections: p0.value }, rest: p0.rest })
            },
        }
    }

    open spec fn fits(value: StoredElections) -> bool {
        &&& Vec::<RaiElectionSnapshot>::fits(value.elections)
    }

    fn write(&self, out: &mut Vec<u8>) {
        let ghost before = out@;
        self.elections.write(out);
        proof {
            assert(out@ =~= before + Self::encoding(self.deep_view()));
        }
    }

    fn read(reader: &mut Reader<'_>) -> (r: Result<Self, DecodeError>) {
        let elections = match Vec::<RaiElectionSnapshot>::read(reader) {
            Ok(value) => value,
            Err(error) => return Err(error),
        };
        Ok(RaiActiveElectionsSnapshot { elections })
    }

    proof fn round_trip(value: StoredElections, rest: Seq<u8>) {
        Vec::<RaiElectionSnapshot>::round_trip(value.elections, rest);
    }

    proof fn canonical(bytes: Seq<u8>) {
        Vec::<RaiElectionSnapshot>::canonical(bytes);
        let p0 = Vec::<RaiElectionSnapshot>::parse(bytes)->Ok_0;
        let value = Self::parse(bytes)->Ok_0.value;
    }
}

/// The committee that a closed epoch fixed.
#[derive(Debug, PartialEq, Eq)]
pub struct RaiEpochCommittee {
    pub epoch: RaiEpoch,
    pub committee: RaiCommitteeSnapshot,
}

/// The model of the committee of an epoch.
#[verifier::ext_equal]
pub struct EpochCommittee {
    pub epoch: RaiEpoch,
    pub committee: Membership,
}

impl DeepView for RaiEpochCommittee {
    type V = EpochCommittee;

    open spec fn deep_view(&self) -> EpochCommittee {
        EpochCommittee {
            epoch: self.epoch.deep_view(),
            committee: self.committee.deep_view(),
        }
    }
}

impl Codec for RaiEpochCommittee {
    open spec fn encoding(value: EpochCommittee) -> Seq<u8> {
        u64::encoding(value.epoch) + (RaiCommitteeSnapshot::encoding(value.committee))
    }

    open spec fn parse(bytes: Seq<u8>) -> Result<Parsed<EpochCommittee>, DecodeError> {
        match u64::parse(bytes) {
            Err(error) => Err(error),
            Ok(p0) => {
                match RaiCommitteeSnapshot::parse(p0.rest) {
                    Err(error) => Err(error),
                    Ok(p1) => {
                        Ok(Parsed { value: EpochCommittee { epoch: p0.value, committee: p1.value }, rest: p1.rest })
                    },
                }
            },
        }
    }

    open spec fn fits(value: EpochCommittee) -> bool {
        &&& u64::fits(value.epoch)
        &&& RaiCommitteeSnapshot::fits(value.committee)
    }

    fn write(&self, out: &mut Vec<u8>) {
        let ghost before = out@;
        self.epoch.write(out);
        self.committee.write(out);
        proof {
            assert(out@ =~= before + Self::encoding(self.deep_view()));
        }
    }

    fn read(reader: &mut Reader<'_>) -> (r: Result<Self, DecodeError>) {
        let epoch = match u64::read(reader) {
            Ok(value) => value,
            Err(error) => return Err(error),
        };
        let committee = match RaiCommitteeSnapshot::read(reader) {
            Ok(value) => value,
            Err(error) => return Err(error),
        };
        Ok(RaiEpochCommittee { epoch, committee })
    }

    proof fn round_trip(value: EpochCommittee, rest: Seq<u8>) {
        lemma_join(u64::encoding(value.epoch), RaiCommitteeSnapshot::encoding(value.committee), rest);
        u64::round_trip(value.epoch, (RaiCommitteeSnapshot::encoding(value.committee)) + rest);
        RaiCommitteeSnapshot::round_trip(value.committee, rest);
    }

    proof fn canonical(bytes: Seq<u8>) {
        u64::canonical(bytes);
        let p0 = u64::parse(bytes)->Ok_0;
        RaiCommitteeSnapshot::canonical(p0.rest);
        let p1 = RaiCommitteeSnapshot::parse(p0.rest)->Ok_0;
        let value = Self::parse(bytes)->Ok_0.value;
        lemma_join(u64::encoding(value.epoch), RaiCommitteeSnapshot::encoding(value.committee), p1.rest);
    }
}

/// The committees that closed epochs fixed.
#[derive(Debug, PartialEq, Eq)]
pub struct RaiEpochCommittees {
    pub committees: Vec<RaiEpochCommittee>,
}

/// The model of the committees of epochs.
#[verifier::ext_equal]
pub struct EpochCommittees {
    pub committees: Seq<EpochCommittee>,
}

impl DeepView for RaiEpochCommittees {
    type V = EpochCommittees;

    open spec fn deep_view(&self) -> EpochCommittees {
        EpochCommittees {
            committees: self.committees.deep_view(),
        }
    }
}

impl Codec for RaiEpochCommittees {
    open spec fn encoding(value: EpochCommittees) -> Seq<u8> {
        Vec::<RaiEpochCommittee>::encoding(value.committees)
    }

    open spec fn parse(bytes: Seq<u8>) -> Result<Parsed<EpochCommittees>, DecodeError> {
        match Vec::<RaiEpochCommittee>::parse(bytes) {
            Err(error) => Err(error),
            Ok(p0) => {
                Ok(Parsed { value: EpochCommittees { committees: p0.value }, rest: p0.rest })
            },
        }
    }

    open spec fn fits(value: EpochCommittees) -> bool {
        &&& Vec::<RaiEpochCommittee>::fits(value.committees)
    }

    fn write(&self, out: &mut Vec<u8>) {
        let ghost before = out@;
        self.committees.write(out);
        proof {
            assert(out@ =~= before + Self::encoding(self.deep_view()));
        }
    }

    fn read(reader: &mut Reader<'_>) -> (r: Result<Self, DecodeError>) {
        let committees = match Vec::<RaiEpochCommittee>::read(reader) {
            Ok(value) => value,
            Err(error) => return Err(error),
        };
        Ok(RaiEpochCommittees { committees })
    }

    proof fn round_trip(value: EpochCommittees, rest: Seq<u8>) {
        Vec::<RaiEpochCommittee>::round_trip(value.committees, rest);
    }

    proof fn canonical(bytes: Seq<u8>) {
        Vec::<RaiEpochCommittee>::canonical(bytes);
        let p0 = Vec::<RaiEpochCommittee>::parse(bytes)->Ok_0;
        let value = Self::parse(bytes)->Ok_0.value;
    }
}

/// The version, then the value.
pub open spec fn stored_bytes<T: Codec>(value: T::V) -> Seq<u8> {
    u8::encoding(SNAPSHOT_VERSION) + T::encoding(value)
}

/// The value that bytes hold, or why they hold none.
pub open spec fn restored<T: Codec>(bytes: Seq<u8>) -> Result<T::V, DecodeError> {
    match u8::parse(bytes) {
        Err(error) => Err(error),
        Ok(version) => if version.value != SNAPSHOT_VERSION {
            Err(DecodeError::InvalidData)
        } else {
            match T::parse(version.rest) {
                Err(error) => Err(error),
                Ok(parsed) => if parsed.rest.len() > 0 {
                    Err(DecodeError::TooMuchData)
                } else {
                    Ok(parsed.value)
                },
            }
        },
    }
}

/// What was stored is read back.
pub proof fn stored_value_round_trip<T: Codec>(value: T::V)
    requires
        T::fits(value),
    ensures
        restored::<T>(stored_bytes::<T>(value)) == Ok::<_, DecodeError>(value),
{
    u8::round_trip(SNAPSHOT_VERSION, T::encoding(value));
    T::round_trip(value, Seq::empty());
    assert(T::encoding(value) + Seq::<u8>::empty() =~= T::encoding(value));
}

/// Only what is stored is read: bytes that are read are the bytes of the value.
pub proof fn stored_value_is_canonical<T: Codec>(bytes: Seq<u8>)
    requires
        restored::<T>(bytes) is Ok,
    ensures
        bytes == stored_bytes::<T>(restored::<T>(bytes)->Ok_0),
{
    u8::canonical(bytes);
    let version = u8::parse(bytes)->Ok_0;
    T::canonical(version.rest);
    let parsed = T::parse(version.rest)->Ok_0;
    assert(parsed.rest =~= Seq::empty());
    assert(T::encoding(parsed.value) + parsed.rest =~= T::encoding(parsed.value));
}

fn serialize<T: Codec>(value: &T) -> (r: Vec<u8>)
    ensures
        r@ == stored_bytes::<T>(value.deep_view()),
        T::fits(value.deep_view()),
{
    let mut bytes: Vec<u8> = Vec::new();
    write_version(&mut bytes);
    value.write(&mut bytes);
    proof {
        assert(bytes@ =~= stored_bytes::<T>(value.deep_view()));
    }
    bytes
}

fn deserialize<T: Codec>(bytes: &Vec<u8>) -> (r: Result<T, DecodeError>)
    ensures
        match r {
            Ok(value) => restored::<T>(bytes@) == Ok::<_, DecodeError>(value.deep_view()),
            Err(error) => restored::<T>(bytes@) == Err::<T::V, _>(error),
        },
{
    let mut reader = Reader::new(bytes);
    if let Err(error) = read_version(&mut reader) {
        return Err(error);
    }
    match T::read(&mut reader) {
        Err(error) => Err(error),
        Ok(value) => match reader.expect_finished() {
            Err(error) => Err(error),
            Ok(_) => Ok(value),
        },
    }
}

pub fn serialize_close_state(snapshot: &RaiCloseStateSnapshot) -> (r: Vec<u8>)
    ensures
        r@ == stored_bytes::<RaiCloseStateSnapshot>(snapshot.deep_view()),
        RaiCloseStateSnapshot::fits(snapshot.deep_view()),
{
    serialize(snapshot)
}

pub fn deserialize_close_state(bytes: &Vec<u8>) -> (r: Result<RaiCloseStateSnapshot, DecodeError>)
    ensures
        match r {
            Ok(value) => restored::<RaiCloseStateSnapshot>(bytes@) == Ok::<_, DecodeError>(value.deep_view()),
            Err(error) => restored::<RaiCloseStateSnapshot>(bytes@) == Err::<StoredState, _>(error),
        },
{
    deserialize(bytes)
}

pub fn serialize_active_elections(snapshot: &RaiActiveElectionsSnapshot) -> (r: Vec<u8>)
    ensures
        r@ == stored_bytes::<RaiActiveElectionsSnapshot>(snapshot.deep_view()),
        RaiActiveElectionsSnapshot::fits(snapshot.deep_view()),
{
    serialize(snapshot)
}

pub fn deserialize_active_elections(bytes: &Vec<u8>) -> (r: Result<RaiActiveElectionsSnapshot, DecodeError>)
    ensures
        match r {
            Ok(value) => restored::<RaiActiveElectionsSnapshot>(bytes@) == Ok::<_, DecodeError>(value.deep_view()),
            Err(error) => restored::<RaiActiveElectionsSnapshot>(bytes@) == Err::<StoredElections, _>(error),
        },
{
    deserialize(bytes)
}

/// The committees of epochs in the order of the epochs.
pub open spec fn listed(committees: Map<RaiEpoch, Membership>) -> EpochCommittees {
    let pairs = pairs_of(committees);
    EpochCommittees {
        committees: Seq::new(pairs.len(), |i: int| EpochCommittee { epoch: pairs[i].0, committee: pairs[i].1 }),
    }
}

/// A stored committee with its members in account order.
pub open spec fn in_order(committee: Membership) -> Membership {
    Membership { members: stable_sorted(committee.members), ..committee }
}

/// The committees by their epoch; the last of one epoch counts.
pub open spec fn by_epoch(stored: EpochCommittees) -> Map<RaiEpoch, Membership> {
    map_of(
        Seq::new(
            stored.committees.len(),
            |i: int| (stored.committees[i].epoch, in_order(stored.committees[i].committee)),
        ),
    )
}

/// The bytes of the committees of epochs.
pub fn serialize_committees(committees: &SortedMap<RaiEpoch, RaiCommittee>) -> (r: Vec<u8>)
    ensures
        r@ == stored_bytes::<RaiEpochCommittees>(listed(committees@)),
        RaiEpochCommittees::fits(listed(committees@)),
{
    let mut all: Vec<RaiEpochCommittee> = Vec::new();
    let n: usize = committees.len();
    let ghost wanted = listed(committees@).committees;
    for i in 0..n
        invariant
            n == committees@.len(),
            n == wanted.len(),
            wanted == listed(committees@).committees,
            all@.len() == i,
            forall|j: int| 0 <= j < i ==> (#[trigger] all@[j]).deep_view() == wanted[j],
    {
        all.push(RaiEpochCommittee { epoch: committees.key_at(i), committee: committees.value_at(i).snapshot() });
    }
    proof {
        assert(all.deep_view() =~= wanted);
    }
    let snapshot = RaiEpochCommittees { committees: all };
    proof {
        assert(snapshot.deep_view() =~= listed(committees@));
    }
    serialize(&snapshot)
}

/// The committees of epochs that bytes hold; the last of one epoch counts.
pub fn deserialize_committees(bytes: &Vec<u8>) -> (r: Result<SortedMap<RaiEpoch, RaiCommittee>, DecodeError>)
    ensures
        match r {
            Ok(committees) => restored::<RaiEpochCommittees>(bytes@) is Ok && committees@ == by_epoch(
                restored::<RaiEpochCommittees>(bytes@)->Ok_0,
            ),
            Err(error) => restored::<RaiEpochCommittees>(bytes@) == Err::<EpochCommittees, _>(error),
        },
{
    let stored: RaiEpochCommittees = match deserialize(bytes) {
        Ok(stored) => stored,
        Err(error) => return Err(error),
    };
    let mut committees: SortedMap<RaiEpoch, RaiCommittee> = SortedMap::new();
    let ghost all = stored.deep_view();
    let ghost pairs = Seq::new(
        all.committees.len(),
        |i: int| (all.committees[i].epoch, in_order(all.committees[i].committee)),
    );
    for i in 0..stored.committees.len()
        invariant
            all == stored.deep_view(),
            pairs == Seq::new(
                all.committees.len(),
                |i: int| (all.committees[i].epoch, in_order(all.committees[i].committee)),
            ),
            committees@ == map_of(pairs.take(i as int)),
    {
        proof {
            assert(pairs.take(i + 1).drop_last() =~= pairs.take(i as int));
            assert(all.committees[i as int] == stored.committees@[i as int].deep_view());
        }
        let entry = &stored.committees[i];
        let committee = RaiCommittee::from_snapshot(copy_snapshot(&entry.committee));
        committees.insert(entry.epoch, committee);
    }
    proof {
        assert(pairs.take(pairs.len() as int) =~= pairs);
    }
    Ok(committees)
}

fn copy_snapshot(snapshot: &RaiCommitteeSnapshot) -> (r: RaiCommitteeSnapshot)
    ensures
        r.deep_view() == snapshot.deep_view(),
{
    RaiCommitteeSnapshot {
        members: copy_all(&snapshot.members),
        thresholds: snapshot.thresholds,
    }
}

/// The bytes of the stored committees with that of one more epoch. `stored` is
/// what was stored so far, if anything.
pub fn with_committee(stored: Option<Vec<u8>>, epoch: RaiEpoch, committee: RaiCommittee) -> (r: Result<
    Vec<u8>,
    DecodeError,
>)
    ensures
        ({
            let known = match stored {
                Some(bytes) => restored::<RaiEpochCommittees>(bytes@),
                None => Ok(EpochCommittees { committees: Seq::empty() }),
            };
            match r {
                Ok(bytes) => known is Ok && bytes@ == stored_bytes::<RaiEpochCommittees>(
                    listed(by_epoch(known->Ok_0).insert(epoch, committee@)),
                ),
                Err(error) => known == Err::<EpochCommittees, _>(error),
            }
        }),
{
    let mut committees: SortedMap<RaiEpoch, RaiCommittee> = SortedMap::new();
    match stored {
        Some(bytes) => match deserialize_committees(&bytes) {
            Ok(known) => {
                committees = known;
            },
            Err(error) => {
                return Err(error);
            },
        },
        None => {
            proof {
                assert(by_epoch(EpochCommittees { committees: Seq::empty() }) =~= Map::<RaiEpoch, Membership>::empty());
            }
        },
    }
    committees.insert(epoch, committee);
    Ok(serialize_committees(&committees))
}

/// What is stored of a node.
#[derive(Debug, PartialEq, Eq)]
pub struct RaiPersistedState {
    pub close_state: Option<RaiCloseStateSnapshot>,
    pub active_elections: Option<RaiActiveElectionsSnapshot>,
    pub committees: SortedMap<RaiEpoch, RaiCommittee>,
}

/// Why stored bytes hold no value; bytes that were not stored are no failure.
pub open spec fn failure<T: Codec>(bytes: Option<Vec<u8>>) -> Option<DecodeError> {
    match bytes {
        Some(bytes) => match restored::<T>(bytes@) {
            Ok(_) => None,
            Err(error) => Some(error),
        },
        None => None,
    }
}

/// Reads all that is stored of a node; what was not stored is absent.
pub fn load(close_state: Option<Vec<u8>>, active_elections: Option<Vec<u8>>, committees: Option<Vec<u8>>) -> (r: Result<
    RaiPersistedState,
    DecodeError,
>)
    ensures
        match r {
            Ok(state) => {
                &&& match close_state {
                    Some(bytes) => state.close_state is Some && restored::<RaiCloseStateSnapshot>(bytes@) == Ok::<
                        _,
                        DecodeError,
                    >(state.close_state->0.deep_view()),
                    None => state.close_state is None,
                }
                &&& match active_elections {
                    Some(bytes) => state.active_elections is Some && restored::<RaiActiveElectionsSnapshot>(bytes@)
                        == Ok::<_, DecodeError>(state.active_elections->0.deep_view()),
                    None => state.active_elections is None,
                }
                &&& match committees {
                    Some(bytes) => restored::<RaiEpochCommittees>(bytes@) is Ok && state.committees@ == by_epoch(
                        restored::<RaiEpochCommittees>(bytes@)->Ok_0,
                    ),
                    None => state.committees@ == Map::<RaiEpoch, Membership>::empty(),
                }
            },
            Err(error) => {
                let first = failure::<RaiCloseStateSnapshot>(close_state);
                let second = failure::<RaiActiveElectionsSnapshot>(active_elections);
                if first is Some {
                    first == Some(error)
                } else if second is Some {
                    second == Some(error)
                } else {
                    failure::<RaiEpochCommittees>(committees) == Some(error)
                }
            },
        },
{
    let close_state = match close_state {
        Some(bytes) => match deserialize_close_state(&bytes) {
            Ok(snapshot) => Some(snapshot),
            Err(error) => return Err(error),
        },
        None => None,
    };
    let active_elections = match active_elections {
        Some(bytes) => match deserialize_active_elections(&bytes) {
            Ok(snapshot) => Some(snapshot),
            Err(error) => return Err(error),
        },
        None => None,
    };
    let committees = match committees {
        Some(bytes) => match deserialize_committees(&bytes) {
            Ok(committees) => committees,
            Err(error) => return Err(error),
        },
        None => SortedMap::new(),
    };
    Ok(RaiPersistedState { close_state, active_elections, committees })
}

pub fn write_vote_summary(writer: &mut Vec<u8>, vote: &RaiVoteSummary)
    ensures
        final(writer)@ == old(writer)@ + RaiVoteSummary::encoding(*vote),
{
    vote.write(writer);
}

pub fn write_thresholds(writer: &mut Vec<u8>, thresholds: RaiCommitteeThresholds)
    ensures
        final(writer)@ == old(writer)@ + RaiCommitteeThresholds::encoding(thresholds),
{
    thresholds.write(writer);
}

pub fn read_thresholds(reader: &mut Reader<'_>) -> (r: Result<RaiCommitteeThresholds, DecodeError>)
    ensures
        match r {
            Ok(value) => RaiCommitteeThresholds::parse(old(reader)@) == Ok::<_, DecodeError>(
                Parsed { value, rest: final(reader)@ },
            ),
            Err(error) => RaiCommitteeThresholds::parse(old(reader)@) == Err::<Parsed<RaiCommitteeThresholds>, _>(error),
        },
{
    RaiCommitteeThresholds::read(reader)
}

pub fn write_epoch_phase(writer: &mut Vec<u8>, phase: RaiEpochPhase)
    ensures
        final(writer)@ == old(writer)@ + RaiEpochPhase::encoding(phase),
{
    phase.write(writer);
}

pub fn write_election_status(writer: &mut Vec<u8>, status: RaiElectionStatus)
    ensures
        final(writer)@ == old(writer)@ + RaiElectionStatus::encoding(status),
{
    status.write(writer);
}

pub fn write_u64s(writer: &mut Vec<u8>, values: &Vec<u64>)
    ensures
        final(writer)@ == old(writer)@ + Vec::<u64>::encoding(values@),
{
    values.write(writer);
    proof {
        assert(values.deep_view() =~= values@);
    }
}

pub fn read_u64s(reader: &mut Reader<'_>) -> (r: Result<Vec<u64>, DecodeError>)
    ensures
        match r {
            Ok(values) => Vec::<u64>::parse(old(reader)@) == Ok::<_, DecodeError>(
                Parsed { value: values@, rest: final(reader)@ },
            ),
            Err(error) => Vec::<u64>::parse(old(reader)@) == Err::<Parsed<Seq<u64>>, _>(error),
        },
{
    let r = Vec::<u64>::read(reader);
    proof {
        if r is Ok {
            assert(r->Ok_0.deep_view() =~= r->Ok_0@);
        }
    }
    r
}

pub fn write_version(writer: &mut Vec<u8>)
    ensures
        final(writer)@ == old(writer)@ + u8::encoding(SNAPSHOT_VERSION),
{
    SNAPSHOT_VERSION.write(writer);
}

pub fn read_version(reader: &mut Reader<'_>) -> (r: Result<(), DecodeError>)
    ensures
        match r {
            Ok(_) => u8::parse(old(reader)@) == Ok::<_, DecodeError>(
                Parsed { value: SNAPSHOT_VERSION, rest: final(reader)@ },
            ),
            Err(error) => match u8::parse(old(reader)@) {
                Ok(version) => version.value != SNAPSHOT_VERSION && error == DecodeError::InvalidData,
                Err(missing) => error == missing,
            },
        },
{
    match u8::read(reader) {
        Ok(version) => if version == SNAPSHOT_VERSION {
            Ok(())
        } else {
            Err(DecodeError::InvalidData)
        },
        Err(error) => Err(error),
    }
}

pub fn write_len(writer: &mut Vec<u8>, value: usize)
    ensures
        final(writer)@ == old(writer)@ + usize::encoding(value),
{
    value.write(writer);
}

pub fn read_len(reader: &mut Reader<'_>) -> (r: Result<usize, DecodeError>)
    ensures
        match r {
            Ok(value) => usize::parse(old(reader)@) == Ok::<_, DecodeError>(Parsed { value, rest: final(reader)@ }),
            Err(error) => usize::parse(old(reader)@) == Err::<Parsed<usize>, _>(error),
        },
{
    usize::read(reader)
}

pub fn write_usize(writer: &mut Vec<u8>, value: usize)
    ensures
        final(writer)@ == old(writer)@ + usize::encoding(value),
{
    value.write(writer);
}

pub fn write_u64(writer: &mut Vec<u8>, value: u64)
    ensures
        final(writer)@ == old(writer)@ + u64::encoding(value),
{
    value.write(writer);
}

/// Committees whose members are in account order are read back as they were stored.
pub proof fn stored_committees_round_trip(committees: Map<RaiEpoch, Membership>)
    requires
        committees.dom().finite(),
        forall|epoch: RaiEpoch| #[trigger] committees.contains_key(epoch) ==> is_sorted(committees[epoch].members),
    ensures
        by_epoch(listed(committees)) == committees,
{
    let stored = listed(committees);
    let pairs = pairs_of(committees);
    lemma_ascending(committees.dom());
    let back = Seq::new(
        stored.committees.len(),
        |i: int| (stored.committees[i].epoch, in_order(stored.committees[i].committee)),
    );
    assert forall|i: int| 0 <= i < pairs.len() implies back[i] == #[trigger] pairs[i] by {
        assert(committees.contains_key(ascending(committees.dom())[i]));
        committee_snapshot_round_trip(pairs[i].1);
    }
    assert(back =~= pairs);
    lemma_map_of_pairs(committees);
}

/// One byte is stored as it is.
proof fn lemma_one_byte(x: u8)
    ensures
        u8::encoding(x) == seq![x],
{
    reveal_with_fuel(be_bytes, 2);
    assert(be_bytes(x as nat, 1) =~= seq![x]);
}

/// What is stored starts with its version, one. Each kind of election, value, vote, phase and
/// status has a number of its own, from zero in the order of their names here, and what
/// belongs to it follows: numbers in eight bytes, most significant first.
pub proof fn kinds_are_numbered(slot: RaiSlot, epoch: u64, attempt: u64, hash: BlockHash)
    ensures
        stored_bytes::<u64>(epoch) == seq![1u8] + be_bytes(epoch as nat, 8),
        RaiElectionId::encoding(RaiElectionId::Slot { slot, epoch }) == seq![0u8] + (RaiSlot::encoding(slot) + be_bytes(
            epoch as nat,
            8,
        )),
        RaiElectionId::encoding(RaiElectionId::CloseCut { epoch, attempt }) == seq![1u8] + (be_bytes(epoch as nat, 8) + be_bytes(
            attempt as nat,
            8,
        )),
        RaiElectionId::encoding(RaiElectionId::CloseRecord { epoch, attempt }) == seq![2u8] + (be_bytes(epoch as nat, 8)
            + be_bytes(attempt as nat, 8)),
        RaiElectionValue::encoding(RaiElectionValue::Block(hash)) == seq![0u8] + BlockHash::encoding(hash),
        RaiElectionValue::encoding(RaiElectionValue::CloseCutHash(hash)) == seq![1u8] + BlockHash::encoding(hash),
        RaiElectionValue::encoding(RaiElectionValue::CloseRecordHash(hash)) == seq![2u8] + BlockHash::encoding(hash),
        RaiElectionValue::encoding(RaiElectionValue::Timeout) == seq![3u8],
        RaiVoteKind::encoding(RaiVoteKind::First) == seq![0u8],
        RaiVoteKind::encoding(RaiVoteKind::Notarization) == seq![1u8],
        RaiVoteKind::encoding(RaiVoteKind::Final) == seq![2u8],
        RaiEpochPhase::encoding(RaiEpochPhase::Open) == seq![0u8],
        RaiEpochPhase::encoding(RaiEpochPhase::Closing) == seq![1u8],
        RaiEpochPhase::encoding(RaiEpochPhase::Closed) == seq![2u8],
        RaiElectionStatus::encoding(RaiElectionStatus::Active) == seq![0u8],
        RaiElectionStatus::encoding(RaiElectionStatus::Confirmed) == seq![1u8],
        BlockHash::encoding(hash) == be_bytes(hash.hi as nat, 16) + be_bytes(hash.lo as nat, 16),
        RaiSlot::encoding(slot) == Account::encoding(slot.account) + be_bytes(slot.account_height as nat, 8),
        Option::<u64>::encoding(None) == seq![0u8],
        Option::<u64>::encoding(Some(epoch)) == seq![1u8] + be_bytes(epoch as nat, 8),
{
    lemma_one_byte(0);
    lemma_one_byte(1);
    lemma_one_byte(2);
    lemma_one_byte(3);
}

}
