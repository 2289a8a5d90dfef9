//! Plain values shared by the consensus modules.
use vstd::prelude::*;

use crate::bytes::{
    be_bytes, be_value, lemma_be_bytes_len, lemma_byte_spans, lemma_decode_encoded, lemma_encode_decoded, push_be, read_be,
};
use crate::ordered::{copy_all, Atom, Duplicate, Key, Pair};

verus! {

/// The hash of a block or of a consensus record.
#[derive(Clone, Copy, Debug, PartialEq, Eq, PartialOrd, Ord, Hash, Structural)]
pub struct BlockHash {
    pub hi: u128,
    pub lo: u128,
}

impl BlockHash {
    /// The value whose 32 big-endian bytes are `bytes`.
    pub open spec fn of_bytes(bytes: Seq<u8>) -> BlockHash {
        BlockHash {
            hi: be_value(bytes.subrange(0, 16)) as u128,
            lo: be_value(bytes.subrange(16, 32)) as u128,
        }
    }

    /// The 32 big-endian bytes of the value.
    pub open spec fn bytes(self) -> Seq<u8> {
        be_bytes(self.hi as nat, 16) + be_bytes(self.lo as nat, 16)
    }

    /// Bytes and values determine each other.
    pub proof fn bytes_round_trip(self)
        ensures
            self.bytes().len() == 32,
            Self::of_bytes(self.bytes()) == self,
    {
        lemma_byte_spans();
        lemma_decode_encoded(self.hi as nat, 16);
        lemma_decode_encoded(self.lo as nat, 16);
        assert(self.bytes().subrange(0, 16) =~= be_bytes(self.hi as nat, 16));
        assert(self.bytes().subrange(16, 32) =~= be_bytes(self.lo as nat, 16));
    }

    pub fn zero() -> (r: Self)
        ensures
            r == (BlockHash { hi: 0, lo: 0 }),
    {
        BlockHash { hi: 0, lo: 0 }
    }

    pub fn is_zero(&self) -> (r: bool)
        ensures
            r == (*self == BlockHash { hi: 0, lo: 0 }),
    {
        self.hi == 0 && self.lo == 0
    }

    pub fn from_bytes(bytes: &Vec<u8>) -> (r: Self)
        requires
            bytes@.len() == 32,
        ensures
            r == Self::of_bytes(bytes@),
            r.bytes() == bytes@,
    {
        let hi: u128 = read_be(bytes, 0, 16);
        let lo: u128 = read_be(bytes, 16, 16);
        proof {
            lemma_encode_decoded(bytes@.subrange(0, 16));
            lemma_encode_decoded(bytes@.subrange(16, 32));
            assert(bytes@ =~= bytes@.subrange(0, 16) + bytes@.subrange(16, 32));
        }
        BlockHash { hi, lo }
    }

    /// Appends the bytes of the value.
    pub fn push_bytes(&self, out: &mut Vec<u8>)
        ensures
            final(out)@ == old(out)@ + self.bytes(),
    {
        push_be(out, self.hi, 16);
        push_be(out, self.lo, 16);
        proof {
            assert(out@ =~= old(out)@ + self.bytes());
        }
    }
}

impl From<u64> for BlockHash {
    fn from(value: u64) -> (r: Self) {
        BlockHash { hi: 0, lo: value as u128 }
    }
}

impl vstd::std_specs::convert::FromSpecImpl<u64> for BlockHash {
    open spec fn obeys_from_spec() -> bool {
        true
    }

    open spec fn from_spec(value: u64) -> Self {
        BlockHash { hi: 0, lo: value as u128 }
    }
}

impl Key for BlockHash {
    open spec fn rank(self) -> int {
        Pair(self.hi, self.lo).rank()
    }

    open spec fn span() -> int {
        Pair::<u128, u128>::span()
    }

    proof fn rank_in_span(self) {
        Pair(self.hi, self.lo).rank_in_span();
    }

    proof fn rank_is_injective(a: Self, b: Self) {
        Pair::<u128, u128>::rank_is_injective(Pair(a.hi, a.lo), Pair(b.hi, b.lo));
    }

    fn precedes(&self, other: &Self) -> (r: bool) {
        Pair(self.hi, self.lo).precedes(&Pair(other.hi, other.lo))
    }
}

impl DeepView for BlockHash {
    type V = BlockHash;

    open spec fn deep_view(&self) -> BlockHash {
        *self
    }
}

impl Duplicate for BlockHash {
    fn duplicate(&self) -> (r: Self) {
        *self
    }

    fn agrees(&self, other: &Self) -> (r: bool) {
        *self == *other
    }
}

impl Atom for BlockHash {
    proof fn shows_itself(self) {
    }
}

/// The key that identifies a voter.
#[derive(Clone, Copy, Debug, PartialEq, Eq, PartialOrd, Ord, Hash, Structural)]
pub struct PublicKey {
    pub hi: u128,
    pub lo: u128,
}

impl PublicKey {
    /// The value whose 32 big-endian bytes are `bytes`.
    pub open spec fn of_bytes(bytes: Seq<u8>) -> PublicKey {
        PublicKey {
            hi: be_value(bytes.subrange(0, 16)) as u128,
            lo: be_value(bytes.subrange(16, 32)) as u128,
        }
    }

    /// The 32 big-endian bytes of the value.
    pub open spec fn bytes(self) -> Seq<u8> {
        be_bytes(self.hi as nat, 16) + be_bytes(self.lo as nat, 16)
    }

    /// Bytes and values determine each other.
    pub proof fn bytes_round_trip(self)
        ensures
            self.bytes().len() == 32,
            Self::of_bytes(self.bytes()) == self,
    {
        lemma_byte_spans();
        lemma_decode_encoded(self.hi as nat, 16);
        lemma_decode_encoded(self.lo as nat, 16);
        assert(self.bytes().subrange(0, 16) =~= be_bytes(self.hi as nat, 16));
        assert(self.bytes().subrange(16, 32) =~= be_bytes(self.lo as nat, 16));
    }

    pub fn zero() -> (r: Self)
        ensures
            r == (PublicKey { hi: 0, lo: 0 }),
    {
        PublicKey { hi: 0, lo: 0 }
    }

    pub fn is_zero(&self) -> (r: bool)
        ensures
            r == (*self == PublicKey { hi: 0, lo: 0 }),
    {
        self.hi == 0 && self.lo == 0
    }

    pub fn from_bytes(bytes: &Vec<u8>) -> (r: Self)
        requires
            bytes@.len() == 32,
        ensures
            r == Self::of_bytes(bytes@),
            r.bytes() == bytes@,
    {
        let hi: u128 = read_be(bytes, 0, 16);
        let lo: u128 = read_be(bytes, 16, 16);
        proof {
            lemma_encode_decoded(bytes@.subrange(0, 16));
            lemma_encode_decoded(bytes@.subrange(16, 32));
            assert(bytes@ =~= bytes@.subrange(0, 16) + bytes@.subrange(16, 32));
        }
        PublicKey { hi, lo }
    }

    /// Appends the bytes of the value.
    pub fn push_bytes(&self, out: &mut Vec<u8>)
        ensures
            final(out)@ == old(out)@ + self.bytes(),
    {
        push_be(out, self.hi, 16);
        push_be(out, self.lo, 16);
        proof {
            assert(out@ =~= old(out)@ + self.bytes());
        }
    }
}

impl From<u64> for PublicKey {
    fn from(value: u64) -> (r: Self) {
        PublicKey { hi: 0, lo: value as u128 }
    }
}

impl vstd::std_specs::convert::FromSpecImpl<u64> for PublicKey {
    open spec fn obeys_from_spec() -> bool {
        true
    }

    open spec fn from_spec(value: u64) -> Self {
        PublicKey { hi: 0, lo: value as u128 }
    }
}

impl Key for PublicKey {
    open spec fn rank(self) -> int {
        Pair(self.hi, self.lo).rank()
    }

    open spec fn span() -> int {
        Pair::<u128, u128>::span()
    }

    proof fn rank_in_span(self) {
        Pair(self.hi, self.lo).rank_in_span();
    }

    proof fn rank_is_injective(a: Self, b: Self) {
        Pair::<u128, u128>::rank_is_injective(Pair(a.hi, a.lo), Pair(b.hi, b.lo));
    }

    fn precedes(&self, other: &Self) -> (r: bool) {
        Pair(self.hi, self.lo).precedes(&Pair(other.hi, other.lo))
    }
}

impl DeepView for PublicKey {
    type V = PublicKey;

    open spec fn deep_view(&self) -> PublicKey {
        *self
    }
}

impl Duplicate for PublicKey {
    fn duplicate(&self) -> (r: Self) {
        *self
    }

    fn agrees(&self, other: &Self) -> (r: bool) {
        *self == *other
    }
}

/// The key that identifies an account.
#[derive(Clone, Copy, Debug, PartialEq, Eq, PartialOrd, Ord, Hash, Structural)]
pub struct Account {
    pub hi: u128,
    pub lo: u128,
}

impl Account {
    /// The value whose 32 big-endian bytes are `bytes`.
    pub open spec fn of_bytes(bytes: Seq<u8>) -> Account {
        Account {
            hi: be_value(bytes.subrange(0, 16)) as u128,
            lo: be_value(bytes.subrange(16, 32)) as u128,
        }
    }

    /// The 32 big-endian bytes of the value.
    pub open spec fn bytes(self) -> Seq<u8> {
        be_bytes(self.hi as nat, 16) + be_bytes(self.lo as nat, 16)
    }

    /// Bytes and values determine each other.
    pub proof fn bytes_round_trip(self)
        ensures
            self.bytes().len() == 32,
            Self::of_bytes(self.bytes()) == self,
    {
        lemma_byte_spans();
        lemma_decode_encoded(self.hi as nat, 16);
        lemma_decode_encoded(self.lo as nat, 16);
        assert(self.bytes().subrange(0, 16) =~= be_bytes(self.hi as nat, 16));
        assert(self.bytes().subrange(16, 32) =~= be_bytes(self.lo as nat, 16));
    }

    pub fn zero() -> (r: Self)
        ensures
            r == (Account { hi: 0, lo: 0 }),
    {
        Account { hi: 0, lo: 0 }
    }

    pub fn is_zero(&self) -> (r: bool)
        ensures
            r == (*self == Account { hi: 0, lo: 0 }),
    {
        self.hi == 0 && self.lo == 0
    }

    pub fn from_bytes(bytes: &Vec<u8>) -> (r: Self)
        requires
            bytes@.len() == 32,
        ensures
            r == Self::of_bytes(bytes@),
            r.bytes() == bytes@,
    {
        let hi: u128 = read_be(bytes, 0, 16);
        let lo: u128 = read_be(bytes, 16, 16);
        proof {
            lemma_encode_decoded(bytes@.subrange(0, 16));
            lemma_encode_decoded(bytes@.subrange(16, 32));
            assert(bytes@ =~= bytes@.subrange(0, 16) + bytes@.subrange(16, 32));
        }
        Account { hi, lo }
    }

    /// Appends the bytes of the value.
    pub fn push_bytes(&self, out: &mut Vec<u8>)
        ensures
            final(out)@ == old(out)@ + self.bytes(),
    {
        push_be(out, self.hi, 16);
        push_be(out, self.lo, 16);
        proof {
            assert(out@ =~= old(out)@ + self.bytes());
        }
    }
}

impl From<u64> for Account {
    fn from(value: u64) -> (r: Self) {
        Account { hi: 0, lo: value as u128 }
    }
}

impl vstd::std_specs::convert::FromSpecImpl<u64> for Account {
    open spec fn obeys_from_spec() -> bool {
        true
    }

    open spec fn from_spec(value: u64) -> Self {
        Account { hi: 0, lo: value as u128 }
    }
}

impl Key for Account {
    open spec fn rank(self) -> int {
        Pair(self.hi, self.lo).rank()
    }

    open spec fn span() -> int {
        Pair::<u128, u128>::span()
    }

    proof fn rank_in_span(self) {
        Pair(self.hi, self.lo).rank_in_span();
    }

    proof fn rank_is_injective(a: Self, b: Self) {
        Pair::<u128, u128>::rank_is_injective(Pair(a.hi, a.lo), Pair(b.hi, b.lo));
    }

    fn precedes(&self, other: &Self) -> (r: bool) {
        Pair(self.hi, self.lo).precedes(&Pair(other.hi, other.lo))
    }
}

impl DeepView for Account {
    type V = Account;

    open spec fn deep_view(&self) -> Account {
        *self
    }
}

impl Duplicate for Account {
    fn duplicate(&self) -> (r: Self) {
        *self
    }

    fn agrees(&self, other: &Self) -> (r: bool) {
        *self == *other
    }
}

/// The first half of an election root: a block hash or an account.
#[derive(Clone, Copy, Debug, PartialEq, Eq, PartialOrd, Ord, Hash, Structural)]
pub struct Root {
    pub hi: u128,
    pub lo: u128,
}

impl Root {
    /// The value whose 32 big-endian bytes are `bytes`.
    pub open spec fn of_bytes(bytes: Seq<u8>) -> Root {
        Root {
            hi: be_value(bytes.subrange(0, 16)) as u128,
            lo: be_value(bytes.subrange(16, 32)) as u128,
        }
    }

    /// The 32 big-endian bytes of the value.
    pub open spec fn bytes(self) -> Seq<u8> {
        be_bytes(self.hi as nat, 16) + be_bytes(self.lo as nat, 16)
    }

    /// Bytes and values determine each other.
    pub proof fn bytes_round_trip(self)
        ensures
            self.bytes().len() == 32,
            Self::of_bytes(self.bytes()) == self,
    {
        lemma_byte_spans();
        lemma_decode_encoded(self.hi as nat, 16);
        lemma_decode_encoded(self.lo as nat, 16);
        assert(self.bytes().subrange(0, 16) =~= be_bytes(self.hi as nat, 16));
        assert(self.bytes().subrange(16, 32) =~= be_bytes(self.lo as nat, 16));
    }

    pub fn zero() -> (r: Self)
        ensures
            r == (Root { hi: 0, lo: 0 }),
    {
        Root { hi: 0, lo: 0 }
    }

    pub fn is_zero(&self) -> (r: bool)
        ensures
            r == (*self == Root { hi: 0, lo: 0 }),
    {
        self.hi == 0 && self.lo == 0
    }

    pub fn from_bytes(bytes: &Vec<u8>) -> (r: Self)
        requires
            bytes@.len() == 32,
        ensures
            r == Self::of_bytes(bytes@),
            r.bytes() == bytes@,
    {
        let hi: u128 = read_be(bytes, 0, 16);
        let lo: u128 = read_be(bytes, 16, 16);
        proof {
            lemma_encode_decoded(bytes@.subrange(0, 16));
            lemma_encode_decoded(bytes@.subrange(16, 32));
            assert(bytes@ =~= bytes@.subrange(0, 16) + bytes@.subrange(16, 32));
        }
        Root { hi, lo }
    }

    /// Appends the bytes of the value.
    pub fn push_bytes(&self, out: &mut Vec<u8>)
        ensures
            final(out)@ == old(out)@ + self.bytes(),
    {
        push_be(out, self.hi, 16);
        push_be(out, self.lo, 16);
        proof {
            assert(out@ =~= old(out)@ + self.bytes());
        }
    }
}

impl From<u64> for Root {
    fn from(value: u64) -> (r: Self) {
        Root { hi: 0, lo: value as u128 }
    }
}

impl vstd::std_specs::convert::FromSpecImpl<u64> for Root {
    open spec fn obeys_from_spec() -> bool {
        true
    }

    open spec fn from_spec(value: u64) -> Self {
        Root { hi: 0, lo: value as u128 }
    }
}

impl Key for Root {
    open spec fn rank(self) -> int {
        Pair(self.hi, self.lo).rank()
    }

    open spec fn span() -> int {
        Pair::<u128, u128>::span()
    }

    proof fn rank_in_span(self) {
        Pair(self.hi, self.lo).rank_in_span();
    }

    proof fn rank_is_injective(a: Self, b: Self) {
        Pair::<u128, u128>::rank_is_injective(Pair(a.hi, a.lo), Pair(b.hi, b.lo));
    }

    fn precedes(&self, other: &Self) -> (r: bool) {
        Pair(self.hi, self.lo).precedes(&Pair(other.hi, other.lo))
    }
}

impl DeepView for Root {
    type V = Root;

    open spec fn deep_view(&self) -> Root {
        *self
    }
}

impl Duplicate for Root {
    fn duplicate(&self) -> (r: Self) {
        *self
    }

    fn agrees(&self, other: &Self) -> (r: bool) {
        *self == *other
    }
}

/// A quantity of voting weight.
#[derive(Clone, Copy, Debug, PartialEq, Eq, PartialOrd, Ord, Hash, Structural)]
pub struct Amount {
    pub raw: u128,
}

impl Amount {
    pub fn raw(raw: u128) -> (r: Self)
        ensures
            r.raw == raw,
    {
        Amount { raw }
    }

    pub fn zero() -> (r: Self)
        ensures
            r.raw == 0,
    {
        Amount { raw: 0 }
    }

    pub fn is_zero(&self) -> (r: bool)
        ensures
            r == (self.raw == 0),
    {
        self.raw == 0
    }
}

impl DeepView for Amount {
    type V = Amount;

    open spec fn deep_view(&self) -> Amount {
        *self
    }
}

impl Duplicate for Amount {
    fn duplicate(&self) -> (r: Self) {
        *self
    }

    fn agrees(&self, other: &Self) -> (r: bool) {
        *self == *other
    }
}

/// The number of an epoch.
#[derive(Clone, Copy, Debug, PartialEq, Eq, PartialOrd, Ord, Hash, Structural)]
pub struct RaiEpoch {
    pub number: u64,
}

impl RaiEpoch {
    pub fn new(number: u64) -> (r: Self)
        ensures
            r.number == number,
    {
        RaiEpoch { number }
    }

    pub fn number(&self) -> (r: u64)
        ensures
            r == self.number,
    {
        self.number
    }
}

impl From<u64> for RaiEpoch {
    fn from(value: u64) -> (r: Self) {
        RaiEpoch { number: value }
    }
}

impl vstd::std_specs::convert::FromSpecImpl<u64> for RaiEpoch {
    open spec fn obeys_from_spec() -> bool {
        true
    }

    open spec fn from_spec(value: u64) -> Self {
        RaiEpoch { number: value }
    }
}

impl DeepView for RaiEpoch {
    type V = RaiEpoch;

    open spec fn deep_view(&self) -> RaiEpoch {
        *self
    }
}

impl Duplicate for RaiEpoch {
    fn duplicate(&self) -> (r: Self) {
        *self
    }

    fn agrees(&self, other: &Self) -> (r: bool) {
        *self == *other
    }
}

impl Key for RaiEpoch {
    open spec fn rank(self) -> int {
        self.number.rank()
    }

    open spec fn span() -> int {
        u64::span()
    }

    proof fn rank_in_span(self) {
        self.number.rank_in_span();
    }

    proof fn rank_is_injective(a: Self, b: Self) {
        u64::rank_is_injective(a.number, b.number);
    }

    fn precedes(&self, other: &Self) -> (r: bool) {
        self.number.precedes(&other.number)
    }
}

/// The root of an election: what it builds on and what precedes it.
#[derive(Clone, Copy, Debug, PartialEq, Eq, PartialOrd, Ord, Hash, Structural)]
pub struct QualifiedRoot {
    pub root: Root,
    pub previous: BlockHash,
}

impl QualifiedRoot {
    /// The root's bytes followed by the bytes of the previous block hash.
    pub open spec fn bytes(self) -> Seq<u8> {
        self.root.bytes() + self.previous.bytes()
    }

    /// Different roots have different bytes.
    pub proof fn bytes_are_injective(a: QualifiedRoot, b: QualifiedRoot)
        requires
            a.bytes() == b.bytes(),
        ensures
            a == b,
    {
        a.root.bytes_round_trip();
        b.root.bytes_round_trip();
        a.previous.bytes_round_trip();
        b.previous.bytes_round_trip();
        assert(a.root.bytes() =~= a.bytes().subrange(0, 32));
        assert(b.root.bytes() =~= b.bytes().subrange(0, 32));
        assert(a.previous.bytes() =~= a.bytes().subrange(32, 64));
        assert(b.previous.bytes() =~= b.bytes().subrange(32, 64));
    }

    pub fn new(root: Root, previous: BlockHash) -> (r: Self)
        ensures
            r == (QualifiedRoot { root, previous }),
    {
        QualifiedRoot { root, previous }
    }

    /// Appends the bytes of the root.
    pub fn push_bytes(&self, out: &mut Vec<u8>)
        ensures
            final(out)@ == old(out)@ + self.bytes(),
    {
        self.root.push_bytes(out);
        self.previous.push_bytes(out);
        proof {
            assert(out@ =~= old(out)@ + self.bytes());
        }
    }
}

impl DeepView for QualifiedRoot {
    type V = QualifiedRoot;

    open spec fn deep_view(&self) -> QualifiedRoot {
        *self
    }
}

impl Duplicate for QualifiedRoot {
    fn duplicate(&self) -> (r: Self) {
        *self
    }

    fn agrees(&self, other: &Self) -> (r: bool) {
        *self == *other
    }
}

impl Key for QualifiedRoot {
    open spec fn rank(self) -> int {
        Pair(self.root, self.previous).rank()
    }

    open spec fn span() -> int {
        Pair::<Root, BlockHash>::span()
    }

    proof fn rank_in_span(self) {
        Pair(self.root, self.previous).rank_in_span();
    }

    proof fn rank_is_injective(a: Self, b: Self) {
        Pair::<Root, BlockHash>::rank_is_injective(Pair(a.root, a.previous), Pair(b.root, b.previous));
    }

    fn precedes(&self, other: &Self) -> (r: bool) {
        Pair(self.root, self.previous).precedes(&Pair(other.root, other.previous))
    }
}

/// The confirmed tip of an account.
#[derive(Clone, Copy, Debug, PartialEq, Eq, PartialOrd, Ord, Hash, Structural)]
pub struct ConfirmationHeightInfo {
    pub height: u64,
    pub frontier: BlockHash,
}

impl ConfirmationHeightInfo {
    pub fn new(height: u64, frontier: BlockHash) -> (r: Self)
        ensures
            r == (ConfirmationHeightInfo { height, frontier }),
    {
        ConfirmationHeightInfo { height, frontier }
    }
}

impl DeepView for ConfirmationHeightInfo {
    type V = ConfirmationHeightInfo;

    open spec fn deep_view(&self) -> ConfirmationHeightInfo {
        *self
    }
}

impl Duplicate for ConfirmationHeightInfo {
    fn duplicate(&self) -> (r: Self) {
        *self
    }

    fn agrees(&self, other: &Self) -> (r: bool) {
        *self == *other
    }
}

/// The committees that a vote counts in.
#[derive(Clone, Copy, Debug, PartialEq, Eq, PartialOrd, Ord, Hash, Structural)]
pub enum RaiCommitteeScope {
    All,
    Older,
    Newer,
}

impl DeepView for RaiCommitteeScope {
    type V = RaiCommitteeScope;

    open spec fn deep_view(&self) -> RaiCommitteeScope {
        *self
    }
}

impl Duplicate for RaiCommitteeScope {
    fn duplicate(&self) -> (r: Self) {
        *self
    }

    fn agrees(&self, other: &Self) -> (r: bool) {
        *self == *other
    }
}

impl RaiCommitteeScope {
    pub open spec fn place(self) -> int {
        match self {
            RaiCommitteeScope::All => 0,
            RaiCommitteeScope::Older => 1,
            RaiCommitteeScope::Newer => 2,
        }
    }

    pub fn position(&self) -> (r: u8)
        ensures
            r == self.place(),
    {
        match self {
            RaiCommitteeScope::All => 0,
            RaiCommitteeScope::Older => 1,
            RaiCommitteeScope::Newer => 2,
        }
    }
}

impl Key for RaiCommitteeScope {
    open spec fn rank(self) -> int {
        self.place()
    }

    open spec fn span() -> int {
        3
    }

    proof fn rank_in_span(self) {
    }

    proof fn rank_is_injective(a: Self, b: Self) {
    }

    fn precedes(&self, other: &Self) -> (r: bool) {
        self.position() < other.position()
    }
}

/// The stage of an election that a vote speaks to.
#[derive(Clone, Copy, Debug, PartialEq, Eq, PartialOrd, Ord, Hash, Structural)]
pub enum RaiVotePhase {
    First,
    Notar,
    Final,
}

impl DeepView for RaiVotePhase {
    type V = RaiVotePhase;

    open spec fn deep_view(&self) -> RaiVotePhase {
        *self
    }
}

impl Duplicate for RaiVotePhase {
    fn duplicate(&self) -> (r: Self) {
        *self
    }

    fn agrees(&self, other: &Self) -> (r: bool) {
        *self == *other
    }
}

impl RaiVotePhase {
    pub open spec fn place(self) -> int {
        match self {
            RaiVotePhase::First => 0,
            RaiVotePhase::Notar => 1,
            RaiVotePhase::Final => 2,
        }
    }

    pub fn position(&self) -> (r: u8)
        ensures
            r == self.place(),
    {
        match self {
            RaiVotePhase::First => 0,
            RaiVotePhase::Notar => 1,
            RaiVotePhase::Final => 2,
        }
    }
}

impl Key for RaiVotePhase {
    open spec fn rank(self) -> int {
        self.place()
    }

    open spec fn span() -> int {
        3
    }

    proof fn rank_in_span(self) {
    }

    proof fn rank_is_injective(a: Self, b: Self) {
    }

    fn precedes(&self, other: &Self) -> (r: bool) {
        self.position() < other.position()
    }
}

/// One slot: a root that is up for election in an epoch.
#[derive(Clone, Copy, Debug, PartialEq, Eq, PartialOrd, Ord, Hash, Structural)]
pub struct RaiSlotId {
    pub epoch: RaiEpoch,
    pub root: QualifiedRoot,
}

impl DeepView for RaiSlotId {
    type V = RaiSlotId;

    open spec fn deep_view(&self) -> RaiSlotId {
        *self
    }
}

impl Duplicate for RaiSlotId {
    fn duplicate(&self) -> (r: Self) {
        *self
    }

    fn agrees(&self, other: &Self) -> (r: bool) {
        *self == *other
    }
}

impl Key for RaiSlotId {
    open spec fn rank(self) -> int {
        Pair(self.epoch, self.root).rank()
    }

    open spec fn span() -> int {
        Pair::<RaiEpoch, QualifiedRoot>::span()
    }

    proof fn rank_in_span(self) {
        Pair(self.epoch, self.root).rank_in_span();
    }

    proof fn rank_is_injective(a: Self, b: Self) {
        Pair::<RaiEpoch, QualifiedRoot>::rank_is_injective(Pair(a.epoch, a.root), Pair(b.epoch, b.root));
    }

    fn precedes(&self, other: &Self) -> (r: bool) {
        Pair(self.epoch, self.root).precedes(&Pair(other.epoch, other.root))
    }
}

/// A signature of 64 bytes.
#[derive(Clone, Copy, Debug, PartialEq, Eq, PartialOrd, Ord, Hash, Structural)]
pub struct Signature {
    pub r_hi: u128,
    pub r_lo: u128,
    pub s_hi: u128,
    pub s_lo: u128,
}

impl Signature {
    /// The signature of a message that is not signed yet.
    pub fn new() -> (r: Self)
        ensures
            r == (Signature { r_hi: 0, r_lo: 0, s_hi: 0, s_lo: 0 }),
    {
        Signature { r_hi: 0, r_lo: 0, s_hi: 0, s_lo: 0 }
    }
}

impl DeepView for Signature {
    type V = Signature;

    open spec fn deep_view(&self) -> Signature {
        *self
    }
}

impl Duplicate for Signature {
    fn duplicate(&self) -> (r: Self) {
        *self
    }

    fn agrees(&self, other: &Self) -> (r: bool) {
        *self == *other
    }
}

/// A point in time, in nanoseconds.
#[derive(Clone, Copy, Debug, PartialEq, Eq, PartialOrd, Ord, Hash, Structural)]
pub struct Timestamp {
    pub nanos: u128,
}

impl Timestamp {
    /// Whether at least `duration` nanoseconds have passed since `earlier`.
    pub fn is_after(&self, earlier: Timestamp, duration: u128) -> (r: bool)
        ensures
            r == (self.nanos >= earlier.nanos + duration),
    {
        self.nanos >= earlier.nanos && self.nanos - earlier.nanos >= duration
    }
}

impl DeepView for Timestamp {
    type V = Timestamp;

    open spec fn deep_view(&self) -> Timestamp {
        *self
    }
}

impl Duplicate for Timestamp {
    fn duplicate(&self) -> (r: Self) {
        *self
    }

    fn agrees(&self, other: &Self) -> (r: bool) {
        *self == *other
    }
}

/// One position on an account's chain.
#[derive(Clone, Copy, Debug, PartialEq, Eq, PartialOrd, Ord, Hash, Structural)]
pub struct RaiSlot {
    pub account: Account,
    pub account_height: u64,
}

impl RaiSlot {
    /// Account and height in 40 bytes.
    pub open spec fn bytes(self) -> Seq<u8> {
        self.account.bytes() + be_bytes(self.account_height as nat, 8)
    }

    /// Slots with the same bytes are the same slot.
    pub proof fn bytes_identify(a: RaiSlot, b: RaiSlot)
        ensures
            a.bytes().len() == 40,
            a.bytes() == b.bytes() ==> a == b,
    {
        lemma_byte_spans();
        a.account.bytes_round_trip();
        b.account.bytes_round_trip();
        lemma_decode_encoded(a.account_height as nat, 8);
        lemma_decode_encoded(b.account_height as nat, 8);
        lemma_be_bytes_len(a.account_height as nat, 8);
        lemma_be_bytes_len(b.account_height as nat, 8);
        let p = a.bytes();
        let q = b.bytes();
        assert(p.subrange(0, 32) =~= a.account.bytes());
        assert(q.subrange(0, 32) =~= b.account.bytes());
        assert(p.subrange(32, 40) =~= be_bytes(a.account_height as nat, 8));
        assert(q.subrange(32, 40) =~= be_bytes(b.account_height as nat, 8));
    }

    /// Appends the bytes of the slot.
    pub fn push_bytes(&self, out: &mut Vec<u8>)
        ensures
            final(out)@ == old(out)@ + self.bytes(),
    {
        self.account.push_bytes(out);
        push_be(out, self.account_height as u128, 8);
        proof {
            assert(out@ =~= old(out)@ + self.bytes());
        }
    }

    pub fn new(account: Account, account_height: u64) -> (r: Self)
        ensures
            r == (RaiSlot { account, account_height }),
    {
        RaiSlot { account, account_height }
    }
}

impl DeepView for RaiSlot {
    type V = RaiSlot;

    open spec fn deep_view(&self) -> RaiSlot {
        *self
    }
}

impl Duplicate for RaiSlot {
    fn duplicate(&self) -> (r: Self) {
        *self
    }

    fn agrees(&self, other: &Self) -> (r: bool) {
        *self == *other
    }
}

impl RaiSlot {
    /// Slots of one account are ordered by their height.
    pub proof fn lemma_rank_within_account(self, other: RaiSlot)
        requires
            self.account == other.account,
            self.rank() < other.rank(),
        ensures
            self.account_height < other.account_height,
    {
    }
}

impl Key for RaiSlot {
    open spec fn rank(self) -> int {
        Pair(self.account, self.account_height).rank()
    }

    open spec fn span() -> int {
        Pair::<Account, u64>::span()
    }

    proof fn rank_in_span(self) {
        Pair(self.account, self.account_height).rank_in_span();
    }

    proof fn rank_is_injective(a: Self, b: Self) {
        Pair::<Account, u64>::rank_is_injective(Pair(a.account, a.account_height), Pair(b.account, b.account_height));
    }

    fn precedes(&self, other: &Self) -> (r: bool) {
        Pair(self.account, self.account_height).precedes(&Pair(other.account, other.account_height))
    }
}

/// What an election is about.
#[derive(Clone, Copy, Debug, PartialEq, Eq, PartialOrd, Ord, Hash, Structural)]
pub enum RaiElectionId {
    Slot { slot: RaiSlot, epoch: u64 },
    CloseCut { epoch: u64, attempt: u64 },
    CloseRecord { epoch: u64, attempt: u64 },
}

impl RaiElectionId {
    pub open spec fn epoch_of(self) -> u64 {
        match self {
            RaiElectionId::Slot { epoch, .. } => epoch,
            RaiElectionId::CloseCut { epoch, .. } => epoch,
            RaiElectionId::CloseRecord { epoch, .. } => epoch,
        }
    }

    /// The epoch that the election belongs to.
    pub fn epoch(&self) -> (r: u64)
        ensures
            r == self.epoch_of(),
    {
        match self {
            RaiElectionId::Slot { epoch, .. } => *epoch,
            RaiElectionId::CloseCut { epoch, .. } => *epoch,
            RaiElectionId::CloseRecord { epoch, .. } => *epoch,
        }
    }

    /// Kind, slot, epoch and attempt: what the order compares in turn.
    pub open spec fn parts(self) -> Pair<u16, Pair<RaiSlot, Pair<u64, u64>>> {
        let none = RaiSlot { account: Account { hi: 0, lo: 0 }, account_height: 0 };
        match self {
            RaiElectionId::Slot { slot, epoch } => Pair(0u16, Pair(slot, Pair(epoch, 0u64))),
            RaiElectionId::CloseCut { epoch, attempt } => Pair(1u16, Pair(none, Pair(epoch, attempt))),
            RaiElectionId::CloseRecord { epoch, attempt } => Pair(2u16, Pair(none, Pair(epoch, attempt))),
        }
    }

    fn to_parts(&self) -> (r: Pair<u16, Pair<RaiSlot, Pair<u64, u64>>>)
        ensures
            r == self.parts(),
    {
        let none = RaiSlot { account: Account { hi: 0, lo: 0 }, account_height: 0 };
        match self {
            RaiElectionId::Slot { slot, epoch } => Pair(0u16, Pair(*slot, Pair(*epoch, 0u64))),
            RaiElectionId::CloseCut { epoch, attempt } => Pair(1u16, Pair(none, Pair(*epoch, *attempt))),
            RaiElectionId::CloseRecord { epoch, attempt } => Pair(2u16, Pair(none, Pair(*epoch, *attempt))),
        }
    }
}

impl Key for RaiElectionId {
    open spec fn rank(self) -> int {
        self.parts().rank()
    }

    open spec fn span() -> int {
        Pair::<u16, Pair<RaiSlot, Pair<u64, u64>>>::span()
    }

    proof fn rank_in_span(self) {
        self.parts().rank_in_span();
    }

    proof fn rank_is_injective(a: Self, b: Self) {
        Pair::<u16, Pair<RaiSlot, Pair<u64, u64>>>::rank_is_injective(a.parts(), b.parts());
    }

    fn precedes(&self, other: &Self) -> (r: bool) {
        self.to_parts().precedes(&other.to_parts())
    }
}

impl DeepView for RaiElectionId {
    type V = RaiElectionId;

    open spec fn deep_view(&self) -> RaiElectionId {
        *self
    }
}

impl Duplicate for RaiElectionId {
    fn duplicate(&self) -> (r: Self) {
        *self
    }

    fn agrees(&self, other: &Self) -> (r: bool) {
        *self == *other
    }
}

/// What a vote supports.
#[derive(Clone, Copy, Debug, PartialEq, Eq, PartialOrd, Ord, Hash, Structural)]
pub enum RaiElectionValue {
    Block(BlockHash),
    CloseCutHash(BlockHash),
    CloseRecordHash(BlockHash),
    Timeout,
}

impl RaiElectionValue {
    /// Kind and hash: what the order compares in turn.
    pub open spec fn parts(self) -> Pair<u16, BlockHash> {
        match self {
            RaiElectionValue::Block(hash) => Pair(0u16, hash),
            RaiElectionValue::CloseCutHash(hash) => Pair(1u16, hash),
            RaiElectionValue::CloseRecordHash(hash) => Pair(2u16, hash),
            RaiElectionValue::Timeout => Pair(3u16, BlockHash { hi: 0, lo: 0 }),
        }
    }

    fn to_parts(&self) -> (r: Pair<u16, BlockHash>)
        ensures
            r == self.parts(),
    {
        match self {
            RaiElectionValue::Block(hash) => Pair(0u16, *hash),
            RaiElectionValue::CloseCutHash(hash) => Pair(1u16, *hash),
            RaiElectionValue::CloseRecordHash(hash) => Pair(2u16, *hash),
            RaiElectionValue::Timeout => Pair(3u16, BlockHash { hi: 0, lo: 0 }),
        }
    }
}

impl Key for RaiElectionValue {
    open spec fn rank(self) -> int {
        self.parts().rank()
    }

    open spec fn span() -> int {
        Pair::<u16, BlockHash>::span()
    }

    proof fn rank_in_span(self) {
        self.parts().rank_in_span();
    }

    proof fn rank_is_injective(a: Self, b: Self) {
        Pair::<u16, BlockHash>::rank_is_injective(a.parts(), b.parts());
    }

    fn precedes(&self, other: &Self) -> (r: bool) {
        self.to_parts().precedes(&other.to_parts())
    }
}

impl DeepView for RaiElectionValue {
    type V = RaiElectionValue;

    open spec fn deep_view(&self) -> RaiElectionValue {
        *self
    }
}

impl Duplicate for RaiElectionValue {
    fn duplicate(&self) -> (r: Self) {
        *self
    }

    fn agrees(&self, other: &Self) -> (r: bool) {
        *self == *other
    }
}

/// The kind of a vote.
#[derive(Clone, Copy, Debug, PartialEq, Eq, PartialOrd, Ord, Hash, Structural)]
pub enum RaiVoteKind {
    First,
    Notarization,
    Final,
}

impl DeepView for RaiVoteKind {
    type V = RaiVoteKind;

    open spec fn deep_view(&self) -> RaiVoteKind {
        *self
    }
}

impl Duplicate for RaiVoteKind {
    fn duplicate(&self) -> (r: Self) {
        *self
    }

    fn agrees(&self, other: &Self) -> (r: bool) {
        *self == *other
    }
}

/// The committees that a vote is meant for.
#[derive(Clone, Copy, Debug, PartialEq, Eq, PartialOrd, Ord, Hash, Structural)]
pub enum RaiVoteScope {
    All,
    Committee(u8),
}

impl DeepView for RaiVoteScope {
    type V = RaiVoteScope;

    open spec fn deep_view(&self) -> RaiVoteScope {
        *self
    }
}

impl Duplicate for RaiVoteScope {
    fn duplicate(&self) -> (r: Self) {
        *self
    }

    fn agrees(&self, other: &Self) -> (r: bool) {
        *self == *other
    }
}

/// A signed vote.
#[derive(Clone, Copy, Debug, PartialEq, Eq, PartialOrd, Ord, Hash, Structural)]
pub struct RaiVote {
    pub voter: PublicKey,
    pub election_id: RaiElectionId,
    pub kind: RaiVoteKind,
    pub value: RaiElectionValue,
    pub scope: RaiVoteScope,
    pub signature: Signature,
}

impl RaiVote {
    /// A vote to all committees that is not signed yet.
    pub open spec fn unsigned(
        voter: PublicKey,
        election_id: RaiElectionId,
        kind: RaiVoteKind,
        value: RaiElectionValue,
    ) -> RaiVote {
        RaiVote {
            voter,
            election_id,
            kind,
            value,
            scope: RaiVoteScope::All,
            signature: Signature { r_hi: 0, r_lo: 0, s_hi: 0, s_lo: 0 },
        }
    }

    pub fn new(voter: PublicKey, election_id: RaiElectionId, kind: RaiVoteKind, value: RaiElectionValue) -> (r: Self)
        ensures
            r == RaiVote::unsigned(voter, election_id, kind, value),
    {
        RaiVote { voter, election_id, kind, value, scope: RaiVoteScope::All, signature: Signature::new() }
    }

    pub fn new_first(voter: PublicKey, election_id: RaiElectionId, value: RaiElectionValue) -> (r: Self)
        ensures
            r == RaiVote::unsigned(voter, election_id, RaiVoteKind::First, value),
    {
        RaiVote::new(voter, election_id, RaiVoteKind::First, value)
    }

    pub fn new_notarization(voter: PublicKey, election_id: RaiElectionId, value: RaiElectionValue) -> (r: Self)
        ensures
            r == RaiVote::unsigned(voter, election_id, RaiVoteKind::Notarization, value),
    {
        RaiVote::new(voter, election_id, RaiVoteKind::Notarization, value)
    }

    pub fn new_final(voter: PublicKey, election_id: RaiElectionId, value: RaiElectionValue) -> (r: Self)
        ensures
            r == RaiVote::unsigned(voter, election_id, RaiVoteKind::Final, value),
    {
        RaiVote::new(voter, election_id, RaiVoteKind::Final, value)
    }
}

impl DeepView for RaiVote {
    type V = RaiVote;

    open spec fn deep_view(&self) -> RaiVote {
        *self
    }
}

impl Duplicate for RaiVote {
    fn duplicate(&self) -> (r: Self) {
        *self
    }

    fn agrees(&self, other: &Self) -> (r: bool) {
        *self == *other
    }
}

/// Why a vote was not counted.
#[derive(Clone, Copy, Debug, PartialEq, Eq, PartialOrd, Ord, Hash, Structural)]
pub enum VoteError {
    Invalid,
    Replay,
    Indeterminate,
    Ignored,
    Late,
}

impl DeepView for VoteError {
    type V = VoteError;

    open spec fn deep_view(&self) -> VoteError {
        *self
    }
}

impl Duplicate for VoteError {
    fn duplicate(&self) -> (r: Self) {
        *self
    }

    fn agrees(&self, other: &Self) -> (r: bool) {
        *self == *other
    }
}

/// The slots that a representative reports as pending in an epoch.
#[derive(Debug, PartialEq, Eq)]
pub struct RaiPendingReport {
    pub epoch: u64,
    pub reporter: PublicKey,
    pub slots: Vec<RaiSlot>,
    pub signature: Signature,
}

/// The model of a pending report.
#[verifier::ext_equal]
pub struct PendingReport {
    pub epoch: u64,
    pub reporter: PublicKey,
    pub slots: Seq<RaiSlot>,
    pub signature: Signature,
}

impl DeepView for RaiPendingReport {
    type V = PendingReport;

    open spec fn deep_view(&self) -> PendingReport {
        PendingReport {
            epoch: self.epoch,
            reporter: self.reporter,
            slots: self.slots@,
            signature: self.signature,
        }
    }
}

impl Duplicate for RaiPendingReport {
    fn duplicate(&self) -> (r: Self) {
        RaiPendingReport {
            epoch: self.epoch,
            reporter: self.reporter,
            slots: copy_all(&self.slots),
            signature: self.signature,
        }
    }

    fn agrees(&self, other: &Self) -> (r: bool) {
        let same = self.slots.agrees(&other.slots);
        proof {
            assert(self.slots.deep_view() =~= self.slots@);
            assert(other.slots.deep_view() =~= other.slots@);
        }
        same && self.epoch == other.epoch && self.reporter == other.reporter && self.signature == other.signature
    }
}

impl RaiPendingReport {
    /// A report that is not signed yet.
    pub fn new(reporter: PublicKey, epoch: u64, slots: Vec<RaiSlot>) -> (r: Self)
        ensures
            r.epoch == epoch,
            r.reporter == reporter,
            r.slots@ == slots@,
            r.signature == (Signature { r_hi: 0, r_lo: 0, s_hi: 0, s_lo: 0 }),
    {
        RaiPendingReport { epoch, reporter, slots, signature: Signature::new() }
    }
}

/// Hashes, keys, accounts and roots are ordered as numbers, by the upper half first, and
/// slots by account and then height.
pub proof fn values_are_ordered_as_numbers(
    a: BlockHash,
    b: BlockHash,
    k: PublicKey,
    l: PublicKey,
    x: Account,
    y: Account,
    m: u64,
    n: u64,
)
    ensures
        a.rank() < b.rank() <==> a.hi < b.hi || (a.hi == b.hi && a.lo < b.lo),
        k.rank() < l.rank() <==> k.hi < l.hi || (k.hi == l.hi && k.lo < l.lo),
        x.rank() < y.rank() <==> x.hi < y.hi || (x.hi == y.hi && x.lo < y.lo),
        (RaiSlot { account: x, account_height: m }).rank() < (RaiSlot { account: y, account_height: n }).rank() <==> x.rank()
            < y.rank() || (x == y && m < n),
{
    lemma_pair_order(a.hi, a.lo, b.hi, b.lo);
    lemma_pair_order(k.hi, k.lo, l.hi, l.lo);
    lemma_pair_order(x.hi, x.lo, y.hi, y.lo);
    x.rank_in_span();
    y.rank_in_span();
    if x.rank() == y.rank() {
        Account::rank_is_injective(x, y);
    }
    lemma_pair_order(x, m, y, n);
}

proof fn lemma_pair_order<A: Key, B: Key>(a: A, b: B, c: A, d: B)
    ensures
        Pair(a, b).rank() < Pair(c, d).rank() <==> a.rank() < c.rank() || (a.rank() == c.rank() && b.rank() < d.rank()),
{
    a.rank_in_span();
    c.rank_in_span();
    b.rank_in_span();
    d.rank_in_span();
    let s = B::span();
    let p = a.rank();
    let q = c.rank();
    assert(p < q ==> p * s + s <= q * s) by (nonlinear_arith)
        requires
            s > 0,
    ;
    assert(q < p ==> q * s + s <= p * s) by (nonlinear_arith)
        requires
            s > 0,
    ;
}

/// The bytes of a value are its upper half and then its lower half, sixteen each; a slot's
/// height follows its account in eight.
pub proof fn halves_are_written_in_turn(a: BlockHash, slot: RaiSlot)
    ensures
        a.bytes().len() == 32,
        a.bytes().subrange(0, 16) == be_bytes(a.hi as nat, 16),
        a.bytes().subrange(16, 32) == be_bytes(a.lo as nat, 16),
        slot.bytes().len() == 40,
        slot.bytes().subrange(0, 32) == slot.account.bytes(),
        slot.bytes().subrange(32, 40) == be_bytes(slot.account_height as nat, 8),
{
    lemma_be_bytes_len(a.hi as nat, 16);
    lemma_be_bytes_len(a.lo as nat, 16);
    slot.account.bytes_round_trip();
    lemma_be_bytes_len(slot.account_height as nat, 8);
    assert(a.bytes().subrange(0, 16) =~= be_bytes(a.hi as nat, 16));
    assert(a.bytes().subrange(16, 32) =~= be_bytes(a.lo as nat, 16));
    assert(slot.bytes().subrange(0, 32) =~= slot.account.bytes());
    assert(slot.bytes().subrange(32, 40) =~= be_bytes(slot.account_height as nat, 8));
}

/// Elections are ordered by kind, those of a slot before those on a cut and those on a
/// record, and within a kind by slot, epoch and attempt; every election belongs to the
/// epoch it names.
pub proof fn elections_are_ordered_by_kind(slot: RaiSlot, epoch: u64, e: u64, f: u64, a: u64, b: u64)
    ensures
        (RaiElectionId::Slot { slot, epoch }).rank() < (RaiElectionId::CloseCut { epoch: e, attempt: a }).rank(),
        (RaiElectionId::CloseCut { epoch: e, attempt: a }).rank() < (RaiElectionId::CloseRecord { epoch: f, attempt: b }).rank(),
        (RaiElectionId::CloseCut { epoch: e, attempt: a }).rank() < (RaiElectionId::CloseCut { epoch: f, attempt: b }).rank()
            <==> e < f || (e == f && a < b),
        (RaiElectionId::CloseRecord { epoch: e, attempt: a }).rank() < (RaiElectionId::CloseRecord {
            epoch: f,
            attempt: b,
        }).rank() <==> e < f || (e == f && a < b),
        (RaiElectionId::Slot { slot, epoch }).epoch_of() == epoch,
        (RaiElectionId::CloseCut { epoch: e, attempt: a }).epoch_of() == e,
        (RaiElectionId::CloseRecord { epoch: f, attempt: b }).epoch_of() == f,
{
    let none = RaiSlot { account: Account { hi: 0, lo: 0 }, account_height: 0 };
    lemma_pair_order(0u16, Pair(slot, Pair(epoch, 0u64)), 1u16, Pair(none, Pair(e, a)));
    lemma_pair_order(1u16, Pair(none, Pair(e, a)), 2u16, Pair(none, Pair(f, b)));
    lemma_pair_order(1u16, Pair(none, Pair(e, a)), 1u16, Pair(none, Pair(f, b)));
    lemma_pair_order(2u16, Pair(none, Pair(e, a)), 2u16, Pair(none, Pair(f, b)));
    lemma_pair_order(none, Pair(e, a), none, Pair(f, b));
    lemma_pair_order(e, a, f, b);
}

}
