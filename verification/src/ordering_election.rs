//! An election on a set of blocks to order, in rounds of three steps.
//!
//! In the first step of a round the members agree on the highest rank, in the
//! second on its value, in the third on whether all saw the same value.
use vstd::prelude::*;

use crate::ordered::{
    ascending, lemma_ascending, lemma_take_distinct, lemma_take_set, sorted_map_is_finite, sorted_set_is_finite, Duplicate, Key,
    SortedMap, SortedSet,
};
use crate::types::{BlockHash, PublicKey};

verus! {

broadcast use {sorted_map_is_finite, sorted_set_is_finite};

/// How long a round may take.
pub const ROUND_TIMEOUT_MS: u64 = 30_000;

/// A message of the election.
#[derive(Debug, PartialEq, Eq)]
pub enum Message {
    RStepQuery { rank: u64, value: SortedSet<BlockHash> },
    RStepResponse { rank: u64, max_rank: u64, value: SortedSet<BlockHash> },
    AStepQuery { rank: u64, value: SortedSet<BlockHash> },
    AStepResponse { rank: u64, values: Vec<SortedSet<BlockHash>> },
    BStepQuery { rank: u64, flag: bool, value: SortedSet<BlockHash> },
    BStepResponse { rank: u64, pairs: Vec<FlaggedValue> },
}

/// The model of a message.
#[verifier::ext_equal]
pub enum Content {
    RStepQuery { rank: u64, value: Set<BlockHash> },
    RStepResponse { rank: u64, max_rank: u64, value: Set<BlockHash> },
    AStepQuery { rank: u64, value: Set<BlockHash> },
    AStepResponse { rank: u64, values: Seq<Set<BlockHash>> },
    BStepQuery { rank: u64, flag: bool, value: Set<BlockHash> },
    BStepResponse { rank: u64, pairs: Seq<Flagged> },
}

impl DeepView for Message {
    type V = Content;

    open spec fn deep_view(&self) -> Content {
        match self {
            Message::RStepQuery { rank, value } => Content::RStepQuery { rank: *rank, value: value@ },
            Message::RStepResponse { rank, max_rank, value } => Content::RStepResponse {
                rank: *rank,
                max_rank: *max_rank,
                value: value@,
            },
            Message::AStepQuery { rank, value } => Content::AStepQuery { rank: *rank, value: value@ },
            Message::AStepResponse { rank, values } => Content::AStepResponse { rank: *rank, values: values.deep_view() },
            Message::BStepQuery { rank, flag, value } => Content::BStepQuery { rank: *rank, flag: *flag, value: value@ },
            Message::BStepResponse { rank, pairs } => Content::BStepResponse { rank: *rank, pairs: pairs.deep_view() },
        }
    }
}

/// A value and whether all members were seen to have it.
#[derive(Debug, PartialEq, Eq)]
pub struct FlaggedValue {
    pub flag: bool,
    pub value: SortedSet<BlockHash>,
}

/// The model of a flagged value.
#[verifier::ext_equal]
pub struct Flagged {
    pub flag: bool,
    pub value: Set<BlockHash>,
}

impl DeepView for FlaggedValue {
    type V = Flagged;

    open spec fn deep_view(&self) -> Flagged {
        Flagged { flag: self.flag, value: self.value@ }
    }
}

/// A value and the rank that it was seen at.
#[derive(Debug, PartialEq, Eq)]
pub struct RankedValue {
    pub rank: u64,
    pub value: SortedSet<BlockHash>,
}

/// The model of a ranked value.
#[verifier::ext_equal]
pub struct Ranked {
    pub rank: u64,
    pub value: Set<BlockHash>,
}

impl DeepView for RankedValue {
    type V = Ranked;

    open spec fn deep_view(&self) -> Ranked {
        Ranked { rank: self.rank, value: self.value@ }
    }
}

/// The responses of a step, which justify the next query.
#[derive(Debug, PartialEq, Eq)]
pub struct PartialCertificate {
    pub responses: SortedMap<PublicKey, Message>,
}

impl DeepView for PartialCertificate {
    type V = Map<PublicKey, Content>;

    open spec fn deep_view(&self) -> Map<PublicKey, Content> {
        self.responses@
    }
}

/// The step that an election is in.
#[derive(Clone, Copy, Debug, PartialEq, Eq, Structural)]
pub enum ArchipelagoState {
    RStep,
    AStep,
    BStep,
    Completed,
}

/// A message that the node sends.
#[derive(Debug, PartialEq, Eq)]
pub enum Outgoing {
    /// To all members.
    Broadcast { message: Message, certificate: PartialCertificate },
    /// To the member that asked.
    Reply { recipient: PublicKey, message: Message },
}

/// The model of a message that the node sends.
#[verifier::ext_equal]
pub enum Sent {
    Broadcast { message: Content, certificate: Map<PublicKey, Content> },
    Reply { recipient: PublicKey, message: Content },
}

impl DeepView for Outgoing {
    type V = Sent;

    open spec fn deep_view(&self) -> Sent {
        match self {
            Outgoing::Broadcast { message, certificate } => Sent::Broadcast {
                message: message.deep_view(),
                certificate: certificate.deep_view(),
            },
            Outgoing::Reply { recipient, message } => Sent::Reply { recipient: *recipient, message: message.deep_view() },
        }
    }
}

/// Whether a message was accepted, and what is sent on account of it.
#[derive(Debug, PartialEq, Eq)]
pub struct Handled {
    pub accepted: bool,
    pub outgoing: Option<Outgoing>,
}

/// An election on a set of blocks.
pub struct OrderingElection {
    pub rank: u64,
    pub state: ArchipelagoState,
    pub proposed_value: SortedSet<BlockHash>,
    pub current_value: SortedSet<BlockHash>,
    pub r_responses: SortedMap<PublicKey, RankedValue>,
    pub a_responses: SortedMap<PublicKey, Vec<SortedSet<BlockHash>>>,
    pub b_responses: SortedMap<PublicKey, Vec<FlaggedValue>>,
    pub last_certificate: PartialCertificate,
    pub timeout_ms: u64,
}

/// The model of the election.
#[verifier::ext_equal]
pub struct OrderingRound {
    pub rank: u64,
    pub state: ArchipelagoState,
    pub proposed: Set<BlockHash>,
    pub current: Set<BlockHash>,
    pub r_responses: Map<PublicKey, Ranked>,
    pub a_responses: Map<PublicKey, Seq<Set<BlockHash>>>,
    pub b_responses: Map<PublicKey, Seq<Flagged>>,
    pub certificate: Map<PublicKey, Content>,
    pub timeout_ms: u64,
}

impl View for OrderingElection {
    type V = OrderingRound;

    open spec fn view(&self) -> OrderingRound {
        OrderingRound {
            rank: self.rank,
            state: self.state,
            proposed: self.proposed_value@,
            current: self.current_value@,
            r_responses: self.r_responses@,
            a_responses: self.a_responses@,
            b_responses: self.b_responses@,
            certificate: self.last_certificate.responses@,
            timeout_ms: self.timeout_ms,
        }
    }
}

/// How many of `validators` members make up a quorum: of `3f + 1` members `2f + 1`.
pub open spec fn quorum_of(validators: nat) -> nat {
    2 * (((validators - 1) as nat) / 3) + 1
}

/// The first keys of a map, at most `n`.
pub open spec fn first_keys<V>(m: Map<PublicKey, V>, n: nat) -> Set<PublicKey> {
    let q = ascending(m.dom());
    q.take(if n < q.len() {
        n as int
    } else {
        q.len() as int
    }).to_set()
}

/// The member among `q` with the highest rank; of several the last one.
pub open spec fn top(m: Map<PublicKey, Ranked>, q: Seq<PublicKey>) -> PublicKey
    decreases q.len(),
{
    if q.len() <= 1 {
        q[0]
    } else {
        let best = top(m, q.drop_last());
        if m[q.last()].rank >= m[best].rank {
            q.last()
        } else {
            best
        }
    }
}

/// The first flagged value of a response.
pub open spec fn flagged(pairs: Seq<Flagged>) -> Option<Set<BlockHash>>
    decreases pairs.len(),
{
    if pairs.len() == 0 {
        None
    } else if flagged(pairs.drop_last()) is Some {
        flagged(pairs.drop_last())
    } else if pairs.last().flag {
        Some(pairs.last().value)
    } else {
        None
    }
}

/// The first flagged value of the responses of the members of a list.
pub open spec fn first_flagged(m: Map<PublicKey, Seq<Flagged>>, q: Seq<PublicKey>) -> Option<Set<BlockHash>>
    decreases q.len(),
{
    if q.len() == 0 {
        None
    } else if first_flagged(m, q.drop_last()) is Some {
        first_flagged(m, q.drop_last())
    } else {
        flagged(m[q.last()])
    }
}

/// The members whose response has a flagged value.
pub open spec fn flagging(m: Map<PublicKey, Seq<Flagged>>) -> Set<PublicKey> {
    Set::new(|k: PublicKey| m.contains_key(k) && flagged(m[k]) is Some)
}

impl OrderingRound {
    /// In the first step, with what is sent.
    pub open spec fn in_r_step(self) -> OrderingRound {
        OrderingRound { state: ArchipelagoState::RStep, r_responses: Map::empty(), ..self }
    }

    pub open spec fn r_query(self) -> Sent {
        Sent::Broadcast {
            message: Content::RStepQuery { rank: self.rank, value: self.current },
            certificate: if self.rank == 0 {
                Map::empty()
            } else {
                self.certificate
            },
        }
    }

    /// The next round, with another value.
    pub open spec fn next_round(self, value: Set<BlockHash>, now: u64) -> OrderingRound {
        OrderingRound {
            rank: (self.rank + 1) as u64,
            current: value,
            timeout_ms: (now + ROUND_TIMEOUT_MS) as u64,
            ..self
        }.in_r_step()
    }

    /// A query of a rank is justified by its certificate.
    pub open spec fn is_justified(rank: u64, certificate: Map<PublicKey, Content>, validators: nat) -> bool {
        rank == 0 || certificate.len() >= quorum_of(validators)
    }

    /// After the query of a rank: a higher rank is adopted with its value.
    pub open spec fn asked_r(self, rank: u64, value: Set<BlockHash>) -> OrderingRound {
        if rank > self.rank {
            OrderingRound { rank, current: value, ..self }
        } else {
            self
        }
    }

    /// The first responses, as the certificate of the second step.
    pub open spec fn r_certificate(self, n: nat) -> Map<PublicKey, Content> {
        Map::new(
            |k: PublicKey| first_keys(self.r_responses, n).contains(k),
            |k: PublicKey|
                Content::RStepResponse {
                    rank: self.rank,
                    max_rank: self.r_responses[k].rank,
                    value: self.r_responses[k].value,
                },
        )
    }

    /// The first responses, as the certificate of the third step.
    pub open spec fn a_certificate(self, n: nat) -> Map<PublicKey, Content> {
        Map::new(
            |k: PublicKey| first_keys(self.a_responses, n).contains(k),
            |k: PublicKey| Content::AStepResponse { rank: self.rank, values: self.a_responses[k] },
        )
    }

    /// In the second step, with the value of the highest rank.
    pub open spec fn in_a_step(self, n: nat) -> OrderingRound {
        OrderingRound {
            current: self.r_responses[top(self.r_responses, ascending(self.r_responses.dom()))].value,
            state: ArchipelagoState::AStep,
            a_responses: Map::empty(),
            certificate: self.r_certificate(n),
            ..self
        }
    }

    /// All responses hold the current value and no other.
    pub open spec fn is_consistent(self) -> bool {
        forall|k: PublicKey, i: int|
            self.a_responses.contains_key(k) && 0 <= i < self.a_responses[k].len() ==> (#[trigger] self.a_responses[k][i])
                == self.current
    }

    /// In the third step.
    pub open spec fn in_b_step(self, n: nat) -> OrderingRound {
        OrderingRound {
            state: ArchipelagoState::BStep,
            b_responses: Map::empty(),
            certificate: self.a_certificate(n),
            ..self
        }
    }

    /// After a response of the first step.
    pub open spec fn heard_r(self, sender: PublicKey, response: Ranked, validators: nat) -> OrderingRound {
        let n = quorum_of(validators);
        let more = OrderingRound { r_responses: self.r_responses.insert(sender, response), ..self };
        if more.r_responses.len() >= n {
            more.in_a_step(n)
        } else {
            more
        }
    }

    /// After a response of the second step.
    pub open spec fn heard_a(self, sender: PublicKey, values: Seq<Set<BlockHash>>, validators: nat) -> OrderingRound {
        let n = quorum_of(validators);
        let more = OrderingRound { a_responses: self.a_responses.insert(sender, values), ..self };
        if more.a_responses.len() >= n {
            more.in_b_step(n)
        } else {
            more
        }
    }

    /// What is sent after a response of the second step.
    pub open spec fn b_query(self, sender: PublicKey, values: Seq<Set<BlockHash>>, validators: nat) -> Option<Sent> {
        let n = quorum_of(validators);
        let more = OrderingRound { a_responses: self.a_responses.insert(sender, values), ..self };
        if more.a_responses.len() >= n {
            Some(
                Sent::Broadcast {
                    message: Content::BStepQuery {
                        rank: self.rank,
                        flag: more.is_consistent(),
                        value: self.current,
                    },
                    certificate: more.a_certificate(n),
                },
            )
        } else {
            None
        }
    }

    /// What is sent after a response of the first step.
    pub open spec fn a_query(self, sender: PublicKey, response: Ranked, validators: nat) -> Option<Sent> {
        let after = self.heard_r(sender, response, validators);
        if self.r_responses.insert(sender, response).len() >= quorum_of(validators) {
            Some(
                Sent::Broadcast {
                    message: Content::AStepQuery { rank: self.rank, value: after.current },
                    certificate: after.certificate,
                },
            )
        } else {
            None
        }
    }

    /// The values that a query of the second step is answered with.
    pub open spec fn a_answer(self, value: Set<BlockHash>) -> Seq<Set<BlockHash>> {
        if value == self.current {
            seq![self.current]
        } else {
            seq![self.current, value]
        }
    }

    /// A message is accepted.
    pub open spec fn accepts(self, message: Content, certificate: Map<PublicKey, Content>, validators: nat) -> bool {
        match message {
            Content::RStepQuery { rank, value } => Self::is_justified(rank, certificate, validators),
            Content::RStepResponse { rank, max_rank, value } => rank == self.rank,
            Content::AStepQuery { rank, value } => certificate.len() >= quorum_of(validators),
            Content::AStepResponse { rank, values } => rank == self.rank,
            _ => false,
        }
    }

    /// After a message.
    pub open spec fn handled(
        self,
        sender: PublicKey,
        message: Content,
        certificate: Map<PublicKey, Content>,
        validators: nat,
    ) -> OrderingRound {
        if !self.accepts(message, certificate, validators) {
            self
        } else {
            match message {
                Content::RStepQuery { rank, value } => self.asked_r(rank, value),
                Content::RStepResponse { rank, max_rank, value } => self.heard_r(
                    sender,
                    Ranked { rank: max_rank, value },
                    validators,
                ),
                Content::AStepResponse { rank, values } => self.heard_a(sender, values, validators),
                _ => self,
            }
        }
    }

    /// What is sent on account of a message.
    pub open spec fn reaction(
        self,
        sender: PublicKey,
        message: Content,
        certificate: Map<PublicKey, Content>,
        validators: nat,
    ) -> Option<Sent> {
        if !self.accepts(message, certificate, validators) {
            None
        } else {
            match message {
                Content::RStepQuery { rank, value } => {
                    let after = self.asked_r(rank, value);
                    Some(
                        Sent::Reply {
                            recipient: sender,
                            message: Content::RStepResponse { rank, max_rank: after.rank, value: after.current },
                        },
                    )
                },
                Content::RStepResponse { rank, max_rank, value } => self.a_query(
                    sender,
                    Ranked { rank: max_rank, value },
                    validators,
                ),
                Content::AStepQuery { rank, value } => Some(
                    Sent::Reply {
                        recipient: sender,
                        message: Content::AStepResponse { rank, values: self.a_answer(value) },
                    },
                ),
                Content::AStepResponse { rank, values } => self.b_query(sender, values, validators),
                _ => None,
            }
        }
    }

    /// The value that the next round starts with.
    pub open spec fn next_value(self) -> Set<BlockHash> {
        match first_flagged(self.b_responses, ascending(self.b_responses.dom())) {
            Some(value) => value,
            None => self.current,
        }
    }

    /// Enough members saw that all had the same value.
    pub open spec fn is_decided(self, validators: nat) -> bool {
        flagging(self.b_responses).len() >= quorum_of(validators)
    }

    /// After the responses of the third step were looked at.
    pub open spec fn settled(self, validators: nat, now: u64) -> OrderingRound {
        if self.is_decided(validators) {
            OrderingRound { state: ArchipelagoState::Completed, ..self }
        } else {
            self.next_round(self.next_value(), now)
        }
    }
}

/// How many of `validators` members make up a quorum.
pub fn quorum_size(validators: usize) -> (r: usize)
    requires
        validators > 0,
    ensures
        r == quorum_of(validators as nat),
{
    let f: usize = (validators - 1) / 3;
    2 * f + 1
}

impl PartialCertificate {
    pub fn new() -> (r: Self)
        ensures
            r.deep_view() == Map::<PublicKey, Content>::empty(),
    {
        PartialCertificate { responses: SortedMap::new() }
    }

    fn copied(&self) -> (r: Self)
        ensures
            r.deep_view() == self.deep_view(),
    {
        let mut responses: SortedMap<PublicKey, Message> = SortedMap::new();
        let count: usize = self.responses.len();
        let ghost q = ascending(self.responses@.dom());
        proof {
            lemma_ascending(self.responses@.dom());
        }
        for i in 0..count
            invariant
                count == self.responses@.len(),
                q == ascending(self.responses@.dom()),
                q.len() == count,
                responses@.dom() == q.take(i as int).to_set(),
                forall|k: PublicKey| #[trigger] responses@.contains_key(k) ==> responses@[k] == self.responses@[k],
        {
            let key = self.responses.key_at(i);
            let message = self.responses.value_at(i).copied();
            responses.insert(key, message);
            proof {
                lemma_take_set(q, i as int);
                assert(responses@.dom() =~= q.take(i + 1).to_set());
            }
        }
        proof {
            assert(q.take(count as int) =~= q);
            assert(responses@ =~= self.responses@);
        }
        PartialCertificate { responses }
    }
}

fn copy_pairs(pairs: &Vec<FlaggedValue>) -> (r: Vec<FlaggedValue>)
    ensures
        r.deep_view() == pairs.deep_view(),
{
    let mut r: Vec<FlaggedValue> = Vec::new();
    for i in 0..pairs.len()
        invariant
            r@.len() == i,
            forall|j: int| 0 <= j < i ==> (#[trigger] r@[j]).deep_view() == pairs@[j].deep_view(),
    {
        r.push(FlaggedValue { flag: pairs[i].flag, value: pairs[i].value.duplicate() });
    }
    proof {
        assert(r.deep_view() =~= pairs.deep_view());
    }
    r
}

impl Message {
    fn copied(&self) -> (r: Self)
        ensures
            r.deep_view() == self.deep_view(),
    {
        match self {
            Message::RStepQuery { rank, value } => Message::RStepQuery { rank: *rank, value: value.duplicate() },
            Message::RStepResponse { rank, max_rank, value } => Message::RStepResponse {
                rank: *rank,
                max_rank: *max_rank,
                value: value.duplicate(),
            },
            Message::AStepQuery { rank, value } => Message::AStepQuery { rank: *rank, value: value.duplicate() },
            Message::AStepResponse { rank, values } => Message::AStepResponse { rank: *rank, values: values.duplicate() },
            Message::BStepQuery { rank, flag, value } => Message::BStepQuery {
                rank: *rank,
                flag: *flag,
                value: value.duplicate(),
            },
            Message::BStepResponse { rank, pairs } => Message::BStepResponse { rank: *rank, pairs: copy_pairs(pairs) },
        }
    }
}

impl OrderingElection {
    /// An election on the proposed blocks.
    pub fn new(proposed_blocks: SortedSet<BlockHash>, now: u64) -> (r: Self)
        requires
            now <= u64::MAX - ROUND_TIMEOUT_MS,
        ensures
            r@ == (OrderingRound {
                rank: 0,
                state: ArchipelagoState::RStep,
                proposed: proposed_blocks@,
                current: proposed_blocks@,
                r_responses: Map::empty(),
                a_responses: Map::empty(),
                b_responses: Map::empty(),
                certificate: Map::empty(),
                timeout_ms: (now + ROUND_TIMEOUT_MS) as u64,
            }),
    {
        let current_value = proposed_blocks.duplicate();
        OrderingElection {
            rank: 0,
            state: ArchipelagoState::RStep,
            proposed_value: proposed_blocks,
            current_value,
            r_responses: SortedMap::new(),
            a_responses: SortedMap::new(),
            b_responses: SortedMap::new(),
            last_certificate: PartialCertificate::new(),
            timeout_ms: now + ROUND_TIMEOUT_MS,
        }
    }

    /// An election that is started at once, with the query that goes out.
    pub fn create_ordering_election(blocks: SortedSet<BlockHash>, now: u64) -> (r: (Self, Outgoing))
        requires
            now <= u64::MAX - ROUND_TIMEOUT_MS,
        ensures
            r.0@.rank == 0,
            r.0@.state == ArchipelagoState::RStep,
            r.0@.proposed == blocks@,
            r.0@.current == blocks@,
            r.0@.timeout_ms == now + ROUND_TIMEOUT_MS,
            r.0@.r_responses == Map::<PublicKey, Ranked>::empty(),
            r.0@.a_responses == Map::<PublicKey, Seq<Set<BlockHash>>>::empty(),
            r.0@.b_responses == Map::<PublicKey, Seq<Flagged>>::empty(),
            r.0@.certificate == Map::<PublicKey, Content>::empty(),
            r.1.deep_view() == (Sent::Broadcast {
                message: Content::RStepQuery { rank: 0, value: blocks@ },
                certificate: Map::empty(),
            }),
    {
        let mut election = Self::new(blocks, now);
        let query = election.start();
        (election, query)
    }

    /// Starts the election: the query of the first step goes out.
    pub fn start(&mut self) -> (r: Outgoing)
        ensures
            final(self)@ == old(self)@.in_r_step(),
            r.deep_view() == old(self)@.r_query(),
    {
        self.run_r_step()
    }

    fn run_r_step(&mut self) -> (r: Outgoing)
        ensures
            final(self)@ == old(self)@.in_r_step(),
            r.deep_view() == old(self)@.r_query(),
    {
        self.state = ArchipelagoState::RStep;
        self.r_responses = SortedMap::new();
        let certificate = if self.rank == 0 {
            PartialCertificate::new()
        } else {
            self.last_certificate.copied()
        };
        Outgoing::Broadcast {
            message: Message::RStepQuery { rank: self.rank, value: self.current_value.duplicate() },
            certificate,
        }
    }

    fn r_certificate(&self, n: usize) -> (r: PartialCertificate)
        ensures
            r.deep_view() == self@.r_certificate(n as nat),
    {
        let mut responses: SortedMap<PublicKey, Message> = SortedMap::new();
        let count: usize = if n < self.r_responses.len() {
            n
        } else {
            self.r_responses.len()
        };
        let ghost q = ascending(self@.r_responses.dom());
        for i in 0..count
            invariant
                count <= q.len(),
                q.len() == self@.r_responses.len(),
                q == ascending(self@.r_responses.dom()),
                responses@.dom() == q.take(i as int).to_set(),
                forall|k: PublicKey| #[trigger]
                    responses@.contains_key(k) ==> responses@[k] == (Content::RStepResponse {
                        rank: self.rank,
                        max_rank: self@.r_responses[k].rank,
                        value: self@.r_responses[k].value,
                    }),
        {
            let key = self.r_responses.key_at(i);
            let ranked = self.r_responses.value_at(i);
            responses.insert(
                key,
                Message::RStepResponse { rank: self.rank, max_rank: ranked.rank, value: ranked.value.duplicate() },
            );
            proof {
                lemma_take_set(q, i as int);
                assert(responses@.dom() =~= q.take(i + 1).to_set());
            }
        }
        proof {
            assert(responses@ =~= self@.r_certificate(n as nat));
        }
        PartialCertificate { responses }
    }

    fn a_certificate(&self, n: usize) -> (r: PartialCertificate)
        ensures
            r.deep_view() == self@.a_certificate(n as nat),
    {
        let mut responses: SortedMap<PublicKey, Message> = SortedMap::new();
        let count: usize = if n < self.a_responses.len() {
            n
        } else {
            self.a_responses.len()
        };
        let ghost q = ascending(self@.a_responses.dom());
        for i in 0..count
            invariant
                count <= q.len(),
                q.len() == self@.a_responses.len(),
                q == ascending(self@.a_responses.dom()),
                responses@.dom() == q.take(i as int).to_set(),
                forall|k: PublicKey| #[trigger]
                    responses@.contains_key(k) ==> responses@[k] == (Content::AStepResponse {
                        rank: self.rank,
                        values: self@.a_responses[k],
                    }),
        {
            let key = self.a_responses.key_at(i);
            let values = self.a_responses.value_at(i).duplicate();
            responses.insert(key, Message::AStepResponse { rank: self.rank, values });
            proof {
                lemma_take_set(q, i as int);
                assert(responses@.dom() =~= q.take(i + 1).to_set());
            }
        }
        proof {
            assert(responses@ =~= self@.a_certificate(n as nat));
        }
        PartialCertificate { responses }
    }

    /// The value of the highest rank among the responses.
    fn top_value(&self) -> (r: SortedSet<BlockHash>)
        requires
            self@.r_responses != Map::<PublicKey, Ranked>::empty(),
        ensures
            r@ == self@.r_responses[top(self@.r_responses, ascending(self@.r_responses.dom()))].value,
    {
        let count: usize = self.r_responses.len();
        let ghost m = self@.r_responses;
        let ghost q = ascending(m.dom());
        let mut best: usize = 0;
        for i in 1..count
            invariant
                m == self@.r_responses,
                count == m.len(),
                q == ascending(m.dom()),
                q.len() == count,
                best < i <= count,
                q[best as int] == top(m, q.take(i as int)),
        {
            proof {
                assert(q.take(i + 1).drop_last() =~= q.take(i as int));
                assert(q.take(i + 1).last() == q[i as int]);
            }
            if self.r_responses.value_at(i).rank >= self.r_responses.value_at(best).rank {
                best = i;
            }
        }
        proof {
            assert(q.take(count as int) =~= q);
        }
        self.r_responses.value_at(best).value.duplicate()
    }

    fn process_r_responses(&mut self, n: usize) -> (r: Outgoing)
        requires
            old(self)@.r_responses != Map::<PublicKey, Ranked>::empty(),
        ensures
            final(self)@ == old(self)@.in_a_step(n as nat),
            r.deep_view() == (Sent::Broadcast {
                message: Content::AStepQuery { rank: old(self)@.rank, value: final(self)@.current },
                certificate: final(self)@.certificate,
            }),
    {
        let certificate = self.r_certificate(n);
        self.current_value = self.top_value();
        self.state = ArchipelagoState::AStep;
        self.a_responses = SortedMap::new();
        self.last_certificate = certificate.copied();
        Outgoing::Broadcast {
            message: Message::AStepQuery { rank: self.rank, value: self.current_value.duplicate() },
            certificate,
        }
    }

    fn is_consistent(&self) -> (r: bool)
        ensures
            r == self@.is_consistent(),
    {
        let count: usize = self.a_responses.len();
        let ghost m = self@.a_responses;
        let ghost q = ascending(m.dom());
        for i in 0..count
            invariant
                m == self@.a_responses,
                count == m.len(),
                q == ascending(m.dom()),
                q.len() == count,
                forall|j: int, k: int|
                    0 <= j < i && 0 <= k < m[q[j]].len() ==> (#[trigger] m[q[j]][k]) == self@.current,
        {
            let values = self.a_responses.value_at(i);
            for k in 0..values.len()
                invariant
                    m == self@.a_responses,
                    0 <= i < q.len(),
                    m.contains_key(q[i as int]),
                    values.deep_view() == m[q[i as int]],
                    forall|l: int| 0 <= l < k ==> (#[trigger] m[q[i as int]][l]) == self@.current,
            {
                proof {
                    assert(m[q[i as int]][k as int] == values@[k as int]@);
                }
                if !values[k].agrees(&self.current_value) {
                    return false;
                }
            }
            proof {
                assert(values@.len() == m[q[i as int]].len());
            }
        }
        proof {
            lemma_ascending(m.dom());
            assert forall|k: PublicKey, i: int|
                m.contains_key(k) && 0 <= i < m[k].len() implies (#[trigger] m[k][i]) == self@.current by {
                assert(q.contains(k));
                let j = choose|j: int| 0 <= j < q.len() && q[j] == k;
                assert(m[q[j]][i] == self@.current);
            }
        }
        true
    }

    fn process_a_responses(&mut self, n: usize) -> (r: Outgoing)
        ensures
            final(self)@ == old(self)@.in_b_step(n as nat),
            r.deep_view() == (Sent::Broadcast {
                message: Content::BStepQuery {
                    rank: old(self)@.rank,
                    flag: old(self)@.is_consistent(),
                    value: old(self)@.current,
                },
                certificate: old(self)@.a_certificate(n as nat),
            }),
    {
        let flag = self.is_consistent();
        let certificate = self.a_certificate(n);
        self.state = ArchipelagoState::BStep;
        self.b_responses = SortedMap::new();
        self.last_certificate = certificate.copied();
        Outgoing::Broadcast {
            message: Message::BStepQuery { rank: self.rank, flag, value: self.current_value.duplicate() },
            certificate,
        }
    }

    fn handle_r_step_response(&mut self, sender: PublicKey, max_rank: u64, value: SortedSet<BlockHash>, validators: usize) -> (r:
        Option<Outgoing>)
        requires
            validators > 0,
        ensures
            final(self)@ == old(self)@.heard_r(sender, Ranked { rank: max_rank, value: value@ }, validators as nat),
            r.deep_view() == old(self)@.a_query(sender, Ranked { rank: max_rank, value: value@ }, validators as nat),
    {
        let n: usize = quorum_size(validators);
        self.r_responses.insert(sender, RankedValue { rank: max_rank, value });
        if self.r_responses.len() >= n {
            proof {
                assert(self@.r_responses.contains_key(sender));
            }
            Some(self.process_r_responses(n))
        } else {
            None
        }
    }

    fn handle_a_step_response(&mut self, sender: PublicKey, values: Vec<SortedSet<BlockHash>>, validators: usize) -> (r: Option<
        Outgoing,
    >)
        requires
            validators > 0,
        ensures
            final(self)@ == old(self)@.heard_a(sender, values.deep_view(), validators as nat),
            r.deep_view() == old(self)@.b_query(sender, values.deep_view(), validators as nat),
    {
        let n: usize = quorum_size(validators);
        self.a_responses.insert(sender, values);
        if self.a_responses.len() >= n {
            Some(self.process_a_responses(n))
        } else {
            None
        }
    }

    /// Handles a message. `validators` is the number of members. Messages of the
    /// third step are refused.
    pub fn handle_message(&mut self, sender: PublicKey, message: Message, certificate: &PartialCertificate, validators: usize) -> (r:
        Handled)
        requires
            validators > 0,
        ensures
            r.accepted == old(self)@.accepts(message.deep_view(), certificate.deep_view(), validators as nat),
            final(self)@ == old(self)@.handled(
                sender,
                message.deep_view(),
                certificate.deep_view(),
                validators as nat,
            ),
            r.outgoing.deep_view() == old(self)@.reaction(
                sender,
                message.deep_view(),
                certificate.deep_view(),
                validators as nat,
            ),
    {
        let refused = Handled { accepted: false, outgoing: None };
        match message {
            Message::RStepQuery { rank, value } => {
                if rank > 0 && certificate.responses.len() < quorum_size(validators) {
                    return refused;
                }
                if rank > self.rank {
                    self.rank = rank;
                    self.current_value = value;
                }
                let reply = Message::RStepResponse { rank, max_rank: self.rank, value: self.current_value.duplicate() };
                Handled { accepted: true, outgoing: Some(Outgoing::Reply { recipient: sender, message: reply }) }
            },
            Message::RStepResponse { rank, max_rank, value } => {
                if rank != self.rank {
                    return refused;
                }
                let outgoing = self.handle_r_step_response(sender, max_rank, value, validators);
                Handled { accepted: true, outgoing }
            },
            Message::AStepQuery { rank, value } => {
                if certificate.responses.len() < quorum_size(validators) {
                    return refused;
                }
                let mut values: Vec<SortedSet<BlockHash>> = Vec::new();
                let differs = !value.agrees(&self.current_value);
                let ghost asked = value@;
                values.push(self.current_value.duplicate());
                if differs {
                    values.push(value);
                }
                proof {
                    assert(values.deep_view() =~= self@.a_answer(asked));
                }
                let reply = Message::AStepResponse { rank, values };
                Handled { accepted: true, outgoing: Some(Outgoing::Reply { recipient: sender, message: reply }) }
            },
            Message::AStepResponse { rank, values } => {
                if rank != self.rank {
                    return refused;
                }
                let outgoing = self.handle_a_step_response(sender, values, validators);
                Handled { accepted: true, outgoing }
            },
            _ => refused,
        }
    }

    fn first_flag(pairs: &Vec<FlaggedValue>) -> (r: Option<usize>)
        ensures
            match r {
                Some(i) => i < pairs@.len() && flagged(pairs.deep_view()) == Some(pairs@[i as int].value@),
                None => flagged(pairs.deep_view()) is None,
            },
    {
        let ghost q = pairs.deep_view();
        let mut found: Option<usize> = None;
        for i in 0..pairs.len()
            invariant
                q == pairs.deep_view(),
                match found {
                    Some(j) => j < i && flagged(q.take(i as int)) == Some(pairs@[j as int].value@),
                    None => flagged(q.take(i as int)) is None,
                },
        {
            proof {
                assert(q.take(i + 1).drop_last() =~= q.take(i as int));
                assert(q.take(i + 1).last() == pairs@[i as int].deep_view());
            }
            if found.is_none() && pairs[i].flag {
                found = Some(i);
            }
        }
        proof {
            assert(q.take(q.len() as int) =~= q);
        }
        found
    }

    /// Looks at the responses of the third step: the election is decided, or the
    /// next round begins with a value that was flagged, if there is one.
    pub fn process_b_responses(&mut self, validators: usize, now: u64) -> (r: Option<Outgoing>)
        requires
            validators > 0,
            old(self)@.rank < u64::MAX,
            now <= u64::MAX - ROUND_TIMEOUT_MS,
        ensures
            final(self)@ == old(self)@.settled(validators as nat, now),
            r.deep_view() == if old(self)@.is_decided(validators as nat) {
                None
            } else {
                Some(final(self)@.r_query())
            },
    {
        let count: usize = self.b_responses.len();
        let ghost m = self@.b_responses;
        let ghost q = ascending(m.dom());
        let mut flags: usize = 0;
        let mut value: Option<SortedSet<BlockHash>> = None;
        let ghost mut found: Set<PublicKey> = Set::empty();
        proof {
            lemma_ascending(m.dom());
        }
        for i in 0..count
            invariant
                self@ == old(self)@,
                m == self@.b_responses,
                count == m.len(),
                q == ascending(m.dom()),
                q.len() == count,
                q.no_duplicates(),
                flags <= i,
                found.finite(),
                flags == found.len(),
                found == Set::new(|k: PublicKey| q.take(i as int).to_set().contains(k) && flagged(m[k]) is Some),
                value.deep_view() == first_flagged(m, q.take(i as int)),
        {
            let pairs = self.b_responses.value_at(i);
            let ghost before = found;
            proof {
                lemma_take_distinct(q, i as int);
                assert(q.take(i + 1).drop_last() =~= q.take(i as int));
                assert(q.take(i + 1).last() == q[i as int]);
            }
            if let Some(at) = Self::first_flag(pairs) {
                flags = flags + 1;
                if value.is_none() {
                    value = Some(pairs[at].value.duplicate());
                }
                proof {
                    found = found.insert(q[i as int]);
                    assert(!before.contains(q[i as int]));
                }
            }
            proof {
                assert(found =~= Set::new(
                    |k: PublicKey| q.take(i + 1).to_set().contains(k) && flagged(m[k]) is Some,
                ));
            }
        }
        proof {
            assert(q.take(count as int) =~= q);
            assert(found =~= flagging(m));
        }
        if flags >= quorum_size(validators) {
            self.state = ArchipelagoState::Completed;
            return None;
        }
        let next = match value {
            Some(value) => value,
            None => self.current_value.duplicate(),
        };
        Some(self.start_new_round(next, now))
    }

    fn start_new_round(&mut self, new_value: SortedSet<BlockHash>, now: u64) -> (r: Outgoing)
        requires
            old(self)@.rank < u64::MAX,
            now <= u64::MAX - ROUND_TIMEOUT_MS,
        ensures
            final(self)@ == old(self)@.next_round(new_value@, now),
            r.deep_view() == final(self)@.r_query(),
    {
        self.rank = self.rank + 1;
        self.current_value = new_value;
        self.timeout_ms = now + ROUND_TIMEOUT_MS;
        self.run_r_step()
    }

    /// Starts a new round with the current value, if the round has taken too long.
    pub fn check_timeout(&mut self, now: u64) -> (r: Option<Outgoing>)
        requires
            old(self)@.rank < u64::MAX,
            now <= u64::MAX - ROUND_TIMEOUT_MS,
        ensures
            now > old(self)@.timeout_ms ==> final(self)@ == old(self)@.next_round(old(self)@.current, now)
                && r.deep_view() == Some(final(self)@.r_query()),
            now <= old(self)@.timeout_ms ==> final(self)@ == old(self)@ && r is None,
    {
        if now > self.timeout_ms {
            let value = self.current_value.duplicate();
            Some(self.start_new_round(value, now))
        } else {
            None
        }
    }
}

/// Any two quorums share more members than may be faulty: of `n` members,
/// with `f` the largest number below a third of them.
pub proof fn quorums_share_a_correct_member(n: nat, a: Set<PublicKey>, b: Set<PublicKey>, all: Set<PublicKey>)
    requires
        n > 0,
        n % 3 == 1,
        all.finite(),
        all.len() == n,
        a.subset_of(all),
        b.subset_of(all),
        a.len() >= quorum_of(n),
        b.len() >= quorum_of(n),
    ensures
        a.intersect(b).len() > ((n - 1) as nat) / 3,
{
    vstd::set_lib::lemma_len_subset(a, all);
    vstd::set_lib::lemma_len_subset(b, all);
    let u = a.union(b);
    assert(u.subset_of(all));
    vstd::set_lib::lemma_len_subset(u, all);
    vstd::set_lib::lemma_set_intersect_union_lens(a, b);
}

/// The rank of an election never falls.
pub proof fn rank_never_falls(
    e: OrderingRound,
    sender: PublicKey,
    message: Content,
    certificate: Map<PublicKey, Content>,
    validators: nat,
    now: u64,
)
    requires
        e.rank < u64::MAX,
    ensures
        e.handled(sender, message, certificate, validators).rank >= e.rank,
        e.settled(validators, now).rank >= e.rank,
{
}

proof fn lemma_top(m: Map<PublicKey, Ranked>, q: Seq<PublicKey>)
    requires
        q.len() > 0,
    ensures
        q.contains(top(m, q)),
        forall|i: int| 0 <= i < q.len() ==> m[#[trigger] q[i]].rank <= m[top(m, q)].rank,
        exists|k: int|
            0 <= k < q.len() && top(m, q) == #[trigger] q[k] && forall|i: int|
                k < i < q.len() ==> m[#[trigger] q[i]].rank < m[top(m, q)].rank,
    decreases q.len(),
{
    if q.len() <= 1 {
        assert(q[0] == top(m, q));
    } else {
        let front = q.drop_last();
        lemma_top(m, front);
        let best = top(m, front);
        let k = choose|k: int|
            0 <= k < front.len() && best == #[trigger] front[k] && forall|i: int|
                k < i < front.len() ==> m[#[trigger] front[i]].rank < m[best].rank;
        assert(q[k] == best);
        assert forall|i: int| 0 <= i < q.len() implies m[#[trigger] q[i]].rank <= m[top(m, q)].rank by {
            if i < front.len() {
                assert(front[i] == q[i]);
            }
        }
        if m[q.last()].rank >= m[best].rank {
            assert(q[q.len() - 1] == top(m, q));
        } else {
            assert forall|i: int| k < i < q.len() implies m[#[trigger] q[i]].rank < m[top(m, q)].rank by {
                if i < front.len() {
                    assert(front[i] == q[i]);
                }
            }
        }
    }
}

proof fn lemma_first_keys<V>(m: Map<PublicKey, V>, n: nat)
    requires
        m.dom().finite(),
        n <= m.len(),
    ensures
        first_keys(m, n).finite(),
        first_keys(m, n).len() == n,
        first_keys(m, n).subset_of(m.dom()),
        forall|j: PublicKey, k: PublicKey|
            #![trigger first_keys(m, n).contains(j), m.contains_key(k)]
            first_keys(m, n).contains(j) && m.contains_key(k) && !first_keys(m, n).contains(k) ==> j.rank() < k.rank(),
{
    let q = ascending(m.dom());
    lemma_ascending(m.dom());
    let t = q.take(n as int);
    assert(t.no_duplicates());
    t.unique_seq_to_set();
    assert(first_keys(m, n) == t.to_set());
    assert forall|k: PublicKey| #[trigger] first_keys(m, n).contains(k) implies m.contains_key(k) by {
        assert(t.contains(k));
        let i = choose|i: int| 0 <= i < t.len() && t[i] == k;
        assert(q[i] == k);
    }
    assert forall|j: PublicKey, k: PublicKey|
        #![trigger first_keys(m, n).contains(j), m.contains_key(k)]
        first_keys(m, n).contains(j) && m.contains_key(k) && !first_keys(m, n).contains(k) implies j.rank() < k.rank() by {
        assert(t.contains(j));
        let i = choose|i: int| 0 <= i < t.len() && t[i] == j;
        assert(q[i] == j);
        assert(q.contains(k));
        let l = choose|l: int| 0 <= l < q.len() && q[l] == k;
        if l < n {
            assert(t[l] == k);
            assert(t.contains(k));
        }
        assert(q[i].rank() < q[l].rank());
    }
}

/// With answers of twice the tolerated faults and one more, the election moves on
/// to the second step with a value whose rank no other answer exceeds; among
/// several of that rank it is the one of the greatest sender. It asks everybody
/// about that value and proves it with that many of the answers, those of the
/// least senders. With fewer answers it only keeps them.
pub proof fn highest_rank_is_adopted(
    e: OrderingRound,
    sender: PublicKey,
    max_rank: u64,
    value: Set<BlockHash>,
    certificate: Map<PublicKey, Content>,
    validators: nat,
    f: nat,
)
    requires
        e.r_responses.dom().finite(),
        3 * f < validators <= 3 * f + 3,
    ensures
        ({
            let message = Content::RStepResponse { rank: e.rank, max_rank, value };
            let heard = e.r_responses.insert(sender, Ranked { rank: max_rank, value });
            let after = e.handled(sender, message, certificate, validators);
            let sent = e.reaction(sender, message, certificate, validators);
            &&& after.r_responses == heard
            &&& after.rank == e.rank
            &&& heard.len() < 2 * f + 1 ==> after.state == e.state && after.current == e.current && sent is None
            &&& heard.len() >= 2 * f + 1 ==> {
                &&& after.state == ArchipelagoState::AStep
                &&& after.a_responses == Map::<PublicKey, Seq<Set<BlockHash>>>::empty()
                &&& exists|k: PublicKey| #[trigger]
                    heard.contains_key(k) && after.current == heard[k].value && forall|j: PublicKey| #[trigger]
                        heard.contains_key(j) ==> heard[j].rank < heard[k].rank || heard[j].rank == heard[k].rank && j.rank()
                            <= k.rank()
                &&& sent == Some(
                    Sent::Broadcast {
                        message: Content::AStepQuery { rank: e.rank, value: after.current },
                        certificate: after.certificate,
                    },
                )
                &&& after.certificate.len() == 2 * f + 1
                &&& forall|k: PublicKey| #[trigger]
                    after.certificate.contains_key(k) ==> heard.contains_key(k) && after.certificate[k]
                        == (Content::RStepResponse { rank: e.rank, max_rank: heard[k].rank, value: heard[k].value })
                &&& forall|j: PublicKey, k: PublicKey|
                    #![trigger after.certificate.contains_key(j), heard.contains_key(k)]
                    after.certificate.contains_key(j) && heard.contains_key(k) && !after.certificate.contains_key(k)
                        ==> j.rank() < k.rank()
            }
        }),
{
    let message = Content::RStepResponse { rank: e.rank, max_rank, value };
    let heard = e.r_responses.insert(sender, Ranked { rank: max_rank, value });
    let after = e.handled(sender, message, certificate, validators);
    assert(quorum_of(validators) == 2 * f + 1) by {
        assert(((validators - 1) as nat) / 3 == f);
    }
    if heard.len() >= 2 * f + 1 {
        let q = ascending(heard.dom());
        lemma_ascending(heard.dom());
        lemma_top(heard, q);
        let best = top(heard, q);
        assert(heard.contains_key(best)) by {
            assert(q.to_set().contains(best));
        }
        assert forall|j: PublicKey| #[trigger] heard.contains_key(j) implies heard[j].rank < heard[best].rank
            || heard[j].rank == heard[best].rank && j.rank() <= best.rank() by {
            assert(q.contains(j));
            let i = choose|i: int| 0 <= i < q.len() && q[i] == j;
            let k = choose|k: int|
                0 <= k < q.len() && best == #[trigger] q[k] && forall|i: int|
                    k < i < q.len() ==> heard[#[trigger] q[i]].rank < heard[best].rank;
            if i <= k {
                assert(i < k ==> q[i].rank() < q[k].rank());
            }
        }
        lemma_first_keys(heard, 2 * f + 1);
        assert(after.certificate.dom() =~= first_keys(heard, 2 * f + 1));
    }
}

/// With answers of twice the tolerated faults and one more in the second step, the
/// election moves on to the third, asks everybody about its value, and flags it
/// exactly if no answer names another value.
pub proof fn unanimous_answers_are_flagged(
    e: OrderingRound,
    sender: PublicKey,
    values: Seq<Set<BlockHash>>,
    certificate: Map<PublicKey, Content>,
    validators: nat,
    f: nat,
)
    requires
        e.a_responses.dom().finite(),
        3 * f < validators <= 3 * f + 3,
    ensures
        ({
            let message = Content::AStepResponse { rank: e.rank, values };
            let heard = e.a_responses.insert(sender, values);
            let after = e.handled(sender, message, certificate, validators);
            let sent = e.reaction(sender, message, certificate, validators);
            &&& after.a_responses == heard
            &&& after.rank == e.rank
            &&& after.current == e.current
            &&& heard.len() < 2 * f + 1 ==> after.state == e.state && sent is None
            &&& heard.len() >= 2 * f + 1 ==> {
                &&& after.state == ArchipelagoState::BStep
                &&& after.b_responses == Map::<PublicKey, Seq<Flagged>>::empty()
                &&& sent matches Some(Sent::Broadcast { message: Content::BStepQuery { rank, flag, value }, certificate: shown })
                    && rank == e.rank && value == e.current && shown == after.certificate && (flag <==> forall|
                    k: PublicKey,
                    i: int,
                |
                    heard.contains_key(k) && 0 <= i < heard[k].len() ==> (#[trigger] heard[k][i]) == e.current)
                &&& after.certificate.len() == 2 * f + 1
                &&& forall|k: PublicKey| #[trigger]
                    after.certificate.contains_key(k) ==> heard.contains_key(k) && after.certificate[k]
                        == (Content::AStepResponse { rank: e.rank, values: heard[k] })
            }
        }),
{
    let heard = e.a_responses.insert(sender, values);
    let after = e.handled(sender, Content::AStepResponse { rank: e.rank, values }, certificate, validators);
    assert(quorum_of(validators) == 2 * f + 1) by {
        assert(((validators - 1) as nat) / 3 == f);
    }
    if heard.len() >= 2 * f + 1 {
        lemma_first_keys(heard, 2 * f + 1);
        assert(after.certificate.dom() =~= first_keys(heard, 2 * f + 1));
    }
}

/// An answer to another round's question changes nothing, and so does a question
/// above rank zero, or one in the second step, that fewer than twice the
/// tolerated faults and one more stand behind.
pub proof fn unproven_messages_change_nothing(
    e: OrderingRound,
    sender: PublicKey,
    message: Content,
    certificate: Map<PublicKey, Content>,
    validators: nat,
    f: nat,
)
    requires
        3 * f < validators <= 3 * f + 3,
        match message {
            Content::RStepQuery { rank, value } => rank > 0 && certificate.len() < 2 * f + 1,
            Content::RStepResponse { rank, max_rank, value } => rank != e.rank,
            Content::AStepQuery { rank, value } => certificate.len() < 2 * f + 1,
            Content::AStepResponse { rank, values } => rank != e.rank,
            Content::BStepQuery { rank, flag, value } => true,
            Content::BStepResponse { rank, pairs } => true,
        },
    ensures
        e.handled(sender, message, certificate, validators) == e,
        e.reaction(sender, message, certificate, validators) is None,
{
    assert(((validators - 1) as nat) / 3 == f);
}

/// A proven question moves an election up to a higher rank and its value, never
/// down, and is answered with the rank and the value held then; in the second step
/// the answer names the value held and the value asked about, once each.
pub proof fn questions_are_answered(
    e: OrderingRound,
    sender: PublicKey,
    rank: u64,
    value: Set<BlockHash>,
    certificate: Map<PublicKey, Content>,
    validators: nat,
    f: nat,
)
    requires
        3 * f < validators <= 3 * f + 3,
        certificate.len() >= 2 * f + 1,
    ensures
        ({
            let asked = Content::RStepQuery { rank, value };
            let after = e.handled(sender, asked, certificate, validators);
            &&& after.rank >= e.rank && after.rank >= rank
            &&& after.rank == e.rank ==> after == e
            &&& after.rank != e.rank ==> after.rank == rank && after.current == value && after.state == e.state
            &&& e.reaction(sender, asked, certificate, validators) == Some(
                Sent::Reply {
                    recipient: sender,
                    message: Content::RStepResponse { rank, max_rank: after.rank, value: after.current },
                },
            )
        }),
        ({
            let asked = Content::AStepQuery { rank, value };
            &&& e.handled(sender, asked, certificate, validators) == e
            &&& e.reaction(sender, asked, certificate, validators) matches Some(
                Sent::Reply { recipient, message: Content::AStepResponse { rank: r, values } },
            ) && recipient == sender && r == rank && values.no_duplicates() && values.len() > 0 && values[0] == e.current
                && forall|v: Set<BlockHash>| #[trigger] values.contains(v) <==> v == e.current || v == value
        }),
{
    assert(((validators - 1) as nat) / 3 == f);
    let values = e.a_answer(value);
    if value == e.current {
        assert(values[0] == e.current);
        assert forall|v: Set<BlockHash>| #[trigger] values.contains(v) == (v == e.current || v == value) by {
            if v == e.current {
                assert(values[0] == v);
            }
        }
    } else {
        assert(values[0] == e.current && values[1] == value);
        assert forall|v: Set<BlockHash>| #[trigger] values.contains(v) == (v == e.current || v == value) by {
            if v == e.current {
                assert(values[0] == v);
            }
            if v == value {
                assert(values[1] == v);
            }
        }
    }
}

proof fn lemma_flagged(pairs: Seq<Flagged>)
    ensures
        flagged(pairs) is Some <==> exists|i: int| 0 <= i < pairs.len() && (#[trigger] pairs[i]).flag,
        flagged(pairs) is Some ==> exists|i: int|
            0 <= i < pairs.len() && (#[trigger] pairs[i]).flag && pairs[i].value == flagged(pairs)->0,
    decreases pairs.len(),
{
    if pairs.len() > 0 {
        let front = pairs.drop_last();
        lemma_flagged(front);
        if flagged(front) is Some {
            let i = choose|i: int| 0 <= i < front.len() && (#[trigger] front[i]).flag && front[i].value == flagged(front)->0;
            assert(pairs[i] == front[i]);
        } else if pairs.last().flag {
            assert(pairs[pairs.len() - 1].flag);
        } else {
            assert forall|i: int| 0 <= i < pairs.len() implies !(#[trigger] pairs[i]).flag by {
                if i < front.len() {
                    assert(front[i] == pairs[i]);
                }
            }
        }
    }
}

proof fn lemma_first_flagged(m: Map<PublicKey, Seq<Flagged>>, q: Seq<PublicKey>)
    ensures
        first_flagged(m, q) is Some <==> exists|i: int| 0 <= i < q.len() && flagged(m[#[trigger] q[i]]) is Some,
        first_flagged(m, q) is Some ==> exists|i: int|
            0 <= i < q.len() && flagged(m[#[trigger] q[i]]) == first_flagged(m, q),
    decreases q.len(),
{
    if q.len() > 0 {
        let front = q.drop_last();
        lemma_first_flagged(m, front);
        if first_flagged(m, front) is Some {
            let i = choose|i: int| 0 <= i < front.len() && flagged(m[#[trigger] front[i]]) == first_flagged(m, front);
            assert(q[i] == front[i]);
        } else {
            assert forall|i: int| 0 <= i < front.len() implies flagged(m[#[trigger] q[i]]) is None by {
                assert(front[i] == q[i]);
            }
            if first_flagged(m, q) is Some {
                assert(flagged(m[q[q.len() - 1]]) == first_flagged(m, q));
            }
        }
    }
}

/// Whether a member's answers in the third step hold a flagged value.
pub open spec fn flags_a_value(e: OrderingRound, member: PublicKey) -> bool {
    e.b_responses.contains_key(member) && exists|i: int|
        0 <= i < e.b_responses[member].len() && (#[trigger] e.b_responses[member][i]).flag
}

/// The election completes exactly if twice the tolerated faults and one more have
/// flagged a value. Otherwise the next round begins, one rank up and with half a
/// minute to go, with a value that some member flagged, or with the value held
/// where nobody flagged one.
pub proof fn flagged_values_carry_over(e: OrderingRound, validators: nat, now: u64, f: nat)
    requires
        e.b_responses.dom().finite(),
        3 * f < validators <= 3 * f + 3,
        e.rank < u64::MAX,
        now + 30_000 <= u64::MAX,
    ensures
        ({
            let after = e.settled(validators, now);
            let flaggers = Set::new(|member: PublicKey| flags_a_value(e, member));
            &&& flaggers.len() >= 2 * f + 1 ==> after == (OrderingRound { state: ArchipelagoState::Completed, ..e })
            &&& flaggers.len() < 2 * f + 1 ==> {
                &&& after.rank == e.rank + 1
                &&& after.state == ArchipelagoState::RStep
                &&& after.timeout_ms == now + 30_000
                &&& after.r_responses == Map::<PublicKey, Ranked>::empty()
                &&& (forall|member: PublicKey| !#[trigger] flags_a_value(e, member)) ==> after.current == e.current
                &&& (exists|member: PublicKey| #[trigger] flags_a_value(e, member)) ==> exists|member: PublicKey, i: int|
                    e.b_responses.contains_key(member) && 0 <= i < e.b_responses[member].len() && (
                    #[trigger] e.b_responses[member][i]).flag && e.b_responses[member][i].value == after.current
            }
        }),
{
    assert(((validators - 1) as nat) / 3 == f);
    let flaggers = Set::new(|member: PublicKey| flags_a_value(e, member));
    assert forall|member: PublicKey| flagging(e.b_responses).contains(member) == flaggers.contains(member) by {
        lemma_flagged(e.b_responses[member]);
    }
    assert(flagging(e.b_responses) =~= flaggers);
    let q = ascending(e.b_responses.dom());
    lemma_ascending(e.b_responses.dom());
    lemma_first_flagged(e.b_responses, q);
    if exists|member: PublicKey| #[trigger] flags_a_value(e, member) {
        let member = choose|member: PublicKey| #[trigger] flags_a_value(e, member);
        assert(q.contains(member));
        let at = choose|at: int| 0 <= at < q.len() && q[at] == member;
        lemma_flagged(e.b_responses[member]);
        assert(flagged(e.b_responses[q[at]]) is Some);
        let i = choose|i: int|
            0 <= i < q.len() && flagged(e.b_responses[#[trigger] q[i]]) == first_flagged(e.b_responses, q);
        let pairs = e.b_responses[q[i]];
        lemma_flagged(pairs);
        let j = choose|j: int| 0 <= j < pairs.len() && (#[trigger] pairs[j]).flag && pairs[j].value == flagged(pairs)->0;
        assert(e.b_responses[q[i]][j].flag);
        assert(e.b_responses.contains_key(q[i]));
    } else {
        assert forall|i: int| 0 <= i < q.len() implies flagged(e.b_responses[#[trigger] q[i]]) is None by {
            lemma_flagged(e.b_responses[q[i]]);
            assert(!flags_a_value(e, q[i]));
            assert(e.b_responses.contains_key(q[i]));
        }
    }
}

proof fn lemma_flagged_first(pairs: Seq<Flagged>)
    requires
        flagged(pairs) is Some,
    ensures
        exists|i: int|
            0 <= i < pairs.len() && (#[trigger] pairs[i]).flag && pairs[i].value == flagged(pairs)->0 && forall|j: int|
                0 <= j < i ==> !(#[trigger] pairs[j]).flag,
    decreases pairs.len(),
{
    if pairs.len() > 0 {
        let front = pairs.drop_last();
        if flagged(front) is Some {
            lemma_flagged_first(front);
            let i = choose|i: int|
                0 <= i < front.len() && (#[trigger] front[i]).flag && front[i].value == flagged(front)->0 && forall|j: int|
                    0 <= j < i ==> !(#[trigger] front[j]).flag;
            assert(pairs[i] == front[i]);
            assert forall|j: int| 0 <= j < i implies !(#[trigger] pairs[j]).flag by {
                assert(front[j] == pairs[j]);
            }
        } else {
            lemma_flagged(front);
            assert(pairs[pairs.len() - 1].flag);
            assert forall|j: int| 0 <= j < pairs.len() - 1 implies !(#[trigger] pairs[j]).flag by {
                assert(front[j] == pairs[j]);
            }
        }
    }
}

proof fn lemma_first_flagger(m: Map<PublicKey, Seq<Flagged>>, q: Seq<PublicKey>)
    requires
        first_flagged(m, q) is Some,
    ensures
        exists|i: int|
            0 <= i < q.len() && flagged(m[#[trigger] q[i]]) == first_flagged(m, q) && forall|j: int|
                0 <= j < i ==> flagged(m[#[trigger] q[j]]) is None,
    decreases q.len(),
{
    if q.len() > 0 {
        let front = q.drop_last();
        if first_flagged(m, front) is Some {
            lemma_first_flagger(m, front);
            let i = choose|i: int|
                0 <= i < front.len() && flagged(m[#[trigger] front[i]]) == first_flagged(m, front) && forall|j: int|
                    0 <= j < i ==> flagged(m[#[trigger] front[j]]) is None;
            assert(q[i] == front[i]);
            assert forall|j: int| 0 <= j < i implies flagged(m[#[trigger] q[j]]) is None by {
                assert(front[j] == q[j]);
            }
        } else {
            lemma_first_flagged(m, front);
            assert(flagged(m[q[q.len() - 1]]) == first_flagged(m, q));
            assert forall|j: int| 0 <= j < q.len() - 1 implies flagged(m[#[trigger] q[j]]) is None by {
                assert(front[j] == q[j]);
            }
        }
    }
}

/// Where the election goes on and somebody flagged a value, it goes on with the first value
/// that the least member flagged who flagged any.
pub proof fn least_flagger_prevails(e: OrderingRound, validators: nat, now: u64, f: nat, member: PublicKey)
    requires
        e.b_responses.dom().finite(),
        3 * f < validators <= 3 * f + 3,
        e.rank < u64::MAX,
        now + 30_000 <= u64::MAX,
        Set::new(|k: PublicKey| flags_a_value(e, k)).len() < 2 * f + 1,
        flags_a_value(e, member),
        forall|k: PublicKey| #[trigger] flags_a_value(e, k) ==> member.rank() <= k.rank(),
    ensures
        exists|i: int|
            0 <= i < e.b_responses[member].len() && (#[trigger] e.b_responses[member][i]).flag
                && e.b_responses[member][i].value == e.settled(validators, now).current && forall|j: int|
                0 <= j < i ==> !(#[trigger] e.b_responses[member][j]).flag,
{
    flagged_values_carry_over(e, validators, now, f);
    let flaggers = Set::new(|k: PublicKey| flags_a_value(e, k));
    assert forall|k: PublicKey| flagging(e.b_responses).contains(k) == flaggers.contains(k) by {
        lemma_flagged(e.b_responses[k]);
    }
    assert(flagging(e.b_responses) =~= flaggers);
    assert(((validators - 1) as nat) / 3 == f);
    let q = ascending(e.b_responses.dom());
    lemma_ascending(e.b_responses.dom());
    lemma_first_flagged(e.b_responses, q);
    assert(q.contains(member));
    let at = choose|at: int| 0 <= at < q.len() && q[at] == member;
    lemma_flagged(e.b_responses[member]);
    assert(flagged(e.b_responses[q[at]]) is Some);
    lemma_first_flagger(e.b_responses, q);
    let i = choose|i: int|
        0 <= i < q.len() && flagged(e.b_responses[#[trigger] q[i]]) == first_flagged(e.b_responses, q) && forall|j: int|
            0 <= j < i ==> flagged(e.b_responses[#[trigger] q[j]]) is None;
    if i < at {
        lemma_flagged(e.b_responses[q[i]]);
        assert(e.b_responses.contains_key(q[i]));
        assert(flags_a_value(e, q[i]));
        assert(q[i].rank() < q[at].rank());
    }
    if at < i {
        assert(flagged(e.b_responses[q[at]]) is None);
    }
    lemma_flagged_first(e.b_responses[member]);
}

/// A round is opened by asking everybody about its rank and value; the first one needs no proof,
/// later ones show the certificate held.
pub proof fn rounds_are_opened_with_proof(e: OrderingRound)
    ensures
        e.r_query() matches Sent::Broadcast { message: Content::RStepQuery { rank, value }, certificate } && rank == e.rank
            && value == e.current && (e.rank == 0 ==> certificate == Map::<PublicKey, Content>::empty()) && (e.rank > 0
            ==> certificate == e.certificate),
{
}

}
