//! Rebuilding close versions from differences to known ones.
use vstd::prelude::*;

use crate::close_state::{CloseEpoch, CloseState, EpochRecord, Package, RaiCloseState};
use crate::close_values::{visible_hash, CloseRecordEntries, Visibility, VisibleSlots};
use crate::committee::RaiEpoch;
use crate::frontier_record::{FrontierRecord, RaiFrontierRecord, RaiFrontiers};
use crate::ordered::{
    ascending, lemma_ascending, lemma_take_distinct, sorted_map_is_finite, sorted_set_is_finite, Duplicate, SortedSet,
};
use crate::types::{Account, BlockHash, RaiSlot};

verus! {

broadcast use {sorted_set_is_finite, sorted_map_is_finite};

/// Which kind of close version is asked for.
#[derive(Clone, Copy, Debug, PartialEq, Eq, Structural)]
pub enum RaiCloseVersionKind {
    Cut,
    Frontiers,
}

/// Asks for the difference between a known version and a wanted one.
#[derive(Clone, Copy, Debug, PartialEq, Eq, Structural)]
pub struct RaiCloseReconRequest {
    pub kind: RaiCloseVersionKind,
    pub epoch: RaiEpoch,
    pub base_hash: BlockHash,
    pub target_hash: BlockHash,
}

/// The frontier of an account before and after.
#[derive(Clone, Copy, Debug, PartialEq, Eq, Structural)]
pub struct RaiFrontierReplacement {
    pub account: Account,
    pub old: Option<BlockHash>,
    pub new: Option<BlockHash>,
}

/// The difference between two versions.
#[derive(Debug, PartialEq, Eq)]
pub enum RaiCloseReconDelta {
    Cut {
        epoch: RaiEpoch,
        base_hash: BlockHash,
        target_hash: BlockHash,
        added: VisibleSlots,
        removed: VisibleSlots,
    },
    Frontiers {
        epoch: RaiEpoch,
        base_hash: BlockHash,
        target_hash: BlockHash,
        replacements: Vec<RaiFrontierReplacement>,
    },
}

/// The model of a difference.
#[verifier::ext_equal]
pub enum Delta {
    Cut {
        epoch: RaiEpoch,
        base_hash: BlockHash,
        target_hash: BlockHash,
        added: Set<RaiSlot>,
        removed: Set<RaiSlot>,
    },
    Frontiers {
        epoch: RaiEpoch,
        base_hash: BlockHash,
        target_hash: BlockHash,
        replacements: Seq<RaiFrontierReplacement>,
    },
}

impl DeepView for RaiCloseReconDelta {
    type V = Delta;

    open spec fn deep_view(&self) -> Delta {
        match self {
            RaiCloseReconDelta::Cut { epoch, base_hash, target_hash, added, removed } => Delta::Cut {
                epoch: *epoch,
                base_hash: *base_hash,
                target_hash: *target_hash,
                added: added@,
                removed: removed@,
            },
            RaiCloseReconDelta::Frontiers { epoch, base_hash, target_hash, replacements } => Delta::Frontiers {
                epoch: *epoch,
                base_hash: *base_hash,
                target_hash: *target_hash,
                replacements: replacements@,
            },
        }
    }
}

/// A request that cannot be answered.
#[derive(Clone, Copy, Debug, PartialEq, Eq, Structural)]
pub struct RaiCloseReconMiss(pub RaiCloseReconRequest);

/// Why a difference is not applied.
#[derive(Clone, Copy, Debug, PartialEq, Eq, Structural)]
pub enum RaiCloseReconError {
    WrongDeltaKind,
    MissingBase,
    MissingTarget,
    InvalidDelta,
    HashMismatch,
    Inadmissible,
}

/// What a map holds for an account.
pub open spec fn lookup(frontiers: Map<Account, BlockHash>, account: Account) -> Option<BlockHash> {
    if frontiers.contains_key(account) {
        Some(frontiers[account])
    } else {
        None
    }
}

/// The accounts whose frontiers differ.
pub open spec fn changed_accounts(base: Map<Account, BlockHash>, target: Map<Account, BlockHash>) -> Set<Account> {
    base.dom().union(target.dom()).filter(|account: Account| lookup(base, account) != lookup(target, account))
}

/// The frontiers that differ, in the order of the accounts.
pub open spec fn replacements_of(base: Map<Account, BlockHash>, target: Map<Account, BlockHash>) -> Seq<
    RaiFrontierReplacement,
> {
    let accounts = ascending(changed_accounts(base, target));
    Seq::new(
        accounts.len(),
        |i: int|
            RaiFrontierReplacement {
                account: accounts[i],
                old: lookup(base, accounts[i]),
                new: lookup(target, accounts[i]),
            },
    )
}

/// The frontiers after replacements in turn, if each finds what it expects and
/// none sets the zero block.
pub open spec fn replaced(frontiers: Map<Account, BlockHash>, replacements: Seq<RaiFrontierReplacement>) -> Option<
    Map<Account, BlockHash>,
>
    decreases replacements.len(),
{
    if replacements.len() == 0 {
        Some(frontiers)
    } else {
        let last = replacements.last();
        match replaced(frontiers, replacements.drop_last()) {
            None => None,
            Some(before) => if lookup(before, last.account) != last.old {
                None
            } else {
                match last.new {
                    Some(hash) => if hash == (BlockHash { hi: 0, lo: 0 }) {
                        None
                    } else {
                        Some(before.insert(last.account, hash))
                    },
                    None => Some(before.remove(last.account)),
                }
            },
        }
    }
}

/// The answer to a request: the difference, if both versions are known.
pub open spec fn answer(state: CloseState<FrontierRecord>, request: RaiCloseReconRequest) -> Option<Delta> {
    match request.kind {
        RaiCloseVersionKind::Cut => {
            let values = state.epoch(request.epoch).visibility.close_values;
            if values.contains_key(request.base_hash) && values.contains_key(request.target_hash) {
                Some(
                    Delta::Cut {
                        epoch: request.epoch,
                        base_hash: request.base_hash,
                        target_hash: request.target_hash,
                        added: values[request.target_hash].difference(values[request.base_hash]),
                        removed: values[request.base_hash].difference(values[request.target_hash]),
                    },
                )
            } else {
                None
            }
        },
        RaiCloseVersionKind::Frontiers => {
            let records = state.epoch(request.epoch).records;
            if records.contains_key(request.base_hash) && records.contains_key(request.target_hash) {
                Some(
                    Delta::Frontiers {
                        epoch: request.epoch,
                        base_hash: request.base_hash,
                        target_hash: request.target_hash,
                        replacements: replacements_of(
                            records[request.base_hash].record.frontiers,
                            records[request.target_hash].record.frontiers,
                        ),
                    },
                )
            } else {
                None
            }
        },
    }
}

/// The cut that a difference leads to, before it is judged.
pub open spec fn rebuilt_cut(state: CloseState<FrontierRecord>, delta: Delta) -> Result<Set<RaiSlot>, RaiCloseReconError> {
    match delta {
        Delta::Frontiers { .. } => Err(RaiCloseReconError::WrongDeltaKind),
        Delta::Cut { epoch, base_hash, target_hash, added, removed } => {
            let values = state.epoch(epoch).visibility.close_values;
            let base = values[base_hash];
            let target = base.difference(removed).union(added);
            if !values.contains_key(base_hash) {
                Err(RaiCloseReconError::MissingBase)
            } else if !removed.subset_of(base) || !added.disjoint(base) {
                Err(RaiCloseReconError::InvalidDelta)
            } else if visible_hash(target) != target_hash {
                Err(RaiCloseReconError::HashMismatch)
            } else {
                Ok(target)
            }
        },
    }
}

/// The state that keeps a rebuilt cut.
pub open spec fn with_cut(state: CloseState<FrontierRecord>, epoch: RaiEpoch, hash: BlockHash, cut: Set<RaiSlot>) -> CloseState<
    FrontierRecord,
> {
    let before = state.epoch(epoch);
    if before.visibility.close_values.contains_key(hash) {
        state
    } else {
        state.with_epoch(
            epoch,
            CloseEpoch {
                visibility: Visibility {
                    close_values: before.visibility.close_values.insert(hash, cut),
                    ..before.visibility
                },
                ..before
            },
        )
    }
}

/// The record that a difference leads to, before it is judged.
pub open spec fn rebuilt_record(state: CloseState<FrontierRecord>, delta: Delta) -> Result<
    FrontierRecord,
    RaiCloseReconError,
> {
    match delta {
        Delta::Cut { .. } => Err(RaiCloseReconError::WrongDeltaKind),
        Delta::Frontiers { epoch, base_hash, target_hash, replacements } => {
            let records = state.epoch(epoch).records;
            let base = records[base_hash].record;
            let frontiers = replaced(base.frontiers, replacements);
            let record = FrontierRecord {
                epoch,
                previous_close_hash: base.previous_close_hash,
                frontiers: frontiers->0,
            };
            if !records.contains_key(base_hash) {
                Err(RaiCloseReconError::MissingBase)
            } else if frontiers is None {
                Err(RaiCloseReconError::InvalidDelta)
            } else if RaiFrontierRecord::digest(record) != target_hash {
                Err(RaiCloseReconError::HashMismatch)
            } else {
                Ok(record)
            }
        },
    }
}

/// Carries close versions between nodes by differences. A difference is never
/// evidence: its target is kept only once the hash and the caller's judgement
/// have both been found right.
pub struct RaiCloseReconciler {}

fn lookup_frontier(frontiers: &RaiFrontiers, account: &Account) -> (r: Option<BlockHash>)
    ensures
        r == lookup(frontiers@, *account),
{
    match frontiers.get(account) {
        Some(hash) => Some(*hash),
        None => None,
    }
}

fn frontier_replacements(base: &RaiFrontiers, target: &RaiFrontiers) -> (r: Vec<RaiFrontierReplacement>)
    ensures
        r@ == replacements_of(base@, target@),
{
    let mut all = base.key_set();
    all.extend(&target.key_set());
    let n: usize = all.len();
    let ghost listed = ascending(all@);
    let mut changed: SortedSet<Account> = SortedSet::new();
    proof {
        lemma_ascending(all@);
    }
    for i in 0..n
        invariant
            n == all@.len(),
            n == listed.len(),
            listed == ascending(all@),
            listed.no_duplicates(),
            all@ == base@.dom().union(target@.dom()),
            forall|account: Account| #[trigger]
                changed@.contains(account) == (listed.take(i as int).to_set().contains(account) && lookup(
                    base@,
                    account,
                ) != lookup(target@, account)),
    {
        proof {
            lemma_take_distinct(listed, i as int);
        }
        let account = all.at(i);
        let old = lookup_frontier(base, &account);
        let new = lookup_frontier(target, &account);
        if !old.agrees(&new) {
            changed.insert(account);
        }
    }
    proof {
        assert(listed.take(n as int) =~= listed);
        assert(changed@ =~= changed_accounts(base@, target@));
    }
    let accounts = changed.to_vec();
    let ghost wanted = replacements_of(base@, target@);
    let mut r: Vec<RaiFrontierReplacement> = Vec::new();
    for i in 0..accounts.len()
        invariant
            accounts@ == ascending(changed_accounts(base@, target@)),
            wanted == replacements_of(base@, target@),
            r@ == wanted.take(i as int),
    {
        let account = accounts[i];
        r.push(
            RaiFrontierReplacement {
                account,
                old: lookup_frontier(base, &account),
                new: lookup_frontier(target, &account),
            },
        );
        proof {
            assert(r@ =~= wanted.take(i + 1));
        }
    }
    proof {
        assert(wanted.take(accounts@.len() as int) =~= wanted);
    }
    r
}

fn apply_replacements(base: &RaiFrontiers, replacements: &Vec<RaiFrontierReplacement>) -> (r: Option<RaiFrontiers>)
    ensures
        match r {
            Some(frontiers) => replaced(base@, replacements@) == Some(frontiers@),
            None => replaced(base@, replacements@) is None,
        },
{
    let mut frontiers = base.duplicate();
    for i in 0..replacements.len()
        invariant
            replaced(base@, replacements@.take(i as int)) == Some(frontiers@),
    {
        proof {
            assert(replacements@.take(i + 1).drop_last() =~= replacements@.take(i as int));
        }
        let replacement = replacements[i];
        let found = lookup_frontier(&frontiers, &replacement.account);
        let refused = !found.agrees(&replacement.old) || match replacement.new {
            Some(hash) => hash.is_zero(),
            None => false,
        };
        if refused {
            proof {
                assert(replaced(base@, replacements@.take(i + 1)) is None);
                lemma_refused(base@, replacements@, i + 1);
            }
            return None;
        }
        match replacement.new {
            Some(hash) => {
                frontiers.insert(replacement.account, hash);
            },
            None => {
                frontiers.remove(&replacement.account);
            },
        }
    }
    proof {
        assert(replacements@.take(replacements@.len() as int) =~= replacements@);
    }
    Some(frontiers)
}

proof fn lemma_refused(frontiers: Map<Account, BlockHash>, replacements: Seq<RaiFrontierReplacement>, n: int)
    requires
        0 <= n <= replacements.len(),
        replaced(frontiers, replacements.take(n)) is None,
    ensures
        replaced(frontiers, replacements) is None,
    decreases replacements.len(),
{
    if n == replacements.len() {
        assert(replacements.take(n) =~= replacements);
    } else {
        assert(replacements.drop_last().take(n) =~= replacements.take(n));
        lemma_refused(frontiers, replacements.drop_last(), n);
    }
}

impl RaiCloseReconciler {
    /// Answers a request with the difference between the two versions.
    pub fn make_delta(state: &RaiCloseState<RaiFrontierRecord>, request: &RaiCloseReconRequest) -> (r: Result<
        RaiCloseReconDelta,
        RaiCloseReconMiss,
    >)
        ensures
            match r {
                Ok(delta) => answer(state@, *request) == Some(delta.deep_view()),
                Err(miss) => answer(state@, *request) is None && miss == RaiCloseReconMiss(*request),
            },
    {
        match request.kind {
            RaiCloseVersionKind::Cut => {
                let base = match state.close_value(request.epoch, &request.base_hash) {
                    Some(base) => base,
                    None => return Err(RaiCloseReconMiss(*request)),
                };
                let target = match state.close_value(request.epoch, &request.target_hash) {
                    Some(target) => target,
                    None => return Err(RaiCloseReconMiss(*request)),
                };
                Ok(
                    RaiCloseReconDelta::Cut {
                        epoch: request.epoch,
                        base_hash: request.base_hash,
                        target_hash: request.target_hash,
                        added: target.difference(base),
                        removed: base.difference(target),
                    },
                )
            },
            RaiCloseVersionKind::Frontiers => {
                let base = match state.close_record_value(request.epoch, &request.base_hash) {
                    Some(base) => base,
                    None => return Err(RaiCloseReconMiss(*request)),
                };
                let target = match state.close_record_value(request.epoch, &request.target_hash) {
                    Some(target) => target,
                    None => return Err(RaiCloseReconMiss(*request)),
                };
                Ok(
                    RaiCloseReconDelta::Frontiers {
                        epoch: request.epoch,
                        base_hash: request.base_hash,
                        target_hash: request.target_hash,
                        replacements: frontier_replacements(&base.record.frontiers, &target.record.frontiers),
                    },
                )
            },
        }
    }

    /// Rebuilds a cut and keeps it once it is judged admissible.
    pub fn apply_cut<F: FnOnce(&VisibleSlots) -> bool>(
        state: &mut RaiCloseState<RaiFrontierRecord>,
        delta: &RaiCloseReconDelta,
        admissible: F,
    ) -> (r: Result<VisibleSlots, RaiCloseReconError>)
        requires
            rebuilt_cut(old(state)@, delta.deep_view()) matches Ok(target) ==> forall|cut: &VisibleSlots|
                cut@ == target ==> #[trigger] call_requires(admissible, (cut,)),
        ensures
            match rebuilt_cut(old(state)@, delta.deep_view()) {
                Err(error) => r matches Err(e) && e == error && final(state)@ == old(state)@,
                Ok(target) => match r {
                    Ok(cut) => {
                        &&& cut@ == target
                        &&& exists|judged: VisibleSlots|
                            judged@ == target && #[trigger] call_ensures(admissible, (&judged,), true)
                        &&& final(state)@ == with_cut(
                            old(state)@,
                            delta.deep_view()->Cut_epoch,
                            delta.deep_view()->Cut_target_hash,
                            target,
                        )
                    },
                    Err(error) => {
                        &&& error == RaiCloseReconError::Inadmissible
                        &&& exists|judged: VisibleSlots|
                            judged@ == target && #[trigger] call_ensures(admissible, (&judged,), false)
                        &&& final(state)@ == old(state)@
                    },
                },
            },
    {
        match delta {
            RaiCloseReconDelta::Frontiers { .. } => Err(RaiCloseReconError::WrongDeltaKind),
            RaiCloseReconDelta::Cut { epoch, base_hash, target_hash, added, removed } => {
                let base = match state.close_value(*epoch, base_hash) {
                    Some(base) => base.duplicate(),
                    None => return Err(RaiCloseReconError::MissingBase),
                };
                if !removed.is_subset(&base) || !added.is_disjoint(&base) {
                    return Err(RaiCloseReconError::InvalidDelta);
                }
                let mut rebuilt = base.difference(removed);
                rebuilt.extend(added);
                if RaiCloseState::<RaiFrontierRecord>::hash_close_cut(&rebuilt) != *target_hash {
                    return Err(RaiCloseReconError::HashMismatch);
                }
                if !admissible(&rebuilt) {
                    return Err(RaiCloseReconError::Inadmissible);
                }
                state.cache_close_value(*epoch, *target_hash, rebuilt.duplicate());
                Ok(rebuilt)
            },
        }
    }

    /// Rebuilds a close record and keeps it, with its entries, once it is
    /// judged admissible.
    pub fn apply_frontiers<F: FnOnce(&RaiFrontierRecord, &CloseRecordEntries) -> bool>(
        state: &mut RaiCloseState<RaiFrontierRecord>,
        delta: &RaiCloseReconDelta,
        entries: CloseRecordEntries,
        admissible: F,
    ) -> (r: Result<RaiFrontierRecord, RaiCloseReconError>)
        requires
            rebuilt_record(old(state)@, delta.deep_view()) matches Ok(target) ==> forall|record: &RaiFrontierRecord|
                record.deep_view() == target ==> #[trigger] call_requires(admissible, (record, &entries)),
        ensures
            match rebuilt_record(old(state)@, delta.deep_view()) {
                Err(error) => r matches Err(e) && e == error && final(state)@ == old(state)@,
                Ok(target) => match r {
                    Ok(record) => {
                        &&& record.deep_view() == target
                        &&& exists|judged: RaiFrontierRecord|
                            judged.deep_view() == target && #[trigger] call_ensures(
                                admissible,
                                (&judged, &entries),
                                true,
                            )
                        &&& final(state)@ == old(state)@.with_epoch(
                            delta.deep_view()->Frontiers_epoch,
                            old(state)@.epoch(delta.deep_view()->Frontiers_epoch).with_record(
                                delta.deep_view()->Frontiers_target_hash,
                                (Package { record: target, entries: entries@ }),
                            ),
                        )
                    },
                    Err(error) => {
                        &&& error == RaiCloseReconError::Inadmissible
                        &&& exists|judged: RaiFrontierRecord|
                            judged.deep_view() == target && #[trigger] call_ensures(
                                admissible,
                                (&judged, &entries),
                                false,
                            )
                        &&& final(state)@ == old(state)@
                    },
                },
            },
    {
        match delta {
            RaiCloseReconDelta::Cut { .. } => Err(RaiCloseReconError::WrongDeltaKind),
            RaiCloseReconDelta::Frontiers { epoch, base_hash, target_hash, replacements } => {
                let base = match state.close_record_value(*epoch, base_hash) {
                    Some(base) => base,
                    None => return Err(RaiCloseReconError::MissingBase),
                };
                let frontiers = match apply_replacements(&base.record.frontiers, replacements) {
                    Some(frontiers) => frontiers,
                    None => return Err(RaiCloseReconError::InvalidDelta),
                };
                let record = RaiFrontierRecord {
                    epoch: *epoch,
                    previous_close_hash: base.record.previous_close_hash,
                    frontiers,
                };
                if record.hash() != *target_hash {
                    return Err(RaiCloseReconError::HashMismatch);
                }
                if !admissible(&record, &entries) {
                    return Err(RaiCloseReconError::Inadmissible);
                }
                state.cache_close_record_value(*epoch, *target_hash, record.duplicate(), entries);
                Ok(record)
            },
        }
    }
}

/// Where both sides know the base, the difference that one side makes leads
/// the other to the very cut that was asked for.
pub proof fn cut_delta_round_trip(
    responder: CloseState<FrontierRecord>,
    requester: CloseState<FrontierRecord>,
    request: RaiCloseReconRequest,
)
    requires
        request.kind == RaiCloseVersionKind::Cut,
        answer(responder, request) is Some,
        ({
            let known = requester.epoch(request.epoch).visibility.close_values;
            let values = responder.epoch(request.epoch).visibility.close_values;
            known.contains_key(request.base_hash) && known[request.base_hash] == values[request.base_hash]
        }),
        responder.epoch(request.epoch).visibility.is_canonical(),
    ensures
        rebuilt_cut(requester, answer(responder, request)->0) == Ok::<_, RaiCloseReconError>(
            responder.epoch(request.epoch).visibility.close_values[request.target_hash],
        ),
{
    let values = responder.epoch(request.epoch).visibility.close_values;
    let base = values[request.base_hash];
    let target = values[request.target_hash];
    assert(base.difference(base.difference(target)).union(target.difference(base)) =~= target);
    assert(visible_hash(target) == request.target_hash);
}

/// The frontiers of `target` for the accounts in `done`, and of `base` elsewhere.
spec fn mixed(base: Map<Account, BlockHash>, target: Map<Account, BlockHash>, done: Set<Account>) -> Map<
    Account,
    BlockHash,
> {
    Map::new(
        |account: Account|
            if done.contains(account) {
                target.contains_key(account)
            } else {
                base.contains_key(account)
            },
        |account: Account|
            if done.contains(account) {
                target[account]
            } else {
                base[account]
            },
    )
}

proof fn lemma_replaced(base: Map<Account, BlockHash>, target: Map<Account, BlockHash>, n: int)
    requires
        base.dom().finite(),
        target.dom().finite(),
        forall|account: Account| #[trigger] target.contains_key(account) ==> target[account] != (BlockHash { hi: 0, lo: 0 }),
        0 <= n <= replacements_of(base, target).len(),
    ensures
        replaced(base, replacements_of(base, target).take(n)) == Some(
            mixed(base, target, ascending(changed_accounts(base, target)).take(n).to_set()),
        ),
    decreases n,
{
    let accounts = ascending(changed_accounts(base, target));
    let all = replacements_of(base, target);
    lemma_ascending(changed_accounts(base, target));
    if n == 0 {
        assert(mixed(base, target, accounts.take(0).to_set()) =~= base);
    } else {
        lemma_replaced(base, target, n - 1);
        lemma_take_distinct(accounts, n - 1);
        assert(all.take(n).drop_last() =~= all.take(n - 1));
        let before = mixed(base, target, accounts.take(n - 1).to_set());
        let account = accounts[n - 1];
        assert(lookup(before, account) == lookup(base, account));
        let after = mixed(base, target, accounts.take(n).to_set());
        if target.contains_key(account) {
            assert(before.insert(account, target[account]) =~= after);
        } else {
            assert(before.remove(account) =~= after);
        }
    }
}

/// Applying the replacements between two frontier versions turns the one into
/// the other, unless the other has a zero frontier.
pub proof fn replacements_lead_to_target(base: Map<Account, BlockHash>, target: Map<Account, BlockHash>)
    requires
        base.dom().finite(),
        target.dom().finite(),
        forall|account: Account| #[trigger] target.contains_key(account) ==> target[account] != (BlockHash { hi: 0, lo: 0 }),
    ensures
        replaced(base, replacements_of(base, target)) == Some(target),
{
    let accounts = ascending(changed_accounts(base, target));
    let all = replacements_of(base, target);
    lemma_ascending(changed_accounts(base, target));
    lemma_replaced(base, target, all.len() as int);
    assert(all.take(all.len() as int) =~= all);
    assert(accounts.take(accounts.len() as int) =~= accounts);
    assert(mixed(base, target, accounts.to_set()) =~= target) by {
        assert forall|account: Account| !accounts.to_set().contains(account) implies lookup(base, account) == lookup(
            target,
            account,
        ) by {
            if base.contains_key(account) || target.contains_key(account) {
                assert(!changed_accounts(base, target).contains(account));
            }
        }
        assert forall|account: Account|
            mixed(base, target, accounts.to_set()).contains_key(account) == target.contains_key(account) by {
            if !accounts.to_set().contains(account) {
                assert(lookup(base, account) == lookup(target, account));
            }
        }
        assert forall|account: Account| target.contains_key(account) implies mixed(base, target, accounts.to_set())[account]
            == target[account] by {
            if !accounts.to_set().contains(account) {
                assert(lookup(base, account) == lookup(target, account));
            }
        }
    }
}

/// Where both sides know the base, and the record asked for follows the same
/// close as the base and has no zero frontier, the difference leads to that record.
pub proof fn frontier_delta_round_trip(
    responder: CloseState<FrontierRecord>,
    requester: CloseState<FrontierRecord>,
    request: RaiCloseReconRequest,
)
    requires
        request.kind == RaiCloseVersionKind::Frontiers,
        answer(responder, request) is Some,
        ({
            let known = requester.epoch(request.epoch).records;
            let records = responder.epoch(request.epoch).records;
            let base = records[request.base_hash].record;
            let target = records[request.target_hash].record;
            &&& known.contains_key(request.base_hash)
            &&& known[request.base_hash].record == base
            &&& target.epoch == request.epoch
            &&& target.previous_close_hash == base.previous_close_hash
            &&& base.frontiers.dom().finite()
            &&& target.frontiers.dom().finite()
            &&& forall|account: Account| #[trigger]
                target.frontiers.contains_key(account) ==> target.frontiers[account] != (BlockHash { hi: 0, lo: 0 })
            &&& RaiFrontierRecord::digest(target) == request.target_hash
        }),
    ensures
        rebuilt_record(requester, answer(responder, request)->0) == Ok::<_, RaiCloseReconError>(
            responder.epoch(request.epoch).records[request.target_hash].record,
        ),
{
    let records = responder.epoch(request.epoch).records;
    let base = records[request.base_hash].record;
    let target = records[request.target_hash].record;
    replacements_lead_to_target(base.frontiers, target.frontiers);
    assert(target =~= (FrontierRecord {
        epoch: request.epoch,
        previous_close_hash: base.previous_close_hash,
        frontiers: target.frontiers,
    }));
}

/// A cut is kept only under its own hash: applying any difference leaves every
/// kept cut under its own hash.
pub proof fn applied_cuts_stay_canonical(state: CloseState<FrontierRecord>, delta: Delta, epoch: RaiEpoch)
    requires
        delta is Cut,
        rebuilt_cut(state, delta) is Ok,
        state.epoch(epoch).visibility.is_canonical(),
    ensures
        with_cut(state, delta->Cut_epoch, delta->Cut_target_hash, rebuilt_cut(state, delta)->Ok_0).epoch(
            epoch,
        ).visibility.is_canonical(),
{
}

/// A cut is rebuilt exactly if its base is known, the delta takes out only slots of the
/// base and puts in only others, and what comes of it has the hash asked for; a slot is
/// in it if it was put in, or was in the base and not taken out.
pub proof fn cut_delta_is_checked(
    state: CloseState<FrontierRecord>,
    epoch: RaiEpoch,
    base_hash: BlockHash,
    target_hash: BlockHash,
    added: Set<RaiSlot>,
    removed: Set<RaiSlot>,
    slot: RaiSlot,
)
    ensures
        ({
            let values = state.epoch(epoch).visibility.close_values;
            let out = rebuilt_cut(state, Delta::Cut { epoch, base_hash, target_hash, added, removed });
            &&& !values.contains_key(base_hash) ==> out == Err::<Set<RaiSlot>, _>(RaiCloseReconError::MissingBase)
            &&& values.contains_key(base_hash) && ((removed.contains(slot) && !values[base_hash].contains(slot)) || (
            added.contains(slot) && values[base_hash].contains(slot))) ==> out == Err::<Set<RaiSlot>, _>(
                RaiCloseReconError::InvalidDelta,
            )
            &&& out matches Ok(cut) ==> {
                &&& values.contains_key(base_hash)
                &&& visible_hash(cut) == target_hash
                &&& cut.contains(slot) <==> added.contains(slot) || (values[base_hash].contains(slot) && !removed.contains(slot))
            }
        }),
{
    let base = state.epoch(epoch).visibility.close_values[base_hash];
    if removed.contains(slot) && !base.contains(slot) {
        assert(!removed.subset_of(base));
    }
    if added.contains(slot) && base.contains(slot) {
        assert(!added.disjoint(base));
    }
}

/// A replacement applies only to the frontier it names, and never with the zero hash; it
/// then changes that account alone, to the new frontier, or to none.
pub proof fn replacement_names_the_old_frontier(
    frontiers: Map<Account, BlockHash>,
    replacement: RaiFrontierReplacement,
    other: Account,
)
    requires
        other != replacement.account,
    ensures
        ({
            let out = replaced(frontiers, seq![replacement]);
            let held = if frontiers.contains_key(replacement.account) {
                Some(frontiers[replacement.account])
            } else {
                None
            };
            &&& out is Some <==> held == replacement.old && replacement.new != Some(BlockHash { hi: 0, lo: 0 })
            &&& out matches Some(after) ==> {
                &&& after.contains_key(replacement.account) <==> replacement.new is Some
                &&& replacement.new matches Some(hash) ==> after[replacement.account] == hash
                &&& after.contains_key(other) <==> frontiers.contains_key(other)
                &&& frontiers.contains_key(other) ==> after[other] == frontiers[other]
            }
        }),
{
    reveal_with_fuel(replaced, 2);
    assert(seq![replacement].drop_last() =~= Seq::empty());
}

/// Lists of replacements apply one after the other; where the first part fails, all do.
pub proof fn replacements_apply_in_turn(
    frontiers: Map<Account, BlockHash>,
    a: Seq<RaiFrontierReplacement>,
    b: Seq<RaiFrontierReplacement>,
)
    ensures
        replaced(frontiers, a + b) == match replaced(frontiers, a) {
            Some(between) => replaced(between, b),
            None => None,
        },
    decreases b.len(),
{
    if b.len() == 0 {
        assert(a + b =~= a);
    } else {
        replacements_apply_in_turn(frontiers, a, b.drop_last());
        assert((a + b).drop_last() =~= a + b.drop_last());
        assert((a + b).last() == b.last());
    }
}

/// The accounts of the difference are those whose frontiers differ, each with the old and
/// the new one.
pub proof fn difference_names_what_differs(base: Map<Account, BlockHash>, target: Map<Account, BlockHash>, r: RaiFrontierReplacement)
    requires
        base.dom().finite(),
        target.dom().finite(),
    ensures
        replacements_of(base, target).contains(r) <==> {
            &&& r.old == base.get(r.account)
            &&& r.new == target.get(r.account)
            &&& r.old != r.new
        },
{
    let changed = changed_accounts(base, target);
    let q = ascending(changed);
    lemma_ascending(changed);
    let list = replacements_of(base, target);
    if list.contains(r) {
        let i = choose|i: int| 0 <= i < list.len() && list[i] == r;
        assert(changed.contains(q[i]));
    }
    if r.old == base.get(r.account) && r.new == target.get(r.account) && r.old != r.new {
        assert(changed.contains(r.account));
        assert(q.contains(r.account));
        let i = choose|i: int| 0 <= i < q.len() && q[i] == r.account;
        assert(list[i] == r);
    }
}

}
