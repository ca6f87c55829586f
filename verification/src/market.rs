//! The storage market: the balance table of clients and providers, deal
//! proposals and their life cycle (publication, activation in sectors,
//! periodic payment settlement, slashing), and storage providers' deal
//! parameters.
use vstd::prelude::*;
use std::collections::HashMap;
use crate::cid::{copy_range, bytes_eq, Cid, CidModel, spec_read_cid, read_cid};
use crate::hashing::{blake2_256, blake2_256_spec};
use parity_scale_codec::Encode;

verus! {

broadcast use vstd::std_specs::hash::group_hash_axioms;

/// An account of the chain, by index.
pub type AccountId = u64;
/// An amount of the chain's currency.
pub type Balance = u128;
/// A block height.
pub type BlockNumber = u64;
/// The identifier of a deal.
pub type DealId = u64;
/// The number of a sector of a storage provider.
pub type SectorNumber = u64;

/// Free and locked funds of a market participant.
#[derive(PartialEq, Eq, Structural, Clone, Copy, Debug)]
pub struct BalanceEntry {
    /// Funds that can be withdrawn at any time.
    pub free: Balance,
    /// Funds staked as deal collateral or locked for deal payments.
    pub locked: Balance,
}

/// The state of a deal that has been activated in a sector.
#[derive(PartialEq, Eq, Structural, Clone, Copy, Debug)]
pub struct ActiveDealState {
    pub sector_number: SectorNumber,
    pub sector_start_block: BlockNumber,
    pub last_updated_block: Option<BlockNumber>,
    pub slash_block: Option<BlockNumber>,
}

impl ActiveDealState {
    /// A deal activated in `sector_number` at `sector_start_block`, never
    /// settled or slashed.
    pub fn new(sector_number: SectorNumber, sector_start_block: BlockNumber) -> (s: ActiveDealState)
        ensures
            s == (ActiveDealState { sector_number, sector_start_block, last_updated_block: None, slash_block: None }),
    {
        ActiveDealState { sector_number, sector_start_block, last_updated_block: None, slash_block: None }
    }
}

/// Where a deal is in its life cycle.
#[derive(PartialEq, Eq, Structural, Clone, Copy, Debug)]
pub enum DealState {
    Published,
    Active(ActiveDealState),
}

/// The most bytes a deal's piece CID or label may hold.
pub const MAX_BOUNDED_BYTES: usize = 128;

/// Bytes of at most [`MAX_BOUNDED_BYTES`], as a deal's piece CID and label
/// are kept.
#[derive(Debug)]
pub struct BoundedBytes {
    bytes: Vec<u8>,
}

impl View for BoundedBytes {
    type V = Seq<u8>;

    closed spec fn view(&self) -> Seq<u8> {
        self.bytes@
    }
}

impl BoundedBytes {
    #[verifier::type_invariant]
    spec fn bounded(self) -> bool {
        self.bytes@.len() <= MAX_BOUNDED_BYTES
    }

    /// The bytes `bytes`, when they are no more than the bound.
    pub fn new(bytes: Vec<u8>) -> (r: Option<BoundedBytes>)
        ensures
            bytes@.len() <= MAX_BOUNDED_BYTES ==> (r matches Some(b) && b@ == bytes@),
            bytes@.len() > MAX_BOUNDED_BYTES ==> r is None,
    {
        if bytes.len() > MAX_BOUNDED_BYTES {
            None
        } else {
            Some(BoundedBytes { bytes })
        }
    }

    /// The bytes.
    pub fn as_slice(&self) -> (s: &[u8])
        ensures
            s@ == self@,
            s@.len() <= MAX_BOUNDED_BYTES,
    {
        proof {
            use_type_invariant(self);
        }
        self.bytes.as_slice()
    }

    /// A copy of the bytes.
    pub fn copy(&self) -> (c: BoundedBytes)
        ensures
            c@ == self@,
    {
        proof {
            use_type_invariant(self);
        }
        let bytes = copy_range(self.bytes.as_slice(), 0, self.bytes.len());
        proof {
            assert(self.bytes@.subrange(0, self.bytes@.len() as int) =~= self.bytes@);
        }
        BoundedBytes { bytes }
    }
}

impl Clone for BoundedBytes {
    fn clone(&self) -> (c: BoundedBytes)
        ensures
            c@ == self@,
    {
        self.copy()
    }
}

/// A storage deal between a client and a provider.
#[derive(Debug, Clone)]
pub struct DealProposal {
    /// The bytes of the CID of the piece.
    pub piece_cid: BoundedBytes,
    pub piece_size: u64,
    pub client: AccountId,
    pub provider: AccountId,
    pub label: BoundedBytes,
    pub start_block: BlockNumber,
    pub end_block: BlockNumber,
    pub storage_price_per_block: Balance,
    pub provider_collateral: Balance,
    pub state: DealState,
}

/// The mathematical value of a [`DealProposal`].
pub struct DealModel {
    pub piece_cid: Seq<u8>,
    pub piece_size: u64,
    pub client: AccountId,
    pub provider: AccountId,
    pub label: Seq<u8>,
    pub start_block: BlockNumber,
    pub end_block: BlockNumber,
    pub storage_price_per_block: Balance,
    pub provider_collateral: Balance,
    pub state: DealState,
}

impl View for DealProposal {
    type V = DealModel;

    open spec fn view(&self) -> DealModel {
        DealModel {
            piece_cid: self.piece_cid@,
            piece_size: self.piece_size,
            client: self.client,
            provider: self.provider,
            label: self.label@,
            start_block: self.start_block,
            end_block: self.end_block,
            storage_price_per_block: self.storage_price_per_block,
            provider_collateral: self.provider_collateral,
            state: self.state,
        }
    }
}

impl DealProposal {
    /// A copy of the proposal with another state.
    pub fn with_state(&self, state: DealState) -> (p: DealProposal)
        ensures
            p@ == (DealModel { state, ..self@ }),
    {
        let piece_cid = self.piece_cid.copy();
        let label = self.label.copy();
        DealProposal {
            piece_cid,
            piece_size: self.piece_size,
            client: self.client,
            provider: self.provider,
            label,
            start_block: self.start_block,
            end_block: self.end_block,
            storage_price_per_block: self.storage_price_per_block,
            provider_collateral: self.provider_collateral,
            state,
        }
    }
}

/// Why the settlement of one deal did not go through.
#[derive(PartialEq, Eq, Structural, Clone, Copy, Debug)]
pub enum DealSettlementError {
    /// The deal is going to be slashed.
    SlashedDeal,
    /// The deal's last update is in the future.
    FutureLastUpdate,
    /// The deal was not found.
    DealNotFound,
    /// The deal is too early to settle.
    EarlySettlement,
    /// The deal has expired.
    ExpiredDeal,
    /// The deal is not active.
    DealNotActive,
}

/// Arithmetic failures.
#[derive(PartialEq, Eq, Structural, Clone, Copy, Debug)]
pub enum ArithmeticError {
    Underflow,
    Overflow,
}

/// Errors of the market pallet.
#[derive(PartialEq, Eq, Structural, Clone, Copy, Debug)]
pub enum Error {
    InsufficientFreeFunds,
    InsufficientLockedFunds,
    DealActivationError,
    NoProposalsToBePublished,
    ProposalsPublishedByIncorrectStorageProvider,
    UnexpectedValidationError,
    DuplicateDeal,
    DealPreconditionFailed,
    DealsTooLargeToFitIntoSector,
    TooManyDealsPerBlock,
    StorageProviderNotRegistered,
    CommD,
    TooManyPendingDeals,
    InvalidProvider,
    StartBlockElapsed,
    SectorExpiresBeforeDeal,
    InvalidDealState,
    DealNotPending,
    DealNotFound,
    InvalidCaller,
    DealIsNotActive,
    WrongClientSignatureOnProposal,
    DealEndBeforeStart,
    DealStartExpired,
    DealNotPublished,
    DealDurationOutOfBounds,
    InvalidPieceCid,
    OutOfBoundsDeal,
    NoDealParamsToRemove,
    InvalidDealParametersSubmitted,
}

/// Why a dispatch failed.
#[derive(PartialEq, Eq, Structural, Clone, Copy, Debug)]
pub enum DispatchError {
    /// An error of the market pallet.
    Module(Error),
    /// An arithmetic failure.
    Arithmetic(ArithmeticError),
    /// The stored state is inconsistent.
    Corruption,
}

/// The settlement of one deal.
#[derive(PartialEq, Eq, Structural, Clone, Copy, Debug)]
pub struct SettledDealData {
    pub deal_id: DealId,
    pub client: AccountId,
    pub provider: AccountId,
    pub amount: Balance,
}

/// A deal published in a batch.
#[derive(PartialEq, Eq, Structural, Clone, Copy, Debug)]
pub struct PublishedDeal {
    pub client: AccountId,
    pub deal_id: DealId,
}

/// The entry of `who` in a balance table; an absent entry reads as zero.
pub open spec fn entry(m: Map<AccountId, BalanceEntry>, who: AccountId) -> BalanceEntry {
    if m.contains_key(who) {
        m[who]
    } else {
        BalanceEntry { free: 0, locked: 0 }
    }
}

/// The balance table after moving `amount` from `who`'s free funds to its
/// locked funds, or the error that refuses it.
pub open spec fn spec_lock_funds(m: Map<AccountId, BalanceEntry>, who: AccountId, amount: Balance) -> Result<
    Map<AccountId, BalanceEntry>,
    DispatchError,
> {
    let e = entry(m, who);
    if e.free < amount {
        Err(DispatchError::Arithmetic(ArithmeticError::Underflow))
    } else if e.locked + amount > u128::MAX {
        Err(DispatchError::Arithmetic(ArithmeticError::Overflow))
    } else {
        Ok(m.insert(who, BalanceEntry { free: (e.free - amount) as u128, locked: (e.locked + amount) as u128 }))
    }
}

/// The balance table after moving `amount` from `who`'s locked funds to its
/// free funds, or the error that refuses it.
pub open spec fn spec_unlock_funds(m: Map<AccountId, BalanceEntry>, who: AccountId, amount: Balance) -> Result<
    Map<AccountId, BalanceEntry>,
    DispatchError,
> {
    let e = entry(m, who);
    if e.locked < amount {
        Err(DispatchError::Arithmetic(ArithmeticError::Underflow))
    } else if e.free + amount > u128::MAX {
        Err(DispatchError::Arithmetic(ArithmeticError::Overflow))
    } else {
        Ok(m.insert(who, BalanceEntry { free: (e.free + amount) as u128, locked: (e.locked - amount) as u128 }))
    }
}

/// The balance table after taking `amount` out of `who`'s locked funds, or
/// the error that refuses it.
pub open spec fn spec_slash(m: Map<AccountId, BalanceEntry>, who: AccountId, amount: Balance) -> Result<
    Map<AccountId, BalanceEntry>,
    DispatchError,
> {
    let e = entry(m, who);
    if e.locked < amount {
        Err(DispatchError::Arithmetic(ArithmeticError::Underflow))
    } else {
        Ok(m.insert(who, BalanceEntry { free: e.free, locked: (e.locked - amount) as u128 }))
    }
}

/// The balance table after paying `amount` from the client's locked funds to
/// the provider's free funds, or the error that refuses it.
pub open spec fn spec_payment(
    m: Map<AccountId, BalanceEntry>,
    client: AccountId,
    provider: AccountId,
    amount: Balance,
) -> Result<Map<AccountId, BalanceEntry>, DispatchError> {
    let c = entry(m, client);
    if c.locked < amount {
        Err(DispatchError::Arithmetic(ArithmeticError::Underflow))
    } else {
        let m1 = m.insert(client, BalanceEntry { free: c.free, locked: (c.locked - amount) as u128 });
        let p = entry(m1, provider);
        if p.free + amount > u128::MAX {
            Err(DispatchError::Arithmetic(ArithmeticError::Overflow))
        } else {
            Ok(m1.insert(provider, BalanceEntry { free: (p.free + amount) as u128, locked: p.locked }))
        }
    }
}

/// Reads the entry of `who`; absent entries read as zero.
pub fn get_entry(m: &HashMap<AccountId, BalanceEntry>, who: AccountId) -> (e: BalanceEntry)
    ensures
        e == entry(m@, who),
{
    match m.get(&who) {
        Some(e) => *e,
        None => BalanceEntry { free: 0, locked: 0 },
    }
}

/// Moves `amount` of `account_id`'s free funds to its locked funds. On error
/// nothing changes.
pub fn lock_funds(m: &mut HashMap<AccountId, BalanceEntry>, account_id: AccountId, amount: Balance) -> (res: Result<
    (),
    DispatchError,
>)
    ensures
        match spec_lock_funds(old(m)@, account_id, amount) {
            Ok(n) => res is Ok && final(m)@ == n,
            Err(e) => res == Err::<(), DispatchError>(e) && final(m)@ == old(m)@,
        },
{
    let e = get_entry(m, account_id);
    if e.free < amount {
        return Err(DispatchError::Arithmetic(ArithmeticError::Underflow));
    }
    if e.locked > u128::MAX - amount {
        return Err(DispatchError::Arithmetic(ArithmeticError::Overflow));
    }
    m.insert(account_id, BalanceEntry { free: e.free - amount, locked: e.locked + amount });
    Ok(())
}

/// Moves `amount` of `account_id`'s locked funds back to its free funds. On
/// error nothing changes.
pub fn unlock_funds(m: &mut HashMap<AccountId, BalanceEntry>, account_id: AccountId, amount: Balance) -> (res:
    Result<(), DispatchError>)
    ensures
        match spec_unlock_funds(old(m)@, account_id, amount) {
            Ok(n) => res is Ok && final(m)@ == n,
            Err(e) => res == Err::<(), DispatchError>(e) && final(m)@ == old(m)@,
        },
{
    let e = get_entry(m, account_id);
    if e.locked < amount {
        return Err(DispatchError::Arithmetic(ArithmeticError::Underflow));
    }
    if e.free > u128::MAX - amount {
        return Err(DispatchError::Arithmetic(ArithmeticError::Overflow));
    }
    m.insert(account_id, BalanceEntry { free: e.free + amount, locked: e.locked - amount });
    Ok(())
}

/// Takes `amount` out of `account_id`'s locked funds; the caller burns that
/// amount from the market account. On error nothing changes.
pub fn slash_and_burn(m: &mut HashMap<AccountId, BalanceEntry>, account_id: AccountId, amount: Balance) -> (res:
    Result<(), DispatchError>)
    ensures
        match spec_slash(old(m)@, account_id, amount) {
            Ok(n) => res is Ok && final(m)@ == n,
            Err(e) => res == Err::<(), DispatchError>(e) && final(m)@ == old(m)@,
        },
{
    let e = get_entry(m, account_id);
    if e.locked < amount {
        return Err(DispatchError::Arithmetic(ArithmeticError::Underflow));
    }
    m.insert(account_id, BalanceEntry { free: e.free, locked: e.locked - amount });
    Ok(())
}

/// Pays `amount` from the client's locked funds into the provider's free
/// funds. On error nothing changes.
pub fn perform_storage_payment(
    m: &mut HashMap<AccountId, BalanceEntry>,
    client: AccountId,
    provider: AccountId,
    amount: Balance,
) -> (res: Result<(), DispatchError>)
    ensures
        match spec_payment(old(m)@, client, provider, amount) {
            Ok(n) => res is Ok && final(m)@ == n,
            Err(e) => res == Err::<(), DispatchError>(e) && final(m)@ == old(m)@,
        },
{
    let c = get_entry(m, client);
    if c.locked < amount {
        return Err(DispatchError::Arithmetic(ArithmeticError::Underflow));
    }
    let p = if provider == client {
        BalanceEntry { free: c.free, locked: c.locked - amount }
    } else {
        get_entry(m, provider)
    };
    if p.free > u128::MAX - amount {
        return Err(DispatchError::Arithmetic(ArithmeticError::Overflow));
    }
    m.insert(client, BalanceEntry { free: c.free, locked: c.locked - amount });
    m.insert(provider, BalanceEntry { free: p.free + amount, locked: p.locked });
    Ok(())
}

/// Locking funds and unlocking them again leaves every account's entry as it
/// was.
pub proof fn law_lock_then_unlock_restores(m: Map<AccountId, BalanceEntry>, who: AccountId, amount: Balance)
    requires
        spec_lock_funds(m, who, amount) is Ok,
    ensures
        spec_unlock_funds(spec_lock_funds(m, who, amount)->Ok_0, who, amount) matches Ok(m2)
            && forall|x: AccountId| entry(m2, x) == entry(m, x),
{
}

/// Locking, unlocking and paying never create or destroy funds: locking and
/// unlocking keep every account's total, and a payment keeps the client's and
/// provider's combined total and every other account's entry.
pub proof fn law_funds_conserved(m: Map<AccountId, BalanceEntry>, a: AccountId, b: AccountId, amount: Balance)
    ensures
        spec_lock_funds(m, a, amount) matches Ok(m2) ==> forall|x: AccountId|
            entry(m2, x).free + entry(m2, x).locked == entry(m, x).free + entry(m, x).locked,
        spec_unlock_funds(m, a, amount) matches Ok(m2) ==> forall|x: AccountId|
            entry(m2, x).free + entry(m2, x).locked == entry(m, x).free + entry(m, x).locked,
        spec_payment(m, a, b, amount) matches Ok(m2) ==> {
            &&& (a != b ==> entry(m2, a).free + entry(m2, a).locked + entry(m2, b).free + entry(m2, b).locked
                == entry(m, a).free + entry(m, a).locked + entry(m, b).free + entry(m, b).locked)
            &&& (a == b ==> entry(m2, a).free + entry(m2, a).locked == entry(m, a).free + entry(m, a).locked)
            &&& forall|x: AccountId| x != a && x != b ==> entry(m2, x) == entry(m, x)
        },
{
}

/// The market's view of the deal proposals.
pub open spec fn proposals_model(m: Map<DealId, DealProposal>) -> Map<DealId, DealModel> {
    m.map_values(|p: DealProposal| p@)
}

/// The state a settlement run threads through the deals it settles.
pub struct SettleState {
    pub balances: Map<AccountId, BalanceEntry>,
    pub proposals: Map<DealId, DealModel>,
    pub successful: Seq<SettledDealData>,
    pub unsuccessful: Seq<(DealId, DealSettlementError)>,
}

/// Settles deal `id` at block `now`: pays the client's locked funds to the
/// provider for the blocks since the last settlement (or the deal's start),
/// up to the end of the deal, and removes the deal once it has ended.
pub open spec fn settle_step(acc: SettleState, id: DealId, now: BlockNumber) -> Result<SettleState, DispatchError> {
    if !acc.proposals.contains_key(id) {
        Ok(SettleState { unsuccessful: acc.unsuccessful.push((id, DealSettlementError::DealNotFound)), ..acc })
    } else {
        let p = acc.proposals[id];
        if p.start_block > now {
            Ok(SettleState { unsuccessful: acc.unsuccessful.push((id, DealSettlementError::EarlySettlement)), ..acc })
        } else {
            match p.state {
                DealState::Published => Ok(
                    SettleState { unsuccessful: acc.unsuccessful.push((id, DealSettlementError::DealNotActive)), ..acc },
                ),
                DealState::Active(a) => {
                    if a.last_updated_block matches Some(l) && l > now {
                        Ok(
                            SettleState {
                                unsuccessful: acc.unsuccessful.push((id, DealSettlementError::FutureLastUpdate)),
                                ..acc
                            },
                        )
                    } else {
                        let last = match a.last_updated_block {
                            Some(l) => l,
                            None => p.start_block,
                        };
                        if last > p.end_block {
                            Err(DispatchError::Corruption)
                        } else {
                            let complete = now >= p.end_block;
                            let upto = if complete { p.end_block } else { now };
                            let amount = (upto - last) * p.storage_price_per_block;
                            if amount > u128::MAX {
                                Err(DispatchError::Arithmetic(ArithmeticError::Overflow))
                            } else {
                                match spec_payment(acc.balances, p.client, p.provider, amount as u128) {
                                    Err(e) => Err(e),
                                    Ok(bal) => {
                                        let settled = SettledDealData {
                                            deal_id: id,
                                            client: p.client,
                                            provider: p.provider,
                                            amount: amount as u128,
                                        };
                                        let props = if complete {
                                            acc.proposals.remove(id)
                                        } else {
                                            acc.proposals.insert(
                                                id,
                                                DealModel {
                                                    state: DealState::Active(
                                                        ActiveDealState { last_updated_block: Some(now), ..a },
                                                    ),
                                                    ..p
                                                },
                                            )
                                        };
                                        Ok(
                                            SettleState {
                                                balances: bal,
                                                proposals: props,
                                                successful: acc.successful.push(settled),
                                                unsuccessful: acc.unsuccessful,
                                            },
                                        )
                                    },
                                }
                            }
                        }
                    }
                },
            }
        }
    }
}

/// The first `n` deals of `ids` settled in order.
pub open spec fn settle_fold(acc: SettleState, ids: Seq<DealId>, n: nat, now: BlockNumber) -> Result<
    SettleState,
    DispatchError,
>
    decreases n,
{
    if n == 0 {
        Ok(acc)
    } else {
        match settle_fold(acc, ids, (n - 1) as nat, now) {
            Err(e) => Err(e),
            Ok(a) => settle_step(a, ids[n - 1], now),
        }
    }
}

/// Settling a deal a second time at the same block pays nothing more: the
/// balances are those the first settlement left.
pub proof fn law_settle_twice_pays_once(acc: SettleState, id: DealId, now: BlockNumber)
    requires
        settle_step(acc, id, now) is Ok,
    ensures
        settle_step(settle_step(acc, id, now)->Ok_0, id, now) matches Ok(acc2) && forall|x: AccountId|
            entry(acc2.balances, x) == entry(settle_step(acc, id, now)->Ok_0.balances, x),
{
    let acc1 = settle_step(acc, id, now)->Ok_0;
    if acc.proposals.contains_key(id) && acc1.proposals.contains_key(id) {
        let p = acc.proposals[id];
        if p.start_block <= now {
            if let DealState::Active(a) = p.state {
                if !(a.last_updated_block matches Some(l) && l > now) {
                    let last = match a.last_updated_block {
                        Some(l) => l,
                        None => p.start_block,
                    };
                    if now < p.end_block {
                        let q = acc1.proposals[id];
                        assert(q.state == DealState::Active(ActiveDealState { last_updated_block: Some(now), ..a }));
                        assert((now - now) * q.storage_price_per_block == 0);
                    }
                }
            }
        }
    }
}

/// A settlement reports what it paid: when settling a deal succeeds, the
/// report added for it names the deal and its two parties, and its amount is
/// exactly what left the client's locked funds and reached the provider's
/// free funds: the price per block times the blocks since the deal was last
/// settled (or started), up to its end. A deal that is not settled moves no
/// funds.
pub proof fn law_settlement_reports_amount_paid(acc: SettleState, id: DealId, now: BlockNumber)
    requires
        settle_step(acc, id, now) is Ok,
    ensures
        ({
            let b = settle_step(acc, id, now)->Ok_0;
            &&& b.successful.len() == acc.successful.len() || b.successful.len() == acc.successful.len() + 1
            &&& b.successful.subrange(0, acc.successful.len() as int) == acc.successful
            &&& b.successful.len() == acc.successful.len() ==> b.balances == acc.balances
            &&& b.successful.len() == acc.successful.len() + 1 ==> {
                let s = b.successful.last();
                &&& acc.proposals.contains_key(id)
                &&& s.deal_id == id
                &&& s.client == acc.proposals[id].client
                &&& s.provider == acc.proposals[id].provider
                &&& acc.proposals[id].state matches DealState::Active(a) && s.amount == ((if now
                    >= acc.proposals[id].end_block {
                    acc.proposals[id].end_block
                } else {
                    now
                }) - match a.last_updated_block {
                    Some(l) => l,
                    None => acc.proposals[id].start_block,
                }) * acc.proposals[id].storage_price_per_block
                &&& entry(b.balances, s.client).locked == entry(acc.balances, s.client).locked - s.amount
                &&& entry(b.balances, s.provider).free == entry(acc.balances, s.provider).free + s.amount
                &&& (s.client != s.provider ==> entry(b.balances, s.client).free == entry(
                    acc.balances,
                    s.client,
                ).free && entry(b.balances, s.provider).locked == entry(acc.balances, s.provider).locked)
                &&& forall|x: AccountId| x != s.client && x != s.provider ==> entry(b.balances, x) == entry(
                    acc.balances,
                    x,
                )
            }
        }),
{
    let b = settle_step(acc, id, now)->Ok_0;
    assert(b.successful.subrange(0, acc.successful.len() as int) =~= acc.successful);
}

/// The free and locked funds of the accounts `accs` in a balance table,
/// added up.
pub open spec fn total_funds(m: Map<AccountId, BalanceEntry>, accs: Seq<AccountId>) -> int
    decreases accs.len(),
{
    if accs.len() == 0 {
        0
    } else {
        total_funds(m, accs.drop_last()) + entry(m, accs.last()).free + entry(m, accs.last()).locked
    }
}

/// The client and the provider of every deal among `props` are in `accs`.
pub open spec fn parties_in(props: Map<DealId, DealModel>, accs: Seq<AccountId>) -> bool {
    forall|id: DealId|
        props.contains_key(id) ==> accs.contains(#[trigger] props[id].client) && accs.contains(props[id].provider)
}

proof fn lemma_total_delta(
    m: Map<AccountId, BalanceEntry>,
    m2: Map<AccountId, BalanceEntry>,
    accs: Seq<AccountId>,
    a: AccountId,
    b: AccountId,
)
    requires
        accs.no_duplicates(),
        forall|x: AccountId| x != a && x != b ==> entry(m2, x) == entry(m, x),
    ensures
        total_funds(m2, accs) - total_funds(m, accs) == (if accs.contains(a) {
            (entry(m2, a).free + entry(m2, a).locked) - (entry(m, a).free + entry(m, a).locked)
        } else {
            0
        }) + (if b != a && accs.contains(b) {
            (entry(m2, b).free + entry(m2, b).locked) - (entry(m, b).free + entry(m, b).locked)
        } else {
            0
        }),
    decreases accs.len(),
{
    if accs.len() > 0 {
        let init = accs.drop_last();
        let x = accs.last();
        assert(init.no_duplicates()) by {
            assert forall|i: int, j: int| 0 <= i < init.len() && 0 <= j < init.len() && i != j implies init[i]
                != init[j] by {
                assert(init[i] == accs[i] && init[j] == accs[j]);
            }
        }
        lemma_total_delta(m, m2, init, a, b);
        assert forall|y: AccountId| accs.contains(y) <==> (init.contains(y) || y == x) by {
            if accs.contains(y) {
                let k = choose|k: int| 0 <= k < accs.len() && accs[k] == y;
                if k < accs.len() - 1 {
                    assert(init[k] == y);
                }
            }
            if init.contains(y) {
                let k = choose|k: int| 0 <= k < init.len() && init[k] == y;
                assert(accs[k] == y);
            }
            if y == x {
                assert(accs[accs.len() - 1] == y);
            }
        }
        assert(!init.contains(x)) by {
            if init.contains(x) {
                let k = choose|k: int| 0 <= k < init.len() && init[k] == x;
                assert(accs[k] == accs[accs.len() - 1]);
            }
        }
    }
}

proof fn lemma_settle_step_run(acc: SettleState, id: DealId, now: BlockNumber, accs: Seq<AccountId>)
    requires
        accs.no_duplicates(),
        parties_in(acc.proposals, accs),
        settle_step(acc, id, now) is Ok,
    ensures
        ({
            let b = settle_step(acc, id, now)->Ok_0;
            &&& b.successful.len() + b.unsuccessful.len() == acc.successful.len() + acc.unsuccessful.len() + 1
            &&& parties_in(b.proposals, accs)
            &&& total_funds(b.balances, accs) == total_funds(acc.balances, accs)
        }),
{
    let b = settle_step(acc, id, now)->Ok_0;
    if b.balances != acc.balances {
        let p = acc.proposals[id];
        let last = match p.state {
            DealState::Active(a) => match a.last_updated_block {
                Some(l) => l,
                None => p.start_block,
            },
            DealState::Published => 0,
        };
        let complete = now >= p.end_block;
        let upto = if complete { p.end_block } else { now };
        let amount = ((upto - last) * p.storage_price_per_block) as u128;
        law_funds_conserved(acc.balances, p.client, p.provider, amount);
        assert(spec_payment(acc.balances, p.client, p.provider, amount) == Ok::<
            Map<AccountId, BalanceEntry>,
            DispatchError,
        >(b.balances));
        lemma_total_delta(acc.balances, b.balances, accs, p.client, p.provider);
        assert(accs.contains(p.client) && accs.contains(p.provider));
    }
    assert forall|d: DealId| b.proposals.contains_key(d) implies accs.contains(#[trigger] b.proposals[d].client)
        && accs.contains(b.proposals[d].provider) by {
        assert(acc.proposals.contains_key(d));
        assert(b.proposals[d].client == acc.proposals[d].client);
        assert(b.proposals[d].provider == acc.proposals[d].provider);
    }
    assert(b.successful.len() + b.unsuccessful.len() == acc.successful.len() + acc.unsuccessful.len() + 1);
    assert(total_funds(b.balances, accs) == total_funds(acc.balances, accs));
    assert(parties_in(b.proposals, accs));
}

/// A settlement run reports every deal it is given, as settled or not, and
/// moves funds without creating or destroying any: over distinct accounts
/// that include both parties of every deal the market holds, the free and
/// locked funds added up are the same after the run.
pub proof fn law_settlement_run(acc: SettleState, ids: Seq<DealId>, now: BlockNumber, accs: Seq<AccountId>)
    requires
        accs.no_duplicates(),
        parties_in(acc.proposals, accs),
    ensures
        settle_fold(acc, ids, ids.len(), now) matches Ok(a) ==> {
            &&& a.successful.len() + a.unsuccessful.len() == acc.successful.len() + acc.unsuccessful.len() + ids.len()
            &&& total_funds(a.balances, accs) == total_funds(acc.balances, accs)
        },
{
    lemma_settlement_prefix(acc, ids, ids.len(), now, accs);
}

proof fn lemma_settlement_prefix(acc: SettleState, ids: Seq<DealId>, n: nat, now: BlockNumber, accs: Seq<AccountId>)
    requires
        accs.no_duplicates(),
        parties_in(acc.proposals, accs),
        n <= ids.len(),
    ensures
        settle_fold(acc, ids, n, now) matches Ok(a) ==> {
            &&& a.successful.len() + a.unsuccessful.len() == acc.successful.len() + acc.unsuccessful.len() + n
            &&& total_funds(a.balances, accs) == total_funds(acc.balances, accs)
            &&& parties_in(a.proposals, accs)
        },
    decreases n,
{
    if n > 0 {
        lemma_settlement_prefix(acc, ids, (n - 1) as nat, now, accs);
        if let Ok(a) = settle_fold(acc, ids, (n - 1) as nat, now) {
            if settle_step(a, ids[n - 1], now) is Ok {
                lemma_settle_step_run(a, ids[n - 1], now, accs);
            }
        }
    }
}

proof fn lemma_settle_fold_err(acc: SettleState, ids: Seq<DealId>, k: nat, n: nat, now: BlockNumber)
    requires
        k <= n,
        settle_fold(acc, ids, k, now) is Err,
    ensures
        settle_fold(acc, ids, n, now) == settle_fold(acc, ids, k, now),
    decreases n - k,
{
    if k < n {
        lemma_settle_fold_err(acc, ids, k, (n - 1) as nat, now);
    }
}

/// Market events.
#[derive(Debug)]
pub enum Event {
    BalanceAdded { who: AccountId, amount: Balance },
    BalanceWithdrawn { who: AccountId, amount: Balance },
    DealActivated { deal_id: DealId, client: AccountId, provider: AccountId },
    DealsSettled { successful: Vec<SettledDealData>, unsuccessful: Vec<(DealId, DealSettlementError)> },
    DealSlashed { deal_id: DealId, amount: Balance, client: AccountId, provider: AccountId },
    DealTerminated { deal_id: DealId, client: AccountId, provider: AccountId },
    DealsPublished { provider: AccountId, deals: Vec<PublishedDeal> },
    DealParametersUpdated { provider: AccountId, deal_parameters: DealParameters },
    DealParametersRemoved { provider: AccountId },
}

/// Bounds on deal duration a storage provider accepts; `None` stands for the
/// chain's own bound.
#[derive(PartialEq, Eq, Structural, Clone, Copy, Debug)]
pub struct OffchainDealDurationBound {
    pub lower: Option<BlockNumber>,
    pub upper: Option<BlockNumber>,
}

/// Bounds on deal duration, with the chain's bounds filled in.
#[derive(PartialEq, Eq, Structural, Clone, Copy, Debug)]
pub struct DealDurationBound {
    pub lower: BlockNumber,
    pub upper: BlockNumber,
}

/// Deal parameters as a storage provider submits them.
#[derive(PartialEq, Eq, Structural, Clone, Copy, Debug)]
pub struct OffchainDealParameters {
    pub minimum_price_per_block: Balance,
    pub deal_duration: OffchainDealDurationBound,
}

/// Deal parameters of a storage provider, with the chain's bounds filled in.
#[derive(PartialEq, Eq, Structural, Clone, Copy, Debug)]
pub struct DealParameters {
    pub minimum_price_per_block: Balance,
    pub deal_duration: DealDurationBound,
}

/// The storage of the market pallet.
pub struct Market {
    /// Free and locked funds of every participant.
    pub balance_table: HashMap<AccountId, BalanceEntry>,
    /// The identifier the next published deal gets.
    pub next_deal_id: DealId,
    /// Published and active deals.
    pub proposals: HashMap<DealId, DealProposal>,
    /// Hashes of the deals published but not yet activated.
    pub pending_proposals: Vec<Vec<u8>>,
    /// Deals due to start at each block.
    pub deals_for_block: HashMap<BlockNumber, Vec<DealId>>,
    /// Deals of each sector of each provider.
    pub sector_deals: Vec<(AccountId, SectorNumber, Vec<DealId>)>,
    /// Deal parameters of the storage providers.
    pub sp_deal_parameters: HashMap<AccountId, DealParameters>,
    /// The current block.
    pub block_number: BlockNumber,
    /// Events emitted so far.
    pub events: Vec<Event>,
}

impl Market {
    /// Settles the payments of the given deals at the current block. Deals
    /// that cannot be settled are reported, not failed; the call fails, and
    /// changes nothing, only when a deal's last settlement lies past its end
    /// or a payment cannot be made.
    pub fn settle_deal_payments(&mut self, deal_ids: &Vec<DealId>) -> (res: Result<(), DispatchError>)
        ensures
            ({
                let acc0 = SettleState {
                    balances: old(self).balance_table@,
                    proposals: proposals_model(old(self).proposals@),
                    successful: Seq::empty(),
                    unsuccessful: Seq::empty(),
                };
                match settle_fold(acc0, deal_ids@, deal_ids@.len(), old(self).block_number) {
                    Err(e) => res == Err::<(), DispatchError>(e)
                        && final(self).balance_table@ == old(self).balance_table@
                        && final(self).proposals@ == old(self).proposals@
                        && final(self).events@ == old(self).events@,
                    Ok(acc) => {
                        &&& res is Ok
                        &&& final(self).balance_table@ == acc.balances
                        &&& proposals_model(final(self).proposals@) == acc.proposals
                        &&& final(self).events@.len() == old(self).events@.len() + 1
                        &&& final(self).events@.drop_last() == old(self).events@
                        &&& final(self).events@.last() matches Event::DealsSettled { successful, unsuccessful }
                            && successful@ == acc.successful && unsuccessful@ == acc.unsuccessful
                    },
                }
            }),
            final(self).block_number == old(self).block_number,
            final(self).next_deal_id == old(self).next_deal_id,
            final(self).pending_proposals == old(self).pending_proposals,
            final(self).deals_for_block == old(self).deals_for_block,
            final(self).sector_deals == old(self).sector_deals,
            final(self).sp_deal_parameters == old(self).sp_deal_parameters,
    {
        let saved_balances = self.balance_table.clone();
        let saved_proposals = self.proposals.clone();
        let mut successful: Vec<SettledDealData> = Vec::new();
        let mut unsuccessful: Vec<(DealId, DealSettlementError)> = Vec::new();
        match self.settle_all(deal_ids, &mut successful, &mut unsuccessful) {
            Err(e) => {
                self.balance_table = saved_balances;
                self.proposals = saved_proposals;
                Err(e)
            },
            Ok(()) => {
                self.events.push(Event::DealsSettled { successful, unsuccessful });
                Ok(())
            },
        }
    }

    fn settle_all(
        &mut self,
        deal_ids: &Vec<DealId>,
        successful: &mut Vec<SettledDealData>,
        unsuccessful: &mut Vec<(DealId, DealSettlementError)>,
    ) -> (res: Result<(), DispatchError>)
        requires
            old(successful)@ == Seq::<SettledDealData>::empty(),
            old(unsuccessful)@ == Seq::<(DealId, DealSettlementError)>::empty(),
        ensures
            ({
                let acc0 = SettleState {
                    balances: old(self).balance_table@,
                    proposals: proposals_model(old(self).proposals@),
                    successful: Seq::empty(),
                    unsuccessful: Seq::empty(),
                };
                match settle_fold(acc0, deal_ids@, deal_ids@.len(), old(self).block_number) {
                    Err(e) => res == Err::<(), DispatchError>(e),
                    Ok(acc) => res is Ok && final(self).balance_table@ == acc.balances
                        && proposals_model(final(self).proposals@) == acc.proposals
                        && final(successful)@ == acc.successful && final(unsuccessful)@ == acc.unsuccessful,
                }
            }),
            final(self).events == old(self).events,
            final(self).block_number == old(self).block_number,
            final(self).next_deal_id == old(self).next_deal_id,
            final(self).pending_proposals == old(self).pending_proposals,
            final(self).deals_for_block == old(self).deals_for_block,
            final(self).sector_deals == old(self).sector_deals,
            final(self).sp_deal_parameters == old(self).sp_deal_parameters,
    {
        let now = self.block_number;
        let ghost acc0 = SettleState {
            balances: old(self).balance_table@,
            proposals: proposals_model(old(self).proposals@),
            successful: Seq::empty(),
            unsuccessful: Seq::empty(),
        };
        let mut k: usize = 0;
        let mut failure: Option<DispatchError> = None;
        while k < deal_ids.len()
            invariant_except_break
                k <= deal_ids.len(),
                settle_fold(acc0, deal_ids@, k as nat, now) == Ok::<SettleState, DispatchError>(SettleState {
                    balances: self.balance_table@,
                    proposals: proposals_model(self.proposals@),
                    successful: successful@,
                    unsuccessful: unsuccessful@,
                }),
                failure is None,
            invariant
                now == self.block_number,
                self.events == old(self).events,
                self.block_number == old(self).block_number,
                self.next_deal_id == old(self).next_deal_id,
                self.pending_proposals == old(self).pending_proposals,
                self.deals_for_block == old(self).deals_for_block,
                self.sector_deals == old(self).sector_deals,
                self.sp_deal_parameters == old(self).sp_deal_parameters,
            ensures
                failure matches Some(e) ==> settle_fold(acc0, deal_ids@, deal_ids@.len(), now) == Err::<SettleState, DispatchError>(e),
                failure is None ==> settle_fold(acc0, deal_ids@, deal_ids@.len(), now) == Ok::<SettleState, DispatchError>(SettleState {
                    balances: self.balance_table@,
                    proposals: proposals_model(self.proposals@),
                    successful: successful@,
                    unsuccessful: unsuccessful@,
                }),
            decreases deal_ids.len() - k,
        {
            let id = deal_ids[k];
            let r = self.settle_one(id, successful, unsuccessful);
            if let Err(e) = r {
                proof {
                    assert(settle_fold(acc0, deal_ids@, (k + 1) as nat, now) == Err::<SettleState, DispatchError>(e));
                    lemma_settle_fold_err(acc0, deal_ids@, (k + 1) as nat, deal_ids@.len(), now);
                }
                failure = Some(e);
                break;
            }
            k += 1;
        }
        match failure {
            Some(e) => Err(e),
            None => Ok(()),
        }
    }

    fn settle_one(
        &mut self,
        id: DealId,
        successful: &mut Vec<SettledDealData>,
        unsuccessful: &mut Vec<(DealId, DealSettlementError)>,
    ) -> (res: Result<(), DispatchError>)
        ensures
            ({
                let acc = SettleState {
                    balances: old(self).balance_table@,
                    proposals: proposals_model(old(self).proposals@),
                    successful: old(successful)@,
                    unsuccessful: old(unsuccessful)@,
                };
                match settle_step(acc, id, old(self).block_number) {
                    Err(e) => res == Err::<(), DispatchError>(e),
                    Ok(a) => res is Ok && final(self).balance_table@ == a.balances
                        && proposals_model(final(self).proposals@) == a.proposals
                        && final(successful)@ == a.successful && final(unsuccessful)@ == a.unsuccessful,
                }
            }),
            final(self).events == old(self).events,
            final(self).block_number == old(self).block_number,
            final(self).next_deal_id == old(self).next_deal_id,
            final(self).pending_proposals == old(self).pending_proposals,
            final(self).deals_for_block == old(self).deals_for_block,
            final(self).sector_deals == old(self).sector_deals,
            final(self).sp_deal_parameters == old(self).sp_deal_parameters,
    {
        let now = self.block_number;
        let ghost props = proposals_model(self.proposals@);
        let p = match self.proposals.get(&id) {
            None => {
                unsuccessful.push((id, DealSettlementError::DealNotFound));
                return Ok(());
            },
            Some(p) => p,
        };
        assert(props.contains_key(id) && props[id] == p@);
        if p.start_block > now {
            unsuccessful.push((id, DealSettlementError::EarlySettlement));
            return Ok(());
        }
        let a = match p.state {
            DealState::Published => {
                unsuccessful.push((id, DealSettlementError::DealNotActive));
                return Ok(());
            },
            DealState::Active(a) => a,
        };
        if let Some(l) = a.last_updated_block {
            if l > now {
                unsuccessful.push((id, DealSettlementError::FutureLastUpdate));
                return Ok(());
            }
        }
        let last = match a.last_updated_block {
            Some(l) => l,
            None => p.start_block,
        };
        if last > p.end_block {
            return Err(DispatchError::Corruption);
        }
        let complete = now >= p.end_block;
        let upto = if complete { p.end_block } else { now };
        let duration = (upto - last) as u128;
        let price = p.storage_price_per_block;
        if duration != 0 && price > u128::MAX / duration {
            proof {
                assert(duration * price > u128::MAX) by (nonlinear_arith)
                    requires
                        duration > 0,
                        price > u128::MAX / duration,
                ;
            }
            return Err(DispatchError::Arithmetic(ArithmeticError::Overflow));
        }
        proof {
            if duration != 0 {
                assert(duration * price <= u128::MAX) by (nonlinear_arith)
                    requires
                        duration > 0,
                        price <= u128::MAX / duration,
                ;
            }
        }
        let amount = duration * price;
        let client = p.client;
        let provider = p.provider;
        let updated = if complete {
            None
        } else {
            Some(p.with_state(DealState::Active(ActiveDealState { last_updated_block: Some(now), ..a })))
        };
        perform_storage_payment(&mut self.balance_table, client, provider, amount)?;
        successful.push(SettledDealData { deal_id: id, client, provider, amount });
        match updated {
            None => {
                self.proposals.remove(&id);
                proof {
                    assert(proposals_model(self.proposals@) =~= props.remove(id));
                }
            },
            Some(q) => {
                self.proposals.insert(id, q);
                proof {
                    assert(proposals_model(self.proposals@) =~= props.insert(
                        id,
                        DealModel {
                            state: DealState::Active(ActiveDealState { last_updated_block: Some(now), ..a }),
                            ..props[id]
                        },
                    ));
                }
            },
        }
        Ok(())
    }
}

/// The SCALE encoding of a deal proposal's fields in their declared order;
/// the state is `None` while published, and the active state's fields
/// otherwise.
pub uninterp spec fn scale_proposal_bytes(
    piece_cid: Seq<u8>,
    piece_size: u64,
    client: u64,
    provider: u64,
    label: Seq<u8>,
    start_block: u64,
    end_block: u64,
    storage_price_per_block: u128,
    provider_collateral: u128,
    state: Option<(u64, u64, Option<u64>, Option<u64>)>,
) -> Seq<u8>;

/// The state field as the encoding sees it.
pub open spec fn state_fields(s: DealState) -> Option<(u64, u64, Option<u64>, Option<u64>)> {
    match s {
        DealState::Published => None,
        DealState::Active(a) => Some((a.sector_number, a.sector_start_block, a.last_updated_block, a.slash_block)),
    }
}

/// Encodes the proposal's fields as one tuple with
/// `parity_scale_codec::Encode`. Claimed: the result is the function's value
/// on these fields. The encoder refuses (panics on) byte strings longer than
/// `u32::MAX`, which the bound on both fields rules out.
#[verifier::external_body]
fn scale_encode_proposal(p: &DealProposal) -> (out: Vec<u8>)
    requires
        p.piece_cid@.len() <= u32::MAX,
        p.label@.len() <= u32::MAX,
    ensures
        out@ == scale_proposal_bytes(
            p.piece_cid@,
            p.piece_size,
            p.client,
            p.provider,
            p.label@,
            p.start_block,
            p.end_block,
            p.storage_price_per_block,
            p.provider_collateral,
            state_fields(p.state),
        ),
{
    let state = match p.state {
        DealState::Published => None,
        DealState::Active(a) => Some((a.sector_number, a.sector_start_block, a.last_updated_block, a.slash_block)),
    };
    (&p.piece_cid.bytes[..], p.piece_size, p.client, p.provider, &p.label.bytes[..], p.start_block, p.end_block,
        p.storage_price_per_block, p.provider_collateral, state).encode()
}

/// The hash under which a proposal is kept among the pending proposals: the
/// BLAKE2b-256 digest of its SCALE encoding.
pub open spec fn proposal_hash(d: DealModel) -> Seq<u8> {
    blake2_256_spec(
        scale_proposal_bytes(
            d.piece_cid,
            d.piece_size,
            d.client,
            d.provider,
            d.label,
            d.start_block,
            d.end_block,
            d.storage_price_per_block,
            d.provider_collateral,
            state_fields(d.state),
        ),
    )
}

/// The hash of a proposal, used to find duplicates among pending deals.
pub fn hash_proposal(p: &DealProposal) -> (h: Vec<u8>)
    ensures
        h@ == proposal_hash(p@),
{
    let _ = p.piece_cid.as_slice();
    let _ = p.label.as_slice();
    let bytes = scale_encode_proposal(p);
    blake2_256(bytes.as_slice())
}

/// Whether `h` is among `hashes`.
pub fn contains_hash(hashes: &Vec<Vec<u8>>, h: &Vec<u8>) -> (r: bool)
    ensures
        r == hashes@.map_values(|x: Vec<u8>| x@).contains(h@),
{
    let ghost hs = hashes@.map_values(|x: Vec<u8>| x@);
    let mut i: usize = 0;
    while i < hashes.len()
        invariant
            i <= hashes.len(),
            hs == hashes@.map_values(|x: Vec<u8>| x@),
            forall|j: int| 0 <= j < i ==> hs[j] != h@,
        decreases hashes.len() - i,
    {
        if bytes_eq(hashes[i].as_slice(), h.as_slice()) {
            proof {
                assert(hs[i as int] == h@);
            }
            return true;
        }
        i += 1;
    }
    proof {
        assert forall|j: int| 0 <= j < hs.len() implies hs[j] != h@ by {}
    }
    false
}

/// Sealing proof types, which fix the size of a sector.
#[derive(PartialEq, Eq, Structural, Clone, Copy, Debug)]
pub enum RegisteredSealProof {
    StackedDRG2KiBV1P1,
    StackedDRG8MiBV1P1,
    StackedDRG512MiBV1P1,
    StackedDRG32GiBV1P1,
    StackedDRG64GiBV1P1,
}

/// Size in bytes of a sector sealed with `p`.
pub open spec fn sector_size_of(p: RegisteredSealProof) -> u64 {
    match p {
        RegisteredSealProof::StackedDRG2KiBV1P1 => 2048,
        RegisteredSealProof::StackedDRG8MiBV1P1 => 8388608,
        RegisteredSealProof::StackedDRG512MiBV1P1 => 536870912,
        RegisteredSealProof::StackedDRG32GiBV1P1 => 34359738368,
        RegisteredSealProof::StackedDRG64GiBV1P1 => 68719476736,
    }
}

impl RegisteredSealProof {
    /// Size in bytes of a sector sealed with this proof.
    pub fn sector_size(&self) -> (n: u64)
        ensures
            n == sector_size_of(*self),
    {
        match self {
            RegisteredSealProof::StackedDRG2KiBV1P1 => 2048,
            RegisteredSealProof::StackedDRG8MiBV1P1 => 8388608,
            RegisteredSealProof::StackedDRG512MiBV1P1 => 536870912,
            RegisteredSealProof::StackedDRG32GiBV1P1 => 34359738368,
            RegisteredSealProof::StackedDRG64GiBV1P1 => 68719476736,
        }
    }
}

/// A sector and the deals a provider wants to place in it.
pub struct SectorDeal {
    pub sector_number: SectorNumber,
    pub sector_expiry: BlockNumber,
    pub sector_type: RegisteredSealProof,
    pub deal_ids: Vec<DealId>,
}

/// A deal as activated in a sector.
pub struct ActiveDeal {
    pub client: AccountId,
    pub piece_cid: Cid,
    pub piece_size: u64,
}

/// The deals activated in one sector, and the sector's unsealed data
/// commitment when it was computed.
pub struct ActiveSector {
    pub active_deals: Vec<ActiveDeal>,
    pub unsealed_cid: Option<Vec<u8>>,
}

/// A piece that goes into a sector: its CID bytes and padded size.
pub struct PieceRef {
    pub piece_cid: Vec<u8>,
    pub piece_size: u64,
}

/// The deals that `ids` name, in order: each must be named once and be known.
pub open spec fn spec_proposals_for_deals(props: Map<DealId, DealModel>, ids: Seq<DealId>, n: nat) -> Result<
    Seq<(DealId, DealModel)>,
    Error,
>
    decreases n,
{
    if n == 0 {
        Ok(Seq::empty())
    } else {
        match spec_proposals_for_deals(props, ids, (n - 1) as nat) {
            Err(e) => Err(e),
            Ok(v) => {
                let id = ids[n - 1];
                if ids.take(n - 1).contains(id) {
                    Err(Error::DuplicateDeal)
                } else if !props.contains_key(id) {
                    Err(Error::DealNotFound)
                } else {
                    Ok(v.push((id, props[id])))
                }
            },
        }
    }
}

proof fn lemma_pfd_err(props: Map<DealId, DealModel>, ids: Seq<DealId>, k: nat, n: nat)
    requires
        k <= n,
        spec_proposals_for_deals(props, ids, k) is Err,
    ensures
        spec_proposals_for_deals(props, ids, n) == spec_proposals_for_deals(props, ids, k),
    decreases n - k,
{
    if k < n {
        lemma_pfd_err(props, ids, k, (n - 1) as nat);
    }
}

/// Why deal `d` cannot be activated by `provider` in a sector expiring at
/// `expiry` and activated at `activation`, if it cannot.
pub open spec fn spec_validate_deal(
    d: DealModel,
    provider: AccountId,
    expiry: BlockNumber,
    activation: BlockNumber,
    pending: Seq<Seq<u8>>,
) -> Result<(), Error> {
    if provider != d.provider {
        Err(Error::InvalidProvider)
    } else if d.state != DealState::Published {
        Err(Error::InvalidDealState)
    } else if activation > d.start_block {
        Err(Error::StartBlockElapsed)
    } else if expiry < d.end_block {
        Err(Error::SectorExpiresBeforeDeal)
    } else if !pending.contains(proposal_hash(d)) {
        Err(Error::DealNotPending)
    } else {
        Ok(())
    }
}

/// Sum of the piece sizes of the first `n` deals.
pub open spec fn total_space(deals: Seq<(DealId, DealModel)>, n: nat) -> nat
    decreases n,
{
    if n == 0 {
        0
    } else {
        total_space(deals, (n - 1) as nat) + deals[n - 1].1.piece_size as nat
    }
}

/// Whether all of `deals` can be activated together in one sector of
/// `sector_size` bytes: a deal that cannot be activated fails the sector
/// with [`Error::DealActivationError`]; otherwise the pieces must fit in
/// the sector.
pub open spec fn spec_validate_sector(
    deals: Seq<(DealId, DealModel)>,
    provider: AccountId,
    expiry: BlockNumber,
    activation: BlockNumber,
    sector_size: u64,
    pending: Seq<Seq<u8>>,
) -> Result<(), Error> {
    if exists|k: int| 0 <= k < deals.len() && spec_validate_deal(deals[k].1, provider, expiry, activation, pending) is Err {
        Err(Error::DealActivationError)
    } else if total_space(deals, deals.len()) > sector_size {
        Err(Error::DealsTooLargeToFitIntoSector)
    } else {
        Ok(())
    }
}

impl Market {
    /// The pending proposal hashes as byte sequences.
    pub open spec fn pending_model(&self) -> Seq<Seq<u8>> {
        self.pending_proposals@.map_values(|x: Vec<u8>| x@)
    }

    /// The deals that `deal_ids` name, in order, with their identifiers: each
    /// must be named once and be known.
    pub fn proposals_for_deals(&self, deal_ids: &Vec<DealId>) -> (res: Result<Vec<(DealId, DealProposal)>, Error>)
        ensures
            match spec_proposals_for_deals(proposals_model(self.proposals@), deal_ids@, deal_ids@.len()) {
                Err(e) => res == Err::<Vec<(DealId, DealProposal)>, Error>(e),
                Ok(v) => res matches Ok(r) && r@.len() == v.len() && forall|j: int|
                    0 <= j < v.len() ==> (#[trigger] r@[j]).0 == v[j].0 && r@[j].1@ == v[j].1,
            },
    {
        let ghost props = proposals_model(self.proposals@);
        let mut out: Vec<(DealId, DealProposal)> = Vec::new();
        let mut k: usize = 0;
        let mut failure: Option<Error> = None;
        while k < deal_ids.len()
            invariant_except_break
                k <= deal_ids.len(),
                failure is None,
                spec_proposals_for_deals(props, deal_ids@, k as nat) matches Ok(v) && out@.len() == v.len()
                    && forall|j: int| 0 <= j < v.len() ==> (#[trigger] out@[j]).0 == v[j].0 && out@[j].1@ == v[j].1,
                forall|j: int| 0 <= j < k ==> out@[j].0 == deal_ids@[j],
                out@.len() == k,
            invariant
                props == proposals_model(self.proposals@),
            ensures
                failure matches Some(e) ==> spec_proposals_for_deals(props, deal_ids@, deal_ids@.len()) == Err::<
                    Seq<(DealId, DealModel)>,
                    Error,
                >(e),
                failure is None ==> (spec_proposals_for_deals(props, deal_ids@, deal_ids@.len()) matches Ok(v)
                    && out@.len() == v.len() && forall|j: int|
                    0 <= j < v.len() ==> (#[trigger] out@[j]).0 == v[j].0 && out@[j].1@ == v[j].1),
            decreases deal_ids.len() - k,
        {
            let id = deal_ids[k];
            let mut dup = false;
            let mut j: usize = 0;
            while j < k
                invariant
                    j <= k,
                    k < deal_ids.len(),
                    out@.len() == k,
                    forall|i: int| 0 <= i < k ==> out@[i].0 == deal_ids@[i],
                    dup == exists|i: int| 0 <= i < j && deal_ids@[i] == id,
                decreases k - j,
            {
                proof {
                    assert(out@[j as int].0 == deal_ids@[j as int]);
                }
                if out[j].0 == id {
                    dup = true;
                }
                j += 1;
            }
            proof {
                assert(dup == deal_ids@.take(k as int).contains(id)) by {
                    if dup {
                        let i = choose|i: int| 0 <= i < k && deal_ids@[i] == id;
                        assert(deal_ids@.take(k as int)[i] == id);
                    }
                }
            }
            if dup {
                proof {
                    lemma_pfd_err(props, deal_ids@, (k + 1) as nat, deal_ids@.len());
                }
                failure = Some(Error::DuplicateDeal);
                break;
            }
            match self.proposals.get(&id) {
                None => {
                    proof {
                        lemma_pfd_err(props, deal_ids@, (k + 1) as nat, deal_ids@.len());
                    }
                    failure = Some(Error::DealNotFound);
                    break;
                },
                Some(p) => {
                    out.push((id, p.clone_proposal()));
                },
            }
            k += 1;
        }
        match failure {
            Some(e) => Err(e),
            None => Ok(out),
        }
    }

    /// Why `deal` cannot be activated by `provider` in a sector expiring at
    /// `sector_expiry` and activated at `sector_activation`, if it cannot.
    pub fn validate_deal_can_activate(
        &self,
        deal: &DealProposal,
        provider: AccountId,
        sector_expiry: BlockNumber,
        sector_activation: BlockNumber,
    ) -> (res: Result<(), Error>)
        ensures
            res == spec_validate_deal(deal@, provider, sector_expiry, sector_activation, self.pending_model()),
    {
        if provider != deal.provider {
            return Err(Error::InvalidProvider);
        }
        if deal.state != DealState::Published {
            return Err(Error::InvalidDealState);
        }
        if sector_activation > deal.start_block {
            return Err(Error::StartBlockElapsed);
        }
        if sector_expiry < deal.end_block {
            return Err(Error::SectorExpiresBeforeDeal);
        }
        let hash = hash_proposal(deal);
        if !contains_hash(&self.pending_proposals, &hash) {
            return Err(Error::DealNotPending);
        }
        Ok(())
    }

    /// Whether all of `deals` can be activated together by `provider` in one
    /// sector of `sector_size` bytes expiring at `sector_expiry` and activated
    /// at `sector_activation`.
    pub fn validate_deals_for_sector(
        &self,
        deals: &Vec<(DealId, DealProposal)>,
        provider: AccountId,
        sector_expiry: BlockNumber,
        sector_activation: BlockNumber,
        sector_size: u64,
    ) -> (res: Result<(), Error>)
        ensures
            res == spec_validate_sector(
                deals@.map_values(|d: (DealId, DealProposal)| (d.0, d.1@)),
                provider,
                sector_expiry,
                sector_activation,
                sector_size,
                self.pending_model(),
            ),
    {
        let ghost ds = deals@.map_values(|d: (DealId, DealProposal)| (d.0, d.1@));
        let ghost pending = self.pending_model();
        let mut total: u128 = 0;
        let mut k: usize = 0;
        while k < deals.len()
            invariant
                k <= deals.len(),
                ds == deals@.map_values(|d: (DealId, DealProposal)| (d.0, d.1@)),
                pending == self.pending_model(),
                forall|j: int| 0 <= j < k ==> spec_validate_deal(ds[j].1, provider, sector_expiry, sector_activation, pending) is Ok,
                total == total_space(ds, k as nat),
                total <= k * 0x1_0000_0000_0000_0000,
            decreases deals.len() - k,
        {
            let r = self.validate_deal_can_activate(&deals[k].1, provider, sector_expiry, sector_activation);
            if r.is_err() {
                proof {
                    assert(ds[k as int].1 == deals@[k as int].1@);
                    let w = k as int;
                    assert(0 <= w < ds.len() && spec_validate_deal(ds[w].1, provider, sector_expiry, sector_activation, pending) is Err);
                }
                return Err(Error::DealActivationError);
            }
            proof {
                assert(ds[k as int].1.piece_size == deals@[k as int].1.piece_size);
            }
            total = total + deals[k].1.piece_size as u128;
            k += 1;
        }
        proof {
            assert(!exists|k: int| 0 <= k < ds.len() && spec_validate_deal(ds[k].1, provider, sector_expiry, sector_activation, pending) is Err);
        }
        if total > sector_size as u128 {
            return Err(Error::DealsTooLargeToFitIntoSector);
        }
        Ok(())
    }
}

impl DealProposal {
    /// A copy of the proposal.
    pub fn clone_proposal(&self) -> (p: DealProposal)
        ensures
            p@ == self@,
    {
        self.with_state(self.state)
    }
}

/// `s` without the entries equal to `h`, the others in their order.
pub open spec fn remove_all(s: Seq<Seq<u8>>, h: Seq<u8>) -> Seq<Seq<u8>>
    decreases s.len(),
{
    if s.len() == 0 {
        s
    } else {
        let r = remove_all(s.drop_last(), h);
        if s.last() == h {
            r
        } else {
            r.push(s.last())
        }
    }
}

/// `sector_deals` with the entry of `(provider, number)` set to `ids`.
pub open spec fn sector_deals_insert(
    sd: Seq<(AccountId, SectorNumber, Seq<DealId>)>,
    provider: AccountId,
    number: SectorNumber,
    ids: Seq<DealId>,
) -> Seq<(AccountId, SectorNumber, Seq<DealId>)> {
    if exists|i: int| 0 <= i < sd.len() && sd[i].0 == provider && sd[i].1 == number {
        let i = choose|i: int| 0 <= i < sd.len() && sd[i].0 == provider && sd[i].1 == number
            && forall|j: int| 0 <= j < i ==> !(sd[j].0 == provider && sd[j].1 == number);
        sd.update(i, (provider, number, ids))
    } else {
        sd.push((provider, number, ids))
    }
}

/// A deal as activated in a sector.
pub struct ActiveDealModel {
    pub client: AccountId,
    pub piece_cid: CidModel,
    pub piece_size: u64,
}

/// The deals activated in a sector and its unsealed data commitment.
pub struct ActiveSectorModel {
    pub active_deals: Seq<ActiveDealModel>,
    pub unsealed_cid: Option<Seq<u8>>,
}

/// What deal activation changes.
pub struct ActivationModel {
    pub props: Map<DealId, DealModel>,
    pub pending: Seq<Seq<u8>>,
    pub sector_deals: Seq<(AccountId, SectorNumber, Seq<DealId>)>,
    pub events: Seq<Event>,
    pub activations: Seq<ActiveSectorModel>,
}

/// A sector deal as a value.
pub struct SectorDealModel {
    pub sector_number: SectorNumber,
    pub sector_expiry: BlockNumber,
    pub sector_type: RegisteredSealProof,
    pub deal_ids: Seq<DealId>,
}

impl View for SectorDeal {
    type V = SectorDealModel;

    open spec fn view(&self) -> SectorDealModel {
        SectorDealModel {
            sector_number: self.sector_number,
            sector_expiry: self.sector_expiry,
            sector_type: self.sector_type,
            deal_ids: self.deal_ids@,
        }
    }
}

/// Activates the first `n` of the deals `v` in sector `number` at block
/// `now`: each leaves the pending set, becomes active, and is reported with
/// its piece CID, which must parse.
pub open spec fn activate_deals_fold(
    st: ActivationModel,
    v: Seq<(DealId, DealModel)>,
    n: nat,
    number: SectorNumber,
    now: BlockNumber,
) -> Result<(ActivationModel, Seq<ActiveDealModel>), DispatchError>
    decreases n,
{
    if n == 0 {
        Ok((st, Seq::empty()))
    } else {
        match activate_deals_fold(st, v, (n - 1) as nat, number, now) {
            Err(e) => Err(e),
            Ok((s1, ads)) => {
                let (id, d) = v[n - 1];
                match spec_read_cid(d.piece_cid) {
                    Err(_) => Err(DispatchError::Module(Error::DealPreconditionFailed)),
                    Ok((c, _)) => {
                        let active = DealModel {
                            state: DealState::Active(
                                ActiveDealState {
                                    sector_number: number,
                                    sector_start_block: now,
                                    last_updated_block: None,
                                    slash_block: None,
                                },
                            ),
                            ..d
                        };
                        Ok((
                            ActivationModel {
                                props: s1.props.insert(id, active),
                                pending: remove_all(s1.pending, proposal_hash(d)),
                                events: s1.events.push(
                                    Event::DealActivated { deal_id: id, client: d.client, provider: d.provider },
                                ),
                                ..s1
                            },
                            ads.push(ActiveDealModel { client: d.client, piece_cid: c, piece_size: d.piece_size }),
                        ))
                    },
                }
            },
        }
    }
}

/// Activates the deals of one sector, or skips the sector when its deals
/// cannot all be activated. `commitment` is the sector's unsealed data
/// commitment, used when `compute_cid` is set and the sector holds deals;
/// deals are checked against the pending set `pending0` the market held
/// before activation began.
pub open spec fn activate_sector(
    st: ActivationModel,
    sd: SectorDealModel,
    provider: AccountId,
    now: BlockNumber,
    compute_cid: bool,
    commitment: Result<Seq<u8>, Error>,
    pending0: Seq<Seq<u8>>,
) -> Result<ActivationModel, DispatchError> {
    match spec_proposals_for_deals(st.props, sd.deal_ids, sd.deal_ids.len()) {
        Err(_) => Ok(st),
        Ok(v) => if spec_validate_sector(v, provider, sd.sector_expiry, now, sector_size_of(sd.sector_type), pending0)
            is Err {
            Ok(st)
        } else if compute_cid && v.len() > 0 && commitment is Err {
            Err(DispatchError::Module(commitment->Err_0))
        } else {
            let unsealed = if compute_cid && v.len() > 0 {
                Some(commitment->Ok_0)
            } else {
                None
            };
            match activate_deals_fold(st, v, v.len(), sd.sector_number, now) {
                Err(e) => Err(e),
                Ok((s2, ads)) => Ok(
                    ActivationModel {
                        sector_deals: sector_deals_insert(
                            s2.sector_deals,
                            provider,
                            sd.sector_number,
                            v.map_values(|x: (DealId, DealModel)| x.0),
                        ),
                        activations: s2.activations.push(ActiveSectorModel { active_deals: ads, unsealed_cid: unsealed }),
                        ..s2
                    },
                ),
            }
        },
    }
}

/// The first `n` sectors activated in order.
pub open spec fn activate_fold(
    st: ActivationModel,
    sds: Seq<SectorDealModel>,
    provider: AccountId,
    now: BlockNumber,
    compute_cid: bool,
    commitments: Seq<Result<Seq<u8>, Error>>,
    pending0: Seq<Seq<u8>>,
    n: nat,
) -> Result<ActivationModel, DispatchError>
    decreases n,
{
    if n == 0 {
        Ok(st)
    } else {
        match activate_fold(st, sds, provider, now, compute_cid, commitments, pending0, (n - 1) as nat) {
            Err(e) => Err(e),
            Ok(s1) => activate_sector(s1, sds[n - 1], provider, now, compute_cid, commitments[n - 1], pending0),
        }
    }
}

proof fn lemma_activate_fold_err(
    st: ActivationModel,
    sds: Seq<SectorDealModel>,
    provider: AccountId,
    now: BlockNumber,
    compute_cid: bool,
    commitments: Seq<Result<Seq<u8>, Error>>,
    pending0: Seq<Seq<u8>>,
    k: nat,
    n: nat,
)
    requires
        k <= n,
        activate_fold(st, sds, provider, now, compute_cid, commitments, pending0, k) is Err,
    ensures
        activate_fold(st, sds, provider, now, compute_cid, commitments, pending0, n) == activate_fold(
            st,
            sds,
            provider,
            now,
            compute_cid,
            commitments,
            pending0,
            k,
        ),
    decreases n - k,
{
    if k < n {
        lemma_activate_fold_err(st, sds, provider, now, compute_cid, commitments, pending0, k, (n - 1) as nat);
    }
}

proof fn lemma_deals_fold_err(st: ActivationModel, v: Seq<(DealId, DealModel)>, k: nat, n: nat, number: SectorNumber, now: BlockNumber)
    requires
        k <= n,
        activate_deals_fold(st, v, k, number, now) is Err,
    ensures
        activate_deals_fold(st, v, n, number, now) == activate_deals_fold(st, v, k, number, now),
    decreases n - k,
{
    if k < n {
        lemma_deals_fold_err(st, v, k, (n - 1) as nat, number, now);
    }
}

/// The values of a list of byte vectors.
pub open spec fn bytes_model(v: Seq<Vec<u8>>) -> Seq<Seq<u8>> {
    v.map_values(|x: Vec<u8>| x@)
}

/// The values of the sector deal table.
pub open spec fn sector_deals_model(v: Seq<(AccountId, SectorNumber, Vec<DealId>)>) -> Seq<(AccountId, SectorNumber, Seq<DealId>)> {
    v.map_values(|x: (AccountId, SectorNumber, Vec<DealId>)| (x.0, x.1, x.2@))
}

/// The value of an activation result.
pub open spec fn active_sectors_model(v: Seq<ActiveSector>) -> Seq<ActiveSectorModel> {
    v.map_values(|s: ActiveSector| ActiveSectorModel {
        active_deals: s.active_deals@.map_values(|d: ActiveDeal| ActiveDealModel {
            client: d.client,
            piece_cid: d.piece_cid@,
            piece_size: d.piece_size,
        }),
        unsealed_cid: match s.unsealed_cid {
            Some(c) => Some(c@),
            None => None,
        },
    })
}

/// The commitments handed in, as values.
pub open spec fn commitments_model(v: Seq<Result<Vec<u8>, Error>>) -> Seq<Result<Seq<u8>, Error>> {
    v.map_values(|r: Result<Vec<u8>, Error>| match r {
        Ok(c) => Ok(c@),
        Err(e) => Err(e),
    })
}

fn copy_ids(v: &Vec<DealId>) -> (out: Vec<DealId>)
    ensures
        out@ == v@,
{
    let mut out: Vec<DealId> = Vec::new();
    let mut i: usize = 0;
    while i < v.len()
        invariant
            i <= v.len(),
            out@ == v@.take(i as int),
        decreases v.len() - i,
    {
        out.push(v[i]);
        proof {
            assert(v@.take(i + 1) == v@.take(i as int).push(v@[i as int]));
        }
        i += 1;
    }
    proof {
        assert(v@.take(v.len() as int) == v@);
    }
    out
}

/// `hashes` without the entries equal to `h`, the others in their order.
fn remove_hash(hashes: &Vec<Vec<u8>>, h: &Vec<u8>) -> (kept: Vec<Vec<u8>>)
    ensures
        bytes_model(kept@) == remove_all(bytes_model(hashes@), h@),
{
    let ghost before = bytes_model(hashes@);
    let mut kept: Vec<Vec<u8>> = Vec::new();
    let mut i: usize = 0;
    while i < hashes.len()
        invariant
            i <= hashes.len(),
            before == bytes_model(hashes@),
            bytes_model(kept@) == remove_all(before.take(i as int), h@),
        decreases hashes.len() - i,
    {
        let x = &hashes[i];
        proof {
            assert(before.take(i + 1).drop_last() == before.take(i as int));
            assert(before.take(i + 1).last() == x@);
        }
        if !bytes_eq(x.as_slice(), h.as_slice()) {
            let c = copy_range(x.as_slice(), 0, x.len());
            proof {
                assert(x@.subrange(0, x@.len() as int) =~= x@);
            }
            kept.push(c);
            proof {
                assert(bytes_model(kept@) =~= remove_all(before.take(i as int), h@).push(x@));
            }
        }
        i += 1;
    }
    proof {
        assert(before.take(before.len() as int) == before);
    }
    kept
}

impl Market {
    fn insert_sector_deals(&mut self, provider: AccountId, number: SectorNumber, ids: Vec<DealId>)
        ensures
            sector_deals_model(final(self).sector_deals@) == sector_deals_insert(
                sector_deals_model(old(self).sector_deals@),
                provider,
                number,
                ids@,
            ),
            final(self).balance_table == old(self).balance_table,
            final(self).next_deal_id == old(self).next_deal_id,
            final(self).proposals == old(self).proposals,
            final(self).pending_proposals == old(self).pending_proposals,
            final(self).deals_for_block == old(self).deals_for_block,
            final(self).sp_deal_parameters == old(self).sp_deal_parameters,
            final(self).block_number == old(self).block_number,
            final(self).events == old(self).events,
    {
        let ghost sd = sector_deals_model(self.sector_deals@);
        let mut found: Option<usize> = None;
        let mut i: usize = 0;
        while i < self.sector_deals.len()
            invariant_except_break
                found is None,
            invariant
                i <= self.sector_deals.len(),
                sd == sector_deals_model(self.sector_deals@),
                forall|j: int| 0 <= j < i ==> !(sd[j].0 == provider && sd[j].1 == number),
                found matches Some(w) ==> w == i && i < sd.len() && sd[i as int].0 == provider
                    && sd[i as int].1 == number,
            ensures
                found is None ==> i == sd.len(),
            decreases self.sector_deals.len() - i,
        {
            if self.sector_deals[i].0 == provider && self.sector_deals[i].1 == number {
                found = Some(i);
                break;
            }
            i += 1;
        }
        match found {
            Some(w) => {
                proof {
                    let w = w as int;
                    let c = choose|c: int| 0 <= c < sd.len() && sd[c].0 == provider && sd[c].1 == number
                        && forall|j: int| 0 <= j < c ==> !(sd[j].0 == provider && sd[j].1 == number);
                    if c < w {
                    } else if w < c {
                    }
                }
                self.sector_deals.set(w, (provider, number, ids));
                proof {
                    assert(sector_deals_model(self.sector_deals@) =~= sd.update(w as int, (provider, number, ids@)));
                }
            },
            None => {
                self.sector_deals.push((provider, number, ids));
                proof {
                    assert(sector_deals_model(self.sector_deals@) =~= sd.push((provider, number, ids@)));
                }
            },
        }
    }

    /// Why the deals of sector `sd` cannot be activated by `provider` at the
    /// current block, if they cannot: unknown or repeated deals, a deal that
    /// cannot be activated, too little space, or an error in place of the
    /// sector's needed commitment.
    pub open spec fn sector_check(
        &self,
        provider: AccountId,
        sd: SectorDealModel,
        commitment: Result<Seq<u8>, Error>,
    ) -> Result<(), Error> {
        match spec_proposals_for_deals(proposals_model(self.proposals@), sd.deal_ids, sd.deal_ids.len()) {
            Err(x) => Err(x),
            Ok(v) => match spec_validate_sector(
                v,
                provider,
                sd.sector_expiry,
                self.block_number,
                sector_size_of(sd.sector_type),
                self.pending_model(),
            ) {
                Err(x) => Err(x),
                Ok(_) => if v.len() > 0 && commitment is Err {
                    Err(commitment->Err_0)
                } else {
                    Ok(())
                },
            },
        }
    }

    /// Checks the deals of each sector against the market for activation at
    /// the current block and returns, for each sector, its unsealed data
    /// commitment: `None` for a sector without deals, the given commitment
    /// otherwise. The first sector that fails [`Self::sector_check`] fails
    /// the call with its error.
    pub fn verify_deals_for_activation(
        &self,
        storage_provider: AccountId,
        sector_deals: &Vec<SectorDeal>,
        commitments: &Vec<Result<Vec<u8>, Error>>,
    ) -> (res: Result<Vec<Option<Vec<u8>>>, DispatchError>)
        requires
            commitments.len() == sector_deals.len(),
        ensures
            (forall|k: int| 0 <= k < sector_deals@.len() ==> #[trigger] self.sector_check(
                storage_provider,
                sector_deals@[k]@,
                commitments_model(commitments@)[k],
            ) is Ok) <==> res is Ok,
            res matches Ok(out) ==> out@.len() == sector_deals@.len() && forall|k: int|
                0 <= k < out@.len() ==> if (#[trigger] sector_deals@[k]).deal_ids@.len() == 0 {
                    out@[k] is None
                } else {
                    out@[k] matches Some(c) && commitments@[k] matches Ok(cc) && c@ == cc@
                },
            res matches Err(e) ==> exists|k: int|
                0 <= k < sector_deals@.len() && (forall|j: int| 0 <= j < k ==> #[trigger] self.sector_check(
                    storage_provider,
                    sector_deals@[j]@,
                    commitments_model(commitments@)[j],
                ) is Ok) && (#[trigger] self.sector_check(
                    storage_provider,
                    sector_deals@[k]@,
                    commitments_model(commitments@)[k],
                ) matches Err(x) && e == DispatchError::Module(x)),
    {
        let ghost cm = commitments_model(commitments@);
        let now = self.block_number;
        let mut out: Vec<Option<Vec<u8>>> = Vec::new();
        let mut k: usize = 0;
        while k < sector_deals.len()
            invariant
                k <= sector_deals.len(),
                now == self.block_number,
                cm == commitments_model(commitments@),
                commitments.len() == sector_deals.len(),
                out@.len() == k,
                forall|j: int| 0 <= j < k ==> #[trigger] self.sector_check(storage_provider, sector_deals@[j]@, cm[j]) is Ok,
                forall|j: int| 0 <= j < k ==> if (#[trigger] sector_deals@[j]).deal_ids@.len() == 0 {
                    out@[j] is None
                } else {
                    out@[j] matches Some(c) && commitments@[j] matches Ok(cc) && c@ == cc@
                },
            decreases sector_deals.len() - k,
        {
            let sd = &sector_deals[k];
            let proposals = match self.proposals_for_deals(&sd.deal_ids) {
                Err(e) => {
                    proof {
                        assert(self.sector_check(storage_provider, sector_deals@[k as int]@, cm[k as int]) == Err::<(), Error>(e));
                    }
                    return Err(DispatchError::Module(e));
                },
                Ok(p) => p,
            };
            let ghost v = spec_proposals_for_deals(proposals_model(self.proposals@), sd.deal_ids@, sd.deal_ids@.len())->Ok_0;
            proof {
                assert(proposals@.map_values(|d: (DealId, DealProposal)| (d.0, d.1@)) =~= v);
                lemma_pfd_len(proposals_model(self.proposals@), sd.deal_ids@, sd.deal_ids@.len());
            }
            let size = sd.sector_type.sector_size();
            if let Err(e) = self.validate_deals_for_sector(&proposals, storage_provider, sd.sector_expiry, now, size) {
                proof {
                    assert(self.sector_check(storage_provider, sector_deals@[k as int]@, cm[k as int]) == Err::<(), Error>(e));
                }
                return Err(DispatchError::Module(e));
            }
            let commd = if proposals.len() == 0 {
                None
            } else {
                match &commitments[k] {
                    Err(e) => {
                        proof {
                            assert(self.sector_check(storage_provider, sector_deals@[k as int]@, cm[k as int]) == Err::<(), Error>(*e));
                        }
                        return Err(DispatchError::Module(*e));
                    },
                    Ok(c) => {
                        let cc = copy_range(c.as_slice(), 0, c.len());
                        proof {
                            assert(c@.subrange(0, c@.len() as int) =~= c@);
                        }
                        Some(cc)
                    },
                }
            };
            out.push(commd);
            proof {
                assert(self.sector_check(storage_provider, sector_deals@[k as int]@, cm[k as int]) is Ok);
            }
            k += 1;
        }
        Ok(out)
    }
}

/// The values of activated deals.
pub open spec fn active_deals_model(v: Seq<ActiveDeal>) -> Seq<ActiveDealModel> {
    v.map_values(|d: ActiveDeal| ActiveDealModel { client: d.client, piece_cid: d.piece_cid@, piece_size: d.piece_size })
}

/// The value of a commitment handed in for one sector.
pub open spec fn commitment_model(r: Result<Vec<u8>, Error>) -> Result<Seq<u8>, Error> {
    match r {
        Ok(c) => Ok(c@),
        Err(e) => Err(e),
    }
}

fn copy_hashes(v: &Vec<Vec<u8>>) -> (out: Vec<Vec<u8>>)
    ensures
        bytes_model(out@) == bytes_model(v@),
{
    let mut out: Vec<Vec<u8>> = Vec::new();
    let mut i: usize = 0;
    while i < v.len()
        invariant
            i <= v.len(),
            bytes_model(out@) == bytes_model(v@).take(i as int),
        decreases v.len() - i,
    {
        let c = copy_range(v[i].as_slice(), 0, v[i].len());
        proof {
            assert(v@[i as int]@.subrange(0, v@[i as int]@.len() as int) =~= v@[i as int]@);
        }
        let ghost prev = out@;
        out.push(c);
        proof {
            assert(bytes_model(out@) =~= bytes_model(prev).push(c@));
            assert(bytes_model(v@).take(i + 1) =~= bytes_model(v@).take(i as int).push(v@[i as int]@));
        }
        i += 1;
    }
    proof {
        assert(bytes_model(v@).take(v.len() as int) =~= bytes_model(v@));
    }
    out
}

fn copy_sector_deals(v: &Vec<(AccountId, SectorNumber, Vec<DealId>)>) -> (out: Vec<(AccountId, SectorNumber, Vec<DealId>)>)
    ensures
        sector_deals_model(out@) == sector_deals_model(v@),
{
    let mut out: Vec<(AccountId, SectorNumber, Vec<DealId>)> = Vec::new();
    let mut i: usize = 0;
    while i < v.len()
        invariant
            i <= v.len(),
            sector_deals_model(out@) == sector_deals_model(v@).take(i as int),
        decreases v.len() - i,
    {
        let ids = copy_ids(&v[i].2);
        let ghost prev = out@;
        out.push((v[i].0, v[i].1, ids));
        proof {
            assert(sector_deals_model(out@) =~= sector_deals_model(prev).push((v@[i as int].0, v@[i as int].1, v@[i as int].2@)));
            assert(sector_deals_model(v@).take(i + 1) =~= sector_deals_model(v@).take(i as int).push(
                (v@[i as int].0, v@[i as int].1, v@[i as int].2@),
            ));
        }
        i += 1;
    }
    proof {
        assert(sector_deals_model(v@).take(v.len() as int) =~= sector_deals_model(v@));
    }
    out
}

impl Market {
    /// Activates, in order, the deals `proposals` (whose value is `v`) of
    /// sector `number` at block `now`.
    fn activate_sector_deals(
        &mut self,
        proposals: &Vec<(DealId, DealProposal)>,
        Ghost(v): Ghost<Seq<(DealId, DealModel)>>,
        number: SectorNumber,
        now: BlockNumber,
        pending: &mut Vec<Vec<u8>>,
        new_events: &mut Vec<Event>,
        Ghost(st): Ghost<ActivationModel>,
    ) -> (res: Result<Vec<ActiveDeal>, DispatchError>)
        requires
            proposals@.len() == v.len(),
            forall|j: int| 0 <= j < v.len() ==> (#[trigger] proposals@[j]).0 == v[j].0 && proposals@[j].1@ == v[j].1,
            st.props == proposals_model(old(self).proposals@),
            st.pending == bytes_model(old(pending)@),
            st.events == old(self).events@ + old(new_events)@,
        ensures
            match activate_deals_fold(st, v, v.len(), number, now) {
                Err(e) => res == Err::<Vec<ActiveDeal>, DispatchError>(e),
                Ok((s, ads)) => {
                    &&& res matches Ok(r) && active_deals_model(r@) == ads
                    &&& proposals_model(final(self).proposals@) == s.props
                    &&& bytes_model(final(pending)@) == s.pending
                    &&& final(self).events@ + final(new_events)@ == s.events
                    &&& s.sector_deals == st.sector_deals
                    &&& s.activations == st.activations
                },
            },
            final(self).balance_table == old(self).balance_table,
            final(self).next_deal_id == old(self).next_deal_id,
            final(self).pending_proposals == old(self).pending_proposals,
            final(self).deals_for_block == old(self).deals_for_block,
            final(self).sector_deals == old(self).sector_deals,
            final(self).sp_deal_parameters == old(self).sp_deal_parameters,
            final(self).block_number == old(self).block_number,
            final(self).events == old(self).events,
    {
        let mut out: Vec<ActiveDeal> = Vec::new();
        let mut failure: Option<DispatchError> = None;
        let mut k: usize = 0;
        while k < proposals.len()
            invariant_except_break
                failure is None,
                activate_deals_fold(st, v, k as nat, number, now) matches Ok((s, ads)) && {
                    &&& active_deals_model(out@) == ads
                    &&& proposals_model(self.proposals@) == s.props
                    &&& bytes_model(pending@) == s.pending
                    &&& self.events@ + new_events@ == s.events
                    &&& s.sector_deals == st.sector_deals
                    &&& s.activations == st.activations
                },
            invariant
                k <= proposals.len(),
                proposals@.len() == v.len(),
                forall|j: int| 0 <= j < v.len() ==> (#[trigger] proposals@[j]).0 == v[j].0 && proposals@[j].1@ == v[j].1,
                self.balance_table == old(self).balance_table,
                self.next_deal_id == old(self).next_deal_id,
                self.pending_proposals == old(self).pending_proposals,
                self.deals_for_block == old(self).deals_for_block,
                self.sector_deals == old(self).sector_deals,
                self.sp_deal_parameters == old(self).sp_deal_parameters,
                self.block_number == old(self).block_number,
                self.events == old(self).events,
            ensures
                failure matches Some(e) ==> activate_deals_fold(st, v, v.len(), number, now) == Err::<
                    (ActivationModel, Seq<ActiveDealModel>),
                    DispatchError,
                >(e),
                failure is None ==> k == v.len() && (activate_deals_fold(st, v, k as nat, number, now) matches Ok((s, ads))
                    && {
                    &&& active_deals_model(out@) == ads
                    &&& proposals_model(self.proposals@) == s.props
                    &&& bytes_model(pending@) == s.pending
                    &&& self.events@ + new_events@ == s.events
                    &&& s.sector_deals == st.sector_deals
                    &&& s.activations == st.activations
                }),
            decreases proposals.len() - k,
        {
            let ghost s1 = activate_deals_fold(st, v, k as nat, number, now)->Ok_0.0;
            let ghost ads1 = activate_deals_fold(st, v, k as nat, number, now)->Ok_0.1;
            let id = proposals[k].0;
            let p = &proposals[k].1;
            let c = match read_cid(p.piece_cid.as_slice(), 0) {
                Err(_) => {
                    proof {
                        assert(p.piece_cid@.skip(0) =~= p.piece_cid@);
                        lemma_deals_fold_err(st, v, (k + 1) as nat, v.len(), number, now);
                    }
                    failure = Some(DispatchError::Module(Error::DealPreconditionFailed));
                    break;
                },
                Ok((c, _)) => c,
            };
            proof {
                assert(p.piece_cid@.skip(0) =~= p.piece_cid@);
            }
            let h = hash_proposal(p);
            let kept = remove_hash(pending, &h);
            *pending = kept;
            let active = p.with_state(DealState::Active(ActiveDealState::new(number, now)));
            let ghost active_model = active@;
            out.push(ActiveDeal { client: p.client, piece_cid: c, piece_size: p.piece_size });
            new_events.push(Event::DealActivated { deal_id: id, client: p.client, provider: p.provider });
            self.proposals.insert(id, active);
            proof {
                assert(proposals_model(self.proposals@) =~= s1.props.insert(id, active_model));
                assert(active_deals_model(out@) =~= ads1.push(
                    ActiveDealModel { client: v[k as int].1.client, piece_cid: c@, piece_size: v[k as int].1.piece_size },
                ));
                assert(self.events@ + new_events@ =~= s1.events.push(
                    Event::DealActivated { deal_id: id, client: v[k as int].1.client, provider: v[k as int].1.provider },
                ));
            }
            k += 1;
        }
        match failure {
            Some(e) => Err(e),
            None => Ok(out),
        }
    }
}

impl Market {
    /// Activates the deals of sector `sd`, or skips the sector when its deals
    /// cannot all be activated.
    #[verifier::spinoff_prover]
    #[verifier::rlimit(50)]
    fn activate_one(
        &mut self,
        provider: AccountId,
        sd: &SectorDeal,
        compute_cid: bool,
        commitment: &Result<Vec<u8>, Error>,
        pending: &mut Vec<Vec<u8>>,
        new_events: &mut Vec<Event>,
        activations: &mut Vec<ActiveSector>,
        Ghost(st): Ghost<ActivationModel>,
    ) -> (res: Result<(), DispatchError>)
        requires
            st.props == proposals_model(old(self).proposals@),
            st.pending == bytes_model(old(pending)@),
            st.events == old(self).events@ + old(new_events)@,
            st.sector_deals == sector_deals_model(old(self).sector_deals@),
            st.activations == active_sectors_model(old(activations)@),
        ensures
            match activate_sector(
                st,
                sd@,
                provider,
                old(self).block_number,
                compute_cid,
                commitment_model(*commitment),
                old(self).pending_model(),
            ) {
                Err(e) => res == Err::<(), DispatchError>(e),
                Ok(s) => {
                    &&& res is Ok
                    &&& proposals_model(final(self).proposals@) == s.props
                    &&& bytes_model(final(pending)@) == s.pending
                    &&& final(self).events@ + final(new_events)@ == s.events
                    &&& sector_deals_model(final(self).sector_deals@) == s.sector_deals
                    &&& active_sectors_model(final(activations)@) == s.activations
                },
            },
            final(self).balance_table == old(self).balance_table,
            final(self).next_deal_id == old(self).next_deal_id,
            final(self).pending_proposals == old(self).pending_proposals,
            final(self).deals_for_block == old(self).deals_for_block,
            final(self).sp_deal_parameters == old(self).sp_deal_parameters,
            final(self).block_number == old(self).block_number,
            final(self).events == old(self).events,
    {
        let now = self.block_number;
        let proposals = match self.proposals_for_deals(&sd.deal_ids) {
            Err(_) => {
                return Ok(());
            },
            Ok(p) => p,
        };
        let ghost v = spec_proposals_for_deals(st.props, sd.deal_ids@, sd.deal_ids@.len())->Ok_0;
        proof {
            assert(proposals@.map_values(|d: (DealId, DealProposal)| (d.0, d.1@)) =~= v);
        }
        let size = sd.sector_type.sector_size();
        if self.validate_deals_for_sector(&proposals, provider, sd.sector_expiry, now, size).is_err() {
            return Ok(());
        }
        let unsealed = if compute_cid && proposals.len() > 0 {
            match commitment {
                Err(e) => {
                    return Err(DispatchError::Module(*e));
                },
                Ok(c) => {
                    let cc = copy_range(c.as_slice(), 0, c.len());
                    proof {
                        assert(c@.subrange(0, c@.len() as int) =~= c@);
                    }
                    Some(cc)
                },
            }
        } else {
            None
        };
        let mut ids: Vec<DealId> = Vec::new();
        let mut j: usize = 0;
        while j < proposals.len()
            invariant
                j <= proposals.len(),
                proposals@.len() == v.len(),
                forall|i: int| 0 <= i < v.len() ==> (#[trigger] proposals@[i]).0 == v[i].0 && proposals@[i].1@ == v[i].1,
                ids@ == v.map_values(|x: (DealId, DealModel)| x.0).take(j as int),
            decreases proposals.len() - j,
        {
            ids.push(proposals[j].0);
            proof {
                assert(v.map_values(|x: (DealId, DealModel)| x.0).take(j + 1) =~= v.map_values(
                    |x: (DealId, DealModel)| x.0,
                ).take(j as int).push(v[j as int].0));
            }
            j += 1;
        }
        proof {
            assert(v.map_values(|x: (DealId, DealModel)| x.0).take(v.len() as int) =~= v.map_values(
                |x: (DealId, DealModel)| x.0,
            ));
        }
        let ads = match self.activate_sector_deals(&proposals, Ghost(v), sd.sector_number, now, pending, new_events, Ghost(st)) {
            Err(e) => {
                return Err(e);
            },
            Ok(a) => a,
        };
        let ghost s2 = activate_deals_fold(st, v, v.len(), sd.sector_number, now)->Ok_0.0;
        self.insert_sector_deals(provider, sd.sector_number, ids);
        let ghost prev = activations@;
        activations.push(ActiveSector { active_deals: ads, unsealed_cid: unsealed });
        proof {
            assert(active_sectors_model(activations@) =~= active_sectors_model(prev).push(
                ActiveSectorModel {
                    active_deals: activate_deals_fold(st, v, v.len(), sd.sector_number, now)->Ok_0.1,
                    unsealed_cid: if compute_cid && v.len() > 0 {
                        Some(commitment_model(*commitment)->Ok_0)
                    } else {
                        None
                    },
                },
            ));
        }
        Ok(())
    }

    /// Activates the deals of each sector, in order, at the current block.
    /// A sector whose deals cannot all be activated is skipped; the others'
    /// deals leave the pending set and become active, each with an event.
    /// `commitments` holds each sector's unsealed data commitment, used when
    /// `compute_cid` is set and the sector has deals. On error nothing
    /// changes.
    pub fn activate_deals(
        &mut self,
        storage_provider: AccountId,
        sector_deals: &Vec<SectorDeal>,
        compute_cid: bool,
        commitments: &Vec<Result<Vec<u8>, Error>>,
    ) -> (res: Result<Vec<ActiveSector>, DispatchError>)
        requires
            commitments.len() == sector_deals.len(),
        ensures
            ({
                let st0 = ActivationModel {
                    props: proposals_model(old(self).proposals@),
                    pending: old(self).pending_model(),
                    sector_deals: sector_deals_model(old(self).sector_deals@),
                    events: old(self).events@,
                    activations: Seq::empty(),
                };
                match activate_fold(
                    st0,
                    sector_deals@.map_values(|s: SectorDeal| s@),
                    storage_provider,
                    old(self).block_number,
                    compute_cid,
                    commitments_model(commitments@),
                    old(self).pending_model(),
                    sector_deals@.len(),
                ) {
                    Err(e) => {
                        &&& res == Err::<Vec<ActiveSector>, DispatchError>(e)
                        &&& final(self).proposals@ == old(self).proposals@
                        &&& final(self).pending_proposals@ == old(self).pending_proposals@
                        &&& sector_deals_model(final(self).sector_deals@) == sector_deals_model(old(self).sector_deals@)
                        &&& final(self).events@ == old(self).events@
                    },
                    Ok(s) => {
                        &&& res matches Ok(r) && active_sectors_model(r@) == s.activations
                        &&& proposals_model(final(self).proposals@) == s.props
                        &&& final(self).pending_model() == s.pending
                        &&& sector_deals_model(final(self).sector_deals@) == s.sector_deals
                        &&& final(self).events@ == s.events
                    },
                }
            }),
            final(self).balance_table == old(self).balance_table,
            final(self).next_deal_id == old(self).next_deal_id,
            final(self).deals_for_block == old(self).deals_for_block,
            final(self).sp_deal_parameters == old(self).sp_deal_parameters,
            final(self).block_number == old(self).block_number,
    {
        let ghost sds = sector_deals@.map_values(|s: SectorDeal| s@);
        let ghost cm = commitments_model(commitments@);
        let ghost pending0 = self.pending_model();
        let ghost st0 = ActivationModel {
            props: proposals_model(self.proposals@),
            pending: self.pending_model(),
            sector_deals: sector_deals_model(self.sector_deals@),
            events: self.events@,
            activations: Seq::empty(),
        };
        let ghost old_proposals = self.proposals@;
        let ghost old_sector_deals = sector_deals_model(self.sector_deals@);
        let now = self.block_number;
        let saved_proposals = self.proposals.clone();
        let saved_sector_deals = copy_sector_deals(&self.sector_deals);
        let mut pending = copy_hashes(&self.pending_proposals);
        let mut new_events: Vec<Event> = Vec::new();
        let mut activations: Vec<ActiveSector> = Vec::new();
        let mut failure: Option<DispatchError> = None;
        proof {
            assert(self.events@ + new_events@ =~= self.events@);
        }
        let mut k: usize = 0;
        while k < sector_deals.len()
            invariant_except_break
                failure is None,
                activate_fold(st0, sds, storage_provider, now, compute_cid, cm, pending0, k as nat) matches Ok(s) && {
                    &&& proposals_model(self.proposals@) == s.props
                    &&& bytes_model(pending@) == s.pending
                    &&& self.events@ + new_events@ == s.events
                    &&& sector_deals_model(self.sector_deals@) == s.sector_deals
                    &&& active_sectors_model(activations@) == s.activations
                },
            invariant
                k <= sector_deals.len(),
                commitments.len() == sector_deals.len(),
                sds == sector_deals@.map_values(|s: SectorDeal| s@),
                cm == commitments_model(commitments@),
                pending0 == self.pending_model(),
                now == self.block_number,
                saved_proposals@ == old_proposals,
                sector_deals_model(saved_sector_deals@) == old_sector_deals,
                self.balance_table == old(self).balance_table,
                self.next_deal_id == old(self).next_deal_id,
                self.pending_proposals == old(self).pending_proposals,
                self.deals_for_block == old(self).deals_for_block,
                self.sp_deal_parameters == old(self).sp_deal_parameters,
                self.block_number == old(self).block_number,
                self.events == old(self).events,
            ensures
                failure matches Some(e) ==> activate_fold(st0, sds, storage_provider, now, compute_cid, cm, pending0, sds.len())
                    == Err::<ActivationModel, DispatchError>(e),
                failure is None ==> k == sds.len() && (activate_fold(
                    st0,
                    sds,
                    storage_provider,
                    now,
                    compute_cid,
                    cm,
                    pending0,
                    k as nat,
                ) matches Ok(s) && {
                    &&& proposals_model(self.proposals@) == s.props
                    &&& bytes_model(pending@) == s.pending
                    &&& self.events@ + new_events@ == s.events
                    &&& sector_deals_model(self.sector_deals@) == s.sector_deals
                    &&& active_sectors_model(activations@) == s.activations
                }),
            decreases sector_deals.len() - k,
        {
            let ghost s = activate_fold(st0, sds, storage_provider, now, compute_cid, cm, pending0, k as nat)->Ok_0;
            proof {
                assert(sds[k as int] == sector_deals@[k as int]@);
                assert(cm[k as int] == commitment_model(commitments@[k as int]));
            }
            match self.activate_one(
                storage_provider,
                &sector_deals[k],
                compute_cid,
                &commitments[k],
                &mut pending,
                &mut new_events,
                &mut activations,
                Ghost(s),
            ) {
                Err(e) => {
                    proof {
                        lemma_activate_fold_err(st0, sds, storage_provider, now, compute_cid, cm, pending0, (k + 1) as nat, sds.len());
                    }
                    failure = Some(e);
                    break;
                },
                Ok(()) => {},
            }
            k += 1;
        }
        match failure {
            Some(e) => {
                self.proposals = saved_proposals;
                self.sector_deals = saved_sector_deals;
                Err(e)
            },
            None => {
                self.pending_proposals = pending;
                self.events.append(&mut new_events);
                Ok(activations)
            },
        }
    }
}

/// Why submitted deal parameters are refused.
#[derive(PartialEq, Eq, Structural, Clone, Copy, Debug)]
pub enum DealParameterError {
    /// The lower bound exceeds the upper bound (lower, upper).
    LowerLargerThanUpper(BlockNumber, BlockNumber),
    /// The lower bound is under the chain's minimum (lower, minimum).
    LowerBoundTooLow(BlockNumber, BlockNumber),
    /// The upper bound is over the chain's maximum (upper, maximum).
    UpperBoundTooHigh(BlockNumber, BlockNumber),
    /// The minimum price per block is zero.
    PriceCannotBeZero,
}

/// The bounds `b` with the chain's bounds in place of the missing ones, or
/// why they are refused.
pub open spec fn spec_validate_duration(
    b: OffchainDealDurationBound,
    min_duration: BlockNumber,
    max_duration: BlockNumber,
) -> Result<DealDurationBound, DealParameterError> {
    let lower = match b.lower {
        Some(l) => l,
        None => min_duration,
    };
    let upper = match b.upper {
        Some(u) => u,
        None => max_duration,
    };
    if lower > upper {
        Err(DealParameterError::LowerLargerThanUpper(lower, upper))
    } else if lower < min_duration {
        Err(DealParameterError::LowerBoundTooLow(lower, min_duration))
    } else if upper > max_duration {
        Err(DealParameterError::UpperBoundTooHigh(upper, max_duration))
    } else {
        Ok(DealDurationBound { lower, upper })
    }
}

impl OffchainDealDurationBound {
    /// Fills the missing bounds with the chain's and checks that
    /// `min_duration <= lower <= upper <= max_duration`.
    fn validate(self, min_duration: BlockNumber, max_duration: BlockNumber) -> (res: Result<
        DealDurationBound,
        DealParameterError,
    >)
        ensures
            res == spec_validate_duration(self, min_duration, max_duration),
    {
        let lower = match self.lower {
            Some(l) => l,
            None => min_duration,
        };
        let upper = match self.upper {
            Some(u) => u,
            None => max_duration,
        };
        if lower > upper {
            return Err(DealParameterError::LowerLargerThanUpper(lower, upper));
        }
        if lower < min_duration {
            return Err(DealParameterError::LowerBoundTooLow(lower, min_duration));
        }
        if upper > max_duration {
            return Err(DealParameterError::UpperBoundTooHigh(upper, max_duration));
        }
        Ok(DealDurationBound { lower, upper })
    }
}

impl OffchainDealParameters {
    /// The parameters with the chain's duration bounds in place of the
    /// missing ones; a zero price and bounds outside
    /// `[min_duration, max_duration]` are refused.
    pub fn validate(self, min_duration: BlockNumber, max_duration: BlockNumber) -> (res: Result<
        DealParameters,
        DealParameterError,
    >)
        ensures
            self.minimum_price_per_block == 0 ==> res == Err::<DealParameters, DealParameterError>(
                DealParameterError::PriceCannotBeZero,
            ),
            self.minimum_price_per_block != 0 ==> match spec_validate_duration(self.deal_duration, min_duration, max_duration) {
                Err(e) => res == Err::<DealParameters, DealParameterError>(e),
                Ok(d) => res == Ok::<DealParameters, DealParameterError>(
                    DealParameters { minimum_price_per_block: self.minimum_price_per_block, deal_duration: d },
                ),
            },
    {
        if self.minimum_price_per_block == 0 {
            return Err(DealParameterError::PriceCannotBeZero);
        }
        let deal_duration = match self.deal_duration.validate(min_duration, max_duration) {
            Err(e) => {
                return Err(e);
            },
            Ok(d) => d,
        };
        Ok(DealParameters { minimum_price_per_block: self.minimum_price_per_block, deal_duration })
    }
}

impl DealParameters {
    /// Whether `proposal` pays at least the minimum price and lasts within
    /// the duration bounds.
    pub fn check_against_proposed_deal(&self, proposal: &DealProposal) -> (ok: bool)
        requires
            proposal.start_block <= proposal.end_block,
        ensures
            ok == (proposal.storage_price_per_block >= self.minimum_price_per_block && self.deal_duration.lower
                <= proposal.end_block - proposal.start_block <= self.deal_duration.upper),
    {
        let deal_duration = proposal.end_block - proposal.start_block;
        proposal.storage_price_per_block >= self.minimum_price_per_block && deal_duration >= self.deal_duration.lower
            && deal_duration <= self.deal_duration.upper
    }
}

/// The balance table after genesis gave each of the first `n` accounts of
/// `balances` its free funds and nothing locked.
pub open spec fn genesis_table(
    m: Map<AccountId, BalanceEntry>,
    balances: Seq<(AccountId, Balance)>,
    n: nat,
) -> Map<AccountId, BalanceEntry>
    decreases n,
{
    if n == 0 {
        m
    } else {
        genesis_table(m, balances, (n - 1) as nat).insert(
            balances[n - 1].0,
            BalanceEntry { free: balances[n - 1].1, locked: 0 },
        )
    }
}

/// The funds each account holds in the market at genesis.
pub struct GenesisConfig {
    pub balances: Vec<(AccountId, Balance)>,
}

impl Default for GenesisConfig {
    fn default() -> (g: GenesisConfig)
        ensures
            g.balances@.len() == 0,
    {
        GenesisConfig { balances: Vec::new() }
    }
}

impl GenesisConfig {
    /// Writes the genesis balances into the market: each account gets its
    /// funds as free funds and nothing locked. No account may occur twice.
    pub fn build(&self, market: &mut Market)
        requires
            forall|i: int, j: int|
                0 <= i < j < self.balances@.len() ==> (#[trigger] self.balances@[i]).0 != (#[trigger] self.balances@[j]).0,
        ensures
            final(market).balance_table@ == genesis_table(
                old(market).balance_table@,
                self.balances@,
                self.balances@.len(),
            ),
            final(market).next_deal_id == old(market).next_deal_id,
            final(market).proposals == old(market).proposals,
            final(market).pending_proposals == old(market).pending_proposals,
            final(market).deals_for_block == old(market).deals_for_block,
            final(market).sector_deals == old(market).sector_deals,
            final(market).sp_deal_parameters == old(market).sp_deal_parameters,
            final(market).block_number == old(market).block_number,
            final(market).events == old(market).events,
    {
        let ghost m0 = market.balance_table@;
        let mut i: usize = 0;
        while i < self.balances.len()
            invariant
                i <= self.balances.len(),
                market.balance_table@ == genesis_table(m0, self.balances@, i as nat),
                market.next_deal_id == old(market).next_deal_id,
                market.proposals == old(market).proposals,
                market.pending_proposals == old(market).pending_proposals,
                market.deals_for_block == old(market).deals_for_block,
                market.sector_deals == old(market).sector_deals,
                market.sp_deal_parameters == old(market).sp_deal_parameters,
                market.block_number == old(market).block_number,
                market.events == old(market).events,
            decreases self.balances.len() - i,
        {
            let (who, free) = self.balances[i];
            market.balance_table.insert(who, BalanceEntry { free, locked: 0 });
            i += 1;
        }
    }
}

impl Market {
    /// The locked funds of `who`, if it has an entry in the balance table.
    pub fn locked(&self, who: AccountId) -> (r: Option<Balance>)
        ensures
            r == (if self.balance_table@.contains_key(who) {
                Some(self.balance_table@[who].locked)
            } else {
                None::<Balance>
            }),
    {
        match self.balance_table.get(&who) {
            Some(e) => Some(e.locked),
            None => None,
        }
    }

    /// The free funds of `who`, if it has an entry in the balance table.
    pub fn free(&self, who: AccountId) -> (r: Option<Balance>)
        ensures
            r == (if self.balance_table@.contains_key(who) {
                Some(self.balance_table@[who].free)
            } else {
                None::<Balance>
            }),
    {
        match self.balance_table.get(&who) {
            Some(e) => Some(e.free),
            None => None,
        }
    }

    /// Locks `amount` of `who`'s free funds for a sector's pre-commit.
    pub fn lock_pre_commit_funds(&mut self, who: AccountId, amount: Balance) -> (res: Result<(), DispatchError>)
        ensures
            match spec_lock_funds(old(self).balance_table@, who, amount) {
                Ok(n) => res is Ok && final(self).balance_table@ == n,
                Err(e) => res == Err::<(), DispatchError>(e) && final(self).balance_table@ == old(self).balance_table@,
            },
            final(self).proposals == old(self).proposals,
            final(self).pending_proposals == old(self).pending_proposals,
            final(self).events == old(self).events,
            final(self).block_number == old(self).block_number,
    {
        lock_funds(&mut self.balance_table, who, amount)
    }

    /// Returns `amount` of `who`'s pre-commit funds to its free funds.
    pub fn unlock_pre_commit_funds(&mut self, who: AccountId, amount: Balance) -> (res: Result<(), DispatchError>)
        ensures
            match spec_unlock_funds(old(self).balance_table@, who, amount) {
                Ok(n) => res is Ok && final(self).balance_table@ == n,
                Err(e) => res == Err::<(), DispatchError>(e) && final(self).balance_table@ == old(self).balance_table@,
            },
            final(self).proposals == old(self).proposals,
            final(self).pending_proposals == old(self).pending_proposals,
            final(self).events == old(self).events,
            final(self).block_number == old(self).block_number,
    {
        unlock_funds(&mut self.balance_table, who, amount)
    }

    /// Takes `amount` out of `who`'s locked pre-commit funds.
    pub fn slash_pre_commit_funds(&mut self, who: AccountId, amount: Balance) -> (res: Result<(), DispatchError>)
        ensures
            match spec_slash(old(self).balance_table@, who, amount) {
                Ok(n) => res is Ok && final(self).balance_table@ == n,
                Err(e) => res == Err::<(), DispatchError>(e) && final(self).balance_table@ == old(self).balance_table@,
            },
            final(self).proposals == old(self).proposals,
            final(self).pending_proposals == old(self).pending_proposals,
            final(self).events == old(self).events,
            final(self).block_number == old(self).block_number,
    {
        slash_and_burn(&mut self.balance_table, who, amount)
    }

    /// Removes the deal parameters of `provider`, which must be a registered
    /// storage provider (`registered`) and have parameters.
    pub fn remove_deal_parameters(&mut self, provider: AccountId, registered: bool) -> (res: Result<(), DispatchError>)
        ensures
            !registered ==> res == Err::<(), DispatchError>(DispatchError::Module(Error::StorageProviderNotRegistered)),
            registered && !old(self).sp_deal_parameters@.contains_key(provider) ==> res == Err::<(), DispatchError>(
                DispatchError::Module(Error::NoDealParamsToRemove),
            ),
            registered && old(self).sp_deal_parameters@.contains_key(provider) ==> res is Ok,
            res is Err ==> final(self).sp_deal_parameters@ == old(self).sp_deal_parameters@ && final(self).events@
                == old(self).events@,
            res is Ok ==> final(self).sp_deal_parameters@ == old(self).sp_deal_parameters@.remove(provider)
                && final(self).events@ == old(self).events@.push(Event::DealParametersRemoved { provider }),
            final(self).balance_table == old(self).balance_table,
            final(self).proposals == old(self).proposals,
            final(self).pending_proposals == old(self).pending_proposals,
            final(self).block_number == old(self).block_number,
    {
        if !registered {
            return Err(DispatchError::Module(Error::StorageProviderNotRegistered));
        }
        if !self.sp_deal_parameters.contains_key(&provider) {
            return Err(DispatchError::Module(Error::NoDealParamsToRemove));
        }
        self.sp_deal_parameters.remove(&provider);
        self.events.push(Event::DealParametersRemoved { provider });
        Ok(())
    }
}

/// What the end-of-block check changes.
pub struct ExpiryModel {
    pub balances: Map<AccountId, BalanceEntry>,
    pub props: Map<DealId, DealModel>,
    pub pending: Seq<Seq<u8>>,
    pub events: Seq<Event>,
}

/// The client's whole lockup for deal `d`: its duration times its price,
/// when the deal ends after it starts and the product fits.
pub open spec fn client_lockup(d: DealModel) -> Option<Balance> {
    if d.start_block <= d.end_block && (d.end_block - d.start_block) * d.storage_price_per_block <= u128::MAX {
        Some(((d.end_block - d.start_block) * d.storage_price_per_block) as u128)
    } else {
        None
    }
}

/// The end-of-block check of deal `id`: a deal still published was not
/// activated in time, so the provider's collateral is slashed, the client's
/// lockup returned, and the deal forgotten, with an event. A step that
/// cannot be made leaves its part unchanged.
pub open spec fn expire_step(st: ExpiryModel, id: DealId) -> ExpiryModel {
    if !st.props.contains_key(id) {
        st
    } else {
        let d = st.props[id];
        if d.state != DealState::Published {
            st
        } else {
            let b1 = match spec_slash(st.balances, d.provider, d.provider_collateral) {
                Ok(m) => m,
                Err(_) => st.balances,
            };
            let b2 = match client_lockup(d) {
                Some(fee) => match spec_unlock_funds(b1, d.client, fee) {
                    Ok(m) => m,
                    Err(_) => b1,
                },
                None => b1,
            };
            ExpiryModel {
                balances: b2,
                props: st.props.remove(id),
                pending: remove_all(st.pending, proposal_hash(d)),
                events: st.events.push(
                    Event::DealSlashed { deal_id: id, amount: d.provider_collateral, client: d.client, provider: d.provider },
                ),
            }
        }
    }
}

/// The end-of-block checks of the first `n` deals of `ids`, in order.
pub open spec fn expire_fold(st: ExpiryModel, ids: Seq<DealId>, n: nat) -> ExpiryModel
    decreases n,
{
    if n == 0 {
        st
    } else {
        expire_step(expire_fold(st, ids, (n - 1) as nat), ids[n - 1])
    }
}

impl Market {
    /// A market with no participants, deals or events at block `block_number`.
    pub fn new(block_number: BlockNumber) -> (m: Market)
        ensures
            m.balance_table@ == Map::<AccountId, BalanceEntry>::empty(),
            m.next_deal_id == 0,
            m.proposals@ == Map::<DealId, DealProposal>::empty(),
            m.pending_proposals@.len() == 0,
            m.deals_for_block@ == Map::<BlockNumber, Vec<DealId>>::empty(),
            m.sector_deals@.len() == 0,
            m.sp_deal_parameters@ == Map::<AccountId, DealParameters>::empty(),
            m.block_number == block_number,
            m.events@.len() == 0,
    {
        Market {
            balance_table: HashMap::new(),
            next_deal_id: 0,
            proposals: HashMap::new(),
            pending_proposals: Vec::new(),
            deals_for_block: HashMap::new(),
            sector_deals: Vec::new(),
            sp_deal_parameters: HashMap::new(),
            block_number,
            events: Vec::new(),
        }
    }

    fn expire_deal(&mut self, id: DealId)
        ensures
            ({
                let st = ExpiryModel {
                    balances: old(self).balance_table@,
                    props: proposals_model(old(self).proposals@),
                    pending: old(self).pending_model(),
                    events: old(self).events@,
                };
                let s = expire_step(st, id);
                &&& final(self).balance_table@ == s.balances
                &&& proposals_model(final(self).proposals@) == s.props
                &&& final(self).pending_model() == s.pending
                &&& final(self).events@ == s.events
            }),
            final(self).next_deal_id == old(self).next_deal_id,
            final(self).deals_for_block == old(self).deals_for_block,
            final(self).sector_deals == old(self).sector_deals,
            final(self).sp_deal_parameters == old(self).sp_deal_parameters,
            final(self).block_number == old(self).block_number,
    {
        let ghost props = proposals_model(self.proposals@);
        let d = match self.proposals.get(&id) {
            None => {
                return;
            },
            Some(p) => p.clone_proposal(),
        };
        if d.state != DealState::Published {
            return;
        }
        let _ = slash_and_burn(&mut self.balance_table, d.provider, d.provider_collateral);
        if d.start_block <= d.end_block {
            let duration = (d.end_block - d.start_block) as u128;
            match duration.checked_mul(d.storage_price_per_block) {
                Some(fee) => {
                    let _ = unlock_funds(&mut self.balance_table, d.client, fee);
                },
                None => {},
            }
        }
        let h = hash_proposal(&d);
        let kept = remove_hash(&self.pending_proposals, &h);
        self.pending_proposals = kept;
        self.proposals.remove(&id);
        self.events.push(
            Event::DealSlashed { deal_id: id, amount: d.provider_collateral, client: d.client, provider: d.provider },
        );
        proof {
            assert(proposals_model(self.proposals@) =~= props.remove(id));
        }
    }

    /// The end-of-block check of `current_block`: every deal due to start at
    /// this block that is still only published was not activated in time;
    /// its provider's collateral is slashed, the client's lockup returned and
    /// the deal dropped, with a [`Event::DealSlashed`]. The block's entry of
    /// due deals is removed.
    pub fn on_finalize(&mut self, current_block: BlockNumber)
        ensures
            ({
                let ids = if old(self).deals_for_block@.contains_key(current_block) {
                    old(self).deals_for_block@[current_block]@
                } else {
                    Seq::<DealId>::empty()
                };
                let st = ExpiryModel {
                    balances: old(self).balance_table@,
                    props: proposals_model(old(self).proposals@),
                    pending: old(self).pending_model(),
                    events: old(self).events@,
                };
                let s = expire_fold(st, ids, ids.len());
                &&& final(self).balance_table@ == s.balances
                &&& proposals_model(final(self).proposals@) == s.props
                &&& final(self).pending_model() == s.pending
                &&& final(self).events@ == s.events
            }),
            final(self).deals_for_block@ == old(self).deals_for_block@.remove(current_block),
            final(self).next_deal_id == old(self).next_deal_id,
            final(self).sector_deals == old(self).sector_deals,
            final(self).sp_deal_parameters == old(self).sp_deal_parameters,
            final(self).block_number == old(self).block_number,
    {
        let ids = match self.deals_for_block.get(&current_block) {
            None => Vec::new(),
            Some(v) => copy_ids(v),
        };
        let ghost st = ExpiryModel {
            balances: self.balance_table@,
            props: proposals_model(self.proposals@),
            pending: self.pending_model(),
            events: self.events@,
        };
        let mut i: usize = 0;
        while i < ids.len()
            invariant
                i <= ids.len(),
                ({
                    let s = expire_fold(st, ids@, i as nat);
                    &&& self.balance_table@ == s.balances
                    &&& proposals_model(self.proposals@) == s.props
                    &&& self.pending_model() == s.pending
                    &&& self.events@ == s.events
                }),
                self.deals_for_block == old(self).deals_for_block,
                self.next_deal_id == old(self).next_deal_id,
                self.sector_deals == old(self).sector_deals,
                self.sp_deal_parameters == old(self).sp_deal_parameters,
                self.block_number == old(self).block_number,
            decreases ids.len() - i,
        {
            self.expire_deal(ids[i]);
            i += 1;
        }
        self.deals_for_block.remove(&current_block);
    }
}

proof fn lemma_pfd_len(props: Map<DealId, DealModel>, ids: Seq<DealId>, n: nat)
    requires
        n <= ids.len(),
    ensures
        spec_proposals_for_deals(props, ids, n) matches Ok(v) ==> v.len() == n,
    decreases n,
{
    if n > 0 {
        lemma_pfd_len(props, ids, (n - 1) as nat);
    }
}

} // verus!
