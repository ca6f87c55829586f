use std::str::FromStr;

use polka_storage::market::{
    get_entry, hash_proposal, BoundedBytes, lock_funds, slash_and_burn, unlock_funds, ActiveDealState, ArithmeticError,
    BalanceEntry, DealParameters, DealDurationBound, DealParameterError, DealProposal, DealSettlementError,
    DealState, DispatchError, Error, Event, GenesisConfig, Market, OffchainDealDurationBound,
    OffchainDealParameters, RegisteredSealProof, SectorDeal,
};
use polka_storage::runtime::{events, run_to_block, Test};

const ALICE: u64 = 1;
const BOB: u64 = 2;
const PROVIDER: u64 = 3;

fn cid_bytes(s: &str) -> Vec<u8> {
    ipld_core::cid::Cid::from_str(s).unwrap().to_bytes()
}

fn piece_cid() -> Vec<u8> {
    cid_bytes("bafk2bzacecg3xxc4f2ql2hreiuy767u6r72ekdz54k7luieknboaakhft5rgk")
}

/// The unsealed sector CID of a sector holding the default deal, as the
/// commitment computation gives it; the market takes it from its caller.
fn unsealed_cid() -> Vec<u8> {
    cid_bytes("bafk2bzaceajreoxfdcpdvitpvxm7vkpvcimlob5ejebqgqidjkz4qoug4q6zu")
}

struct DealProposalBuilder {
    proposal: DealProposal,
}

impl Default for DealProposalBuilder {
    fn default() -> Self {
        Self {
            proposal: DealProposal {
                piece_cid: BoundedBytes::new(piece_cid()).unwrap(),
                piece_size: 18,
                client: ALICE,
                provider: PROVIDER,
                label: BoundedBytes::new(vec![0xb, 0xe, 0xe, 0xf]).unwrap(),
                start_block: 100,
                end_block: 110,
                storage_price_per_block: 5,
                provider_collateral: 25,
                state: DealState::Published,
            },
        }
    }
}

impl DealProposalBuilder {
    fn client(mut self, client: u64) -> Self {
        self.proposal.client = client;
        self
    }
    fn provider(mut self, provider: u64) -> Self {
        self.proposal.provider = provider;
        self
    }
    fn state(mut self, state: DealState) -> Self {
        self.proposal.state = state;
        self
    }
    fn start_block(mut self, b: u64) -> Self {
        self.proposal.start_block = b;
        self
    }
    fn end_block(mut self, b: u64) -> Self {
        self.proposal.end_block = b;
        self
    }
    fn storage_price_per_block(mut self, p: u128) -> Self {
        self.proposal.storage_price_per_block = p;
        self
    }
    fn provider_collateral(mut self, c: u128) -> Self {
        self.proposal.provider_collateral = c;
        self
    }
    fn piece_size(mut self, s: u64) -> Self {
        self.proposal.piece_size = s;
        self
    }
    fn unsigned(self) -> DealProposal {
        self.proposal
    }
}

struct SectorDealBuilder {
    deal: SectorDeal,
}

impl Default for SectorDealBuilder {
    fn default() -> Self {
        Self {
            deal: SectorDeal {
                sector_number: 1,
                sector_expiry: 120,
                sector_type: RegisteredSealProof::StackedDRG2KiBV1P1,
                deal_ids: vec![1],
            },
        }
    }
}

impl SectorDealBuilder {
    fn sector_expiry(mut self, e: u64) -> Self {
        self.deal.sector_expiry = e;
        self
    }
    fn sector_number(mut self, n: u64) -> Self {
        self.deal.sector_number = n;
        self
    }
    fn deal_ids(mut self, ids: Vec<u64>) -> Self {
        self.deal.deal_ids = ids;
        self
    }
    fn build(self) -> SectorDeal {
        self.deal
    }
}

fn new_test_ext() -> Test {
    Test::new()
}

/// Saves a deal as published: in the proposals and, by its hash, among the
/// pending proposals.
fn publish_for_activation(m: &mut Market, deal_id: u64, deal: DealProposal) -> Vec<u8> {
    let hash = hash_proposal(&deal);
    m.pending_proposals.push(hash.clone());
    m.proposals.insert(deal_id, deal);
    hash
}

fn entry(m: &Market, who: u64) -> BalanceEntry {
    get_entry(&m.balance_table, who)
}

fn commitments(n: usize) -> Vec<Result<Vec<u8>, Error>> {
    (0..n).map(|_| Ok(unsealed_cid())).collect()
}

#[test]
fn initial_state() {
    let t = new_test_ext();
    assert_eq!(entry(&t.market, ALICE), BalanceEntry { free: 0, locked: 0 });
}

#[test]
fn verify_deals_for_activation() {
    let mut t = new_test_ext();
    publish_for_activation(&mut t.market, 1, DealProposalBuilder::default().unsigned());
    let deals = vec![
        SectorDeal {
            sector_number: 1,
            sector_expiry: 120,
            sector_type: RegisteredSealProof::StackedDRG2KiBV1P1,
            deal_ids: vec![1],
        },
        SectorDeal {
            sector_number: 2,
            sector_expiry: 50,
            sector_type: RegisteredSealProof::StackedDRG2KiBV1P1,
            deal_ids: vec![],
        },
    ];
    let res = t.market.verify_deals_for_activation(PROVIDER, &deals, &commitments(2));
    assert_eq!(res, Ok(vec![Some(unsealed_cid()), None]));
}

#[test]
fn verify_deals_for_activation_fails_with_different_provider() {
    let mut t = new_test_ext();
    publish_for_activation(&mut t.market, 1, DealProposalBuilder::default().provider(BOB).unsigned());
    let deals = vec![SectorDealBuilder::default().build()];
    assert_eq!(
        t.market.verify_deals_for_activation(PROVIDER, &deals, &commitments(1)),
        Err(DispatchError::Module(Error::DealActivationError))
    );
}

#[test]
fn verify_deals_for_activation_fails_with_invalid_deal_state() {
    let mut t = new_test_ext();
    publish_for_activation(
        &mut t.market,
        1,
        DealProposalBuilder::default()
            .state(DealState::Active(ActiveDealState {
                sector_number: 0,
                sector_start_block: 0,
                last_updated_block: Some(10),
                slash_block: None,
            }))
            .unsigned(),
    );
    let deals = vec![SectorDealBuilder::default().build()];
    assert_eq!(
        t.market.verify_deals_for_activation(PROVIDER, &deals, &commitments(1)),
        Err(DispatchError::Module(Error::DealActivationError))
    );
}

#[test]
fn verify_deals_for_activation_fails_deal_not_in_pending() {
    let mut t = new_test_ext();
    t.market.proposals.insert(1, DealProposalBuilder::default().unsigned());
    let deals = vec![SectorDealBuilder::default().build()];
    assert_eq!(
        t.market.verify_deals_for_activation(PROVIDER, &deals, &commitments(1)),
        Err(DispatchError::Module(Error::DealActivationError))
    );
}

#[test]
fn verify_deals_for_activation_fails_sector_activation_on_deal_from_the_past() {
    let mut t = new_test_ext();
    run_to_block(&mut t, 2);
    publish_for_activation(&mut t.market, 1, DealProposalBuilder::default().start_block(1).unsigned());
    let deals = vec![SectorDealBuilder::default().build()];
    assert_eq!(
        t.market.verify_deals_for_activation(PROVIDER, &deals, &commitments(1)),
        Err(DispatchError::Module(Error::DealActivationError))
    );
}

#[test]
fn verify_deals_for_activation_fails_sector_expires_before_deal_ends() {
    let mut t = new_test_ext();
    publish_for_activation(&mut t.market, 1, DealProposalBuilder::default().start_block(10).end_block(15).unsigned());
    let deals = vec![SectorDealBuilder::default().sector_expiry(11).build()];
    assert_eq!(
        t.market.verify_deals_for_activation(PROVIDER, &deals, &commitments(1)),
        Err(DispatchError::Module(Error::DealActivationError))
    );
}

#[test]
fn verify_deals_for_activation_fails_not_enough_space() {
    let mut t = new_test_ext();
    publish_for_activation(&mut t.market, 1, DealProposalBuilder::default().piece_size(1 << 10).unsigned());
    publish_for_activation(&mut t.market, 2, DealProposalBuilder::default().piece_size(3 << 10).unsigned());
    let deals = vec![SectorDealBuilder::default().deal_ids(vec![1, 2]).build()];
    assert_eq!(
        t.market.verify_deals_for_activation(PROVIDER, &deals, &commitments(1)),
        Err(DispatchError::Module(Error::DealsTooLargeToFitIntoSector))
    );
}

#[test]
fn verify_deals_for_activation_fails_duplicate_deals() {
    let mut t = new_test_ext();
    publish_for_activation(&mut t.market, 1, DealProposalBuilder::default().unsigned());
    let deals = vec![SectorDealBuilder::default().deal_ids(vec![1, 1]).build()];
    assert_eq!(
        t.market.verify_deals_for_activation(PROVIDER, &deals, &commitments(1)),
        Err(DispatchError::Module(Error::DuplicateDeal))
    );
}

#[test]
fn verify_deals_for_activation_fails_deal_not_found() {
    let t = new_test_ext();
    let deals = vec![SectorDealBuilder::default().deal_ids(vec![1, 2, 3, 4]).build()];
    assert_eq!(
        t.market.verify_deals_for_activation(PROVIDER, &deals, &commitments(1)),
        Err(DispatchError::Module(Error::DealNotFound))
    );
}

#[test]
fn activate_deals() {
    let mut t = new_test_ext();
    let alice_hash = publish_for_activation(&mut t.market, 1, DealProposalBuilder::default().unsigned());
    let deals = vec![
        SectorDealBuilder::default().build(),
        SectorDealBuilder::default().sector_number(2).sector_expiry(50).deal_ids(vec![]).build(),
    ];
    let sectors = t.market.activate_deals(PROVIDER, &deals, true, &commitments(2)).unwrap();
    assert_eq!(sectors.len(), 2);
    assert_eq!(sectors[0].active_deals.len(), 1);
    assert_eq!(sectors[0].active_deals[0].client, ALICE);
    assert_eq!(sectors[0].active_deals[0].piece_cid.to_bytes(), piece_cid());
    assert_eq!(sectors[0].active_deals[0].piece_size, 18);
    assert_eq!(sectors[0].unsealed_cid, Some(unsealed_cid()));
    assert_eq!(sectors[1].active_deals.len(), 0);
    assert_eq!(sectors[1].unsealed_cid, None);
    assert!(!t.market.pending_proposals.contains(&alice_hash));
}

#[test]
fn activate_deals_fails_for_1_sector_but_succeeds_for_others() {
    let mut t = new_test_ext();
    let alice_hash = publish_for_activation(&mut t.market, 1, DealProposalBuilder::default().unsigned());
    let _ = publish_for_activation(&mut t.market, 2, DealProposalBuilder::default().unsigned());
    let deals = vec![
        SectorDealBuilder::default().build(),
        SectorDealBuilder::default().sector_number(2).sector_expiry(50).deal_ids(vec![]).build(),
        SectorDealBuilder::default().sector_number(3).deal_ids(vec![1337]).build(),
        SectorDealBuilder::default().sector_number(4).sector_expiry(10).deal_ids(vec![2]).build(),
    ];
    let sectors = t.market.activate_deals(PROVIDER, &deals, true, &commitments(4)).unwrap();
    assert_eq!(sectors.len(), 2);
    assert_eq!(sectors[0].active_deals.len(), 1);
    assert_eq!(sectors[0].active_deals[0].client, ALICE);
    assert_eq!(sectors[0].active_deals[0].piece_cid.to_bytes(), piece_cid());
    assert_eq!(sectors[0].active_deals[0].piece_size, 18);
    assert_eq!(sectors[0].unsealed_cid, Some(unsealed_cid()));
    assert_eq!(sectors[1].active_deals.len(), 0);
    assert_eq!(sectors[1].unsealed_cid, None);
    assert!(!t.market.pending_proposals.contains(&alice_hash));
}

#[test]
fn verifies_deals_on_block_finalization() {
    let mut t = new_test_ext();
    let alice_start_block = 100;
    let alice_deal_id = 0;
    let alice = DealProposalBuilder::default()
        .start_block(alice_start_block)
        .end_block(alice_start_block + 10)
        .storage_price_per_block(5)
        .provider_collateral(25)
        .unsigned();
    let bob_start_block = 130;
    let bob_deal_id = 1;
    let bob = DealProposalBuilder::default()
        .client(BOB)
        .start_block(bob_start_block)
        .end_block(bob_start_block + 5)
        .storage_price_per_block(10)
        .provider_collateral(15)
        .unsigned();
    // The state the deposits and the publication of both deals leave behind.
    t.market.balance_table.insert(ALICE, BalanceEntry { free: 10, locked: 50 });
    t.market.balance_table.insert(BOB, BalanceEntry { free: 20, locked: 50 });
    t.market.balance_table.insert(PROVIDER, BalanceEntry { free: 35, locked: 40 });
    publish_for_activation(&mut t.market, alice_deal_id, alice);
    publish_for_activation(&mut t.market, bob_deal_id, bob);
    t.market.deals_for_block.insert(alice_start_block, vec![alice_deal_id]);
    t.market.deals_for_block.insert(bob_start_block, vec![bob_deal_id]);
    let sectors = vec![SectorDeal {
        sector_number: 1,
        sector_expiry: 200,
        sector_type: RegisteredSealProof::StackedDRG2KiBV1P1,
        deal_ids: vec![0],
    }];
    let _ = t.market.activate_deals(PROVIDER, &sectors, true, &commitments(1));
    let _ = events(&mut t);

    assert_eq!(entry(&t.market, ALICE), BalanceEntry { free: 10, locked: 50 });
    run_to_block(&mut t, alice_start_block + 1);
    assert!(!t
        .market
        .deals_for_block
        .get(&alice_start_block)
        .map(|v| v.contains(&alice_deal_id))
        .unwrap_or(false));
    assert_eq!(entry(&t.market, ALICE), BalanceEntry { free: 10, locked: 50 });
    assert_eq!(entry(&t.market, BOB), BalanceEntry { free: 20, locked: 50 });
    assert_eq!(entry(&t.market, PROVIDER), BalanceEntry { free: 35, locked: 40 });

    run_to_block(&mut t, bob_start_block + 1);
    assert_eq!(entry(&t.market, BOB), BalanceEntry { free: 70, locked: 0 });
    assert_eq!(entry(&t.market, PROVIDER), BalanceEntry { free: 35, locked: 25 });
    assert!(!t
        .market
        .deals_for_block
        .get(&bob_start_block)
        .map(|v| v.contains(&bob_deal_id))
        .unwrap_or(false));
}

fn settled_ids(ev: &Event) -> (Vec<u64>, Vec<(u64, DealSettlementError)>) {
    match ev {
        Event::DealsSettled { successful, unsuccessful } => {
            (successful.iter().map(|s| s.deal_id).collect(), unsuccessful.clone())
        },
        _ => panic!("not a settlement event"),
    }
}

#[test]
fn settle_deal_payments_not_found() {
    let mut t = new_test_ext();
    assert_eq!(t.market.settle_deal_payments(&vec![0]), Ok(()));
    let evs = events(&mut t);
    assert_eq!(evs.len(), 1);
    assert_eq!(settled_ids(&evs[0]), (vec![], vec![(0, DealSettlementError::DealNotFound)]));
}

#[test]
fn settle_deal_payments_early() {
    let mut t = new_test_ext();
    t.market.balance_table.insert(ALICE, BalanceEntry { free: 10, locked: 50 });
    t.market.balance_table.insert(PROVIDER, BalanceEntry { free: 50, locked: 25 });
    publish_for_activation(&mut t.market, 0, DealProposalBuilder::default().unsigned());
    let _ = events(&mut t);
    assert_eq!(t.market.settle_deal_payments(&vec![0]), Ok(()));
    let evs = events(&mut t);
    assert_eq!(evs.len(), 1);
    assert_eq!(settled_ids(&evs[0]), (vec![], vec![(0, DealSettlementError::EarlySettlement)]));
}

#[test]
fn settle_deal_payments_active_future_last_update() {
    let mut t = new_test_ext();
    t.market.balance_table.insert(ALICE, BalanceEntry { free: 60, locked: 0 });
    t.market.balance_table.insert(PROVIDER, BalanceEntry { free: 75, locked: 0 });
    t.market.proposals.insert(
        0,
        DealProposalBuilder::default()
            .start_block(0)
            .end_block(10)
            .state(DealState::Active(ActiveDealState {
                sector_number: 0,
                sector_start_block: 0,
                last_updated_block: Some(10),
                slash_block: None,
            }))
            .unsigned(),
    );
    let _ = events(&mut t);
    assert_eq!(t.market.settle_deal_payments(&vec![0]), Ok(()));
    let evs = events(&mut t);
    assert_eq!(evs.len(), 1);
    assert_eq!(settled_ids(&evs[0]), (vec![], vec![(0, DealSettlementError::FutureLastUpdate)]));
}

#[test]
fn settle_deal_payments_active_corruption() {
    let mut t = new_test_ext();
    t.market.balance_table.insert(ALICE, BalanceEntry { free: 60, locked: 0 });
    t.market.balance_table.insert(PROVIDER, BalanceEntry { free: 75, locked: 0 });
    t.market.proposals.insert(
        0,
        DealProposalBuilder::default()
            .start_block(0)
            .end_block(10)
            .state(DealState::Active(ActiveDealState {
                sector_number: 0,
                sector_start_block: 0,
                last_updated_block: Some(11),
                slash_block: None,
            }))
            .unsigned(),
    );
    run_to_block(&mut t, 12);
    let _ = events(&mut t);
    assert_eq!(t.market.settle_deal_payments(&vec![0]), Err(DispatchError::Corruption));
    assert_eq!(events(&mut t).len(), 0);
}

fn active_from_zero() -> DealState {
    DealState::Active(ActiveDealState {
        sector_number: 0,
        sector_start_block: 0,
        last_updated_block: None,
        slash_block: None,
    })
}

#[test]
fn settle_deal_payments_success() {
    let mut t = new_test_ext();
    t.market.balance_table.insert(ALICE, BalanceEntry { free: 10, locked: 50 });
    t.market.balance_table.insert(PROVIDER, BalanceEntry { free: 50, locked: 25 });
    publish_for_activation(
        &mut t.market,
        0,
        DealProposalBuilder::default().start_block(0).end_block(10).state(active_from_zero()).unsigned(),
    );
    let _ = events(&mut t);
    run_to_block(&mut t, 5);
    assert_eq!(t.market.settle_deal_payments(&vec![0]), Ok(()));
    let evs = events(&mut t);
    assert_eq!(evs.len(), 1);
    assert_eq!(settled_ids(&evs[0]), (vec![0], vec![]));
    assert_eq!(entry(&t.market, PROVIDER), BalanceEntry { free: 75, locked: 25 });
    assert_eq!(entry(&t.market, ALICE), BalanceEntry { free: 10, locked: 25 });
    assert_eq!(
        t.market.proposals.get(&0).map(|p| p.state),
        Some(DealState::Active(ActiveDealState {
            sector_number: 0,
            sector_start_block: 0,
            last_updated_block: Some(5),
            slash_block: None,
        }))
    );
}

#[test]
fn settle_deal_payments_success_finished() {
    let mut t = new_test_ext();
    t.market.balance_table.insert(ALICE, BalanceEntry { free: 10, locked: 50 });
    t.market.balance_table.insert(PROVIDER, BalanceEntry { free: 50, locked: 25 });
    publish_for_activation(
        &mut t.market,
        0,
        DealProposalBuilder::default().start_block(0).end_block(10).state(active_from_zero()).unsigned(),
    );
    let _ = events(&mut t);
    run_to_block(&mut t, 11);
    assert_eq!(t.market.settle_deal_payments(&vec![0]), Ok(()));
    let evs = events(&mut t);
    assert_eq!(evs.len(), 1);
    assert_eq!(settled_ids(&evs[0]), (vec![0], vec![]));
    assert_eq!(entry(&t.market, PROVIDER), BalanceEntry { free: 50 + 5 * 10, locked: 25 });
    assert_eq!(entry(&t.market, ALICE), BalanceEntry { free: 10, locked: 50 - 5 * 10 });
    assert!(t.market.proposals.get(&0).is_none());
}

#[test]
fn settling_twice_in_one_block_pays_once() {
    let mut t = new_test_ext();
    t.market.balance_table.insert(ALICE, BalanceEntry { free: 10, locked: 50 });
    t.market.balance_table.insert(PROVIDER, BalanceEntry { free: 50, locked: 25 });
    publish_for_activation(
        &mut t.market,
        0,
        DealProposalBuilder::default().start_block(0).end_block(10).state(active_from_zero()).unsigned(),
    );
    run_to_block(&mut t, 5);
    assert_eq!(t.market.settle_deal_payments(&vec![0]), Ok(()));
    assert_eq!(t.market.settle_deal_payments(&vec![0, 0]), Ok(()));
    assert_eq!(entry(&t.market, PROVIDER), BalanceEntry { free: 75, locked: 25 });
    assert_eq!(entry(&t.market, ALICE), BalanceEntry { free: 10, locked: 25 });
    run_to_block(&mut t, 11);
    assert_eq!(t.market.settle_deal_payments(&vec![0]), Ok(()));
    assert_eq!(t.market.settle_deal_payments(&vec![0]), Ok(()));
    assert_eq!(entry(&t.market, PROVIDER), BalanceEntry { free: 100, locked: 25 });
    assert_eq!(entry(&t.market, ALICE), BalanceEntry { free: 10, locked: 0 });
}

#[test]
fn settlement_run_reports_every_deal_and_keeps_funds() {
    let mut t = new_test_ext();
    t.market.balance_table.insert(ALICE, BalanceEntry { free: 10, locked: 50 });
    t.market.balance_table.insert(PROVIDER, BalanceEntry { free: 50, locked: 25 });
    publish_for_activation(
        &mut t.market,
        0,
        DealProposalBuilder::default().start_block(0).end_block(10).state(active_from_zero()).unsigned(),
    );
    let total = |m: &Market| {
        [ALICE, PROVIDER].iter().map(|a| {
            let e = entry(m, *a);
            e.free + e.locked
        }).sum::<u128>()
    };
    let before = total(&t.market);
    run_to_block(&mut t, 5);
    let _ = events(&mut t);
    assert_eq!(t.market.settle_deal_payments(&vec![0, 7, 0]), Ok(()));
    let evs = events(&mut t);
    let (ok, failed) = settled_ids(&evs[0]);
    assert_eq!(ok.len() + failed.len(), 3);
    assert_eq!(total(&t.market), before);
}

#[test]
fn test_lock_funds() {
    let mut m = Market::new(1);
    m.balance_table.insert(PROVIDER, BalanceEntry { free: 90, locked: 0 });
    assert_eq!(lock_funds(&mut m.balance_table, PROVIDER, 25), Ok(()));
    assert_eq!(entry(&m, PROVIDER), BalanceEntry { free: 65, locked: 25 });
    assert_eq!(lock_funds(&mut m.balance_table, PROVIDER, 65), Ok(()));
    assert_eq!(entry(&m, PROVIDER), BalanceEntry { free: 0, locked: 90 });
    assert_eq!(
        lock_funds(&mut m.balance_table, PROVIDER, 25),
        Err(DispatchError::Arithmetic(ArithmeticError::Underflow))
    );
    assert_eq!(entry(&m, PROVIDER), BalanceEntry { free: 0, locked: 90 });
}

#[test]
fn test_unlock_funds() {
    let mut m = Market::new(1);
    m.balance_table.insert(PROVIDER, BalanceEntry { free: 90, locked: 0 });
    assert_eq!(lock_funds(&mut m.balance_table, PROVIDER, 90), Ok(()));
    assert_eq!(entry(&m, PROVIDER), BalanceEntry { free: 0, locked: 90 });
    assert_eq!(unlock_funds(&mut m.balance_table, PROVIDER, 30), Ok(()));
    assert_eq!(entry(&m, PROVIDER), BalanceEntry { free: 30, locked: 60 });
    assert_eq!(unlock_funds(&mut m.balance_table, PROVIDER, 60), Ok(()));
    assert_eq!(entry(&m, PROVIDER), BalanceEntry { free: 90, locked: 0 });
    assert_eq!(
        unlock_funds(&mut m.balance_table, PROVIDER, 60),
        Err(DispatchError::Arithmetic(ArithmeticError::Underflow))
    );
    assert_eq!(entry(&m, PROVIDER), BalanceEntry { free: 90, locked: 0 });
}

#[test]
fn slash_and_burn_acc() {
    let mut m = Market::new(1);
    m.balance_table.insert(PROVIDER, BalanceEntry { free: 75, locked: 0 });
    assert_eq!(lock_funds(&mut m.balance_table, PROVIDER, 10), Ok(()));
    assert_eq!(slash_and_burn(&mut m.balance_table, PROVIDER, 10), Ok(()));
    assert_eq!(entry(&m, PROVIDER), BalanceEntry { free: 65, locked: 0 });
    assert_eq!(
        slash_and_burn(&mut m.balance_table, PROVIDER, 10),
        Err(DispatchError::Arithmetic(ArithmeticError::Underflow))
    );
}

// Further behaviour of the market.

#[test]
fn genesis_gives_free_funds() {
    let mut m = Market::new(1);
    let g = GenesisConfig { balances: vec![(ALICE, 100), (BOB, 7)] };
    g.build(&mut m);
    assert_eq!(m.free(ALICE), Some(100));
    assert_eq!(m.locked(ALICE), Some(0));
    assert_eq!(m.free(BOB), Some(7));
    assert_eq!(m.free(PROVIDER), None);
    assert_eq!(m.locked(PROVIDER), None);
    let empty = GenesisConfig::default();
    assert!(empty.balances.is_empty());
}

#[test]
fn lock_then_unlock_restores_balance() {
    let mut m = Market::new(1);
    m.balance_table.insert(ALICE, BalanceEntry { free: 40, locked: 2 });
    assert_eq!(m.lock_pre_commit_funds(ALICE, 15), Ok(()));
    assert_eq!(m.unlock_pre_commit_funds(ALICE, 15), Ok(()));
    assert_eq!(entry(&m, ALICE), BalanceEntry { free: 40, locked: 2 });
    assert_eq!(m.slash_pre_commit_funds(ALICE, 3), Err(DispatchError::Arithmetic(ArithmeticError::Underflow)));
    assert_eq!(m.slash_pre_commit_funds(ALICE, 2), Ok(()));
    assert_eq!(entry(&m, ALICE), BalanceEntry { free: 40, locked: 0 });
}

#[test]
fn lock_overflow_is_refused() {
    let mut m = Market::new(1);
    m.balance_table.insert(ALICE, BalanceEntry { free: 10, locked: u128::MAX });
    assert_eq!(lock_funds(&mut m.balance_table, ALICE, 1), Err(DispatchError::Arithmetic(ArithmeticError::Overflow)));
    assert_eq!(entry(&m, ALICE), BalanceEntry { free: 10, locked: u128::MAX });
}

#[test]
fn proposal_hash_depends_on_content() {
    let a = DealProposalBuilder::default().unsigned();
    let b = DealProposalBuilder::default().piece_size(19).unsigned();
    let ha = hash_proposal(&a);
    assert_eq!(ha.len(), 32);
    assert_eq!(ha, hash_proposal(&DealProposalBuilder::default().unsigned()));
    assert_ne!(ha, hash_proposal(&b));
}

#[test]
fn activation_error_commitment_fails_whole_call() {
    let mut t = new_test_ext();
    publish_for_activation(&mut t.market, 1, DealProposalBuilder::default().unsigned());
    let deals = vec![SectorDealBuilder::default().build()];
    let before = t.market.pending_proposals.clone();
    let res = t.market.activate_deals(PROVIDER, &deals, true, &vec![Err(Error::CommD)]);
    assert!(matches!(res, Err(DispatchError::Module(Error::CommD))));
    assert_eq!(t.market.pending_proposals, before);
    assert_eq!(t.market.proposals.get(&1).map(|p| p.state), Some(DealState::Published));
    assert_eq!(events(&mut t).len(), 0);
}

#[test]
fn activation_marks_deal_active_with_event() {
    let mut t = new_test_ext();
    publish_for_activation(&mut t.market, 1, DealProposalBuilder::default().unsigned());
    let deals = vec![SectorDealBuilder::default().build()];
    let res = t.market.activate_deals(PROVIDER, &deals, false, &commitments(1)).unwrap();
    assert_eq!(res[0].unsealed_cid, None);
    assert_eq!(
        t.market.proposals.get(&1).map(|p| p.state),
        Some(DealState::Active(ActiveDealState::new(1, 1)))
    );
    let evs = events(&mut t);
    assert_eq!(evs.len(), 1);
    assert!(matches!(evs[0], Event::DealActivated { deal_id: 1, client: ALICE, provider: PROVIDER }));
    assert_eq!(t.market.sector_deals, vec![(PROVIDER, 1, vec![1])]);
}

#[test]
fn deal_parameters_validation() {
    let params = OffchainDealParameters {
        minimum_price_per_block: 0,
        deal_duration: OffchainDealDurationBound { lower: None, upper: None },
    };
    assert_eq!(params.validate(2, 30), Err(DealParameterError::PriceCannotBeZero));
    let params = OffchainDealParameters {
        minimum_price_per_block: 4,
        deal_duration: OffchainDealDurationBound { lower: None, upper: Some(20) },
    };
    assert_eq!(
        params.validate(2, 30),
        Ok(DealParameters { minimum_price_per_block: 4, deal_duration: DealDurationBound { lower: 2, upper: 20 } })
    );
    let bad = OffchainDealParameters {
        minimum_price_per_block: 4,
        deal_duration: OffchainDealDurationBound { lower: Some(25), upper: Some(20) },
    };
    assert_eq!(bad.validate(2, 30), Err(DealParameterError::LowerLargerThanUpper(25, 20)));
    let low = OffchainDealParameters {
        minimum_price_per_block: 4,
        deal_duration: OffchainDealDurationBound { lower: Some(1), upper: None },
    };
    assert_eq!(low.validate(2, 30), Err(DealParameterError::LowerBoundTooLow(1, 2)));
    let high = OffchainDealParameters {
        minimum_price_per_block: 4,
        deal_duration: OffchainDealDurationBound { lower: None, upper: Some(31) },
    };
    assert_eq!(high.validate(2, 30), Err(DealParameterError::UpperBoundTooHigh(31, 30)));
    let accepted = DealParameters { minimum_price_per_block: 5, deal_duration: DealDurationBound { lower: 5, upper: 10 } };
    assert!(accepted.check_against_proposed_deal(&DealProposalBuilder::default().unsigned()));
    assert!(!accepted.check_against_proposed_deal(&DealProposalBuilder::default().storage_price_per_block(4).unsigned()));
    assert!(!accepted.check_against_proposed_deal(&DealProposalBuilder::default().end_block(111).unsigned()));
}

#[test]
fn remove_deal_parameters_errors() {
    let mut m = Market::new(1);
    assert_eq!(
        m.remove_deal_parameters(PROVIDER, false),
        Err(DispatchError::Module(Error::StorageProviderNotRegistered))
    );
    assert_eq!(m.remove_deal_parameters(PROVIDER, true), Err(DispatchError::Module(Error::NoDealParamsToRemove)));
    m.sp_deal_parameters.insert(
        PROVIDER,
        DealParameters { minimum_price_per_block: 1, deal_duration: DealDurationBound { lower: 2, upper: 3 } },
    );
    assert_eq!(m.remove_deal_parameters(PROVIDER, true), Ok(()));
    assert!(m.sp_deal_parameters.is_empty());
    assert!(matches!(m.events[0], Event::DealParametersRemoved { provider: PROVIDER }));
}

#[test]
fn deal_bytes_are_bounded() {
    assert!(BoundedBytes::new(vec![0u8; 128]).is_some());
    assert!(BoundedBytes::new(vec![0u8; 129]).is_none());
    let b = BoundedBytes::new(vec![1, 2, 3]).unwrap();
    assert_eq!(b.as_slice(), &[1, 2, 3]);
    assert_eq!(b.clone().as_slice(), &[1, 2, 3]);
}
