use polka_storage::market::{BalanceEntry, BoundedBytes, DealProposal, DealState, Event, hash_proposal, get_entry};
use polka_storage::runtime::{events, run_to_block, Test};

#[test]
fn run_to_block_advances_and_keeps_block_when_behind() {
    let mut t = Test::new();
    assert_eq!(t.market.block_number, 1);
    run_to_block(&mut t, 5);
    assert_eq!(t.market.block_number, 5);
    run_to_block(&mut t, 3);
    assert_eq!(t.market.block_number, 5);
}

#[test]
fn events_are_taken_once() {
    let mut t = Test::new();
    t.market.events.push(Event::DealParametersRemoved { provider: 9 });
    let first = events(&mut t);
    assert_eq!(first.len(), 1);
    assert!(events(&mut t).is_empty());
}

#[test]
fn unactivated_deal_is_slashed_at_its_start_block() {
    let mut t = Test::new();
    let deal = DealProposal {
        piece_cid: BoundedBytes::new(vec![1, 2, 3]).unwrap(),
        piece_size: 128,
        client: 1,
        provider: 3,
        label: BoundedBytes::new(vec![]).unwrap(),
        start_block: 4,
        end_block: 8,
        storage_price_per_block: 2,
        provider_collateral: 6,
        state: DealState::Published,
    };
    let h = hash_proposal(&deal);
    t.market.pending_proposals.push(h);
    t.market.proposals.insert(0, deal);
    t.market.deals_for_block.insert(4, vec![0]);
    t.market.balance_table.insert(1, BalanceEntry { free: 0, locked: 8 });
    t.market.balance_table.insert(3, BalanceEntry { free: 1, locked: 6 });
    run_to_block(&mut t, 4);
    assert!(t.market.proposals.contains_key(&0));
    run_to_block(&mut t, 5);
    assert!(!t.market.proposals.contains_key(&0));
    assert!(t.market.pending_proposals.is_empty());
    assert!(!t.market.deals_for_block.contains_key(&4));
    assert_eq!(get_entry(&t.market.balance_table, 1), BalanceEntry { free: 8, locked: 0 });
    assert_eq!(get_entry(&t.market.balance_table, 3), BalanceEntry { free: 1, locked: 0 });
    let evs = events(&mut t);
    assert!(matches!(evs[..], [Event::DealSlashed { deal_id: 0, amount: 6, client: 1, provider: 3 }]));
}
