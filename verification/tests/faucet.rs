use polka_storage::faucet::{Error, Event, Faucet, Origin};
use polka_storage::runtime::{run_to_block, Test};

const ALICE: u64 = 1;
const FAUCET_DRIP_AMOUNT: u128 = 10_000_000_000_000;
const FAUCET_DRIP_DELAY: u64 = 1;

fn new_test_ext() -> (Test, Faucet) {
    (Test::new(), Faucet::new(FAUCET_DRIP_AMOUNT, FAUCET_DRIP_DELAY))
}

#[test]
fn drip() {
    let (t, mut faucet) = new_test_ext();
    let credited = faucet.drip(Origin::Unsigned, ALICE, t.market.block_number);
    assert_eq!(credited, Ok(FAUCET_DRIP_AMOUNT));
    assert_eq!(faucet.events, vec![Event::Dripped { who: ALICE, when: t.market.block_number }]);
    assert_eq!(faucet.drips(ALICE), Some(1));
}

#[test]
fn early_drip_fails() {
    let (mut t, mut faucet) = new_test_ext();
    faucet.drip(Origin::Unsigned, ALICE, t.market.block_number).expect("first drip should always succeed");
    let target = t.market.block_number + FAUCET_DRIP_DELAY - 1;
    run_to_block(&mut t, target);
    assert_eq!(faucet.drip(Origin::Unsigned, ALICE, t.market.block_number), Err(Error::FaucetUsedRecently));
}

#[test]
fn drip_delay_succeeds() {
    let (mut t, mut faucet) = new_test_ext();
    faucet.drip(Origin::Unsigned, ALICE, t.market.block_number).expect("first drip should always succeed");
    faucet.events.clear();
    let target = t.market.block_number + FAUCET_DRIP_DELAY;
    run_to_block(&mut t, target);
    assert_eq!(faucet.drip(Origin::Unsigned, ALICE, t.market.block_number), Ok(FAUCET_DRIP_AMOUNT));
    assert_eq!(faucet.events, vec![Event::Dripped { who: ALICE, when: t.market.block_number }]);
    // Two drips credited twice the amount.
    assert_eq!(FAUCET_DRIP_AMOUNT * 2, 20_000_000_000_000);
}

#[test]
fn drip_never_used_account_succeeds_any_block() {
    let mut faucet = Faucet::new(5, 10);
    assert_eq!(faucet.drips(7), None);
    assert_eq!(faucet.drip(Origin::Unsigned, 7, 0), Ok(5));
    assert_eq!(faucet.drip(Origin::Unsigned, 7, 9), Err(Error::FaucetUsedRecently));
    assert_eq!(faucet.drip(Origin::Unsigned, 7, 10), Ok(5));
    assert_eq!(faucet.drips(7), Some(10));
}

#[test]
fn drip_needs_an_unsigned_call() {
    let mut faucet = Faucet::new(5, 10);
    assert_eq!(faucet.drip(Origin::Signed(ALICE), ALICE, 1), Err(Error::BadOrigin));
    assert_eq!(faucet.drip(Origin::Root, ALICE, 1), Err(Error::BadOrigin));
    assert!(faucet.events.is_empty());
    assert_eq!(faucet.drips(ALICE), None);
    assert_eq!(faucet.drip(Origin::Unsigned, ALICE, 1), Ok(5));
}
