use polka_storage::payment_channel::{
    voucher_signer, Error, Event, LaneState, Merge, Payout, PaymentChannels, SignedVoucher,
    UpdateChannelStateParams, SETTLE_DELAY,
};

const FROM: u64 = 10;
const TO: u64 = 20;

fn voucher(lane: u64, nonce: u64, amount: u128) -> SignedVoucher {
    SignedVoucher {
        channel_addr: 1,
        time_lock_min: 0,
        time_lock_max: 0,
        secret_pre_image: vec![],
        extra: None,
        lane,
        nonce,
        amount,
        min_settle_height: 0,
        merges: vec![],
        signature: None,
    }
}

fn params(sv: SignedVoucher) -> UpdateChannelStateParams {
    UpdateChannelStateParams { sv, secret: vec![7u8; 257] }
}

fn opened() -> PaymentChannels {
    let mut p = PaymentChannels::new();
    p.open_channel(FROM, TO, 1);
    p
}

#[test]
fn open_channel_emits_event() {
    let mut p = PaymentChannels::new();
    p.open_channel(FROM, TO, 5);
    assert_eq!(p.events, vec![Event::ChannelOpened { channel_id: 5 }]);
    let ch = p.channels.get(&5).unwrap();
    assert_eq!((ch.from, ch.to, ch.to_send, ch.settling_at), (FROM, TO, 0, 0));
}

#[test]
fn fresh_channel_redeems_first_voucher() {
    let mut p = PaymentChannels::new();
    p.open_channel(FROM, TO, 1);
    assert!(p.lane_states.get(&1).is_none());
    assert_eq!(p.update_channel_state(TO, 1, &params(voucher(0, 1, 10)), true, 1, 100), Ok(()));
    assert_eq!(p.channels.get(&1).unwrap().to_send, 10);
    assert_eq!(p.lane_states.get(&1).unwrap(), &vec![LaneState { lane: 0, redeemed: 10, nonce: 1 }]);
    // An unknown channel stays invalid.
    assert_eq!(p.update_channel_state(FROM, 2, &params(voucher(1, 1, 5)), true, 1, 1000), Err(Error::InvalidChannel));
}

#[test]
fn later_voucher_on_a_lane_adds_only_the_difference() {
    let mut p = opened();
    assert_eq!(p.update_channel_state(TO, 1, &params(voucher(0, 1, 10)), true, 1, 100), Ok(()));
    assert_eq!(p.update_channel_state(TO, 1, &params(voucher(0, 2, 15)), true, 1, 100), Ok(()));
    assert_eq!(p.channels.get(&1).unwrap().to_send, 15);
    assert_eq!(p.lane_states.get(&1).unwrap(), &vec![LaneState { lane: 0, redeemed: 15, nonce: 2 }]);
    // Another lane is a lane of its own.
    assert_eq!(p.update_channel_state(TO, 1, &params(voucher(3, 1, 4)), true, 1, 100), Ok(()));
    assert_eq!(p.channels.get(&1).unwrap().to_send, 19);
    assert_eq!(p.lane_states.get(&1).unwrap().len(), 2);
}

#[test]
fn merged_lane_counts_towards_the_voucher() {
    let mut p = opened();
    assert_eq!(p.update_channel_state(TO, 1, &params(voucher(1, 1, 10)), true, 1, 100), Ok(()));
    let mut merging = voucher(2, 2, 25);
    merging.merges = vec![Merge { lane: 1, nonce: 2 }];
    assert_eq!(p.update_channel_state(TO, 1, &params(merging), true, 1, 100), Ok(()));
    // 25 in lane 2, of which the 10 of lane 1 were already counted.
    assert_eq!(p.channels.get(&1).unwrap().to_send, 25);
    let mut missing = voucher(2, 3, 30);
    missing.merges = vec![Merge { lane: 7, nonce: 3 }];
    assert_eq!(p.update_channel_state(TO, 1, &params(missing), true, 1, 100), Err(Error::InvalidMerge));
}

#[test]
fn update_redeems_voucher_amount() {
    let mut p = opened();
    assert_eq!(p.update_channel_state(FROM, 1, &params(voucher(1, 1, 5)), true, 1, 1000), Ok(()));
    assert_eq!(p.channels.get(&1).unwrap().to_send, 5);
    assert_eq!(p.lane_states.get(&1).unwrap(), &vec![LaneState { lane: 1, redeemed: 5, nonce: 1 }]);
    // The same voucher again adds nothing.
    assert_eq!(p.update_channel_state(FROM, 1, &params(voucher(1, 1, 5)), true, 1, 1000), Ok(()));
    assert_eq!(p.channels.get(&1).unwrap().to_send, 5);
    // A larger voucher on the lane adds the difference.
    assert_eq!(p.update_channel_state(FROM, 1, &params(voucher(1, 1, 9)), true, 1, 1000), Ok(()));
    assert_eq!(p.channels.get(&1).unwrap().to_send, 9);
}

#[test]
fn update_errors() {
    let mut p = opened();
    assert_eq!(p.update_channel_state(99, 1, &params(voucher(1, 1, 5)), true, 1, 1000), Err(Error::InvalidChannel));
    assert_eq!(p.update_channel_state(FROM, 1, &params(voucher(1, 1, 5)), false, 1, 1000), Err(Error::InvalidSignature));
    let short = UpdateChannelStateParams { sv: voucher(1, 1, 5), secret: vec![0u8; 256] };
    assert_eq!(p.update_channel_state(FROM, 1, &short, true, 1, 1000), Err(Error::InvalidSecret));
    let mut late = voucher(1, 1, 5);
    late.time_lock_min = 5;
    assert_eq!(p.update_channel_state(FROM, 1, &params(late), true, 1, 1000), Err(Error::VoucherNotYetValid));
    let mut expired = voucher(1, 1, 5);
    expired.time_lock_max = 3;
    assert_eq!(p.update_channel_state(FROM, 1, &params(expired), true, 4, 1000), Err(Error::VoucherExpired));
    assert_eq!(p.update_channel_state(FROM, 1, &params(voucher(1, 1, 5)), true, 1, 4), Err(Error::InsufficientBalance));
    let mut bad_merge = voucher(1, 1, 5);
    bad_merge.merges = vec![Merge { lane: 1, nonce: 0 }];
    assert_eq!(p.update_channel_state(FROM, 1, &params(bad_merge), true, 1, 1000), Err(Error::InvalidMerge));
    assert_eq!(p.channels.get(&1).unwrap().to_send, 0);
    assert_eq!(p.events.len(), 1);
}

#[test]
fn signer_is_the_other_party() {
    let p = opened();
    let ch = p.channels.get(&1).unwrap();
    assert_eq!(voucher_signer(ch, FROM), TO);
    assert_eq!(voucher_signer(ch, TO), FROM);
}

#[test]
fn voucher_signing_bytes_leave_out_signature_and_track_fields() {
    let a = voucher(1, 1, 5);
    let mut signed = voucher(1, 1, 5);
    signed.signature = Some(vec![1, 2, 3]);
    assert_eq!(a.signing_bytes(), signed.signing_bytes());
    assert_ne!(a.signing_bytes(), voucher(1, 1, 6).signing_bytes());
}

#[test]
fn settle_and_collect() {
    let mut p = opened();
    assert_eq!(p.update_channel_state(TO, 1, &params(voucher(2, 2, 7)), true, 1, 1000), Ok(()));
    assert_eq!(p.collect_channel(TO, 1, 10), Err(Error::ChannelNotSettling));
    assert_eq!(p.settle_channel(99, 1, 10), Err(Error::InvalidChannel));
    assert_eq!(p.settle_channel(FROM, 1, 10), Ok(()));
    assert_eq!(p.channels.get(&1).unwrap().settling_at, 10 + SETTLE_DELAY);
    assert_eq!(p.settle_channel(FROM, 1, 11), Err(Error::ChannelAlreadySettling));
    assert_eq!(p.collect_channel(TO, 1, 10 + SETTLE_DELAY - 1), Err(Error::ChannelNotSettling));
    assert_eq!(p.collect_channel(TO, 1, 10 + SETTLE_DELAY), Ok(Payout { from: FROM, to: TO, amount: 7 }));
    assert!(p.channels.get(&1).is_none());
    assert_eq!(p.events.last(), Some(&Event::ChannelCollected { channel_id: 1 }));
    assert_eq!(p.collect_channel(TO, 1, 10 + SETTLE_DELAY), Err(Error::InvalidChannel));
}
