//! Payment channels: vouchers redeemed lane by lane, settlement and
//! collection.
use vstd::prelude::*;
use std::collections::HashMap;
use crate::cid::bytes_eq;
use crate::hashing::{blake2_256, blake2_256_spec};
use parity_scale_codec::Encode;

verus! {

broadcast use vstd::std_specs::hash::group_hash_axioms;

/// An account of the chain, by index.
pub type AccountId = u64;
/// An amount of the chain's currency.
pub type Balance = u128;
/// A block height.
pub type ChainEpoch = u64;
/// The identifier of a channel.
pub type ChannelId = u64;

/// Number of blocks between the start of a settlement and the earliest
/// collection.
pub const SETTLE_DELAY: ChainEpoch = 43200;

/// The status of a payment channel.
#[derive(PartialEq, Eq, Structural, Clone, Copy, Debug)]
pub enum ChannelStatus {
    /// The channel is open and can be used for transactions.
    Open,
    /// The channel is in the process of settling.
    Settling,
    /// The channel has been closed and funds have been distributed.
    Closed,
}

/// The state of one lane.
#[derive(PartialEq, Eq, Structural, Clone, Copy, Debug)]
pub struct LaneState {
    /// The lane's identifier.
    pub lane: u64,
    /// The amount redeemed in the lane.
    pub redeemed: Balance,
    /// The nonce of the last voucher redeemed in the lane.
    pub nonce: u64,
}

/// A lane to be merged into the lane of a voucher.
#[derive(PartialEq, Eq, Structural, Clone, Copy, Debug)]
pub struct Merge {
    /// The lane to be merged.
    pub lane: u64,
    /// The nonce of the lane to be merged.
    pub nonce: u64,
}

/// Extra verification parameters of a voucher.
pub struct ModVerifyParams {
    pub verifier: AccountId,
    pub method: u64,
    pub data: Vec<u8>,
}

/// A voucher signed by one party of a channel for the other.
pub struct SignedVoucher {
    /// The channel the voucher is valid for.
    pub channel_addr: AccountId,
    /// Epoch before which the voucher cannot be redeemed.
    pub time_lock_min: ChainEpoch,
    /// Epoch after which the voucher cannot be redeemed; 0 for none.
    pub time_lock_max: ChainEpoch,
    /// Hash of the secret that redeems the voucher; empty for none.
    pub secret_pre_image: Vec<u8>,
    pub extra: Option<ModVerifyParams>,
    /// The lane the voucher redeems in.
    pub lane: u64,
    /// Set by the sender to keep stale vouchers from being redeemed.
    pub nonce: u64,
    /// Total amount redeemable on the lane.
    pub amount: Balance,
    /// Settlement height the voucher imposes; 0 for none.
    pub min_settle_height: ChainEpoch,
    /// Lanes merged into the voucher's lane.
    pub merges: Vec<Merge>,
    /// The sender's signature over the voucher.
    pub signature: Option<Vec<u8>>,
}

/// The parameters of a channel update: a voucher and the secret it asks for.
pub struct UpdateChannelStateParams {
    pub sv: SignedVoucher,
    pub secret: Vec<u8>,
}

/// The state of a payment channel.
pub struct ChannelState {
    /// The owner of the channel.
    pub from: AccountId,
    /// The recipient of payouts from the channel.
    pub to: AccountId,
    /// Amount redeemed through the channel, paid out on collection.
    pub to_send: Balance,
    /// Height at which the channel can be collected; 0 while not settling.
    pub settling_at: ChainEpoch,
    /// Height before which the channel cannot be collected.
    pub min_settle_height: ChainEpoch,
    pub lane_states: Vec<LaneState>,
}

/// The mathematical value of a [`ChannelState`].
pub struct ChannelModel {
    pub from: AccountId,
    pub to: AccountId,
    pub to_send: Balance,
    pub settling_at: ChainEpoch,
    pub min_settle_height: ChainEpoch,
    pub lane_states: Seq<LaneState>,
}

impl View for ChannelState {
    type V = ChannelModel;

    open spec fn view(&self) -> ChannelModel {
        ChannelModel {
            from: self.from,
            to: self.to,
            to_send: self.to_send,
            settling_at: self.settling_at,
            min_settle_height: self.min_settle_height,
            lane_states: self.lane_states@,
        }
    }
}

/// Errors of the payment channel operations.
#[derive(PartialEq, Eq, Structural, Clone, Copy, Debug)]
pub enum Error {
    /// Invalid channel identifier.
    InvalidChannel,
    /// Invalid signature.
    InvalidSignature,
    /// Invalid secret.
    InvalidSecret,
    /// Insufficient balance in the channel.
    InsufficientBalance,
    /// The nonce of the voucher is outdated.
    InvalidNonce,
    /// The channel is already in the process of settling.
    ChannelAlreadySettling,
    /// The channel is not yet in the process of settling.
    ChannelNotSettling,
    /// Voucher has expired.
    VoucherExpired,
    /// Cannot use this voucher yet.
    VoucherNotYetValid,
    /// Voucher would leave channel balance negative.
    NegativeBalance,
    /// Failed to store lane state.
    LaneStateStorageFailed,
    /// Failed to save lanes.
    LaneStateSaveFailed,
    /// Maximum lane ID exceeded.
    MaxLaneExceeded,
    /// Unable to merge lane collections.
    InvalidMerge,
}

/// Events of the payment channel operations.
#[derive(PartialEq, Eq, Structural, Clone, Copy, Debug)]
pub enum Event {
    ChannelOpened { channel_id: ChannelId },
    ChannelUpdated { channel_id: ChannelId },
    ChannelSettled { channel_id: ChannelId },
    ChannelCollected { channel_id: ChannelId },
}

/// The SCALE encoding of the voucher fields in their declared order, the
/// signature left out: channel, time locks, secret hash, extra parameters,
/// lane, nonce, amount, minimum settle height and merges.
pub uninterp spec fn scale_voucher_bytes(
    channel_addr: u64,
    time_lock_min: u64,
    time_lock_max: u64,
    secret_pre_image: Seq<u8>,
    extra: Option<(u64, u64, Seq<u8>)>,
    lane: u64,
    nonce: u64,
    amount: u128,
    min_settle_height: u64,
    merges: Seq<(u64, u64)>,
) -> Seq<u8>;

/// Encodes the voucher fields as one tuple with `parity_scale_codec::Encode`.
/// Claimed: the result is the function's value on these fields (merges as
/// pairs of lane and nonce), and no other fields that the codec can encode
/// (no sequence longer than `u32::MAX`) encode to the same bytes, the
/// encoding being one that the codec decodes back. The encoder refuses
/// (panics on) a sequence of more than `u32::MAX` elements, which `requires`
/// rules out.
#[verifier::external_body]
fn scale_encode_voucher(sv: &SignedVoucher) -> (out: Vec<u8>)
    requires
        sv.encodable(),
    ensures
        out@ == scale_voucher_bytes(
            sv.channel_addr,
            sv.time_lock_min,
            sv.time_lock_max,
            sv.secret_pre_image@,
            match &sv.extra {
                Some(e) => Some((e.verifier, e.method, e.data@)),
                None => None,
            },
            sv.lane,
            sv.nonce,
            sv.amount,
            sv.min_settle_height,
            sv.merges@.map_values(|m: Merge| (m.lane, m.nonce)),
        ),
        forall|a: u64, b: u64, c: u64, d: Seq<u8>, e: Option<(u64, u64, Seq<u8>)>, f: u64, g: u64, h: u128, i: u64, j: Seq<(u64, u64)>|
            d.len() <= u32::MAX && (e matches Some(x) ==> x.2.len() <= u32::MAX) && j.len() <= u32::MAX
                && #[trigger] scale_voucher_bytes(a, b, c, d, e, f, g, h, i, j) == out@ ==> (a, b, c, d, e, f, g, h, i, j) == (
                sv.channel_addr,
                sv.time_lock_min,
                sv.time_lock_max,
                sv.secret_pre_image@,
                match &sv.extra {
                    Some(x) => Some((x.verifier, x.method, x.data@)),
                    None => None,
                },
                sv.lane,
                sv.nonce,
                sv.amount,
                sv.min_settle_height,
                sv.merges@.map_values(|m: Merge| (m.lane, m.nonce)),
            ),
{
    let extra = sv.extra.as_ref().map(|e| (e.verifier, e.method, e.data.clone()));
    let merges: Vec<(u64, u64)> = sv.merges.iter().map(|m| (m.lane, m.nonce)).collect();
    (sv.channel_addr, sv.time_lock_min, sv.time_lock_max, &sv.secret_pre_image[..], extra, sv.lane, sv.nonce,
        sv.amount, sv.min_settle_height, merges, ()).encode()
}

impl SignedVoucher {
    /// The secret hash, the extra parameters' data and the merges each hold
    /// at most `u32::MAX` elements, as the encoding's length prefix requires.
    pub open spec fn encodable(&self) -> bool {
        &&& self.secret_pre_image@.len() <= u32::MAX
        &&& self.extra matches Some(e) ==> e.data@.len() <= u32::MAX
        &&& self.merges@.len() <= u32::MAX
    }

    /// The bytes the sender signs: the SCALE encoding of every field but the
    /// signature. Encodable vouchers that differ in another field than the
    /// signature have different signing bytes.
    pub fn signing_bytes(&self) -> (out: Vec<u8>)
        requires
            self.encodable(),
        ensures
            out@ == scale_voucher_bytes(
                self.channel_addr,
                self.time_lock_min,
                self.time_lock_max,
                self.secret_pre_image@,
                match &self.extra {
                    Some(e) => Some((e.verifier, e.method, e.data@)),
                    None => None,
                },
                self.lane,
                self.nonce,
                self.amount,
                self.min_settle_height,
                self.merges@.map_values(|m: Merge| (m.lane, m.nonce)),
            ),
            forall|a: u64, b: u64, c: u64, d: Seq<u8>, e: Option<(u64, u64, Seq<u8>)>, f: u64, g: u64, h: u128, i: u64, j: Seq<(u64, u64)>|
                d.len() <= u32::MAX && (e matches Some(x) ==> x.2.len() <= u32::MAX) && j.len() <= u32::MAX
                && #[trigger] scale_voucher_bytes(a, b, c, d, e, f, g, h, i, j) == out@ ==> (a, b, c, d, e, f, g, h, i, j) == (
                    self.channel_addr,
                    self.time_lock_min,
                    self.time_lock_max,
                    self.secret_pre_image@,
                    match &self.extra {
                        Some(x) => Some((x.verifier, x.method, x.data@)),
                        None => None,
                    },
                    self.lane,
                    self.nonce,
                    self.amount,
                    self.min_settle_height,
                    self.merges@.map_values(|m: Merge| (m.lane, m.nonce)),
                ),
    {
        scale_encode_voucher(self)
    }
}

/// `i` is the first lane with identifier `key`.
pub open spec fn is_first_lane(lanes: Seq<LaneState>, key: u64, i: int) -> bool {
    &&& 0 <= i < lanes.len()
    &&& lanes[i].lane == key
    &&& forall|j: int| 0 <= j < i ==> lanes[j].lane != key
}

/// Position of the first lane with identifier `key`, if any.
pub open spec fn lane_position(lanes: Seq<LaneState>, key: u64) -> Option<int> {
    if exists|i: int| is_first_lane(lanes, key, i) {
        Some(choose|i: int| is_first_lane(lanes, key, i))
    } else {
        None
    }
}

proof fn lemma_first_lane_unique(lanes: Seq<LaneState>, key: u64, i: int)
    requires
        is_first_lane(lanes, key, i),
    ensures
        lane_position(lanes, key) == Some(i),
{
    let k = choose|k: int| is_first_lane(lanes, key, k);
    assert(is_first_lane(lanes, key, k));
    if k < i {
        assert(lanes[k].lane != key);
    } else if i < k {
        assert(lanes[i].lane != key);
    }
}

/// Every merge names a lane other than the voucher's, and that lane exists.
pub open spec fn merges_valid(lanes: Seq<LaneState>, merges: Seq<Merge>, lane: u64) -> bool {
    forall|k: int|
        0 <= k < merges.len() ==> (#[trigger] merges[k]).lane != lane && lane_position(lanes, merges[k].lane) is Some
}

/// The first `n` merges applied in order to `base`: each must find its lane
/// with a nonce not above `nonce`, sets that nonce to `nonce` and adds the
/// lane's redeemed amount to the total returned.
pub open spec fn merge_fold(base: Seq<LaneState>, merges: Seq<Merge>, n: nat, nonce: u64) -> Result<
    (Seq<LaneState>, int),
    Error,
>
    decreases n,
{
    if n == 0 {
        Ok((base, 0))
    } else {
        match merge_fold(base, merges, (n - 1) as nat, nonce) {
            Err(e) => Err(e),
            Ok((l, s)) => {
                let i = lane_position(base, merges[n - 1].lane)->0;
                if l[i].nonce > nonce {
                    Err(Error::InvalidNonce)
                } else {
                    Ok((l.update(i, LaneState { nonce, ..l[i] }), s + l[i].redeemed))
                }
            },
        }
    }
}

/// The voucher fields that a channel update reads.
pub struct VoucherModel {
    pub time_lock_min: ChainEpoch,
    pub time_lock_max: ChainEpoch,
    pub secret_pre_image: Seq<u8>,
    pub lane: u64,
    pub nonce: u64,
    pub amount: Balance,
    pub min_settle_height: ChainEpoch,
    pub merges: Seq<Merge>,
}

impl SignedVoucher {
    /// The fields of the voucher that a channel update reads.
    pub open spec fn model(&self) -> VoucherModel {
        VoucherModel {
            time_lock_min: self.time_lock_min,
            time_lock_max: self.time_lock_max,
            secret_pre_image: self.secret_pre_image@,
            lane: self.lane,
            nonce: self.nonce,
            amount: self.amount,
            min_settle_height: self.min_settle_height,
            merges: self.merges@,
        }
    }
}

/// The lanes once the voucher's lane exists, created empty when missing,
/// and the position of that lane.
pub open spec fn lanes_with_voucher_lane(lanes: Seq<LaneState>, lane: u64) -> (Seq<LaneState>, int) {
    match lane_position(lanes, lane) {
        Some(i) => (lanes, i),
        None => (lanes.push(LaneState { lane, redeemed: 0, nonce: 0 }), lanes.len() as int),
    }
}

/// The channel and lanes after redeeming voucher `sv` with `secret`, by
/// `caller` at epoch `now`, given whether the voucher's signature checks out
/// and the free balance of the channel's owner; or the error that refuses it.
/// A channel with no lane states yet has no lanes.
pub open spec fn spec_update_channel(
    ch: ChannelModel,
    lanes: Option<Seq<LaneState>>,
    caller: AccountId,
    signature_valid: bool,
    now: ChainEpoch,
    sv: VoucherModel,
    secret: Seq<u8>,
    free: Balance,
) -> Result<(ChannelModel, Seq<LaneState>), Error> {
    if caller != ch.from && caller != ch.to {
        Err(Error::InvalidChannel)
    } else if !signature_valid {
        Err(Error::InvalidSignature)
    } else if !(ch.settling_at == 0 || now < ch.settling_at) {
        Err(Error::ChannelAlreadySettling)
    } else if secret.len() <= 256 {
        Err(Error::InvalidSecret)
    } else if now < sv.time_lock_min {
        Err(Error::VoucherNotYetValid)
    } else if !(sv.time_lock_max == 0 || now <= sv.time_lock_max) {
        Err(Error::VoucherExpired)
    } else if sv.secret_pre_image.len() != 0 && blake2_256_spec(secret) != sv.secret_pre_image {
        Err(Error::InvalidSecret)
    } else {
        let ls = match lanes {
            Some(l) => l,
            None => Seq::<LaneState>::empty(),
        };
        {
            {
                let (lanes1, idx) = lanes_with_voucher_lane(ls, sv.lane);
                if !merges_valid(lanes1, sv.merges, sv.lane) {
                    Err(Error::InvalidMerge)
                } else {
                    match merge_fold(lanes1, sv.merges, sv.merges.len(), sv.nonce) {
                        Err(e) => Err(e),
                        Ok((lanes2, others)) => {
                            let new_send = ch.to_send + sv.amount - (others + lanes2[idx].redeemed);
                            if new_send < 0 {
                                Err(Error::NegativeBalance)
                            } else if new_send > free {
                                Err(Error::InsufficientBalance)
                            } else {
                                let lanes3 = lanes2.update(
                                    idx,
                                    LaneState { lane: sv.lane, redeemed: sv.amount, nonce: sv.nonce },
                                );
                                let settling_at = if sv.min_settle_height != 0 && ch.settling_at != 0
                                    && ch.settling_at < sv.min_settle_height {
                                    sv.min_settle_height
                                } else {
                                    ch.settling_at
                                };
                                let msh = if sv.min_settle_height != 0 && ch.min_settle_height
                                    < sv.min_settle_height {
                                    sv.min_settle_height
                                } else {
                                    ch.min_settle_height
                                };
                                Ok((
                                    ChannelModel {
                                        to_send: new_send as u128,
                                        settling_at,
                                        min_settle_height: msh,
                                        ..ch
                                    },
                                    lanes3,
                                ))
                            }
                        },
                    }
                }
            }
        }
    }
}

/// A non-negative amount up to 2^129, or "negative", kept in 128 bits and two
/// flags while amounts are taken from it.
struct Budget {
    high: bool,
    low: u128,
    negative: bool,
}

impl Budget {
    spec fn value(&self) -> int {
        (if self.high { 0x1_0000_0000_0000_0000_0000_0000_0000_0000int } else { 0int }) + self.low
    }

    spec fn holds(&self, v: int) -> bool {
        if self.negative {
            v < 0
        } else {
            self.value() == v
        }
    }

    fn start(a: u128, b: u128) -> (r: Budget)
        ensures
            r.holds(a + b),
    {
        if a <= u128::MAX - b {
            Budget { high: false, low: a + b, negative: false }
        } else {
            Budget { high: true, low: a - (u128::MAX - b) - 1, negative: false }
        }
    }

    fn take(self, r: u128, Ghost(v): Ghost<int>) -> (res: Budget)
        requires
            self.holds(v),
        ensures
            res.holds(v - r),
    {
        if self.negative {
            self
        } else if self.low >= r {
            Budget { high: self.high, low: self.low - r, negative: false }
        } else if self.high {
            Budget { high: false, low: self.low + (u128::MAX - r) + 1, negative: false }
        } else {
            Budget { high: false, low: 0, negative: true }
        }
    }
}

/// Position of the first lane with identifier `key`.
pub fn find_lane(lanes: &Vec<LaneState>, key: u64) -> (r: Option<usize>)
    ensures
        match lane_position(lanes@, key) {
            Some(i) => r matches Some(ri) && ri as int == i,
            None => r is None,
        },
{
    let mut i: usize = 0;
    while i < lanes.len()
        invariant
            i <= lanes.len(),
            forall|j: int| 0 <= j < i ==> lanes@[j].lane != key,
        decreases lanes.len() - i,
    {
        if lanes[i].lane == key {
            proof {
                lemma_first_lane_unique(lanes@, key, i as int);
            }
            return Some(i);
        }
        i += 1;
    }
    proof {
        assert(!exists|k: int| is_first_lane(lanes@, key, k));
    }
    None
}

fn copy_lanes(lanes: &Vec<LaneState>) -> (out: Vec<LaneState>)
    ensures
        out@ == lanes@,
{
    let mut out: Vec<LaneState> = Vec::new();
    let mut i: usize = 0;
    while i < lanes.len()
        invariant
            i <= lanes.len(),
            out@ == lanes@.take(i as int),
        decreases lanes.len() - i,
    {
        out.push(lanes[i]);
        proof {
            assert(lanes@.take(i + 1) == lanes@.take(i as int).push(lanes@[i as int]));
        }
        i += 1;
    }
    proof {
        assert(lanes@.take(lanes.len() as int) == lanes@);
    }
    out
}

impl ChannelState {
    /// A copy of the channel.
    pub fn copy(&self) -> (c: ChannelState)
        ensures
            c@ == self@,
    {
        ChannelState {
            from: self.from,
            to: self.to,
            to_send: self.to_send,
            settling_at: self.settling_at,
            min_settle_height: self.min_settle_height,
            lane_states: copy_lanes(&self.lane_states),
        }
    }
}

/// The account whose signature a voucher presented by `caller` must carry:
/// the other party of the channel.
pub fn voucher_signer(channel: &ChannelState, caller: AccountId) -> (signer: AccountId)
    ensures
        signer == if caller == channel.from { channel.to } else { channel.from },
{
    if caller == channel.from {
        channel.to
    } else {
        channel.from
    }
}

#[verifier::loop_isolation(false)]
/// Redeems voucher `params.sv` on a channel and its lanes, presented by
/// `caller` at epoch `current_epoch`. `signature_valid` is whether the
/// voucher's signature checks out against [`voucher_signer`], and
/// `free_balance` is the free balance of the channel's owner. Returns the new
/// channel and lanes; the inputs are left untouched.
pub fn redeem_voucher(
    channel: &ChannelState,
    lanes: Option<&Vec<LaneState>>,
    caller: AccountId,
    signature_valid: bool,
    current_epoch: ChainEpoch,
    params: &UpdateChannelStateParams,
    free_balance: Balance,
) -> (res: Result<(ChannelState, Vec<LaneState>), Error>)
    ensures
        match spec_update_channel(
            channel@,
            match lanes { Some(l) => Some(l@), None => None },
            caller,
            signature_valid,
            current_epoch,
            params.sv.model(),
            params.secret@,
            free_balance,
        ) {
            Ok((c, l)) => res matches Ok((rc, rl)) && rc@ == c && rl@ == l,
            Err(e) => res matches Err(re) && re == e,
        },
{
    let sv = &params.sv;
    if caller != channel.from && caller != channel.to {
        return Err(Error::InvalidChannel);
    }
    if !signature_valid {
        return Err(Error::InvalidSignature);
    }
    if !(channel.settling_at == 0 || current_epoch < channel.settling_at) {
        return Err(Error::ChannelAlreadySettling);
    }
    if params.secret.len() <= 256 {
        return Err(Error::InvalidSecret);
    }
    if current_epoch < sv.time_lock_min {
        return Err(Error::VoucherNotYetValid);
    }
    if !(sv.time_lock_max == 0 || current_epoch <= sv.time_lock_max) {
        return Err(Error::VoucherExpired);
    }
    if sv.secret_pre_image.len() != 0 {
        let hashed_secret = blake2_256(params.secret.as_slice());
        if !bytes_eq(hashed_secret.as_slice(), sv.secret_pre_image.as_slice()) {
            return Err(Error::InvalidSecret);
        }
    }
    let mut lanes1 = match lanes {
        None => Vec::new(),
        Some(l) => copy_lanes(l),
    };
    let ghost lanes_in = lanes1@;
    assert(lanes_in =~= match lanes { Some(l) => l@, None => Seq::<LaneState>::empty() });
    let idx = match find_lane(&lanes1, sv.lane) {
        Some(i) => i,
        None => {
            lanes1.push(LaneState { lane: sv.lane, redeemed: 0, nonce: 0 });
            lanes1.len() - 1
        },
    };
    let ghost base = lanes1@;
    assert(lanes_with_voucher_lane(lanes_in, sv.lane).0 =~= base);
    assert(lanes_with_voucher_lane(lanes_in, sv.lane).1 == idx as int);

    // Positions of the merged lanes, all checked before any is touched.
    let mut positions: Vec<usize> = Vec::new();
    let mut k: usize = 0;
    while k < sv.merges.len()
        invariant
            k <= sv.merges.len(),
            lanes1@ == base,
            positions@.len() == k,
            forall|j: int| 0 <= j < k ==> (#[trigger] sv.merges@[j]).lane != sv.lane
                && lane_position(base, sv.merges@[j].lane) == Some(positions@[j] as int),
        decreases sv.merges.len() - k,
    {
        let m = sv.merges[k];
        if m.lane == sv.lane {
            proof {
                assert(!(sv.merges@[k as int].lane != sv.lane));
            }
            return Err(Error::InvalidMerge);
        }
        match find_lane(&lanes1, m.lane) {
            Some(p) => {
                positions.push(p);
                proof {
                    assert(sv.merges@[k as int] == m);
                    assert(positions@[k as int] == p);
                }
            },
            None => {
                proof {
                    assert(lane_position(base, sv.merges@[k as int].lane) is None);
                }
                return Err(Error::InvalidMerge);
            },
        }
        k += 1;
    }
    assert(merges_valid(base, sv.merges@, sv.lane));

    let mut lanes2 = lanes1;
    let mut budget = Budget::start(channel.to_send, sv.amount);
    let ghost mut others: int = 0;
    let mut k: usize = 0;
    while k < positions.len()
        invariant
            k <= positions.len(),
            positions@.len() == sv.merges@.len(),
            forall|j: int| 0 <= j < positions@.len() ==> lane_position(base, (#[trigger] sv.merges@[j]).lane)
                == Some(positions@[j] as int),
            merge_fold(base, sv.merges@, k as nat, sv.nonce) == Ok::<(Seq<LaneState>, int), Error>((lanes2@, others)),
            lanes2@.len() == base.len(),
            others >= 0,
            budget.holds(channel.to_send + sv.amount - others),
        decreases positions.len() - k,
    {
        let p = positions[k];
        proof {
            lemma_position_in_range(base, sv.merges@[k as int].lane);
        }
        let ls = lanes2[p];
        if ls.nonce > sv.nonce {
            proof {
                assert(merge_fold(base, sv.merges@, (k + 1) as nat, sv.nonce) == Err::<(Seq<LaneState>, int), Error>(Error::InvalidNonce));
                lemma_merge_fold_err(base, sv.merges@, (k + 1) as nat, sv.merges@.len(), sv.nonce);
            }
            return Err(Error::InvalidNonce);
        }
        budget = budget.take(ls.redeemed, Ghost(channel.to_send + sv.amount - others));
        lanes2.set(p, LaneState { lane: ls.lane, redeemed: ls.redeemed, nonce: sv.nonce });
        proof {
            others = others + ls.redeemed;
        }
        k += 1;
    }
    proof {
        lemma_idx_in_range(lanes_in, sv.lane);
    }
    let own = lanes2[idx];
    budget = budget.take(own.redeemed, Ghost(channel.to_send + sv.amount - others));
    if budget.negative {
        return Err(Error::NegativeBalance);
    }
    if budget.high || budget.low > free_balance {
        return Err(Error::InsufficientBalance);
    }
    let new_send = budget.low;
    lanes2.set(idx, LaneState { lane: sv.lane, redeemed: sv.amount, nonce: sv.nonce });
    let mut settling_at = channel.settling_at;
    let mut min_settle_height = channel.min_settle_height;
    if sv.min_settle_height != 0 {
        if channel.settling_at != 0 && channel.settling_at < sv.min_settle_height {
            settling_at = sv.min_settle_height;
        }
        if channel.min_settle_height < sv.min_settle_height {
            min_settle_height = sv.min_settle_height;
        }
    }
    let new_channel = ChannelState {
        from: channel.from,
        to: channel.to,
        to_send: new_send,
        settling_at,
        min_settle_height,
        lane_states: copy_lanes(&channel.lane_states),
    };
    Ok((new_channel, lanes2))
}

proof fn lemma_some_first_lane(lanes: Seq<LaneState>, key: u64, j: int)
    requires
        0 <= j < lanes.len(),
        lanes[j].lane == key,
    ensures
        exists|i: int| is_first_lane(lanes, key, i),
    decreases j,
{
    if exists|k: int| 0 <= k < j && lanes[k].lane == key {
        let k = choose|k: int| 0 <= k < j && lanes[k].lane == key;
        lemma_some_first_lane(lanes, key, k);
    } else {
        assert(is_first_lane(lanes, key, j));
    }
}

proof fn lemma_merge_fold_err(base: Seq<LaneState>, merges: Seq<Merge>, k: nat, n: nat, nonce: u64)
    requires
        k <= n,
        merge_fold(base, merges, k, nonce) is Err,
    ensures
        merge_fold(base, merges, n, nonce) == merge_fold(base, merges, k, nonce),
    decreases n - k,
{
    if k < n {
        lemma_merge_fold_err(base, merges, k, (n - 1) as nat, nonce);
    }
}

proof fn lemma_position_in_range(lanes: Seq<LaneState>, key: u64)
    ensures
        lane_position(lanes, key) matches Some(i) ==> 0 <= i < lanes.len(),
{
    if exists|i: int| is_first_lane(lanes, key, i) {
        let i = choose|i: int| is_first_lane(lanes, key, i);
        assert(is_first_lane(lanes, key, i));
    }
}

proof fn lemma_idx_in_range(lanes: Seq<LaneState>, lane: u64)
    ensures
        ({
            let (l1, i) = lanes_with_voucher_lane(lanes, lane);
            0 <= i < l1.len()
        }),
{
    lemma_position_in_range(lanes, lane);
}

/// The transfer that collecting a channel performs: `amount` from the
/// owner's reserve to the recipient, after which the owner's remaining
/// reserve is released.
#[derive(PartialEq, Eq, Structural, Clone, Copy, Debug)]
pub struct Payout {
    pub from: AccountId,
    pub to: AccountId,
    pub amount: Balance,
}

/// The storage of the payment channel pallet: the channels, the lane states
/// of each channel, and the events emitted so far.
pub struct PaymentChannels {
    pub channels: HashMap<ChannelId, ChannelState>,
    pub lane_states: HashMap<ChannelId, Vec<LaneState>>,
    pub events: Vec<Event>,
}

impl PaymentChannels {
    /// Empty storage.
    pub fn new() -> (p: PaymentChannels)
        ensures
            p.channels@ == Map::<ChannelId, ChannelState>::empty(),
            p.lane_states@ == Map::<ChannelId, Vec<LaneState>>::empty(),
            p.events@ == Seq::<Event>::empty(),
    {
        PaymentChannels { channels: HashMap::new(), lane_states: HashMap::new(), events: Vec::new() }
    }

    /// Opens channel `channel_id` from `from` to `to`, once the initial
    /// deposit has been reserved from `from`: nothing to send, not settling,
    /// no lanes. An existing channel with that identifier is replaced.
    pub fn open_channel(&mut self, from: AccountId, to: AccountId, channel_id: ChannelId)
        ensures
            final(self).channels@ == old(self).channels@.insert(
                channel_id,
                final(self).channels@[channel_id],
            ),
            final(self).channels@[channel_id]@ == (ChannelModel {
                from,
                to,
                to_send: 0,
                settling_at: 0,
                min_settle_height: 0,
                lane_states: Seq::empty(),
            }),
            final(self).lane_states@ == old(self).lane_states@,
            final(self).events@ == old(self).events@.push(Event::ChannelOpened { channel_id }),
    {
        let state = ChannelState {
            from,
            to,
            to_send: 0,
            settling_at: 0,
            min_settle_height: 0,
            lane_states: Vec::new(),
        };
        self.channels.insert(channel_id, state);
        self.events.push(Event::ChannelOpened { channel_id });
    }

    /// Redeems voucher `params.sv` on channel `channel_id`, presented by
    /// `caller` at epoch `current_epoch`. `signature_valid` is whether the
    /// voucher's signature checks out against [`voucher_signer`], and
    /// `free_balance` is the free balance of the channel's owner. A channel
    /// with no lane states yet starts with none; the voucher's lane is
    /// created when missing. On error nothing changes.
    pub fn update_channel_state(
        &mut self,
        caller: AccountId,
        channel_id: ChannelId,
        params: &UpdateChannelStateParams,
        signature_valid: bool,
        current_epoch: ChainEpoch,
        free_balance: Balance,
    ) -> (res: Result<(), Error>)
        ensures
            !old(self).channels@.contains_key(channel_id) ==> res == Err::<(), Error>(Error::InvalidChannel)
                && *final(self) == *old(self),
            old(self).channels@.contains_key(channel_id) ==> match spec_update_channel(
                old(self).channels@[channel_id]@,
                if old(self).lane_states@.contains_key(channel_id) {
                    Some(old(self).lane_states@[channel_id]@)
                } else {
                    None
                },
                caller,
                signature_valid,
                current_epoch,
                params.sv.model(),
                params.secret@,
                free_balance,
            ) {
                Err(e) => res == Err::<(), Error>(e) && *final(self) == *old(self),
                Ok((c, l)) => {
                    &&& res is Ok
                    &&& final(self).channels@.dom() == old(self).channels@.dom()
                    &&& final(self).channels@[channel_id]@ == c
                    &&& forall|id: ChannelId| id != channel_id && old(self).channels@.contains_key(id)
                        ==> final(self).channels@[id] == old(self).channels@[id]
                    &&& final(self).lane_states@.dom() == old(self).lane_states@.dom().insert(channel_id)
                    &&& final(self).lane_states@[channel_id]@ == l
                    &&& forall|id: ChannelId| id != channel_id && old(self).lane_states@.contains_key(id)
                        ==> final(self).lane_states@[id] == old(self).lane_states@[id]
                    &&& final(self).events@ == old(self).events@.push(Event::ChannelUpdated { channel_id })
                },
            },
    {
        let result = match self.channels.get(&channel_id) {
            None => return Err(Error::InvalidChannel),
            Some(channel) => redeem_voucher(
                channel,
                self.lane_states.get(&channel_id),
                caller,
                signature_valid,
                current_epoch,
                params,
                free_balance,
            ),
        };
        match result {
            Err(e) => Err(e),
            Ok((channel, lanes)) => {
                self.channels.insert(channel_id, channel);
                self.lane_states.insert(channel_id, lanes);
                self.events.push(Event::ChannelUpdated { channel_id });
                proof {
                    assert(self.channels@.dom() =~= old(self).channels@.dom());
                    assert(self.lane_states@.dom() =~= old(self).lane_states@.dom().insert(channel_id));
                }
                Ok(())
            },
        }
    }

    /// Starts the settlement of channel `channel_id`, asked by `caller` at
    /// epoch `current_epoch`: the channel becomes collectable `SETTLE_DELAY`
    /// blocks later, or at its minimum settle height if that is later.
    pub fn settle_channel(&mut self, caller: AccountId, channel_id: ChannelId, current_epoch: ChainEpoch) -> (res:
        Result<(), Error>)
        requires
            current_epoch + SETTLE_DELAY <= u64::MAX,
        ensures
            ({
                let ch = old(self).channels@[channel_id]@;
                if !old(self).channels@.contains_key(channel_id) || (caller != ch.from && caller != ch.to) {
                    res == Err::<(), Error>(Error::InvalidChannel) && *final(self) == *old(self)
                } else if ch.settling_at != 0 {
                    res == Err::<(), Error>(Error::ChannelAlreadySettling) && *final(self) == *old(self)
                } else {
                    let at = if current_epoch + SETTLE_DELAY < ch.min_settle_height {
                        ch.min_settle_height
                    } else {
                        (current_epoch + SETTLE_DELAY) as u64
                    };
                    &&& res is Ok
                    &&& final(self).channels@.dom() == old(self).channels@.dom()
                    &&& final(self).channels@[channel_id]@ == (ChannelModel { settling_at: at, ..ch })
                    &&& forall|id: ChannelId| id != channel_id && old(self).channels@.contains_key(id)
                        ==> final(self).channels@[id] == old(self).channels@[id]
                    &&& final(self).lane_states == old(self).lane_states
                    &&& final(self).events@ == old(self).events@.push(Event::ChannelSettled { channel_id })
                }
            }),
    {
        let mut channel = match self.channels.get(&channel_id) {
            None => return Err(Error::InvalidChannel),
            Some(c) => c.copy(),
        };
        if caller != channel.from && caller != channel.to {
            return Err(Error::InvalidChannel);
        }
        if channel.settling_at != 0 {
            return Err(Error::ChannelAlreadySettling);
        }
        channel.settling_at = current_epoch + SETTLE_DELAY;
        if channel.settling_at < channel.min_settle_height {
            channel.settling_at = channel.min_settle_height;
        }
        self.channels.insert(channel_id, channel);
        self.events.push(Event::ChannelSettled { channel_id });
        proof {
            assert(self.channels@.dom() =~= old(self).channels@.dom());
        }
        Ok(())
    }

    /// Collects channel `channel_id`, asked by `caller` at epoch
    /// `current_epoch`: the channel must be settling and its settle height
    /// reached. The channel is removed, with an event, and the transfer that
    /// collecting performs is returned for the caller to make. On error
    /// nothing changes.
    pub fn collect_channel(&mut self, caller: AccountId, channel_id: ChannelId, current_epoch: ChainEpoch) -> (res:
        Result<Payout, Error>)
        ensures
            ({
                let ch = old(self).channels@[channel_id]@;
                if !old(self).channels@.contains_key(channel_id) || (caller != ch.from && caller != ch.to) {
                    res == Err::<Payout, Error>(Error::InvalidChannel) && *final(self) == *old(self)
                } else if ch.settling_at == 0 || current_epoch < ch.settling_at {
                    res == Err::<Payout, Error>(Error::ChannelNotSettling) && *final(self) == *old(self)
                } else {
                    &&& res == Ok::<Payout, Error>(Payout { from: ch.from, to: ch.to, amount: ch.to_send })
                    &&& final(self).channels@ == old(self).channels@.remove(channel_id)
                    &&& final(self).lane_states == old(self).lane_states
                    &&& final(self).events@ == old(self).events@.push(Event::ChannelCollected { channel_id })
                }
            }),
    {
        let payout = match self.channels.get(&channel_id) {
            None => return Err(Error::InvalidChannel),
            Some(channel) => {
                if caller != channel.from && caller != channel.to {
                    return Err(Error::InvalidChannel);
                }
                if !(channel.settling_at != 0 && current_epoch >= channel.settling_at) {
                    return Err(Error::ChannelNotSettling);
                }
                Payout { from: channel.from, to: channel.to, amount: channel.to_send }
            },
        };
        self.channels.remove(&channel_id);
        self.events.push(Event::ChannelCollected { channel_id });
        Ok(payout)
    }
}

/// Redeeming the same voucher twice counts its amount once: the second
/// redemption succeeds and leaves the channel's amount to send and its lanes
/// as the first left them. This holds for vouchers that merge no other
/// lanes: a merge adds the merged lanes' redeemed amounts again.
pub proof fn law_redeem_twice_counts_once(
    ch: ChannelModel,
    lanes: Option<Seq<LaneState>>,
    caller: AccountId,
    now: ChainEpoch,
    sv: VoucherModel,
    secret: Seq<u8>,
    free: Balance,
)
    requires
        sv.merges.len() == 0,
        spec_update_channel(ch, lanes, caller, true, now, sv, secret, free) is Ok,
    ensures
        ({
            let (c1, l1) = spec_update_channel(ch, lanes, caller, true, now, sv, secret, free)->Ok_0;
            spec_update_channel(c1, Some(l1), caller, true, now, sv, secret, free) matches Ok((c2, l2))
                && c2.to_send == c1.to_send && l2 == l1
        }),
{
    let ls = match lanes {
        Some(l) => l,
        None => Seq::<LaneState>::empty(),
    };
    let (lanes1, idx) = lanes_with_voucher_lane(ls, sv.lane);
    lemma_idx_in_range(ls, sv.lane);
    assert(merge_fold(lanes1, sv.merges, 0, sv.nonce) == Ok::<(Seq<LaneState>, int), Error>((lanes1, 0)));
    let (c1, l1) = spec_update_channel(ch, lanes, caller, true, now, sv, secret, free)->Ok_0;
    assert(l1 == lanes1.update(idx, LaneState { lane: sv.lane, redeemed: sv.amount, nonce: sv.nonce }));
    assert(is_first_lane(l1, sv.lane, idx)) by {
        if lane_position(ls, sv.lane) is Some {
            let i = lane_position(ls, sv.lane)->0;
            assert(is_first_lane(ls, sv.lane, i));
        } else {
            assert forall|j: int| 0 <= j < idx implies l1[j].lane != sv.lane by {
                if ls[j].lane == sv.lane {
                    lemma_some_first_lane(ls, sv.lane, j);
                }
            }
        }
    }
    lemma_first_lane_unique(l1, sv.lane, idx);
    assert(lanes_with_voucher_lane(l1, sv.lane) == (l1, idx));
    assert(merge_fold(l1, sv.merges, 0, sv.nonce) == Ok::<(Seq<LaneState>, int), Error>((l1, 0)));
    assert(l1.update(idx, LaneState { lane: sv.lane, redeemed: sv.amount, nonce: sv.nonce }) =~= l1);
}

/// A channel that has reached its settle height takes no more vouchers: no
/// redemption at or after a set `settling_at` succeeds, and one presented by
/// a party of the channel with a valid signature is refused with
/// `ChannelAlreadySettling`.
pub proof fn law_no_redemption_after_settle_height(
    ch: ChannelModel,
    lanes: Option<Seq<LaneState>>,
    caller: AccountId,
    signature_valid: bool,
    now: ChainEpoch,
    sv: VoucherModel,
    secret: Seq<u8>,
    free: Balance,
)
    requires
        ch.settling_at != 0,
        now >= ch.settling_at,
    ensures
        spec_update_channel(ch, lanes, caller, signature_valid, now, sv, secret, free) is Err,
        (caller == ch.from || caller == ch.to) && signature_valid ==> spec_update_channel(
            ch,
            lanes,
            caller,
            signature_valid,
            now,
            sv,
            secret,
            free,
        ) == Err::<(ChannelModel, Seq<LaneState>), Error>(Error::ChannelAlreadySettling),
{
}

/// A redeemed voucher with a minimum settle height delays the settlement:
/// afterwards the channel's minimum settle height is at least the voucher's,
/// and a channel already settling cannot be collected before it either.
/// Redemption never brings either height forward, never starts a settlement,
/// and keeps the channel's parties.
pub proof fn law_voucher_delays_settlement(
    ch: ChannelModel,
    lanes: Option<Seq<LaneState>>,
    caller: AccountId,
    signature_valid: bool,
    now: ChainEpoch,
    sv: VoucherModel,
    secret: Seq<u8>,
    free: Balance,
)
    ensures
        spec_update_channel(ch, lanes, caller, signature_valid, now, sv, secret, free) matches Ok((c, l)) ==> {
            &&& c.from == ch.from && c.to == ch.to
            &&& c.min_settle_height >= ch.min_settle_height
            &&& c.settling_at >= ch.settling_at
            &&& (ch.settling_at == 0 ==> c.settling_at == 0)
            &&& (sv.min_settle_height != 0 ==> c.min_settle_height >= sv.min_settle_height)
            &&& (sv.min_settle_height != 0 && ch.settling_at != 0 ==> c.settling_at >= sv.min_settle_height)
            &&& (c.min_settle_height == ch.min_settle_height || c.min_settle_height == sv.min_settle_height)
        },
{
}

} // verus!
