//! A faucet that hands out a fixed amount to an account at most once per
//! delay.

use vstd::prelude::*;
use std::collections::HashMap;

verus! {

broadcast use vstd::std_specs::hash::group_hash_axioms;

/// An account identifier.
pub type AccountId = u64;
/// A block number.
pub type BlockNumber = u64;
/// An amount of funds.
pub type Balance = u128;

/// Faucet events.
#[derive(PartialEq, Eq, Structural, Clone, Copy, Debug)]
pub enum Event {
    /// `who` was given funds at block `when`.
    Dripped { who: AccountId, when: BlockNumber },
}

/// Who sends a call: the chain itself, an account that signed it, or no one
/// (an unsigned call).
#[derive(PartialEq, Eq, Structural, Clone, Copy, Debug)]
pub enum Origin {
    Root,
    Signed(AccountId),
    Unsigned,
}

/// Faucet errors.
#[derive(PartialEq, Eq, Structural, Clone, Copy, Debug)]
pub enum Error {
    /// The call must be unsigned.
    BadOrigin,
    /// The account was given funds less than a delay ago.
    FaucetUsedRecently,
}

/// Whether `account` received funds less than `delay` blocks before
/// `current_block`, according to `drips`.
pub open spec fn used_recently(drips: Map<AccountId, BlockNumber>, account: AccountId, current_block: BlockNumber, delay: BlockNumber) -> bool {
    drips.contains_key(account) && current_block < drips[account] + delay
}

/// The faucet: when each account last received funds, the amount handed out
/// and the blocks an account must wait between two drips.
pub struct Faucet {
    pub drips: HashMap<AccountId, BlockNumber>,
    pub amount: Balance,
    pub delay: BlockNumber,
    pub events: Vec<Event>,
}

impl Faucet {
    /// A faucet that has given nothing yet.
    pub fn new(amount: Balance, delay: BlockNumber) -> (f: Faucet)
        ensures
            f.drips@ == Map::<AccountId, BlockNumber>::empty(),
            f.amount == amount,
            f.delay == delay,
            f.events@.len() == 0,
    {
        Faucet { drips: HashMap::new(), amount, delay, events: Vec::new() }
    }

    /// When `account` last received funds, if ever.
    pub fn drips(&self, account: AccountId) -> (r: Option<BlockNumber>)
        ensures
            r == (if self.drips@.contains_key(account) {
                Some(self.drips@[account])
            } else {
                None::<BlockNumber>
            }),
    {
        match self.drips.get(&account) {
            Some(b) => Some(*b),
            None => None,
        }
    }

    /// Gives funds to `account` at block `current_block`, asked by an
    /// unsigned call (`origin`); any other origin is refused. Refused too when
    /// the account received funds less than the delay before. On success the
    /// drip is recorded with an event, and the amount to credit to the
    /// account is returned.
    pub fn drip(&mut self, origin: Origin, account: AccountId, current_block: BlockNumber) -> (res: Result<
        Balance,
        Error,
    >)
        ensures
            final(self).amount == old(self).amount,
            final(self).delay == old(self).delay,
            origin != Origin::Unsigned ==> (res == Err::<Balance, Error>(Error::BadOrigin) && final(self).drips@
                == old(self).drips@ && final(self).events@ == old(self).events@),
            origin == Origin::Unsigned && used_recently(old(self).drips@, account, current_block, old(self).delay)
                ==> (res == Err::<Balance, Error>(Error::FaucetUsedRecently) && final(self).drips@ == old(self).drips@
                && final(self).events@ == old(self).events@),
            origin == Origin::Unsigned && !used_recently(old(self).drips@, account, current_block, old(self).delay)
                ==> (res == Ok::<Balance, Error>(old(self).amount) && final(self).drips@ == old(self).drips@.insert(
                account,
                current_block,
            ) && final(self).events@ == old(self).events@.push(Event::Dripped { who: account, when: current_block })),
    {
        if origin != Origin::Unsigned {
            return Err(Error::BadOrigin);
        }
        match self.drips.get(&account) {
            Some(last) => {
                let last = *last;
                if last as u128 + self.delay as u128 > current_block as u128 {
                    return Err(Error::FaucetUsedRecently);
                }
            },
            None => {},
        }
        self.drips.insert(account, current_block);
        self.events.push(Event::Dripped { who: account, when: current_block });
        Ok(self.amount)
    }
}

/// After a drip to `account` at block `first`, a later drip to it at
/// `second` is refused exactly when fewer than `delay` blocks have passed.
pub proof fn law_drip_delay(
    drips: Map<AccountId, BlockNumber>,
    account: AccountId,
    first: BlockNumber,
    second: BlockNumber,
    delay: BlockNumber,
)
    ensures
        used_recently(drips.insert(account, first), account, second, delay) <==> second < first + delay,
{
}

} // verus!
