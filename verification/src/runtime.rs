//! A small runtime around the market: it advances blocks, runs the market's
//! end-of-block checks and hands out the events emitted so far.

use vstd::prelude::*;
use crate::market::{BlockNumber, Event, ExpiryModel, Market, expire_fold, proposals_model};

verus! {

/// The runtime: the market and the current block.
pub struct Test {
    pub market: Market,
}

impl Test {
    /// A runtime at block 1 with an empty market.
    pub fn new() -> (t: Test)
        ensures
            t.market.block_number == 1,
            t.market.balance_table@ == Map::<u64, crate::market::BalanceEntry>::empty(),
            t.market.events@.len() == 0,
    {
        Test { market: Market::new(1) }
    }
}

/// Takes the events emitted so far, leaving none behind.
pub fn events(t: &mut Test) -> (evs: Vec<Event>)
    ensures
        evs@ == old(t).market.events@,
        final(t).market.events@.len() == 0,
        final(t).market.balance_table == old(t).market.balance_table,
        final(t).market.proposals == old(t).market.proposals,
        final(t).market.pending_proposals == old(t).market.pending_proposals,
        final(t).market.deals_for_block == old(t).market.deals_for_block,
        final(t).market.block_number == old(t).market.block_number,
{
    let mut evs: Vec<Event> = Vec::new();
    std::mem::swap(&mut evs, &mut t.market.events);
    evs
}

/// The state of the market after finalizing the blocks `from` up to, not
/// including, `to`: each block's end-of-block checks run in turn.
pub open spec fn finalize_blocks(st: ExpiryModel, due: Map<BlockNumber, Vec<u64>>, from: nat, to: nat) -> ExpiryModel
    decreases to - from,
{
    if from >= to {
        st
    } else {
        let ids = if due.contains_key(from as u64) {
            due[from as u64]@
        } else {
            Seq::<u64>::empty()
        };
        finalize_blocks(expire_fold(st, ids, ids.len()), due.remove(from as u64), from + 1, to)
    }
}

/// Advances the runtime to block `n`: every block after the first that is
/// left behind is finalized first, which runs the market's end-of-block
/// checks.
pub fn run_to_block(t: &mut Test, n: BlockNumber)
    ensures
        final(t).market.block_number == if old(t).market.block_number < n {
            n
        } else {
            old(t).market.block_number
        },
        ({
            let b0 = old(t).market.block_number;
            let first: nat = if b0 > 1 {
                b0 as nat
            } else {
                2
            };
            let last: nat = if b0 < n {
                n as nat
            } else {
                b0 as nat
            };
            let st = ExpiryModel {
                balances: old(t).market.balance_table@,
                props: proposals_model(old(t).market.proposals@),
                pending: old(t).market.pending_model(),
                events: old(t).market.events@,
            };
            let s = finalize_blocks(st, old(t).market.deals_for_block@, first, last);
            &&& final(t).market.balance_table@ == s.balances
            &&& proposals_model(final(t).market.proposals@) == s.props
            &&& final(t).market.pending_model() == s.pending
            &&& final(t).market.events@ == s.events
        }),
{
    let ghost b0 = t.market.block_number;
    let ghost first: nat = if b0 > 1 { b0 as nat } else { 2 };
    let ghost st = ExpiryModel {
        balances: t.market.balance_table@,
        props: proposals_model(t.market.proposals@),
        pending: t.market.pending_model(),
        events: t.market.events@,
    };
    let ghost due0 = t.market.deals_for_block@;
    while t.market.block_number < n
        invariant
            b0 <= t.market.block_number,
            t.market.block_number == b0 || t.market.block_number <= n,
            first == (if b0 > 1 {
                b0 as nat
            } else {
                2
            }),
            ({
                let cur = t.market.block_number as nat;
                let upto: nat = if cur > first {
                    cur
                } else {
                    first
                };
                let s = finalize_blocks(st, due0, first, upto);
                let due = finalize_due(due0, first, upto);
                &&& t.market.balance_table@ == s.balances
                &&& proposals_model(t.market.proposals@) == s.props
                &&& t.market.pending_model() == s.pending
                &&& t.market.events@ == s.events
                &&& t.market.deals_for_block@ == due
            }),
        decreases n - t.market.block_number,
    {
        let b = t.market.block_number;
        if b > 1 {
            proof {
                lemma_finalize_step(st, due0, first, b as nat);
            }
            t.market.on_finalize(b);
        }
        t.market.block_number = b + 1;
    }
    proof {
        let cur = t.market.block_number as nat;
        if cur >= 2 {
            assert(first <= cur);
        }
    }
}

/// The due-deal table after the blocks `from` up to, not including, `to`
/// were finalized.
pub open spec fn finalize_due(due: Map<BlockNumber, Vec<u64>>, from: nat, to: nat) -> Map<BlockNumber, Vec<u64>>
    decreases to - from,
{
    if from >= to {
        due
    } else {
        finalize_due(due.remove(from as u64), from + 1, to)
    }
}

proof fn lemma_finalize_step(st: ExpiryModel, due: Map<BlockNumber, Vec<u64>>, from: nat, b: nat)
    requires
        from <= b,
    ensures
        ({
            let d = finalize_due(due, from, b);
            let ids = if d.contains_key(b as u64) {
                d[b as u64]@
            } else {
                Seq::<u64>::empty()
            };
            let s = finalize_blocks(st, due, from, b);
            &&& finalize_blocks(st, due, from, b + 1) == expire_fold(s, ids, ids.len())
            &&& finalize_due(due, from, b + 1) == d.remove(b as u64)
        }),
    decreases b - from,
{
    if from < b {
        let ids0 = if due.contains_key(from as u64) {
            due[from as u64]@
        } else {
            Seq::<u64>::empty()
        };
        lemma_finalize_step(expire_fold(st, ids0, ids0.len()), due.remove(from as u64), from + 1, b);
    } else {
        reveal_with_fuel(finalize_blocks, 2);
        reveal_with_fuel(finalize_due, 2);
    }
}

} // verus!
