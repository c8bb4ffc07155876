use vstd::prelude::*;

use crate::order::Address;
use crate::price::{MAX_TICK, MIN_TICK};

verus! {

/// The queue of orders resting at one tick on one side of a pair.
#[derive(Copy, Clone, Debug, Default, PartialEq, Eq, Structural)]
pub struct TickLevel {
    /// First order of the queue, 0 if the queue is empty.
    pub head: u128,
    /// Last order of the queue, 0 if the queue is empty.
    pub tail: u128,
    /// Sum of what remains of the queue's orders.
    pub total_liquidity: i128,
}

/// The level of a tick that holds no order.
pub open spec fn empty_level() -> TickLevel {
    TickLevel { head: 0, tail: 0, total_liquidity: 0 }
}

impl TickLevel {
    /// The queue holds no order.
    pub fn is_empty(&self) -> (r: bool)
        ensures
            r == (self.head == 0),
    {
        self.head == 0
    }
}

/// A trading pair with its best-tick cursors.
#[derive(Copy, Clone, Debug, PartialEq, Eq, Structural)]
pub struct Orderbook {
    pub base_token: Address,
    pub quote_token: Address,
    /// Highest tick with resting bids, or `MIN_TICK - 1` if there are none.
    pub best_bid_tick: i32,
    /// Lowest tick with resting asks, or `MAX_TICK + 1` if there are none.
    pub best_ask_tick: i32,
}

/// The book of a new pair, with no bids and no asks.
pub open spec fn new_book(base_token: Address, quote_token: Address) -> Orderbook {
    Orderbook {
        base_token,
        quote_token,
        best_bid_tick: (MIN_TICK - 1) as i32,
        best_ask_tick: (MAX_TICK + 1) as i32,
    }
}

impl Orderbook {
    /// The book of a new pair, with no bids and no asks.
    pub fn new(base_token: Address, quote_token: Address) -> (r: Orderbook)
        ensures
            r == new_book(base_token, quote_token),
    {
        Orderbook { base_token, quote_token, best_bid_tick: MIN_TICK - 1, best_ask_tick: MAX_TICK + 1 }
    }

    /// The bid cursor points into the tick range.
    pub fn has_bids(&self) -> (r: bool)
        ensures
            r == (self.best_bid_tick >= MIN_TICK),
    {
        self.best_bid_tick >= MIN_TICK
    }

    /// The ask cursor points into the tick range.
    pub fn has_asks(&self) -> (r: bool)
        ensures
            r == (self.best_ask_tick <= MAX_TICK),
    {
        self.best_ask_tick <= MAX_TICK
    }
}

} // verus!
