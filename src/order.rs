use vstd::prelude::*;

use crate::error::Error;

verus! {

/// An opaque account or token identifier. The exchange only ever compares
/// two of them.
#[derive(Copy, Clone, Debug, PartialEq, Eq, Hash, Structural)]
pub struct Address {
    pub id: u64,
}

/// A limit order, resting in a tick's queue or waiting to be activated.
#[derive(Copy, Clone, Debug, PartialEq, Eq, Structural)]
pub struct Order {
    /// Identifier, unique within the order's namespace (pending or active).
    pub order_id: u128,
    /// The account that placed the order.
    pub maker: Address,
    pub base_token: Address,
    pub quote_token: Address,
    /// A bid buys base with quote, an ask sells base for quote.
    pub is_bid: bool,
    pub tick: i32,
    /// Original size, in base units.
    pub amount: i128,
    /// Size not yet filled, in base units.
    pub remaining: i128,
    /// Neighbour toward the head of the tick's queue, 0 if none.
    pub prev: u128,
    /// Neighbour toward the tail of the tick's queue, 0 if none.
    pub next: u128,
    /// A flip order re-posts on the other side once fully filled.
    pub is_flip: bool,
    /// Tick of the order a flip order re-posts as.
    pub flip_tick: i32,
}

/// A fresh, unlinked order with nothing filled yet.
pub open spec fn fresh_order(
    order_id: u128,
    maker: Address,
    base_token: Address,
    quote_token: Address,
    is_bid: bool,
    tick: i32,
    amount: i128,
    is_flip: bool,
    flip_tick: i32,
) -> Order {
    Order {
        order_id,
        maker,
        base_token,
        quote_token,
        is_bid,
        tick,
        amount,
        remaining: amount,
        prev: 0,
        next: 0,
        is_flip,
        flip_tick,
    }
}

/// The flip tick of a flip order lies on the far side of its tick:
/// above it for a bid, below it for an ask.
pub open spec fn flip_tick_ok(is_bid: bool, tick: int, flip_tick: int) -> bool {
    if is_bid {
        flip_tick > tick
    } else {
        flip_tick < tick
    }
}

/// The order a fully filled flip order re-posts as: other side, at its flip
/// tick, for its original amount, and not itself a flip order.
pub open spec fn flipped(o: Order, new_order_id: u128) -> Order {
    fresh_order(
        new_order_id,
        o.maker,
        o.base_token,
        o.quote_token,
        !o.is_bid,
        o.flip_tick,
        o.amount,
        false,
        0,
    )
}

impl Order {
    /// A new bid for `amount` base units at `tick`.
    pub fn new_bid(
        order_id: u128,
        maker: Address,
        base_token: Address,
        quote_token: Address,
        tick: i32,
        amount: i128,
    ) -> (r: Order)
        ensures
            r == fresh_order(order_id, maker, base_token, quote_token, true, tick, amount, false, 0),
    {
        Order {
            order_id,
            maker,
            base_token,
            quote_token,
            is_bid: true,
            tick,
            amount,
            remaining: amount,
            prev: 0,
            next: 0,
            is_flip: false,
            flip_tick: 0,
        }
    }

    /// A new ask for `amount` base units at `tick`.
    pub fn new_ask(
        order_id: u128,
        maker: Address,
        base_token: Address,
        quote_token: Address,
        tick: i32,
        amount: i128,
    ) -> (r: Order)
        ensures
            r == fresh_order(order_id, maker, base_token, quote_token, false, tick, amount, false, 0),
    {
        Order {
            order_id,
            maker,
            base_token,
            quote_token,
            is_bid: false,
            tick,
            amount,
            remaining: amount,
            prev: 0,
            next: 0,
            is_flip: false,
            flip_tick: 0,
        }
    }

    /// A new flip bid, which re-posts as an ask at `flip_tick` once filled;
    /// `flip_tick` must lie above `tick`.
    pub fn new_flip_bid(
        order_id: u128,
        maker: Address,
        base_token: Address,
        quote_token: Address,
        tick: i32,
        amount: i128,
        flip_tick: i32,
    ) -> (r: Result<Order, Error>)
        ensures
            r == (if flip_tick > tick {
                Ok(fresh_order(order_id, maker, base_token, quote_token, true, tick, amount, true, flip_tick))
            } else {
                Err(Error::InvalidBidFlipTick)
            }),
    {
        if flip_tick <= tick {
            return Err(Error::InvalidBidFlipTick);
        }
        Ok(Order {
            order_id,
            maker,
            base_token,
            quote_token,
            is_bid: true,
            tick,
            amount,
            remaining: amount,
            prev: 0,
            next: 0,
            is_flip: true,
            flip_tick,
        })
    }

    /// A new flip ask, which re-posts as a bid at `flip_tick` once filled;
    /// `flip_tick` must lie below `tick`.
    pub fn new_flip_ask(
        order_id: u128,
        maker: Address,
        base_token: Address,
        quote_token: Address,
        tick: i32,
        amount: i128,
        flip_tick: i32,
    ) -> (r: Result<Order, Error>)
        ensures
            r == (if flip_tick < tick {
                Ok(fresh_order(order_id, maker, base_token, quote_token, false, tick, amount, true, flip_tick))
            } else {
                Err(Error::InvalidAskFlipTick)
            }),
    {
        if flip_tick >= tick {
            return Err(Error::InvalidAskFlipTick);
        }
        Ok(Order {
            order_id,
            maker,
            base_token,
            quote_token,
            is_bid: false,
            tick,
            amount,
            remaining: amount,
            prev: 0,
            next: 0,
            is_flip: true,
            flip_tick,
        })
    }

    /// Takes `amount` off what remains of the order. A negative amount is
    /// refused, and so is one above the remainder.
    pub fn fill(&mut self, amount: i128) -> (r: Result<(), Error>)
        ensures
            r == (if amount < 0 {
                Err(Error::InvalidAmount)
            } else if amount > old(self).remaining {
                Err(Error::FillExceedsRemaining)
            } else {
                Ok(())
            }),
            r is Ok ==> *final(self) == (Order { remaining: (old(self).remaining - amount) as i128, ..*old(self) }),
            r is Err ==> *final(self) == *old(self),
    {
        if amount < 0 {
            return Err(Error::InvalidAmount);
        }
        if amount > self.remaining {
            return Err(Error::FillExceedsRemaining);
        }
        self.remaining = self.remaining - amount;
        Ok(())
    }

    /// Nothing of the order remains.
    pub fn is_fully_filled(&self) -> (r: bool)
        ensures
            r == (self.remaining == 0),
    {
        self.remaining == 0
    }

    /// The order a fully filled flip order re-posts as, under `new_order_id`.
    pub fn create_flipped_order(&self, new_order_id: u128) -> (r: Result<Order, Error>)
        ensures
            r == (if !self.is_flip {
                Err(Error::NotAFlipOrder)
            } else if self.remaining != 0 {
                Err(Error::OrderNotFullyFilled)
            } else {
                Ok(flipped(*self, new_order_id))
            }),
    {
        if !self.is_flip {
            return Err(Error::NotAFlipOrder);
        }
        if !self.is_fully_filled() {
            return Err(Error::OrderNotFullyFilled);
        }
        Ok(Order {
            order_id: new_order_id,
            maker: self.maker,
            base_token: self.base_token,
            quote_token: self.quote_token,
            is_bid: !self.is_bid,
            tick: self.flip_tick,
            amount: self.amount,
            remaining: self.amount,
            prev: 0,
            next: 0,
            is_flip: false,
            flip_tick: 0,
        })
    }
}

} // verus!
