use vstd::prelude::*;

verus! {

/// Every failure the exchange reports to its callers.
#[derive(Copy, Clone, Debug, PartialEq, Eq, PartialOrd, Ord, Structural)]
pub enum Error {
    /// The exchange already has an admin.
    AlreadyInitialized,
    /// The caller may not perform this operation.
    Unauthorized,
    /// The tick lies outside `[MIN_TICK, MAX_TICK]`.
    InvalidTick,
    /// A flip bid must flip to a tick strictly above its own.
    InvalidBidFlipTick,
    /// A flip ask must flip to a tick strictly below its own.
    InvalidAskFlipTick,
    /// No pending or active order has this id.
    OrderNotFound,
    /// The order belongs to another maker.
    NotOrderOwner,
    /// The order is smaller than `MIN_ORDER_SIZE`.
    OrderTooSmall,
    /// The balance does not cover the withdrawal.
    InsufficientBalance,
    /// The pair was already created.
    PairAlreadyExists,
    /// No pair exists for these tokens.
    PairNotFound,
    /// A fill asked for more than the order has left.
    FillExceedsRemaining,
    /// A flip successor was asked of an order that still rests.
    OrderNotFullyFilled,
    /// A flip successor was asked of an order that is not a flip order.
    NotAFlipOrder,
    /// An amount left the range of `i128`.
    Overflow,
    /// A division by zero was attempted.
    DivisionByZero,
    /// The amount is zero or negative.
    InvalidAmount,
    /// The swap would pay out less than the caller's minimum.
    SlippageExceeded,
    /// The book has no liquidity for this swap.
    NoLiquidity,
    /// Base and quote token are the same.
    SameToken,
    /// The tick is not a multiple of `TICK_SPACING`.
    TickNotAligned,
}

} // verus!
