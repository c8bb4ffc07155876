use vstd::prelude::*;

use crate::error::Error;

verus! {

/// Lowest tick an order may rest at.
pub const MIN_TICK: i32 = -2000;

/// Highest tick an order may rest at.
pub const MAX_TICK: i32 = 2000;

/// Distance between two neighbouring valid ticks.
pub const TICK_SPACING: i32 = 10;

/// Price of tick 0, and the fixed-point scale of every price.
pub const PRICE_SCALE: i128 = 100_000;

/// Smallest order size that may be placed.
pub const MIN_ORDER_SIZE: i128 = 10_000_000;

/// Price added by each tick above tick 0.
pub const PRICE_STEP: i128 = 10;

/// A tick lies in the allowed range.
pub open spec fn tick_in_range(tick: int) -> bool {
    MIN_TICK <= tick <= MAX_TICK
}

/// A tick lies in the allowed range and on the tick grid.
pub open spec fn valid_tick(tick: int) -> bool {
    tick_in_range(tick) && tick % (TICK_SPACING as int) == 0
}

/// `tick` rounded down onto the tick grid.
pub open spec fn aligned_down(tick: int) -> int {
    tick - tick % (TICK_SPACING as int)
}

/// `tick` rounded up onto the tick grid.
pub open spec fn aligned_up(tick: int) -> int {
    if tick % (TICK_SPACING as int) == 0 {
        tick
    } else {
        tick + (TICK_SPACING - tick % (TICK_SPACING as int))
    }
}

/// Division that truncates toward zero, as integer division in Rust does.
pub open spec fn div_trunc(a: int, d: int) -> int
    recommends
        d > 0,
{
    if a >= 0 {
        a / d
    } else {
        -((-a) / d)
    }
}

/// The price of a tick: linear in the tick, and never below 1.
pub open spec fn price_of(tick: int) -> int {
    let p = PRICE_SCALE + tick * PRICE_STEP;
    if p < 1 {
        1
    } else {
        p
    }
}

/// The tick of a price: the inverse of `price_of`, clamped into the tick
/// range and rounded down onto the grid.
pub open spec fn tick_of(price: int) -> int {
    if price <= 0 {
        MIN_TICK as int
    } else {
        let t = (price - PRICE_SCALE) / (PRICE_STEP as int);
        if t < MIN_TICK {
            MIN_TICK as int
        } else if t > MAX_TICK {
            MAX_TICK as int
        } else {
            aligned_down(t)
        }
    }
}

/// Quote that `base` units buy at `tick`, truncated toward zero.
pub open spec fn quote_amount(base: int, tick: int) -> int {
    div_trunc(base * price_of(tick), PRICE_SCALE as int)
}

/// Base that `quote` units buy at `tick`, truncated toward zero.
pub open spec fn base_amount(quote: int, tick: int) -> int {
    div_trunc(quote * PRICE_SCALE, price_of(tick))
}

/// Checks that a tick is in range and on the grid.
pub fn validate_tick(tick: i32) -> (r: Result<(), Error>)
    ensures
        r == (if !tick_in_range(tick as int) {
            Err(Error::InvalidTick)
        } else if tick % TICK_SPACING != 0 {
            Err(Error::TickNotAligned)
        } else {
            Ok(())
        }),
        r is Ok <==> valid_tick(tick as int),
{
    if tick < MIN_TICK || tick > MAX_TICK {
        return Err(Error::InvalidTick);
    }
    if tick % TICK_SPACING != 0 {
        return Err(Error::TickNotAligned);
    }
    Ok(())
}

/// Rounds a tick down onto the grid.
pub fn align_tick_down(tick: i32) -> (r: i32)
    requires
        aligned_down(tick as int) >= i32::MIN,
    ensures
        r == aligned_down(tick as int),
        r <= tick,
        r % TICK_SPACING == 0,
{
    let rem = tick.checked_rem_euclid(TICK_SPACING).unwrap();
    tick - rem
}

/// Rounds a tick up onto the grid.
pub fn align_tick_up(tick: i32) -> (r: i32)
    requires
        aligned_up(tick as int) <= i32::MAX,
    ensures
        r == aligned_up(tick as int),
        r >= tick,
        r % TICK_SPACING == 0,
{
    let rem = tick.checked_rem_euclid(TICK_SPACING).unwrap();
    if rem == 0 {
        tick
    } else {
        tick + (TICK_SPACING - rem)
    }
}

/// The price of a tick, `PRICE_SCALE + tick * PRICE_STEP`, clamped to at least 1.
pub fn tick_to_price(tick: i32) -> (r: i128)
    ensures
        r == price_of(tick as int),
        r >= 1,
{
    let adjustment = (tick as i128) * PRICE_STEP;
    let price = PRICE_SCALE + adjustment;
    if price < 1 {
        1
    } else {
        price
    }
}

/// The tick of a price: clamped into the tick range and rounded down onto the grid.
pub fn price_to_tick(price: i128) -> (r: i32)
    ensures
        r == tick_of(price as int),
        valid_tick(r as int),
{
    if price <= 0 {
        return MIN_TICK;
    }
    let t = (price - PRICE_SCALE).checked_div_euclid(PRICE_STEP).unwrap();
    if t < MIN_TICK as i128 {
        MIN_TICK
    } else if t > MAX_TICK as i128 {
        MAX_TICK
    } else {
        align_tick_down(t as i32)
    }
}

/// The quote amount that `base_amount` units cost at `tick`:
/// `base_amount * price / PRICE_SCALE`, truncated toward zero.
pub fn calculate_quote_amount(base_amount: i128, tick: i32) -> (r: i128)
    requires
        i128::MIN <= base_amount * price_of(tick as int) <= i128::MAX,
    ensures
        r == quote_amount(base_amount as int, tick as int),
{
    let price = tick_to_price(tick);
    (base_amount * price).checked_div(PRICE_SCALE).unwrap()
}

/// The base amount that `quote_amount` units buy at `tick`:
/// `quote_amount * PRICE_SCALE / price`, truncated toward zero.
pub fn calculate_base_amount(quote_amount: i128, tick: i32) -> (r: i128)
    requires
        i128::MIN <= quote_amount * PRICE_SCALE <= i128::MAX,
    ensures
        r == base_amount(quote_amount as int, tick as int),
{
    let price = tick_to_price(tick);
    if price == 0 {
        return 0;
    }
    (quote_amount * PRICE_SCALE).checked_div(price).unwrap()
}

/// Converting a valid tick to its price and back gives the tick again.
pub proof fn lemma_price_tick_round_trip(t: int)
    requires
        valid_tick(t),
    ensures
        tick_of(price_of(t)) == t,
{
    assert(price_of(t) == PRICE_SCALE + t * PRICE_STEP);
    assert((t * PRICE_STEP) / (PRICE_STEP as int) == t) by (nonlinear_arith)
        requires
            -2000 <= t <= 2000,
    ;
}

/// Number of valid ticks on one side of a pair.
pub const LEVELS_PER_SIDE: usize = 401;

/// Index of a valid tick among the ticks of one side.
pub open spec fn level_index(tick: int) -> int {
    (tick - MIN_TICK) / (TICK_SPACING as int)
}

/// The tick of the level at index `i` of a side.
pub open spec fn tick_at(i: int) -> int {
    MIN_TICK + i * TICK_SPACING
}

/// A valid tick has a level index in range, and that index leads back to it.
pub proof fn lemma_level_index(tick: int)
    requires
        valid_tick(tick),
    ensures
        0 <= level_index(tick) < LEVELS_PER_SIDE,
        tick_at(level_index(tick)) == tick,
{
}

/// The tick of every level index is valid, and its index leads back to it.
pub proof fn lemma_tick_at(i: int)
    requires
        0 <= i < LEVELS_PER_SIDE,
    ensures
        valid_tick(tick_at(i)),
        level_index(tick_at(i)) == i,
{
}

} // verus!
