use stablecoin_exchange::error::Error;
use stablecoin_exchange::exchange::StablecoinExchange;
use stablecoin_exchange::price::{
    align_tick_down, align_tick_up, calculate_base_amount, calculate_quote_amount, price_to_tick,
    tick_to_price, validate_tick, MAX_TICK, MIN_ORDER_SIZE, MIN_TICK, PRICE_SCALE, TICK_SPACING,
};

#[test]
fn test_tick_to_price() {
    assert_eq!(tick_to_price(0), PRICE_SCALE);
    assert!(tick_to_price(100) > tick_to_price(0));
    assert!(tick_to_price(-100) < tick_to_price(0));
}

#[test]
fn test_constants() {
    assert_eq!(StablecoinExchange::min_tick(), MIN_TICK);
    assert_eq!(StablecoinExchange::max_tick(), MAX_TICK);
    assert_eq!(StablecoinExchange::tick_spacing(), TICK_SPACING);
    assert_eq!(StablecoinExchange::price_scale(), PRICE_SCALE);
    assert_eq!(StablecoinExchange::min_order_size(), MIN_ORDER_SIZE);
}

#[test]
fn tick_price_values() {
    assert_eq!(tick_to_price(100), 101_000);
    assert_eq!(tick_to_price(-2000), 80_000);
    assert_eq!(tick_to_price(-20_000), 1);
    assert_eq!(StablecoinExchange::tick_to_price(10), 100_100);
}

#[test]
fn price_tick_round_trip_on_every_valid_tick() {
    let mut t = MIN_TICK;
    while t <= MAX_TICK {
        assert_eq!(price_to_tick(tick_to_price(t)), t);
        t += TICK_SPACING;
    }
}

#[test]
fn price_to_tick_clamps_and_aligns() {
    assert_eq!(price_to_tick(0), MIN_TICK);
    assert_eq!(price_to_tick(-5), MIN_TICK);
    assert_eq!(price_to_tick(1), MIN_TICK);
    assert_eq!(price_to_tick(1_000_000_000), MAX_TICK);
    assert_eq!(price_to_tick(101_050), 100);
    assert_eq!(price_to_tick(99_995), -10);
    assert_eq!(price_to_tick(99_990), -10);
    assert_eq!(price_to_tick(99_989), -10);
    assert_eq!(price_to_tick(99_900), -10);
    assert_eq!(price_to_tick(99_899), -20);
    assert_eq!(price_to_tick(i128::MAX), MAX_TICK);
}

#[test]
fn align_ticks() {
    assert_eq!(align_tick_down(-15), -20);
    assert_eq!(align_tick_down(15), 10);
    assert_eq!(align_tick_down(20), 20);
    assert_eq!(align_tick_up(-15), -10);
    assert_eq!(align_tick_up(15), 20);
    assert_eq!(align_tick_up(20), 20);
}

#[test]
fn validate_tick_errors() {
    assert_eq!(validate_tick(0), Ok(()));
    assert_eq!(validate_tick(MAX_TICK + 10), Err(Error::InvalidTick));
    assert_eq!(validate_tick(MIN_TICK - 10), Err(Error::InvalidTick));
    assert_eq!(validate_tick(15), Err(Error::TickNotAligned));
}

#[test]
fn quote_and_base_amounts_truncate() {
    assert_eq!(calculate_quote_amount(100, 100), 101);
    assert_eq!(calculate_quote_amount(99, 100), 99);
    assert_eq!(calculate_quote_amount(-99, 100), -99);
    assert_eq!(calculate_base_amount(101_000, 100), 100_000);
    assert_eq!(calculate_base_amount(100, 100), 99);
    assert_eq!(calculate_quote_amount(calculate_base_amount(100, 100), 100), 99);
}
