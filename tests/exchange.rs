use stablecoin_exchange::error::Error;
use stablecoin_exchange::exchange::{order_deposit, StablecoinExchange};
use stablecoin_exchange::order::Address;
use stablecoin_exchange::price::{MAX_TICK, MIN_ORDER_SIZE, MIN_TICK};

fn addr(id: u64) -> Address {
    Address { id }
}

struct Setup {
    exchange: StablecoinExchange,
    admin: Address,
    user: Address,
    base: Address,
    quote: Address,
}

fn setup_test_env() -> Setup {
    let mut exchange = StablecoinExchange::new();
    let admin = addr(1);
    exchange.initialize(admin).unwrap();
    Setup { exchange, admin, user: addr(2), base: addr(100), quote: addr(101) }
}

fn with_pair() -> Setup {
    let mut s = setup_test_env();
    s.exchange.create_pair(s.admin, s.base, s.quote).unwrap();
    s
}

#[test]
fn test_initialize() {
    let mut exchange = StablecoinExchange::new();
    let admin = addr(1);
    exchange.initialize(admin).unwrap();
    assert_eq!(exchange.admin(), Some(admin));
}

#[test]
fn initialize_twice_fails() {
    let mut s = setup_test_env();
    assert_eq!(s.exchange.initialize(addr(9)), Err(Error::AlreadyInitialized));
    assert_eq!(s.exchange.admin(), Some(s.admin));
}

#[test]
fn test_create_pair() {
    let s = with_pair();
    let orderbook = s.exchange.get_orderbook(s.base, s.quote).unwrap();
    assert_eq!(orderbook.base_token, s.base);
    assert_eq!(orderbook.quote_token, s.quote);
    assert_eq!(orderbook.best_bid_tick, MIN_TICK - 1);
    assert_eq!(orderbook.best_ask_tick, MAX_TICK + 1);
}

#[test]
fn test_create_pair_same_token_fails() {
    let mut s = setup_test_env();
    let result = s.exchange.create_pair(s.admin, s.base, s.base);
    assert_eq!(result, Err(Error::SameToken));
}

#[test]
fn test_create_pair_duplicate_fails() {
    let mut s = with_pair();
    let result = s.exchange.create_pair(s.admin, s.base, s.quote);
    assert_eq!(result, Err(Error::PairAlreadyExists));
}

#[test]
fn missing_pair_is_reported() {
    let mut s = setup_test_env();
    assert_eq!(s.exchange.get_orderbook(s.base, s.quote), Err(Error::PairNotFound));
    assert_eq!(s.exchange.place(s.user, s.base, s.quote, true, 0, MIN_ORDER_SIZE), Err(Error::PairNotFound));
    assert_eq!(s.exchange.execute_block(s.base, s.quote, vec![1]), Err(Error::PairNotFound));
    assert_eq!(s.exchange.quote_swap_in(s.base, s.quote, true, 10), Err(Error::PairNotFound));
    assert_eq!(
        s.exchange.swap_exact_in(s.user, s.base, s.quote, true, 10, 0),
        Err(Error::PairNotFound)
    );
}

#[test]
fn test_place_bid_order() {
    let mut s = with_pair();
    let amount = 100_000_000i128;
    let tick = 0i32;
    let order_id = s.exchange.place(s.user, s.base, s.quote, true, tick, amount).unwrap();
    assert!(order_id > 0);
    let pending = s.exchange.get_pending_order(order_id);
    assert!(pending.is_some());
    let order = pending.unwrap();
    assert_eq!(order.maker, s.user);
    assert!(order.is_bid);
    assert_eq!(order.tick, tick);
    assert_eq!(order.amount, amount);
}

#[test]
fn test_place_ask_order() {
    let mut s = with_pair();
    let amount = 100_000_000i128;
    let tick = 100i32;
    let order_id = s.exchange.place(s.user, s.base, s.quote, false, tick, amount).unwrap();
    assert!(order_id > 0);
    let pending = s.exchange.get_pending_order(order_id);
    assert!(pending.is_some());
    let order = pending.unwrap();
    assert!(!order.is_bid);
}

#[test]
fn test_order_too_small_fails() {
    let mut s = with_pair();
    let result = s.exchange.place(s.user, s.base, s.quote, true, 0, MIN_ORDER_SIZE - 1);
    assert_eq!(result, Err(Error::OrderTooSmall));
}

#[test]
fn test_invalid_tick_fails() {
    let mut s = with_pair();
    let result = s.exchange.place(s.user, s.base, s.quote, true, MAX_TICK + 1, MIN_ORDER_SIZE);
    assert_eq!(result, Err(Error::InvalidTick));
}

#[test]
fn unaligned_tick_fails() {
    let mut s = with_pair();
    let result = s.exchange.place(s.user, s.base, s.quote, true, 15, MIN_ORDER_SIZE);
    assert_eq!(result, Err(Error::TickNotAligned));
}

#[test]
fn deposit_overflow_fails() {
    let mut s = with_pair();
    let result = s.exchange.place(s.user, s.base, s.quote, true, 0, i128::MAX / 2);
    assert_eq!(result, Err(Error::Overflow));
    assert_eq!(s.exchange.get_pending_order(1), None);
}

#[test]
fn deposits() {
    assert_eq!(order_deposit(true, 100, 1_000_000), Ok(1_010_000));
    assert_eq!(order_deposit(false, 100, 1_000_000), Ok(1_000_000));
    assert_eq!(order_deposit(true, 0, i128::MAX), Err(Error::Overflow));
    assert_eq!(order_deposit(false, 0, -1), Err(Error::InvalidAmount));
}

#[test]
fn flip_side_is_checked_before_the_deposit() {
    let mut s = with_pair();
    let result = s.exchange.place_flip(s.user, s.base, s.quote, true, 100, i128::MAX, 0);
    assert_eq!(result, Err(Error::InvalidBidFlipTick));
    let result = s.exchange.place_flip(s.user, s.base, s.quote, true, 0, i128::MAX, 100);
    assert_eq!(result, Err(Error::Overflow));
    assert_eq!(s.exchange.get_pending_order(1), None);
}

#[test]
fn swap_refreshes_a_stale_cursor() {
    let mut s = with_pair();
    let id = s.exchange.place(s.user, s.base, s.quote, false, 30, MIN_ORDER_SIZE).unwrap();
    s.exchange.execute_block(s.base, s.quote, vec![id]).unwrap();
    s.exchange.cancel(s.user, 1).unwrap();
    assert_eq!(s.exchange.get_orderbook(s.base, s.quote).unwrap().best_ask_tick, 30);
    let out = s.exchange.swap_exact_in(s.user, s.base, s.quote, true, 0, 0).unwrap();
    assert_eq!(out.amount_out, 0);
    assert_eq!(s.exchange.get_orderbook(s.base, s.quote).unwrap().best_ask_tick, MAX_TICK + 1);
}

#[test]
fn negative_quote_input_fails() {
    let s = with_pair();
    assert_eq!(s.exchange.quote_swap_in(s.base, s.quote, false, -1), Err(Error::InvalidAmount));
}

#[test]
fn test_execute_block() {
    let mut s = with_pair();
    let order_id = s.exchange.place(s.user, s.base, s.quote, true, 0, MIN_ORDER_SIZE).unwrap();
    s.exchange.execute_block(s.base, s.quote, vec![order_id]).unwrap();
    assert!(s.exchange.get_pending_order(order_id).is_none());
    let orderbook = s.exchange.get_orderbook(s.base, s.quote).unwrap();
    assert!(orderbook.has_bids());
}

#[test]
fn execute_block_links_orders_in_arrival_order() {
    let mut s = with_pair();
    let a = s.exchange.place(s.user, s.base, s.quote, false, 50, MIN_ORDER_SIZE).unwrap();
    let b = s.exchange.place(s.user, s.base, s.quote, false, 50, 2 * MIN_ORDER_SIZE).unwrap();
    s.exchange.execute_block(s.base, s.quote, vec![a, b]).unwrap();
    let level = s.exchange.get_tick_level(s.base, s.quote, false, 50);
    assert_eq!(level.head, 1);
    assert_eq!(level.tail, 2);
    assert_eq!(level.total_liquidity, 3 * MIN_ORDER_SIZE);
    let first = s.exchange.get_order(1).unwrap();
    let second = s.exchange.get_order(2).unwrap();
    assert_eq!((first.prev, first.next), (0, 2));
    assert_eq!((second.prev, second.next), (1, 0));
    assert_eq!(s.exchange.get_orderbook(s.base, s.quote).unwrap().best_ask_tick, 50);
}

#[test]
fn execute_block_twice_is_a_no_op() {
    let mut s = with_pair();
    let id = s.exchange.place(s.user, s.base, s.quote, true, 0, MIN_ORDER_SIZE).unwrap();
    s.exchange.execute_block(s.base, s.quote, vec![id]).unwrap();
    let level = s.exchange.get_tick_level(s.base, s.quote, true, 0);
    let book = s.exchange.get_orderbook(s.base, s.quote).unwrap();
    s.exchange.execute_block(s.base, s.quote, vec![id]).unwrap();
    assert_eq!(s.exchange.get_tick_level(s.base, s.quote, true, 0), level);
    assert_eq!(s.exchange.get_orderbook(s.base, s.quote).unwrap(), book);
    assert_eq!(s.exchange.get_order(2), None);
}

#[test]
fn test_cancel_pending_order() {
    let mut s = with_pair();
    let order_id = s.exchange.place(s.user, s.base, s.quote, true, 0, MIN_ORDER_SIZE).unwrap();
    let refund = s.exchange.cancel(s.user, order_id).unwrap();
    assert_eq!(refund, MIN_ORDER_SIZE);
    assert!(s.exchange.get_pending_order(order_id).is_none());
}

#[test]
fn cancel_pending_refunds_and_later_activation_is_a_no_op() {
    let mut s = with_pair();
    let id = s.exchange.place(s.user, s.base, s.quote, true, 0, MIN_ORDER_SIZE).unwrap();
    assert_eq!(s.exchange.cancel(s.user, id), Ok(MIN_ORDER_SIZE));
    assert_eq!(s.exchange.balance_of(s.user, s.user), MIN_ORDER_SIZE);
    assert_eq!(s.exchange.get_pending_order(id), None);
    s.exchange.execute_block(s.base, s.quote, vec![id]).unwrap();
    assert_eq!(s.exchange.get_order(1), None);
    assert!(!s.exchange.get_orderbook(s.base, s.quote).unwrap().has_bids());
    assert!(s.exchange.get_tick_level(s.base, s.quote, true, 0).is_empty());
}

#[test]
fn cancel_active_order_unlinks_it() {
    let mut s = with_pair();
    let a = s.exchange.place(s.user, s.base, s.quote, true, -100, MIN_ORDER_SIZE).unwrap();
    let b = s.exchange.place(s.user, s.base, s.quote, true, -100, 2 * MIN_ORDER_SIZE).unwrap();
    let c = s.exchange.place(s.user, s.base, s.quote, true, -100, 3 * MIN_ORDER_SIZE).unwrap();
    s.exchange.execute_block(s.base, s.quote, vec![a, b, c]).unwrap();
    assert_eq!(s.exchange.cancel(s.user, 2), Ok(2 * MIN_ORDER_SIZE));
    assert_eq!(s.exchange.get_order(2), None);
    let level = s.exchange.get_tick_level(s.base, s.quote, true, -100);
    assert_eq!((level.head, level.tail), (1, 3));
    assert_eq!(level.total_liquidity, 4 * MIN_ORDER_SIZE);
    assert_eq!(s.exchange.get_order(1).unwrap().next, 3);
    assert_eq!(s.exchange.get_order(3).unwrap().prev, 1);
    assert_eq!(s.exchange.cancel(s.user, 1), Ok(MIN_ORDER_SIZE));
    assert_eq!(s.exchange.cancel(s.user, 3), Ok(3 * MIN_ORDER_SIZE));
    let level = s.exchange.get_tick_level(s.base, s.quote, true, -100);
    assert!(level.is_empty());
    assert_eq!(level.total_liquidity, 0);
    assert_eq!(s.exchange.balance_of(s.user, s.user), 6 * MIN_ORDER_SIZE);
}

#[test]
fn cancel_errors() {
    let mut s = with_pair();
    let id = s.exchange.place(s.user, s.base, s.quote, true, 0, MIN_ORDER_SIZE).unwrap();
    assert_eq!(s.exchange.cancel(addr(77), id), Err(Error::NotOrderOwner));
    assert_eq!(s.exchange.cancel(s.user, 42), Err(Error::OrderNotFound));
    s.exchange.execute_block(s.base, s.quote, vec![id]).unwrap();
    assert_eq!(s.exchange.cancel(addr(77), 1), Err(Error::NotOrderOwner));
}

#[test]
fn test_place_flip_order() {
    let mut s = with_pair();
    let order_id = s.exchange.place_flip(s.user, s.base, s.quote, true, 0, MIN_ORDER_SIZE, 100).unwrap();
    let pending = s.exchange.get_pending_order(order_id);
    assert!(pending.is_some());
    let order = pending.unwrap();
    assert!(order.is_flip);
    assert_eq!(order.flip_tick, 100);
}

#[test]
fn test_invalid_flip_tick_bid() {
    let mut s = with_pair();
    let result = s.exchange.place_flip(s.user, s.base, s.quote, true, 100, MIN_ORDER_SIZE, 0);
    assert_eq!(result, Err(Error::InvalidBidFlipTick));
    assert_eq!(s.exchange.get_pending_order(1), None);
}

#[test]
fn test_invalid_flip_tick_ask() {
    let mut s = with_pair();
    let result = s.exchange.place_flip(s.user, s.base, s.quote, false, 0, MIN_ORDER_SIZE, 100);
    assert_eq!(result, Err(Error::InvalidAskFlipTick));
}

#[test]
fn flip_tick_must_be_valid() {
    let mut s = with_pair();
    let result = s.exchange.place_flip(s.user, s.base, s.quote, true, 0, MIN_ORDER_SIZE, 105);
    assert_eq!(result, Err(Error::TickNotAligned));
    let result = s.exchange.place_flip(s.user, s.base, s.quote, true, 0, MIN_ORDER_SIZE, MAX_TICK + 10);
    assert_eq!(result, Err(Error::InvalidTick));
}

#[test]
fn test_swap_exact_in_buy() {
    let mut s = with_pair();
    let maker = addr(3);
    let ask_order_id = s.exchange.place(maker, s.base, s.quote, false, 0, 100_000_000).unwrap();
    s.exchange.execute_block(s.base, s.quote, vec![ask_order_id]).unwrap();
    let quote_in = 50_000_000i128;
    let base_out = s.exchange.swap_exact_in(s.user, s.base, s.quote, true, quote_in, 0).unwrap().amount_out;
    assert!(base_out > 0);
}

#[test]
fn test_swap_exact_in_sell() {
    let mut s = with_pair();
    let maker = addr(3);
    let bid_order_id = s.exchange.place(maker, s.base, s.quote, true, 0, 100_000_000).unwrap();
    s.exchange.execute_block(s.base, s.quote, vec![bid_order_id]).unwrap();
    let base_in = 50_000_000i128;
    let quote_out = s.exchange.swap_exact_in(s.user, s.base, s.quote, false, base_in, 0).unwrap().amount_out;
    assert!(quote_out > 0);
}

#[test]
fn test_quote_swap() {
    let mut s = with_pair();
    let maker = addr(3);
    let ask_order_id = s.exchange.place(maker, s.base, s.quote, false, 0, 100_000_000).unwrap();
    s.exchange.execute_block(s.base, s.quote, vec![ask_order_id]).unwrap();
    let quote_in = 50_000_000i128;
    let expected_out = s.exchange.quote_swap_in(s.base, s.quote, true, quote_in).unwrap();
    assert!(expected_out > 0);
}

#[test]
fn test_withdraw() {
    let mut s = with_pair();
    let order_id = s.exchange.place(s.user, s.base, s.quote, false, 0, MIN_ORDER_SIZE).unwrap();
    s.exchange.cancel(s.user, order_id).unwrap();
    let balance = s.exchange.balance_of(s.user, s.user);
    assert_eq!(balance, MIN_ORDER_SIZE);
}

#[test]
fn withdraw_errors_and_success() {
    let mut s = with_pair();
    let id = s.exchange.place(s.user, s.base, s.quote, false, 0, MIN_ORDER_SIZE).unwrap();
    s.exchange.cancel(s.user, id).unwrap();
    assert_eq!(s.exchange.withdraw(s.user, s.user, 0), Err(Error::InvalidAmount));
    assert_eq!(s.exchange.withdraw(s.user, s.user, MIN_ORDER_SIZE + 1), Err(Error::InsufficientBalance));
    assert_eq!(s.exchange.withdraw(s.user, s.user, 4), Ok(()));
    assert_eq!(s.exchange.balance_of(s.user, s.user), MIN_ORDER_SIZE - 4);
}

#[test]
fn full_fill_of_an_ask_empties_the_level() {
    let mut s = with_pair();
    let maker = addr(3);
    let size = MIN_ORDER_SIZE;
    let id = s.exchange.place(maker, s.base, s.quote, false, 0, size).unwrap();
    s.exchange.execute_block(s.base, s.quote, vec![id]).unwrap();
    let out = s.exchange.swap_exact_in(s.user, s.base, s.quote, true, size, 0).unwrap();
    assert_eq!(out.amount_out, size);
    assert_eq!(out.refund, 0);
    assert!(s.exchange.get_tick_level(s.base, s.quote, false, 0).is_empty());
    assert_eq!(s.exchange.get_orderbook(s.base, s.quote).unwrap().best_ask_tick, MAX_TICK + 1);
    assert_eq!(s.exchange.balance_of(maker, s.quote), size);
    assert_eq!(s.exchange.get_order(1), None);
}

#[test]
fn full_fill_of_a_bid_empties_the_level() {
    let mut s = with_pair();
    let maker = addr(3);
    let size = MIN_ORDER_SIZE;
    let id = s.exchange.place(maker, s.base, s.quote, true, 0, size).unwrap();
    assert_eq!(order_deposit(true, 0, size), Ok(size));
    s.exchange.execute_block(s.base, s.quote, vec![id]).unwrap();
    let out = s.exchange.swap_exact_in(s.user, s.base, s.quote, false, size, 0).unwrap();
    assert_eq!(out.amount_out, size);
    assert!(s.exchange.get_tick_level(s.base, s.quote, true, 0).is_empty());
    assert_eq!(s.exchange.get_orderbook(s.base, s.quote).unwrap().best_bid_tick, MIN_TICK - 1);
    assert_eq!(s.exchange.balance_of(maker, s.base), size);
}

#[test]
fn two_asks_fill_in_queue_order() {
    let mut s = with_pair();
    let maker = addr(3);
    let first = s.exchange.place(maker, s.base, s.quote, false, 0, MIN_ORDER_SIZE).unwrap();
    let second = s.exchange.place(maker, s.base, s.quote, false, 0, 2 * MIN_ORDER_SIZE).unwrap();
    s.exchange.execute_block(s.base, s.quote, vec![first, second]).unwrap();
    let out = s.exchange.swap_exact_in(s.user, s.base, s.quote, true, MIN_ORDER_SIZE, 0).unwrap();
    assert_eq!(out.amount_out, MIN_ORDER_SIZE);
    assert_eq!(s.exchange.get_order(1), None);
    let rest = s.exchange.get_order(2).unwrap();
    assert_eq!(rest.remaining, 2 * MIN_ORDER_SIZE);
    assert_eq!(rest.prev, 0);
    let level = s.exchange.get_tick_level(s.base, s.quote, false, 0);
    assert_eq!(level.head, 2);
    assert_eq!(level.tail, 2);
    assert_eq!(level.total_liquidity, 2 * MIN_ORDER_SIZE);
    assert_eq!(s.exchange.get_orderbook(s.base, s.quote).unwrap().best_ask_tick, 0);
    assert_eq!(s.exchange.balance_of(maker, s.quote), MIN_ORDER_SIZE);
}

#[test]
fn partial_fill_keeps_the_head() {
    let mut s = with_pair();
    let maker = addr(3);
    let first = s.exchange.place(maker, s.base, s.quote, false, 0, MIN_ORDER_SIZE).unwrap();
    let second = s.exchange.place(maker, s.base, s.quote, false, 0, MIN_ORDER_SIZE).unwrap();
    s.exchange.execute_block(s.base, s.quote, vec![first, second]).unwrap();
    let out = s.exchange.swap_exact_in(s.user, s.base, s.quote, true, 4_000_000, 0).unwrap();
    assert_eq!(out.amount_out, 4_000_000);
    assert_eq!(s.exchange.get_order(1).unwrap().remaining, MIN_ORDER_SIZE - 4_000_000);
    assert_eq!(s.exchange.get_order(2).unwrap().remaining, MIN_ORDER_SIZE);
    assert_eq!(s.exchange.get_tick_level(s.base, s.quote, false, 0).head, 1);
}

#[test]
fn swap_walks_several_levels_best_first() {
    let mut s = with_pair();
    let maker = addr(3);
    let a = s.exchange.place(maker, s.base, s.quote, false, 100, MIN_ORDER_SIZE).unwrap();
    let b = s.exchange.place(maker, s.base, s.quote, false, 0, MIN_ORDER_SIZE).unwrap();
    s.exchange.execute_block(s.base, s.quote, vec![a, b]).unwrap();
    let quoted = s.exchange.quote_swap_in(s.base, s.quote, true, 30_000_000).unwrap();
    let out = s.exchange.swap_exact_in(s.user, s.base, s.quote, true, 30_000_000, 0).unwrap();
    // 10_000_000 base at price 1.0, then 10_000_000 base at price 1.01.
    assert_eq!(out.amount_out, 2 * MIN_ORDER_SIZE);
    assert_eq!(out.refund, 30_000_000 - 10_000_000 - 10_100_000);
    assert_eq!(quoted, out.amount_out);
    assert_eq!(s.exchange.get_orderbook(s.base, s.quote).unwrap().best_ask_tick, MAX_TICK + 1);
}

#[test]
fn slippage_failure_changes_nothing() {
    let mut s = with_pair();
    let maker = addr(3);
    let id = s.exchange.place(maker, s.base, s.quote, false, 0, MIN_ORDER_SIZE).unwrap();
    s.exchange.execute_block(s.base, s.quote, vec![id]).unwrap();
    let level = s.exchange.get_tick_level(s.base, s.quote, false, 0);
    let book = s.exchange.get_orderbook(s.base, s.quote).unwrap();
    let result = s.exchange.swap_exact_in(s.user, s.base, s.quote, true, MIN_ORDER_SIZE, MIN_ORDER_SIZE + 1);
    assert_eq!(result, Err(Error::SlippageExceeded));
    assert_eq!(s.exchange.get_tick_level(s.base, s.quote, false, 0), level);
    assert_eq!(s.exchange.get_orderbook(s.base, s.quote).unwrap(), book);
    assert_eq!(s.exchange.balance_of(maker, s.quote), 0);
    assert_eq!(s.exchange.get_order(1).unwrap().remaining, MIN_ORDER_SIZE);
}

#[test]
fn negative_swap_input_fails() {
    let mut s = with_pair();
    let result = s.exchange.swap_exact_in(s.user, s.base, s.quote, true, -1, 0);
    assert_eq!(result, Err(Error::InvalidAmount));
}

#[test]
fn swap_on_empty_book_refunds_everything() {
    let mut s = with_pair();
    let out = s.exchange.swap_exact_in(s.user, s.base, s.quote, false, 500, 0).unwrap();
    assert_eq!(out.amount_out, 0);
    assert_eq!(out.refund, 500);
}

#[test]
fn filled_flip_order_reposts_on_the_other_side() {
    let mut s = with_pair();
    let maker = addr(3);
    let id = s.exchange.place_flip(maker, s.base, s.quote, true, 0, MIN_ORDER_SIZE, 100).unwrap();
    s.exchange.execute_block(s.base, s.quote, vec![id]).unwrap();
    // A partial fill leaves no successor.
    s.exchange.swap_exact_in(s.user, s.base, s.quote, false, 1_000_000, 0).unwrap();
    assert_eq!(s.exchange.get_pending_order(2), None);
    s.exchange.swap_exact_in(s.user, s.base, s.quote, false, 9_000_000, 0).unwrap();
    let successor = s.exchange.get_pending_order(2).unwrap();
    assert!(!successor.is_bid);
    assert_eq!(successor.tick, 100);
    assert_eq!(successor.amount, MIN_ORDER_SIZE);
    assert_eq!(successor.remaining, MIN_ORDER_SIZE);
    assert!(!successor.is_flip);
    assert_eq!(successor.maker, maker);
}

#[test]
fn find_next_ticks() {
    let mut s = with_pair();
    let a = s.exchange.place(s.user, s.base, s.quote, true, -50, MIN_ORDER_SIZE).unwrap();
    let b = s.exchange.place(s.user, s.base, s.quote, false, 70, MIN_ORDER_SIZE).unwrap();
    s.exchange.execute_block(s.base, s.quote, vec![a, b]).unwrap();
    assert_eq!(s.exchange.find_next_bid_tick(s.base, s.quote, MAX_TICK), Some(-50));
    assert_eq!(s.exchange.find_next_bid_tick(s.base, s.quote, -51), None);
    assert_eq!(s.exchange.find_next_ask_tick(s.base, s.quote, MIN_TICK), Some(70));
    assert_eq!(s.exchange.find_next_ask_tick(s.base, s.quote, 71), None);
    s.exchange.update_best_bid_tick(s.base, s.quote);
    s.exchange.update_best_ask_tick(s.base, s.quote);
    let book = s.exchange.get_orderbook(s.base, s.quote).unwrap();
    assert_eq!((book.best_bid_tick, book.best_ask_tick), (-50, 70));
}
