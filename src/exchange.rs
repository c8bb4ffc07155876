use vstd::prelude::*;

use crate::error::Error;
use crate::order::{flip_tick_ok, fresh_order, Address, Order};
use crate::orderbook::{empty_level, new_book, Orderbook, TickLevel};
use crate::ledger::{
    balance_in, balances_ok, lemma_balance_absent, lemma_balance_entry, lemma_balance_update,
    lemma_token_total_update, token_total, BalanceEntry,
};
use crate::matching::{
    cursor_index, flip_successors, level_fill, lemma_buy_budget, lemma_quote_bound, lemma_walk_end,
    lemma_walk_skip, seq_sum, swap_walk,
};
use crate::price::{
    calculate_quote_amount, lemma_level_index, lemma_tick_at, level_index, price_of, quote_amount,
    tick_at, tick_in_range, valid_tick, validate_tick, LEVELS_PER_SIDE, MAX_TICK, MIN_ORDER_SIZE,
    MIN_TICK, PRICE_SCALE, TICK_SPACING,
};
use crate::queue::{
    level_credit, lemma_level_credit_frame, is_suffix, lemma_suffix_refl, lemma_suffix_trans, entry_ok, in_queue, lemma_queue_rems_sum, lemma_sum_frame, lemma_sum_ge_entry, lemma_sum_replace,
    lemma_unlink, level_ok, order_in, queue_rems, remaining_of, sum_remaining, unlinked_level,
    unlinked_store,
};

verus! {

/// Number of tick levels a pair owns: one per valid tick on each side.
pub const LEVELS_PER_PAIR: usize = 802;

/// What a swap did: the output owed to the taker and the input handed back.
#[derive(Copy, Clone, Debug, PartialEq, Eq, Structural)]
pub struct SwapOutcome {
    /// Output paid to the taker.
    pub amount_out: i128,
    /// Input that was not spent and goes back to the taker.
    pub refund: i128,
}

/// The state of the exchange: its pairs, the tick levels of each pair, the
/// pending and the active orders, and the credit balances.
///
/// Orders are numbered from 1 in each namespace; order `id` is stored at
/// index `id - 1`, so an id is never reused and the next id is one past the
/// length of its store. The orders resting at one tick of one side form a
/// doubly-linked queue through their `prev` and `next` fields; `queues`
/// records each such queue from head to tail.
pub struct StablecoinExchange {
    admin: Option<Address>,
    orders: Vec<Option<Order>>,
    pending: Vec<Option<Order>>,
    books: Vec<Orderbook>,
    levels: Vec<TickLevel>,
    queues: Ghost<Seq<Seq<u128>>>,
    balances: Vec<BalanceEntry>,
}

// ============ The level store ============

/// Position of the level `(p, is_bid, i)` in the exchange's level store.
pub open spec fn slot(p: int, is_bid: bool, i: int) -> int {
    p * LEVELS_PER_PAIR + (if is_bid { 0int } else { LEVELS_PER_SIDE as int }) + i
}

// ============ Deposits ============

/// The deposit an order takes: its quote cost for a bid, its size for an ask.
pub open spec fn deposit_of(is_bid: bool, tick: int, amount: int) -> int {
    if is_bid {
        quote_amount(amount, tick)
    } else {
        amount
    }
}

/// The deposit of an order can be computed without leaving `i128`.
pub open spec fn deposit_fits(is_bid: bool, tick: int, amount: int) -> bool {
    is_bid ==> amount * price_of(tick) <= i128::MAX
}

/// Book `p` of the list trades `base` against `quote`.
pub open spec fn is_pair_in(books: Seq<Orderbook>, p: int, base: Address, quote: Address) -> bool {
    0 <= p < books.len() && books[p].base_token == base && books[p].quote_token == quote
}

/// Some book of the list trades `base` against `quote`.
pub open spec fn has_pair_in(books: Seq<Orderbook>, base: Address, quote: Address) -> bool {
    exists|p: int| is_pair_in(books, p, base, quote)
}

/// The index of a book of the list that trades `base` against `quote`.
pub open spec fn pair_in(books: Seq<Orderbook>, base: Address, quote: Address) -> int {
    choose|p: int| is_pair_in(books, p, base, quote)
}

impl StablecoinExchange {
    // ============ The model ============

    /// The active order with this id, if any.
    pub closed spec fn active_order(&self, id: int) -> Option<Order> {
        order_in(self.orders@, id)
    }

    /// The pending order with this id, if any.
    pub closed spec fn pending_order(&self, id: int) -> Option<Order> {
        order_in(self.pending@, id)
    }

    /// The id the next activated order receives.
    pub closed spec fn next_active_id(&self) -> int {
        self.orders@.len() + 1int
    }

    /// The id the next pending order receives.
    pub closed spec fn next_pending_id(&self) -> int {
        self.pending@.len() + 1int
    }

    /// The admin, once one is set.
    pub closed spec fn admin_of(&self) -> Option<Address> {
        self.admin
    }

    /// Number of pairs created so far.
    pub open spec fn pair_count(&self) -> int {
        self.books_view().len() as int
    }

    /// The book of pair `p`, in order of creation.
    pub open spec fn book_at(&self, p: int) -> Orderbook {
        self.books_view()[p]
    }

    /// The books of all pairs, in order of creation.
    pub closed spec fn books_view(&self) -> Seq<Orderbook> {
        self.books@
    }

    /// Pair `p` trades `base` against `quote`.
    pub open spec fn is_pair(&self, p: int, base: Address, quote: Address) -> bool {
        is_pair_in(self.books_view(), p, base, quote)
    }

    /// A pair trades `base` against `quote`.
    pub open spec fn has_pair(&self, base: Address, quote: Address) -> bool {
        has_pair_in(self.books_view(), base, quote)
    }

    /// The index of the pair that trades `base` against `quote`.
    pub open spec fn pair_of(&self, base: Address, quote: Address) -> int {
        pair_in(self.books_view(), base, quote)
    }

    /// The book of the pair that trades `base` against `quote`, if any.
    pub open spec fn book(&self, base: Address, quote: Address) -> Option<Orderbook> {
        if self.has_pair(base, quote) {
            Some(self.book_at(self.pair_of(base, quote)))
        } else {
            None
        }
    }

    /// The level at index `i` of one side of pair `p`.
    pub closed spec fn level_at(&self, p: int, is_bid: bool, i: int) -> TickLevel {
        self.levels@[slot(p, is_bid, i)]
    }

    /// The queue at index `i` of one side of pair `p`, head first.
    pub closed spec fn queue_at(&self, p: int, is_bid: bool, i: int) -> Seq<u128> {
        self.queues@[slot(p, is_bid, i)]
    }

    /// The level of one side of a pair at a tick; empty where there is no
    /// such pair or tick.
    pub open spec fn level(&self, base: Address, quote: Address, is_bid: bool, tick: int) -> TickLevel {
        if self.has_pair(base, quote) && valid_tick(tick) {
            self.level_at(self.pair_of(base, quote), is_bid, level_index(tick))
        } else {
            empty_level()
        }
    }

    /// The queue of one side of a pair at a tick, head first.
    pub open spec fn queue(&self, base: Address, quote: Address, is_bid: bool, tick: int) -> Seq<u128> {
        if self.has_pair(base, quote) && valid_tick(tick) {
            self.queue_at(self.pair_of(base, quote), is_bid, level_index(tick))
        } else {
            Seq::empty()
        }
    }

    /// The credit of `user` in `token`.
    pub closed spec fn balance(&self, user: Address, token: Address) -> int {
        balance_in(self.balances@, user, token)
    }

    /// The sum of the credits of all users in `token`.
    pub closed spec fn total_credit(&self, token: Address) -> int {
        token_total(self.balances@, token)
    }

    // ============ Well-formedness ============

    /// Each pair trades two distinct tokens, and no two pairs trade the same
    /// two tokens in the same roles.
    closed spec fn books_ok(&self) -> bool {
        &&& forall|p: int|
            0 <= p < self.books@.len() ==> #[trigger] self.books@[p].base_token
                != self.books@[p].quote_token
        &&& forall|p: int, r: int|
            0 <= p < r < self.books@.len() ==> !(self.books@[p].base_token
                == self.books@[r].base_token && self.books@[p].quote_token
                == self.books@[r].quote_token)
    }

    /// Every level agrees with its queue.
    closed spec fn levels_ok(&self) -> bool {
        forall|p: int, s: bool, i: int|
            0 <= p < self.books@.len() && 0 <= i < LEVELS_PER_SIDE ==> #[trigger] level_ok(
                self.orders@,
                self.levels@[slot(p, s, i)],
                self.queues@[slot(p, s, i)],
                self.books@[p],
                s,
                tick_at(i),
            )
    }

    /// Every active order rests, under its own id, in the queue of its pair,
    /// side and tick.
    closed spec fn actives_ok(&self) -> bool {
        forall|id: int|
            1 <= id <= self.orders@.len() && (#[trigger] self.orders@[id - 1]) is Some ==> {
                let o = self.orders@[id - 1]->Some_0;
                &&& o.order_id == id
                &&& valid_tick(o.tick as int)
                &&& self.has_pair(o.base_token, o.quote_token)
                &&& in_queue(
                    self.queues@[slot(
                        self.pair_of(o.base_token, o.quote_token),
                        o.is_bid,
                        level_index(o.tick as int),
                    )],
                    id as u128,
                )
            }
    }

    /// The flip tick of every active flip order is valid.
    closed spec fn flips_ok(&self) -> bool {
        forall|id: int|
            1 <= id <= self.orders@.len() && (#[trigger] self.orders@[id - 1]) is Some
                && self.orders@[id - 1]->Some_0.is_flip ==> valid_tick(self.orders@[id - 1]->Some_0.flip_tick as int)
    }

    /// Every pending order is fresh, of an existing pair, at a valid tick,
    /// and a flip order's flip tick is valid and on the far side of its tick.
    closed spec fn pendings_ok(&self) -> bool {
        forall|id: int|
            1 <= id <= self.pending@.len() && (#[trigger] self.pending@[id - 1]) is Some ==> {
                let o = self.pending@[id - 1]->Some_0;
                &&& o.order_id == id
                &&& valid_tick(o.tick as int)
                &&& self.has_pair(o.base_token, o.quote_token)
                &&& 0 < o.amount
                &&& o.remaining == o.amount
                &&& o.prev == 0
                &&& o.next == 0
                &&& o.is_flip ==> valid_tick(o.flip_tick as int) && flip_tick_ok(
                    o.is_bid,
                    o.tick as int,
                    o.flip_tick as int,
                )
            }
    }

    /// No bid level above the bid cursor and no ask level below the ask
    /// cursor holds an order, and each cursor is a valid tick or its
    /// out-of-range sentinel.
    closed spec fn cursors_ok(&self) -> bool {
        forall|p: int|
            0 <= p < self.books@.len() ==> {
                let b = #[trigger] self.books@[p];
                &&& (b.best_bid_tick == MIN_TICK - 1 || valid_tick(b.best_bid_tick as int))
                &&& (b.best_ask_tick == MAX_TICK + 1 || valid_tick(b.best_ask_tick as int))
                &&& forall|i: int|
                    0 <= i < LEVELS_PER_SIDE && tick_at(i) > b.best_bid_tick ==> (
                    #[trigger] self.queues@[slot(p, true, i)]).len() == 0
                &&& forall|i: int|
                    0 <= i < LEVELS_PER_SIDE && tick_at(i) < b.best_ask_tick ==> (
                    #[trigger] self.queues@[slot(p, false, i)]).len() == 0
            }
    }

    /// The exchange's invariant.
    pub closed spec fn wf(&self) -> bool {
        &&& self.levels@.len() == self.books@.len() * LEVELS_PER_PAIR
        &&& self.queues@.len() == self.levels@.len()
        &&& self.books_ok()
        &&& self.levels_ok()
        &&& self.actives_ok()
        &&& self.flips_ok()
        &&& self.pendings_ok()
        &&& self.cursors_ok()
        &&& balances_ok(self.balances@)
    }

    // ============ Frames ============

    /// Both states hold the same pending and active orders and id counters.
    pub open spec fn orders_unchanged(a: &Self, b: &Self) -> bool {
        &&& a.next_active_id() == b.next_active_id()
        &&& a.next_pending_id() == b.next_pending_id()
        &&& forall|id: int| a.active_order(id) == b.active_order(id)
        &&& forall|id: int| a.pending_order(id) == b.pending_order(id)
    }

    /// Both states hold the same pairs, levels and queues.
    pub open spec fn books_unchanged(a: &Self, b: &Self) -> bool {
        &&& a.pair_count() == b.pair_count()
        &&& forall|p: int| a.book_at(p) == b.book_at(p)
        &&& forall|p: int, s: bool, i: int| a.level_at(p, s, i) == b.level_at(p, s, i)
        &&& forall|p: int, s: bool, i: int| a.queue_at(p, s, i) == b.queue_at(p, s, i)
    }

    /// Both states hold the same levels and queues.
    pub open spec fn levels_unchanged(a: &Self, b: &Self) -> bool {
        &&& forall|p: int, s: bool, i: int| a.level_at(p, s, i) == b.level_at(p, s, i)
        &&& forall|p: int, s: bool, i: int| a.queue_at(p, s, i) == b.queue_at(p, s, i)
    }

    /// Both states record the same balances.
    pub open spec fn balances_unchanged(a: &Self, b: &Self) -> bool {
        forall|u: Address, t: Address| a.balance(u, t) == b.balance(u, t)
    }

    // ============ Construction ============

    /// An exchange with no admin, no pairs, no orders and no balances.
    pub fn new() -> (r: StablecoinExchange)
        ensures
            r.wf(),
            r.admin_of() is None,
            r.pair_count() == 0,
            r.next_active_id() == 1,
            r.next_pending_id() == 1,
            forall|id: int| r.active_order(id) is None && r.pending_order(id) is None,
            forall|u: Address, t: Address| r.balance(u, t) == 0,
    {
        StablecoinExchange {
            admin: None,
            orders: Vec::new(),
            pending: Vec::new(),
            books: Vec::new(),
            levels: Vec::new(),
            queues: Ghost(Seq::empty()),
            balances: Vec::new(),
        }
    }
}

// ============ Lemmas ============

/// Distinct levels sit at distinct positions of the level store, all below
/// the store's length.
proof fn lemma_slot(n: int, p: int, s: bool, i: int, p2: int, s2: bool, i2: int)
    requires
        0 <= p < n,
        0 <= i < LEVELS_PER_SIDE,
        0 <= p2 < n,
        0 <= i2 < LEVELS_PER_SIDE,
    ensures
        0 <= slot(p, s, i) < n * LEVELS_PER_PAIR,
        slot(p, s, i) == slot(p2, s2, i2) ==> p == p2 && s == s2 && i == i2,
{
    assert(p * 802 + 802 <= n * 802) by (nonlinear_arith)
        requires
            0 <= p < n,
    ;
    if p < p2 {
        assert(p * 802 + 802 <= p2 * 802) by (nonlinear_arith)
            requires
                p < p2,
        ;
    } else if p2 < p {
        assert(p2 * 802 + 802 <= p * 802) by (nonlinear_arith)
            requires
                p2 < p,
        ;
    }
}

/// The deposit of an order: its quote cost at `tick` for a bid, its size
/// for an ask.
pub fn order_deposit(is_bid: bool, tick: i32, amount: i128) -> (r: Result<i128, Error>)
    ensures
        r == (if amount < 0 {
            Err(Error::InvalidAmount)
        } else if deposit_fits(is_bid, tick as int, amount as int) {
            Ok(deposit_of(is_bid, tick as int, amount as int) as i128)
        } else {
            Err(Error::Overflow)
        }),
{
    if amount < 0 {
        return Err(Error::InvalidAmount);
    }
    if is_bid {
        let price = crate::price::tick_to_price(tick);
        match amount.checked_mul(price) {
            Some(_) => {
                proof {
                    assert(amount * price_of(tick as int) >= 0) by (nonlinear_arith)
                        requires
                            amount >= 0,
                            price_of(tick as int) >= 1,
                    ;
                }
                Ok(calculate_quote_amount(amount, tick))
            },
            None => {
                proof {
                    assert(amount * price_of(tick as int) >= 0) by (nonlinear_arith)
                        requires
                            amount >= 0,
                            price_of(tick as int) >= 1,
                    ;
                }
                Err(Error::Overflow)
            },
        }
    } else {
        Ok(amount)
    }
}

impl StablecoinExchange {
    /// In a well-formed exchange a pair's tokens lead back to that pair.
    proof fn lemma_pair_unique(&self, p: int)
        requires
            self.books_ok(),
            0 <= p < self.books@.len(),
        ensures
            self.has_pair(self.books@[p].base_token, self.books@[p].quote_token),
            self.pair_of(self.books@[p].base_token, self.books@[p].quote_token) == p,
    {
        let b = self.books@[p];
        assert(self.is_pair(p, b.base_token, b.quote_token));
        let c = self.pair_of(b.base_token, b.quote_token);
        if c != p {
            if c < p {
                assert(!(self.books@[c].base_token == self.books@[p].base_token
                    && self.books@[c].quote_token == self.books@[p].quote_token));
            } else {
                assert(!(self.books@[p].base_token == self.books@[c].base_token
                    && self.books@[p].quote_token == self.books@[c].quote_token));
            }
        }
    }

    /// The index of the pair that trades `base_token` against `quote_token`.
    fn find_pair(&self, base_token: Address, quote_token: Address) -> (r: Option<usize>)
        requires
            self.wf(),
        ensures
            r is None <==> !self.has_pair(base_token, quote_token),
            r matches Some(p) ==> self.is_pair(p as int, base_token, quote_token) && p as int
                == self.pair_of(base_token, quote_token),
    {
        let mut p: usize = 0;
        while p < self.books.len()
            invariant
                self.wf(),
                0 <= p <= self.books@.len(),
                forall|r: int| 0 <= r < p ==> !is_pair_in(self.books_view(), r, base_token, quote_token),
            decreases self.books@.len() - p,
        {
            let b = self.books[p];
            if b.base_token == base_token && b.quote_token == quote_token {
                proof {
                    self.lemma_pair_unique(p as int);
                }
                return Some(p);
            }
            p = p + 1;
        }
        None
    }

    /// Position of the level of tick `tick` on one side of pair `p`.
    fn slot_of(&self, p: usize, is_bid: bool, tick: i32) -> (k: usize)
        requires
            self.wf(),
            p < self.books@.len(),
            valid_tick(tick as int),
        ensures
            k == slot(p as int, is_bid, level_index(tick as int)),
            k < self.levels@.len(),
    {
        let _ = self.levels.len();
        proof {
            lemma_level_index(tick as int);
            lemma_slot(self.books@.len() as int, p as int, is_bid, level_index(tick as int), p as int, is_bid, 0);
        }
        let i = ((tick - MIN_TICK) as usize) / (TICK_SPACING as usize);
        let side: usize = if is_bid { 0 } else { LEVELS_PER_SIDE };
        proof {
            assert(p * LEVELS_PER_PAIR + LEVELS_PER_PAIR <= self.books@.len() * LEVELS_PER_PAIR) by (nonlinear_arith)
                requires p < self.books@.len();
        }
        p * LEVELS_PER_PAIR + side + i
    }

    // ============ Admin ============

    /// Sets the admin; refused once one is set.
    pub fn initialize(&mut self, admin: Address) -> (r: Result<(), Error>)
        requires
            old(self).wf(),
        ensures
            final(self).wf(),
            r == (if old(self).admin_of() is Some { Err(Error::AlreadyInitialized) } else { Ok(()) }),
            r is Ok ==> final(self).admin_of() == Some(admin),
            Self::orders_unchanged(old(self), final(self)),
            Self::books_unchanged(old(self), final(self)),
            Self::balances_unchanged(old(self), final(self)),
            r is Err ==> *final(self) == *old(self),
    {
        if self.admin.is_some() {
            return Err(Error::AlreadyInitialized);
        }
        self.admin = Some(admin);
        Ok(())
    }

    /// The admin, if one is set.
    pub fn admin(&self) -> (r: Option<Address>)
        ensures
            r == self.admin_of(),
    {
        self.admin
    }

    // ============ Pairs ============

    /// Creates the pair that trades `base_token` against `quote_token`, with
    /// empty levels and both cursors at their sentinels.
    pub fn create_pair(&mut self, caller: Address, base_token: Address, quote_token: Address) -> (r: Result<(), Error>)
        requires
            old(self).wf(),
        ensures
            final(self).wf(),
            r == (if base_token == quote_token {
                Err(Error::SameToken)
            } else if old(self).has_pair(base_token, quote_token) {
                Err(Error::PairAlreadyExists)
            } else {
                Ok(())
            }),
            r is Err ==> *final(self) == *old(self),
            r is Ok ==> {
                &&& final(self).pair_count() == old(self).pair_count() + 1
                &&& final(self).book(base_token, quote_token) == Some(new_book(base_token, quote_token))
                &&& forall|p: int| 0 <= p < old(self).pair_count() ==> final(self).book_at(p) == old(self).book_at(p)
                &&& forall|p: int, s: bool, i: int| 0 <= p < old(self).pair_count() && 0 <= i < LEVELS_PER_SIDE
                    ==> final(self).level_at(p, s, i) == old(self).level_at(p, s, i)
                        && final(self).queue_at(p, s, i) == old(self).queue_at(p, s, i)
                &&& forall|s: bool, tick: int| valid_tick(tick) ==> final(self).level(base_token, quote_token, s, tick) == empty_level()
                    && final(self).queue(base_token, quote_token, s, tick).len() == 0
                &&& Self::orders_unchanged(old(self), final(self))
                &&& Self::balances_unchanged(old(self), final(self))
            },
    {
        if base_token == quote_token {
            return Err(Error::SameToken);
        }
        if self.find_pair(base_token, quote_token).is_some() {
            return Err(Error::PairAlreadyExists);
        }
        let ghost old_self = *self;
        let n0 = self.levels.len();
        let mut k: usize = 0;
        while k < LEVELS_PER_PAIR
            invariant
                self.levels@.len() == n0 + k,
                n0 == old_self.levels@.len(),
                k <= LEVELS_PER_PAIR,
                forall|m: int| 0 <= m < n0 ==> self.levels@[m] == old_self.levels@[m],
                forall|m: int| n0 <= m < n0 + k ==> self.levels@[m] == empty_level(),
                self.books@ == old_self.books@,
                self.orders@ == old_self.orders@,
                self.pending@ == old_self.pending@,
                self.balances@ == old_self.balances@,
                self.queues@ == old_self.queues@,
                self.admin == old_self.admin,
            decreases LEVELS_PER_PAIR - k,
        {
            self.levels.push(TickLevel { head: 0, tail: 0, total_liquidity: 0 });
            k = k + 1;
        }
        self.queues = Ghost(self.queues@ + Seq::new(LEVELS_PER_PAIR as nat, |m: int| Seq::<u128>::empty()));
        self.books.push(Orderbook::new(base_token, quote_token));
        proof {
            let n = old_self.books@.len() as int;
            assert(self.books@[n] == new_book(base_token, quote_token));
            assert forall|p: int, r: int| 0 <= p < r < self.books@.len() implies !(self.books@[p].base_token
                == self.books@[r].base_token && self.books@[p].quote_token == self.books@[r].quote_token) by {
                if r == n {
                    assert(!old_self.is_pair(p, base_token, quote_token));
                }
            }
            assert(self.books_ok());
            assert forall|p: int, s: bool, i: int|
                0 <= p < self.books@.len() && 0 <= i < LEVELS_PER_SIDE implies #[trigger] level_ok(
                    self.orders@,
                    self.levels@[slot(p, s, i)],
                    self.queues@[slot(p, s, i)],
                    self.books@[p],
                    s,
                    tick_at(i),
                ) by {
                lemma_slot(n + 1, p, s, i, p, s, i);
                if p < n {
                    lemma_slot(n, p, s, i, p, s, i);
                    assert(old_self.levels_ok());
                    assert(level_ok(old_self.orders@, old_self.levels@[slot(p, s, i)], old_self.queues@[slot(p, s, i)], old_self.books@[p], s, tick_at(i)));
                } else {
                    assert(slot(p, s, i) >= n * LEVELS_PER_PAIR) by (nonlinear_arith)
                        requires p == n, 0 <= i;
                    assert(self.queues@[slot(p, s, i)] == Seq::<u128>::empty());
                }
            }
            assert forall|p: int| 0 <= p < n implies self.has_pair(self.books@[p].base_token, self.books@[p].quote_token)
                && self.pair_of(self.books@[p].base_token, self.books@[p].quote_token) == p
                && old_self.pair_of(self.books@[p].base_token, self.books@[p].quote_token) == p by {
                self.lemma_pair_unique(p);
                old_self.lemma_pair_unique(p);
            }
            assert forall|id: int| 1 <= id <= self.orders@.len() && (#[trigger] self.orders@[id - 1]) is Some implies {
                let o = self.orders@[id - 1]->Some_0;
                &&& o.order_id == id
                &&& valid_tick(o.tick as int)
                &&& self.has_pair(o.base_token, o.quote_token)
                &&& in_queue(self.queues@[slot(self.pair_of(o.base_token, o.quote_token), o.is_bid, level_index(o.tick as int))], id as u128)
            } by {
                let o = self.orders@[id - 1]->Some_0;
                assert(old_self.actives_ok());
                let p = old_self.pair_of(o.base_token, o.quote_token);
                assert(old_self.is_pair(p, o.base_token, o.quote_token));
                self.lemma_pair_unique(p);
                lemma_level_index(o.tick as int);
                lemma_slot(n, p, o.is_bid, level_index(o.tick as int), p, o.is_bid, 0);
            }
            assert forall|id: int| 1 <= id <= self.pending@.len() && (#[trigger] self.pending@[id - 1]) is Some implies
                self.has_pair(self.pending@[id - 1]->Some_0.base_token, self.pending@[id - 1]->Some_0.quote_token) by {
                assert(old_self.pendings_ok());
                let o = self.pending@[id - 1]->Some_0;
                let p = old_self.pair_of(o.base_token, o.quote_token);
                assert(self.is_pair(p, o.base_token, o.quote_token));
            }
            assert forall|p: int| 0 <= p < self.books@.len() implies {
                let b = #[trigger] self.books@[p];
                &&& (b.best_bid_tick == MIN_TICK - 1 || valid_tick(b.best_bid_tick as int))
                &&& (b.best_ask_tick == MAX_TICK + 1 || valid_tick(b.best_ask_tick as int))
                &&& forall|i: int| 0 <= i < LEVELS_PER_SIDE && tick_at(i) > b.best_bid_tick ==> (
                    #[trigger] self.queues@[slot(p, true, i)]).len() == 0
                &&& forall|i: int| 0 <= i < LEVELS_PER_SIDE && tick_at(i) < b.best_ask_tick ==> (
                    #[trigger] self.queues@[slot(p, false, i)]).len() == 0
            } by {
                if p < n {
                    assert(old_self.cursors_ok());
                    assert forall|i: int| 0 <= i < LEVELS_PER_SIDE implies
                        #[trigger] self.queues@[slot(p, true, i)] == old_self.queues@[slot(p, true, i)]
                        && self.queues@[slot(p, false, i)] == old_self.queues@[slot(p, false, i)] by {
                        lemma_slot(n, p, true, i, p, true, i);
                        lemma_slot(n, p, false, i, p, false, i);
                    }
                } else {
                    assert forall|i: int| 0 <= i < LEVELS_PER_SIDE implies
                        (#[trigger] self.queues@[slot(p, true, i)]).len() == 0
                        && self.queues@[slot(p, false, i)].len() == 0 by {
                        lemma_slot(n + 1, p, true, i, p, true, i);
                        lemma_slot(n + 1, p, false, i, p, false, i);
                        assert(slot(p, false, i) >= n * LEVELS_PER_PAIR) by (nonlinear_arith)
                            requires p == n, 0 <= i;
                        assert(slot(p, true, i) >= n * LEVELS_PER_PAIR) by (nonlinear_arith)
                            requires p == n, 0 <= i;
                    }
                }
            }
            assert(self.wf());
            self.lemma_pair_unique(n);
            assert forall|p: int, s: bool, i: int| 0 <= p < n && 0 <= i < LEVELS_PER_SIDE
                implies self.level_at(p, s, i) == old_self.level_at(p, s, i)
                    && self.queue_at(p, s, i) == old_self.queue_at(p, s, i) by {
                lemma_slot(n, p, s, i, p, s, i);
            }
            assert forall|s: bool, tick: int| valid_tick(tick) implies self.level(base_token, quote_token, s, tick) == empty_level()
                && self.queue(base_token, quote_token, s, tick).len() == 0 by {
                lemma_level_index(tick);
                let i = level_index(tick);
                lemma_slot(n + 1, n, s, i, n, s, i);
                assert(slot(n, s, i) >= n * LEVELS_PER_PAIR) by (nonlinear_arith)
                    requires 0 <= i;
            }
        }
        Ok(())
    }

    /// The book of the pair that trades `base_token` against `quote_token`.
    pub fn get_orderbook(&self, base_token: Address, quote_token: Address) -> (r: Result<Orderbook, Error>)
        requires
            self.wf(),
        ensures
            r == (match self.book(base_token, quote_token) {
                Some(b) => Ok(b),
                None => Err(Error::PairNotFound),
            }),
    {
        match self.find_pair(base_token, quote_token) {
            Some(p) => Ok(self.books[p]),
            None => Err(Error::PairNotFound),
        }
    }
}

/// The error a placement at `tick` of `amount` fails with, if any, in the
/// order the checks are made.
pub open spec fn place_error(
    has_pair: bool,
    is_bid: bool,
    tick: int,
    amount: int,
) -> Option<Error> {
    if !tick_in_range(tick) {
        Some(Error::InvalidTick)
    } else if tick % (TICK_SPACING as int) != 0 {
        Some(Error::TickNotAligned)
    } else if amount < MIN_ORDER_SIZE {
        Some(Error::OrderTooSmall)
    } else if !has_pair {
        Some(Error::PairNotFound)
    } else if !deposit_fits(is_bid, tick, amount) {
        Some(Error::Overflow)
    } else {
        None
    }
}

/// The error a flip placement fails with, if any: the checks of a
/// placement, with the flip tick's range and grid checked right after the
/// tick's, and its side checked before the deposit.
pub open spec fn place_flip_error(
    has_pair: bool,
    is_bid: bool,
    tick: int,
    amount: int,
    flip_tick: int,
) -> Option<Error> {
    if !tick_in_range(tick) {
        Some(Error::InvalidTick)
    } else if tick % (TICK_SPACING as int) != 0 {
        Some(Error::TickNotAligned)
    } else if !tick_in_range(flip_tick) {
        Some(Error::InvalidTick)
    } else if flip_tick % (TICK_SPACING as int) != 0 {
        Some(Error::TickNotAligned)
    } else if amount < MIN_ORDER_SIZE {
        Some(Error::OrderTooSmall)
    } else if !has_pair {
        Some(Error::PairNotFound)
    } else if !flip_tick_ok(is_bid, tick, flip_tick) {
        Some(if is_bid { Error::InvalidBidFlipTick } else { Error::InvalidAskFlipTick })
    } else if !deposit_fits(is_bid, tick, amount) {
        Some(Error::Overflow)
    } else {
        None
    }
}

impl StablecoinExchange {
    // ============ Balances ============

    /// Position of the entry of `user` in `token`, if there is one.
    fn find_balance(&self, user: Address, token: Address) -> (r: Option<usize>)
        ensures
            r matches Some(i) ==> i < self.balances@.len() && self.balances@[i as int].user == user
                && self.balances@[i as int].token == token,
            r is None ==> forall|i: int| 0 <= i < self.balances@.len()
                ==> !(#[trigger] self.balances@[i].user == user && self.balances@[i].token == token),
    {
        let mut i: usize = 0;
        while i < self.balances.len()
            invariant
                i <= self.balances@.len(),
                forall|k: int| 0 <= k < i ==> !(#[trigger] self.balances@[k].user == user && self.balances@[k].token == token),
            decreases self.balances@.len() - i,
        {
            let e = self.balances[i];
            if e.user == user && e.token == token {
                return Some(i);
            }
            i = i + 1;
        }
        None
    }

    /// The credit of `user` in `token`.
    pub fn balance_of(&self, user: Address, token: Address) -> (r: i128)
        requires
            self.wf(),
        ensures
            r == self.balance(user, token),
            r >= 0,
    {
        match self.find_balance(user, token) {
            Some(i) => {
                proof {
                    lemma_balance_entry(self.balances@, i as int);
                }
                self.balances[i].amount
            },
            None => {
                proof {
                    lemma_balance_absent(self.balances@, user, token);
                }
                0
            },
        }
    }

    /// Sets the credit of `user` in `token` to a new, non-negative amount.
    fn set_balance(&mut self, user: Address, token: Address, amount: i128)
        requires
            old(self).wf(),
            amount >= 0,
        ensures
            final(self).wf(),
            final(self).balance(user, token) == amount,
            forall|u: Address, t: Address| !(u == user && t == token) ==> final(self).balance(u, t) == old(self).balance(u, t),
            forall|t: Address| final(self).total_credit(t) == old(self).total_credit(t) + (if t == token {
                amount - old(self).balance(user, token)
            } else {
                0int
            }),
            final(self).orders@ == old(self).orders@,
            final(self).pending@ == old(self).pending@,
            final(self).books@ == old(self).books@,
            final(self).levels@ == old(self).levels@,
            final(self).queues@ == old(self).queues@,
            final(self).admin == old(self).admin,
    {
        let ghost s0 = self.balances@;
        match self.find_balance(user, token) {
            Some(i) => {
                self.balances.set(i, BalanceEntry { user, token, amount });
                proof {
                    assert(self.balances@ =~= s0.update(i as int, BalanceEntry { amount, ..s0[i as int] }));
                    assert forall|u: Address, t: Address| true implies self.balance(u, t) == (if u == user && t == token {
                        amount as int
                    } else {
                        balance_in(s0, u, t)
                    }) by {
                        lemma_balance_update(s0, i as int, amount, u, t);
                    }
                    lemma_balance_entry(s0, i as int);
                    assert forall|t: Address| self.total_credit(t) == token_total(s0, t) + (if t == token {
                        amount - balance_in(s0, user, token)
                    } else {
                        0int
                    }) by {
                        lemma_token_total_update(s0, i as int, BalanceEntry { amount, ..s0[i as int] }, t);
                    }
                }
            },
            None => {
                self.balances.push(BalanceEntry { user, token, amount });
                proof {
                    assert(self.balances@.drop_last() =~= s0);
                    lemma_balance_absent(s0, user, token);
                }
            },
        }
    }

    /// Adds `amount` to the credit of `user` in `token`.
    fn add_balance(&mut self, user: Address, token: Address, amount: i128) -> (r: Result<(), Error>)
        requires
            old(self).wf(),
            amount >= 0,
        ensures
            final(self).wf(),
            r is Ok <==> old(self).balance(user, token) + amount <= i128::MAX,
            r is Err ==> r == Err::<(), Error>(Error::Overflow) && *final(self) == *old(self),
            r is Ok ==> final(self).balance(user, token) == old(self).balance(user, token) + amount,
            r is Ok ==> forall|u: Address, t: Address| !(u == user && t == token) ==> final(self).balance(u, t) == old(self).balance(u, t),
            r is Ok ==> forall|t: Address| final(self).total_credit(t) == old(self).total_credit(t) + (if t == token { amount as int } else { 0int }),
            final(self).orders@ == old(self).orders@,
            final(self).pending@ == old(self).pending@,
            final(self).books@ == old(self).books@,
            final(self).levels@ == old(self).levels@,
            final(self).queues@ == old(self).queues@,
            final(self).admin == old(self).admin,
    {
        let current = self.balance_of(user, token);
        match current.checked_add(amount) {
            Some(total) => {
                self.set_balance(user, token, total);
                Ok(())
            },
            None => Err(Error::Overflow),
        }
    }

    /// Withdraws `amount` of `token` from the credit of `user`; the caller
    /// pays it out.
    pub fn withdraw(&mut self, user: Address, token: Address, amount: i128) -> (r: Result<(), Error>)
        requires
            old(self).wf(),
        ensures
            final(self).wf(),
            r == (if amount <= 0 {
                Err(Error::InvalidAmount)
            } else if old(self).balance(user, token) < amount {
                Err(Error::InsufficientBalance)
            } else {
                Ok(())
            }),
            r is Err ==> *final(self) == *old(self),
            r is Ok ==> final(self).balance(user, token) == old(self).balance(user, token) - amount,
            r is Ok ==> forall|u: Address, t: Address| !(u == user && t == token) ==> final(self).balance(u, t) == old(self).balance(u, t),
            Self::orders_unchanged(old(self), final(self)),
            Self::books_unchanged(old(self), final(self)),
            final(self).admin_of() == old(self).admin_of(),
    {
        if amount <= 0 {
            return Err(Error::InvalidAmount);
        }
        let current = self.balance_of(user, token);
        if current < amount {
            return Err(Error::InsufficientBalance);
        }
        self.set_balance(user, token, current - amount);
        Ok(())
    }

    // ============ Order placement ============

    /// Stores a new pending order under the next pending id.
    fn push_pending(&mut self, o: Order)
        requires
            old(self).wf(),
            o.order_id == old(self).pending@.len() + 1,
            valid_tick(o.tick as int),
            old(self).has_pair(o.base_token, o.quote_token),
            0 < o.amount,
            o.remaining == o.amount,
            o.prev == 0,
            o.next == 0,
            o.is_flip ==> valid_tick(o.flip_tick as int) && flip_tick_ok(o.is_bid, o.tick as int, o.flip_tick as int),
        ensures
            final(self).wf(),
            final(self).pending@ == old(self).pending@.push(Some(o)),
            final(self).orders@ == old(self).orders@,
            final(self).books@ == old(self).books@,
            final(self).levels@ == old(self).levels@,
            final(self).queues@ == old(self).queues@,
            final(self).balances@ == old(self).balances@,
            final(self).admin == old(self).admin,
    {
        self.pending.push(Some(o));
        proof {
            let s0 = old(self);
            assert forall|id: int| 1 <= id <= self.pending@.len() && (#[trigger] self.pending@[id - 1]) is Some implies {
                let o = self.pending@[id - 1]->Some_0;
                &&& o.order_id == id
                &&& valid_tick(o.tick as int)
                &&& self.has_pair(o.base_token, o.quote_token)
                &&& 0 < o.amount
                &&& o.remaining == o.amount
                &&& o.prev == 0
                &&& o.next == 0
                &&& o.is_flip ==> valid_tick(o.flip_tick as int) && flip_tick_ok(o.is_bid, o.tick as int, o.flip_tick as int)
            } by {
                if id <= s0.pending@.len() {
                    assert(self.pending@[id - 1] == s0.pending@[id - 1]);
                }
            }
        }
    }

    /// Records a pending order after the placement checks passed.
    fn place_checked(
        &mut self,
        maker: Address,
        base_token: Address,
        quote_token: Address,
        is_bid: bool,
        tick: i32,
        amount: i128,
        is_flip: bool,
        flip_tick: i32,
    ) -> (r: u128)
        requires
            old(self).wf(),
            valid_tick(tick as int),
            amount >= MIN_ORDER_SIZE,
            old(self).has_pair(base_token, quote_token),
            is_flip ==> valid_tick(flip_tick as int) && flip_tick_ok(is_bid, tick as int, flip_tick as int),
        ensures
            final(self).wf(),
            r == old(self).next_pending_id(),
            final(self).next_pending_id() == old(self).next_pending_id() + 1,
            final(self).pending_order(r as int) == Some(fresh_order(r, maker, base_token, quote_token, is_bid, tick, amount, is_flip, flip_tick)),
            forall|id: int| id != r ==> final(self).pending_order(id) == old(self).pending_order(id),
            final(self).orders@ == old(self).orders@,
            final(self).books@ == old(self).books@,
            final(self).levels@ == old(self).levels@,
            final(self).queues@ == old(self).queues@,
            final(self).balances@ == old(self).balances@,
            final(self).admin == old(self).admin,
    {
        let n = self.pending.len();
        let order_id = (n as u128) + 1;
        let o = Order {
            order_id,
            maker,
            base_token,
            quote_token,
            is_bid,
            tick,
            amount,
            remaining: amount,
            prev: 0,
            next: 0,
            is_flip,
            flip_tick,
        };
        self.push_pending(o);
        order_id
    }

    /// Places a limit order: it waits in the pending namespace until a
    /// block activates it. The caller takes the deposit (`order_deposit`).
    pub fn place(
        &mut self,
        maker: Address,
        base_token: Address,
        quote_token: Address,
        is_bid: bool,
        tick: i32,
        amount: i128,
    ) -> (r: Result<u128, Error>)
        requires
            old(self).wf(),
        ensures
            final(self).wf(),
            r is Err <==> place_error(old(self).has_pair(base_token, quote_token), is_bid, tick as int, amount as int) is Some,
            r matches Err(e) ==> Some(e) == place_error(old(self).has_pair(base_token, quote_token), is_bid, tick as int, amount as int),
            r is Err ==> *final(self) == *old(self),
            r matches Ok(id) ==> {
                &&& id == old(self).next_pending_id()
                &&& id >= 1
                &&& final(self).next_pending_id() == old(self).next_pending_id() + 1
                &&& final(self).pending_order(id as int) == Some(fresh_order(id, maker, base_token, quote_token, is_bid, tick, amount, false, 0))
                &&& forall|k: int| k != id ==> final(self).pending_order(k) == old(self).pending_order(k)
                &&& final(self).next_active_id() == old(self).next_active_id()
                &&& forall|k: int| final(self).active_order(k) == old(self).active_order(k)
                &&& Self::books_unchanged(old(self), final(self))
                &&& Self::balances_unchanged(old(self), final(self))
            },
    {
        validate_tick(tick)?;
        if amount < MIN_ORDER_SIZE {
            return Err(Error::OrderTooSmall);
        }
        if self.find_pair(base_token, quote_token).is_none() {
            return Err(Error::PairNotFound);
        }
        order_deposit(is_bid, tick, amount)?;
        Ok(self.place_checked(maker, base_token, quote_token, is_bid, tick, amount, false, 0))
    }

    /// Places a flip order: once fully filled it re-posts, pending, on the
    /// other side at `flip_tick`. The caller takes the deposit.
    pub fn place_flip(
        &mut self,
        maker: Address,
        base_token: Address,
        quote_token: Address,
        is_bid: bool,
        tick: i32,
        amount: i128,
        flip_tick: i32,
    ) -> (r: Result<u128, Error>)
        requires
            old(self).wf(),
        ensures
            final(self).wf(),
            r is Err <==> place_flip_error(old(self).has_pair(base_token, quote_token), is_bid, tick as int, amount as int, flip_tick as int) is Some,
            r matches Err(e) ==> Some(e) == place_flip_error(old(self).has_pair(base_token, quote_token), is_bid, tick as int, amount as int, flip_tick as int),
            r is Err ==> *final(self) == *old(self),
            r matches Ok(id) ==> {
                &&& id == old(self).next_pending_id()
                &&& id >= 1
                &&& final(self).next_pending_id() == old(self).next_pending_id() + 1
                &&& final(self).pending_order(id as int) == Some(fresh_order(id, maker, base_token, quote_token, is_bid, tick, amount, true, flip_tick))
                &&& forall|k: int| k != id ==> final(self).pending_order(k) == old(self).pending_order(k)
                &&& final(self).next_active_id() == old(self).next_active_id()
                &&& forall|k: int| final(self).active_order(k) == old(self).active_order(k)
                &&& Self::books_unchanged(old(self), final(self))
                &&& Self::balances_unchanged(old(self), final(self))
            },
    {
        validate_tick(tick)?;
        validate_tick(flip_tick)?;
        if amount < MIN_ORDER_SIZE {
            return Err(Error::OrderTooSmall);
        }
        if self.find_pair(base_token, quote_token).is_none() {
            return Err(Error::PairNotFound);
        }
        if is_bid {
            Order::new_flip_bid(0, maker, base_token, quote_token, tick, amount, flip_tick)?;
        } else {
            Order::new_flip_ask(0, maker, base_token, quote_token, tick, amount, flip_tick)?;
        }
        order_deposit(is_bid, tick, amount)?;
        Ok(self.place_checked(maker, base_token, quote_token, is_bid, tick, amount, true, flip_tick))
    }

    // ============ Views ============

    /// The active order with this id, if any.
    pub fn get_order(&self, order_id: u128) -> (r: Option<Order>)
        ensures
            r == self.active_order(order_id as int),
    {
        if order_id >= 1 && order_id <= self.orders.len() as u128 {
            self.orders[(order_id - 1) as usize]
        } else {
            None
        }
    }

    /// The pending order with this id, if any.
    pub fn get_pending_order(&self, order_id: u128) -> (r: Option<Order>)
        ensures
            r == self.pending_order(order_id as int),
    {
        if order_id >= 1 && order_id <= self.pending.len() as u128 {
            self.pending[(order_id - 1) as usize]
        } else {
            None
        }
    }

    /// The level of one side of a pair at a tick; empty where there is no
    /// such pair or no such tick.
    pub fn get_tick_level(&self, base_token: Address, quote_token: Address, is_bid: bool, tick: i32) -> (r: TickLevel)
        requires
            self.wf(),
        ensures
            r == self.level(base_token, quote_token, is_bid, tick as int),
    {
        if validate_tick(tick).is_err() {
            return TickLevel { head: 0, tail: 0, total_liquidity: 0 };
        }
        match self.find_pair(base_token, quote_token) {
            Some(p) => {
                let k = self.slot_of(p, is_bid, tick);
                self.levels[k]
            },
            None => TickLevel { head: 0, tail: 0, total_liquidity: 0 },
        }
    }
}

/// Order `o` belongs to the level at index `i` of side `is_bid` of book `b`.
pub open spec fn located(o: Order, b: Orderbook, is_bid: bool, i: int) -> bool {
    &&& o.base_token == b.base_token
    &&& o.quote_token == b.quote_token
    &&& o.is_bid == is_bid
    &&& o.tick == tick_at(i)
}

/// Two lists of books of the same pairs, which may differ in their cursors.
pub open spec fn same_pairs(a: Seq<Orderbook>, b: Seq<Orderbook>) -> bool {
    &&& a.len() == b.len()
    &&& forall|p: int| 0 <= p < a.len() ==> (#[trigger] a[p]).base_token == b[p].base_token
        && a[p].quote_token == b[p].quote_token
}

/// A copy of a vector of copyable items.
fn copy_vec<T: Copy>(v: &Vec<T>) -> (r: Vec<T>)
    ensures
        r@ == v@,
{
    let mut r: Vec<T> = Vec::new();
    let mut i: usize = 0;
    while i < v.len()
        invariant
            i <= v@.len(),
            r@ == v@.subrange(0, i as int),
        decreases v@.len() - i,
    {
        r.push(v[i]);
        i = i + 1;
        proof {
            assert(r@ =~= v@.subrange(0, i as int));
        }
    }
    proof {
        assert(r@ =~= v@);
    }
    r
}

impl StablecoinExchange {
    /// A copy of the whole state.
    fn snapshot(&self) -> (r: StablecoinExchange)
        ensures
            r.same_state(self),
    {
        StablecoinExchange {
            admin: self.admin,
            orders: copy_vec(&self.orders),
            pending: copy_vec(&self.pending),
            books: copy_vec(&self.books),
            levels: copy_vec(&self.levels),
            queues: Ghost(self.queues@),
            balances: copy_vec(&self.balances),
        }
    }

    /// Both states hold the same contents.
    closed spec fn same_state(&self, other: &Self) -> bool {
        &&& self.admin == other.admin
        &&& self.orders@ == other.orders@
        &&& self.pending@ == other.pending@
        &&& self.books@ == other.books@
        &&& self.levels@ == other.levels@
        &&& self.queues@ == other.queues@
        &&& self.balances@ == other.balances@
    }

    /// Books of the same pairs lead the same tokens to the same pair.
    proof fn lemma_same_pairs(&self, other: &Self, base: Address, quote: Address)
        requires
            self.books_ok(),
            same_pairs(self.books@, other.books@),
        ensures
            other.books_ok(),
            other.has_pair(base, quote) == self.has_pair(base, quote),
            self.has_pair(base, quote) ==> other.pair_of(base, quote) == self.pair_of(base, quote),
    {
        if self.has_pair(base, quote) {
            let p = self.pair_of(base, quote);
            assert(other.is_pair(p, base, quote));
            let c = other.pair_of(base, quote);
            assert(self.is_pair(c, base, quote));
            if c != p {
                if c < p {
                    assert(!(self.books@[c].base_token == self.books@[p].base_token
                        && self.books@[c].quote_token == self.books@[p].quote_token));
                } else {
                    assert(!(self.books@[p].base_token == self.books@[c].base_token
                        && self.books@[p].quote_token == self.books@[c].quote_token));
                }
            }
        }
        if other.has_pair(base, quote) {
            let c = other.pair_of(base, quote);
            assert(self.is_pair(c, base, quote));
        }
        assert forall|p: int, r: int| 0 <= p < r < other.books@.len() implies !(other.books@[p].base_token
            == other.books@[r].base_token && other.books@[p].quote_token == other.books@[r].quote_token) by {
            assert(self.books@[p].base_token == other.books@[p].base_token);
            assert(self.books@[r].base_token == other.books@[r].base_token);
        }
        assert forall|p: int| 0 <= p < other.books@.len() implies #[trigger] other.books@[p].base_token
            != other.books@[p].quote_token by {
            assert(self.books@[p].base_token == other.books@[p].base_token);
        }
    }

    /// An order of level `(p, s, i)` is located there, and the level it is
    /// located at is unique.
    proof fn lemma_located_unique(&self, o: Order, p: int, s: bool, i: int, p2: int, s2: bool, i2: int)
        requires
            self.books_ok(),
            0 <= p < self.books@.len(),
            0 <= p2 < self.books@.len(),
            0 <= i < LEVELS_PER_SIDE,
            0 <= i2 < LEVELS_PER_SIDE,
            located(o, self.books@[p], s, i),
            located(o, self.books@[p2], s2, i2),
        ensures
            p == p2 && s == s2 && i == i2,
    {
        self.lemma_pair_unique(p);
        self.lemma_pair_unique(p2);
    }

    /// Levels other than `(p0, s0, i0)` stay well-formed when only orders
    /// of that level, or ids that held no order, change, and when the other
    /// levels and queues and all pairs' tokens stay as they were.
    proof fn lemma_levels_frame(&self, new: &Self, p0: int, s0: bool, i0: int)
        requires
            self.wf(),
            0 <= p0 < self.books@.len(),
            0 <= i0 < LEVELS_PER_SIDE,
            same_pairs(self.books@, new.books@),
            new.levels@.len() == self.levels@.len(),
            new.queues@.len() == self.queues@.len(),
            forall|k: int| 0 <= k < self.levels@.len() && k != slot(p0, s0, i0) ==> new.levels@[k] == self.levels@[k]
                && new.queues@[k] == self.queues@[k],
            forall|id: int| #[trigger] order_in(new.orders@, id) != order_in(self.orders@, id) ==> (
                order_in(self.orders@, id) is None || located(order_in(self.orders@, id)->Some_0, self.books@[p0], s0, i0)),
        ensures
            forall|p: int, s: bool, i: int|
                0 <= p < new.books@.len() && 0 <= i < LEVELS_PER_SIDE && slot(p, s, i) != slot(p0, s0, i0) ==> #[trigger] level_ok(
                    new.orders@,
                    new.levels@[slot(p, s, i)],
                    new.queues@[slot(p, s, i)],
                    new.books@[p],
                    s,
                    tick_at(i),
                ),
    {
        let n = self.books@.len() as int;
        assert forall|p: int, s: bool, i: int|
            0 <= p < new.books@.len() && 0 <= i < LEVELS_PER_SIDE && slot(p, s, i) != slot(p0, s0, i0) implies #[trigger] level_ok(
                new.orders@,
                new.levels@[slot(p, s, i)],
                new.queues@[slot(p, s, i)],
                new.books@[p],
                s,
                tick_at(i),
            ) by {
            lemma_slot(n, p, s, i, p0, s0, i0);
            let k = slot(p, s, i);
            let q = self.queues@[k];
            assert(level_ok(self.orders@, self.levels@[k], q, self.books@[p], s, tick_at(i)));
            assert forall|j: int| 0 <= j < q.len() implies order_in(new.orders@, #[trigger] q[j] as int) == order_in(self.orders@, q[j] as int) by {
                assert(entry_ok(self.orders@, q, j, self.books@[p], s, tick_at(i)));
                let o = order_in(self.orders@, q[j] as int)->Some_0;
                assert(located(o, self.books@[p], s, i));
                if order_in(new.orders@, q[j] as int) != order_in(self.orders@, q[j] as int) {
                    self.lemma_located_unique(o, p, s, i, p0, s0, i0);
                }
            }
            assert forall|j: int| 0 <= j < q.len() implies #[trigger] entry_ok(new.orders@, q, j, new.books@[p], s, tick_at(i)) by {
                assert(entry_ok(self.orders@, q, j, self.books@[p], s, tick_at(i)));
                assert(order_in(new.orders@, q[j] as int) == order_in(self.orders@, q[j] as int));
            }
            assert forall|j: int| 0 <= j < q.len() implies remaining_of(self.orders@, #[trigger] q[j]) == remaining_of(new.orders@, q[j]) by {
                assert(order_in(new.orders@, q[j] as int) == order_in(self.orders@, q[j] as int));
            }
            lemma_sum_frame(self.orders@, new.orders@, q);
        }
    }
}

impl StablecoinExchange {
    /// `new` is `old` after pending order `pending_id` was activated: it got
    /// the next active id and joined the tail of its level's queue, its
    /// remainder joined the level's liquidity, and the cursor of its side
    /// moved to its tick where that tick is better.
    pub open spec fn activation(old: &Self, new: &Self, pending_id: int) -> bool {
        let o = old.pending_order(pending_id)->Some_0;
        let a = old.next_active_id();
        let p = old.pair_of(o.base_token, o.quote_token);
        let i = level_index(o.tick as int);
        let q = old.queue_at(p, o.is_bid, i);
        let tail = if q.len() == 0 { 0u128 } else { q.last() };
        let b = old.book_at(p);
        &&& new.next_active_id() == a + 1
        &&& new.active_order(a) == Some(Order { order_id: a as u128, prev: tail, next: 0, ..o })
        &&& q.len() > 0 ==> new.active_order(tail as int) == Some(
            Order { next: a as u128, ..old.active_order(tail as int)->Some_0 },
        )
        &&& forall|id: int| id != a && id != tail ==> new.active_order(id) == old.active_order(id)
        &&& new.queue_at(p, o.is_bid, i) == q.push(a as u128)
        &&& new.level_at(p, o.is_bid, i).total_liquidity == old.level_at(p, o.is_bid, i).total_liquidity
            + o.remaining
        &&& forall|p2: int, s2: bool, i2: int|
            0 <= p2 < old.pair_count() && 0 <= i2 < LEVELS_PER_SIDE && !(p2 == p && s2 == o.is_bid && i2 == i)
                ==> new.level_at(p2, s2, i2) == old.level_at(p2, s2, i2) && new.queue_at(p2, s2, i2)
                == old.queue_at(p2, s2, i2)
        &&& new.pair_count() == old.pair_count()
        &&& forall|p2: int| 0 <= p2 < old.pair_count() && p2 != p ==> new.book_at(p2) == old.book_at(p2)
        &&& new.book_at(p) == (if o.is_bid {
            Orderbook { best_bid_tick: if o.tick > b.best_bid_tick { o.tick } else { b.best_bid_tick }, ..b }
        } else {
            Orderbook { best_ask_tick: if o.tick < b.best_ask_tick { o.tick } else { b.best_ask_tick }, ..b }
        })
        &&& new.next_pending_id() == old.next_pending_id()
        &&& new.pending_order(pending_id) is None
        &&& forall|id: int| id != pending_id ==> new.pending_order(id) == old.pending_order(id)
        &&& Self::balances_unchanged(old, new)
        &&& new.admin_of() == old.admin_of()
    }

    /// A swap of `amount_in` against pair `p` stays within `i128`: the input
    /// times twice the price scale fits, so does the output of the walk, and
    /// so does every balance plus the input, which bounds what any maker can
    /// be credited.
    pub open spec fn walk_fits(&self, p: int, is_buy: bool, amount_in: int) -> bool {
        let b = self.book_at(p);
        let w = if is_buy {
            swap_walk(self.side_rems(p, false), true, cursor_index(b.best_ask_tick as int), amount_in)
        } else {
            swap_walk(self.side_rems(p, true), false, cursor_index(b.best_bid_tick as int), amount_in)
        };
        &&& amount_in * (2 * PRICE_SCALE) <= i128::MAX
        &&& w.0 <= i128::MAX
        &&& forall|u: Address, t: Address| #[trigger] self.balance(u, t) + amount_in <= i128::MAX
    }

    /// A swap of `amount_in` on the pair of `base` and `quote` stays within
    /// `i128` (see `walk_fits`).
    pub open spec fn swap_fits(&self, base: Address, quote: Address, is_buy: bool, amount_in: int) -> bool {
        self.walk_fits(self.pair_of(base, quote), is_buy, amount_in)
    }

    /// Active order `x` belongs to maker `u` and rests on side `is_bid` of
    /// pair `p`.
    pub open spec fn rests_with(&self, x: int, u: Address, p: int, is_bid: bool) -> bool {
        &&& self.active_order(x) is Some
        &&& self.active_order(x)->Some_0.maker == u
        &&& self.active_order(x)->Some_0.is_bid == is_bid
        &&& self.is_pair(p, self.active_order(x)->Some_0.base_token, self.active_order(x)->Some_0.quote_token)
    }

    /// `u` has an order resting on side `is_bid` of pair `p`.
    pub open spec fn maker_on(&self, u: Address, p: int, is_bid: bool) -> bool {
        exists|x: int| #[trigger] self.rests_with(x, u, p, is_bid)
    }

    /// A fill of up to `amount` base at `tick` on side `is_bid` of pair `p`
    /// stays within `i128`: its quote value fits, and so does every balance
    /// plus the most a maker can be credited by it (the base for a bid, its
    /// quote value for an ask).
    pub open spec fn fill_fits(&self, p: int, is_bid: bool, tick: int, amount: int) -> bool {
        let cap = if is_bid { amount } else { (amount * price_of(tick)) / (PRICE_SCALE as int) };
        &&& amount * price_of(tick) <= i128::MAX
        &&& forall|u: Address, t: Address| #[trigger] self.balance(u, t) + cap <= i128::MAX
    }

    /// Activating pending order `pending_id` would take its level's liquidity
    /// out of `i128`, or run out of active ids.
    pub open spec fn activation_overflows(&self, pending_id: int) -> bool {
        let o = self.pending_order(pending_id)->Some_0;
        let p = self.pair_of(o.base_token, o.quote_token);
        ||| self.level_at(p, o.is_bid, level_index(o.tick as int)).total_liquidity + o.remaining > i128::MAX
        ||| self.next_active_id() > usize::MAX
    }

    /// Moves pending order `pending_id` to the tail of its level's queue
    /// under the next active id. Fails, changing nothing, where the level's
    /// liquidity would leave `i128`.
    fn activate_order(&mut self, pending_id: u128) -> (r: Result<(), Error>)
        requires
            old(self).wf(),
            old(self).pending_order(pending_id as int) is Some,
        ensures
            final(self).wf(),
            r is Err ==> r == Err::<(), Error>(Error::Overflow) && *final(self) == *old(self),
            r is Err <==> old(self).activation_overflows(pending_id as int),
            r is Ok ==> Self::activation(old(self), final(self), pending_id as int),
            same_pairs(old(self).books@, final(self).books@),
    {
        let ghost s0 = *self;
        let _ = self.pending.len();
        let _ = self.orders.len();
        proof {
            assert(1 <= pending_id <= self.pending@.len());
            assert(self.pending@.len() <= usize::MAX);
            assert(s0.pendings_ok());
            assert(s0.pending@[pending_id - 1] is Some);
        }
        let pidx = (pending_id - 1) as usize;
        let o = self.pending[pidx].unwrap();
        let p = self.find_pair(o.base_token, o.quote_token).unwrap();
        let k = self.slot_of(p, o.is_bid, o.tick);
        let ghost i = level_index(o.tick as int);
        let ghost q = self.queues@[k as int];
        let mut lv = self.levels[k];
        proof {
            lemma_level_index(o.tick as int);
            assert(level_ok(s0.orders@, s0.levels@[k as int], q, s0.books@[p as int], o.is_bid, tick_at(i)));
            if q.len() > 0 {
                assert(entry_ok(s0.orders@, q, q.len() - 1, s0.books@[p as int], o.is_bid, tick_at(i)));
            }
        }
        let new_total = match lv.total_liquidity.checked_add(o.remaining) {
            Some(t) => t,
            None => return Err(Error::Overflow),
        };
        if self.orders.len() == usize::MAX {
            return Err(Error::Overflow);
        }
        let active_id = (self.orders.len() as u128) + 1;
        let mut new_o = Order { order_id: active_id, prev: 0, next: 0, ..o };
        if lv.tail == 0 {
            lv.head = active_id;
            lv.tail = active_id;
        } else {
            let t_idx = (lv.tail - 1) as usize;
            proof {
                assert(entry_ok(s0.orders@, q, q.len() - 1, s0.books@[p as int], o.is_bid, tick_at(i)));
            }
            let t = self.orders[t_idx].unwrap();
            self.orders.set(t_idx, Some(Order { next: active_id, ..t }));
            new_o.prev = lv.tail;
            lv.tail = active_id;
        }
        lv.total_liquidity = new_total;
        self.orders.push(Some(new_o));
        self.levels.set(k, lv);
        self.queues = Ghost(self.queues@.update(k as int, q.push(active_id)));
        self.pending.set(pidx, None);
        let mut b = self.books[p];
        if o.is_bid {
            if o.tick > b.best_bid_tick {
                b.best_bid_tick = o.tick;
            }
        } else {
            if o.tick < b.best_ask_tick {
                b.best_ask_tick = o.tick;
            }
        }
        self.books.set(p, b);
        proof {
            self.lemma_activation_wf(s0, pending_id as int, p as int, k as int, q);
        }
        Ok(())
    }

    /// The state that `activate_order` leaves is well-formed.
    proof fn lemma_activation_wf(&self, s0: Self, pending_id: int, p: int, k: int, q: Seq<u128>)
        requires
            s0.wf(),
            s0.pending_order(pending_id) is Some,
            s0.orders@.len() < usize::MAX,
            ({
                let o = s0.pending_order(pending_id)->Some_0;
                let a = s0.orders@.len() + 1;
                let i = level_index(o.tick as int);
                let tail = if q.len() == 0 { 0u128 } else { q.last() };
                &&& s0.is_pair(p, o.base_token, o.quote_token)
                &&& p == s0.pair_of(o.base_token, o.quote_token)
                &&& k == slot(p, o.is_bid, i)
                &&& q == s0.queues@[k]
                &&& self.orders@ == (if q.len() == 0 { s0.orders@ } else {
                    s0.orders@.update(tail - 1, Some(Order { next: a as u128, ..s0.orders@[tail - 1]->Some_0 }))
                }).push(Some(Order { order_id: a as u128, prev: tail, next: 0, ..o }))
                &&& self.levels@ == s0.levels@.update(k, TickLevel {
                    head: if q.len() == 0 { a as u128 } else { s0.levels@[k].head },
                    tail: a as u128,
                    total_liquidity: (s0.levels@[k].total_liquidity + o.remaining) as i128,
                })
                &&& s0.levels@[k].total_liquidity + o.remaining <= i128::MAX
                &&& self.queues@ == s0.queues@.update(k, q.push(a as u128))
                &&& self.pending@ == s0.pending@.update(pending_id - 1, None)
                &&& self.books@ == s0.books@.update(p, if o.is_bid {
                    Orderbook { best_bid_tick: if o.tick > s0.books@[p].best_bid_tick { o.tick } else { s0.books@[p].best_bid_tick }, ..s0.books@[p] }
                } else {
                    Orderbook { best_ask_tick: if o.tick < s0.books@[p].best_ask_tick { o.tick } else { s0.books@[p].best_ask_tick }, ..s0.books@[p] }
                })
                &&& self.balances@ == s0.balances@
                &&& self.admin == s0.admin
            }),
        ensures
            self.wf(),
            Self::activation(&s0, self, pending_id),
    {
        let o = s0.pending_order(pending_id)->Some_0;
        let a: int = s0.orders@.len() + 1int;
        let i = level_index(o.tick as int);
        let s = o.is_bid;
        let n = s0.books@.len() as int;
        let tail = if q.len() == 0 { 0u128 } else { q.last() };
        let book = s0.books@[p];
        lemma_level_index(o.tick as int);
        assert(s0.pendings_ok());
        assert(s0.pending@[pending_id - 1] is Some);
        assert(level_ok(s0.orders@, s0.levels@[k], q, book, s, tick_at(i)));
        assert(same_pairs(s0.books@, self.books@));
        // Ids in queues are all below the next active id.
        assert forall|id: int| order_in(s0.orders@, id) is Some implies id < a by {}
        // Orders change only at the tail of this level and at the new id.
        if q.len() > 0 {
            assert(entry_ok(s0.orders@, q, q.len() - 1, book, s, tick_at(i)));
        }
        assert forall|id: int| #[trigger] order_in(self.orders@, id) != order_in(s0.orders@, id) implies (
            order_in(s0.orders@, id) is None || located(order_in(s0.orders@, id)->Some_0, s0.books@[p], s, i)) by {
            if id != a && q.len() > 0 && id == tail {
                assert(located(order_in(s0.orders@, id)->Some_0, s0.books@[p], s, i));
            }
        }
        s0.lemma_levels_frame(self, p, s, i);
        lemma_slot(n, p, s, i, p, s, i);
        // The level itself.
        let q2 = q.push(a as u128);
        assert(self.queues@[k] == q2);
        assert(self.books@[p].base_token == book.base_token && self.books@[p].quote_token == book.quote_token);
        let new_o = Order { order_id: a as u128, prev: tail, next: 0, ..o };
        assert(order_in(self.orders@, a as int) == Some(new_o));
        if q.len() > 0 {
            let t0 = s0.orders@[tail - 1]->Some_0;
            assert(order_in(self.orders@, tail as int) == Some(Order { next: a as u128, ..t0 }));
        }
        assert forall|j: int| 0 <= j < q2.len() implies #[trigger] entry_ok(self.orders@, q2, j, self.books@[p], s, tick_at(i)) by {
            if j < q.len() {
                assert(entry_ok(s0.orders@, q, j, book, s, tick_at(i)));
                assert(q2[j] == q[j]);
                assert(q[j] < a);
                if j < q.len() - 1 {
                    assert(q[j] != q[q.len() - 1]);
                    assert(order_in(self.orders@, q[j] as int) == order_in(s0.orders@, q[j] as int));
                    assert(q2[j + 1] == q[j + 1]);
                    if j > 0 {
                        assert(q2[j - 1] == q[j - 1]);
                    }
                    assert(entry_ok(self.orders@, q2, j, self.books@[p], s, tick_at(i)));
                } else {
                    assert(q2[j + 1] == a as u128);
                    if j > 0 {
                        assert(q2[j - 1] == q[j - 1]);
                    }
                    assert(entry_ok(self.orders@, q2, j, self.books@[p], s, tick_at(i)));
                }
            } else {
                assert(j == q.len());
                assert(q2[j] == a as u128);
                if j > 0 {
                    assert(q2[j - 1] == tail);
                }
                assert(new_o.tick == tick_at(i));
                assert(0 < new_o.remaining <= new_o.amount);
                assert(entry_ok(self.orders@, q2, j, self.books@[p], s, tick_at(i)));
            }
        }
        assert forall|j: int, m: int| 0 <= j < m < q2.len() implies q2[j] != q2[m] by {
            if m < q.len() {
                assert(q2[j] == q[j] && q2[m] == q[m]);
            } else {
                assert(entry_ok(s0.orders@, q, j, book, s, tick_at(i)));
                assert(q2[j] == q[j]);
                assert(q[j] < a);
                assert(q2[m] == a as u128);
            }
        }
        assert forall|j: int| 0 <= j < q.len() implies remaining_of(s0.orders@, #[trigger] q[j]) == remaining_of(self.orders@, q[j]) by {
            assert(entry_ok(s0.orders@, q, j, book, s, tick_at(i)));
        }
        lemma_sum_frame(s0.orders@, self.orders@, q);
        assert(q2.drop_last() =~= q);
        assert(level_ok(self.orders@, self.levels@[k], q2, self.books@[p], s, tick_at(i)));
        assert(self.levels_ok());
        // Active orders rest in their queues.
        assert forall|id: int| 1 <= id <= self.orders@.len() && (#[trigger] self.orders@[id - 1]) is Some implies {
            let o2 = self.orders@[id - 1]->Some_0;
            &&& o2.order_id == id
            &&& valid_tick(o2.tick as int)
            &&& self.has_pair(o2.base_token, o2.quote_token)
            &&& in_queue(self.queues@[slot(self.pair_of(o2.base_token, o2.quote_token), o2.is_bid, level_index(o2.tick as int))], id as u128)
        } by {
            let o2 = self.orders@[id - 1]->Some_0;
            s0.lemma_same_pairs(self, o2.base_token, o2.quote_token);
            if id == a {
                assert(q2[q.len() as int] == a as u128);
            } else {
                assert(s0.actives_ok());
                assert(s0.orders@[id - 1] is Some);
                let o1 = s0.orders@[id - 1]->Some_0;
                let p1 = s0.pair_of(o1.base_token, o1.quote_token);
                lemma_level_index(o1.tick as int);
                let k1 = slot(p1, o1.is_bid, level_index(o1.tick as int));
                let j1 = choose|j: int| 0 <= j < s0.queues@[k1].len() && s0.queues@[k1][j] == id as u128;
                if k1 == k {
                    assert(q2[j1] == id as u128);
                } else {
                    lemma_slot(n, p1, o1.is_bid, level_index(o1.tick as int), p, s, i);
                }
            }
        }
        // Pending orders.
        assert forall|id: int| 1 <= id <= self.pending@.len() && (#[trigger] self.pending@[id - 1]) is Some implies
            self.has_pair(self.pending@[id - 1]->Some_0.base_token, self.pending@[id - 1]->Some_0.quote_token) by {
            assert(s0.pending@[id - 1] is Some);
            let o2 = self.pending@[id - 1]->Some_0;
            s0.lemma_same_pairs(self, o2.base_token, o2.quote_token);
        }
        // Cursors.
        assert forall|p2: int| 0 <= p2 < self.books@.len() implies {
            let b = #[trigger] self.books@[p2];
            &&& (b.best_bid_tick == MIN_TICK - 1 || valid_tick(b.best_bid_tick as int))
            &&& (b.best_ask_tick == MAX_TICK + 1 || valid_tick(b.best_ask_tick as int))
            &&& forall|i2: int| 0 <= i2 < LEVELS_PER_SIDE && tick_at(i2) > b.best_bid_tick ==> (
                #[trigger] self.queues@[slot(p2, true, i2)]).len() == 0
            &&& forall|i2: int| 0 <= i2 < LEVELS_PER_SIDE && tick_at(i2) < b.best_ask_tick ==> (
                #[trigger] self.queues@[slot(p2, false, i2)]).len() == 0
        } by {
            assert(s0.cursors_ok());
            let b0 = s0.books@[p2];
            assert(b0 == s0.books@[p2]);
            assert forall|i2: int| 0 <= i2 < LEVELS_PER_SIDE && tick_at(i2) > self.books@[p2].best_bid_tick implies (
                #[trigger] self.queues@[slot(p2, true, i2)]).len() == 0 by {
                lemma_slot(n, p2, true, i2, p, s, i);
            }
            assert forall|i2: int| 0 <= i2 < LEVELS_PER_SIDE && tick_at(i2) < self.books@[p2].best_ask_tick implies (
                #[trigger] self.queues@[slot(p2, false, i2)]).len() == 0 by {
                lemma_slot(n, p2, false, i2, p, s, i);
            }
        }
        assert(self.wf());
        // The effect, in the terms of the public model.
        s0.lemma_pair_unique(p);
        assert forall|p2: int, s2: bool, i2: int|
            0 <= p2 < s0.pair_count() && 0 <= i2 < LEVELS_PER_SIDE && !(p2 == p && s2 == s && i2 == i)
                implies self.level_at(p2, s2, i2) == s0.level_at(p2, s2, i2) && self.queue_at(p2, s2, i2)
                == s0.queue_at(p2, s2, i2) by {
            lemma_slot(n, p2, s2, i2, p, s, i);
        }
        assert forall|id: int| id != a && id != tail implies self.active_order(id) == s0.active_order(id) by {}
        assert forall|id: int| id != pending_id implies self.pending_order(id) == s0.pending_order(id) by {}
        assert(p == s0.pair_of(o.base_token, o.quote_token));
        assert(self.next_active_id() == a + 1);
        assert(self.active_order(a) == Some(Order { order_id: a as u128, prev: tail, next: 0, ..o }));
        assert(self.queue_at(p, s, i) == q.push(a as u128));
        assert(self.level_at(p, s, i).total_liquidity == s0.level_at(p, s, i).total_liquidity + o.remaining);
        assert(self.pending_order(pending_id) is None);
        assert(Self::balances_unchanged(&s0, self));
        if q.len() > 0 {
            assert(self.active_order(tail as int) == Some(Order { next: a as u128, ..s0.active_order(tail as int)->Some_0 }));
        }
        assert(self.pair_count() == s0.pair_count());
        assert(self.next_pending_id() == s0.next_pending_id());
        assert(self.admin_of() == s0.admin_of());
    }
}

impl StablecoinExchange {
    /// `new` is `old` after active order `id` left the book: it was spliced
    /// out of its level's queue, its neighbours were linked to each other,
    /// its remainder left the level's liquidity, and its record was deleted.
    /// The cursors stay as they were.
    pub open spec fn removal(old: &Self, new: &Self, id: int) -> bool {
        let o = old.active_order(id)->Some_0;
        let p = old.pair_of(o.base_token, o.quote_token);
        let i = level_index(o.tick as int);
        let q = old.queue_at(p, o.is_bid, i);
        &&& exists|j: int| 0 <= j < q.len() && q[j] == id && new.queue_at(p, o.is_bid, i) == q.remove(j)
        &&& new.level_at(p, o.is_bid, i).total_liquidity == old.level_at(p, o.is_bid, i).total_liquidity
            - o.remaining
        &&& new.active_order(id) is None
        &&& o.prev != 0 ==> new.active_order(o.prev as int) == Some(
            Order { next: o.next, ..old.active_order(o.prev as int)->Some_0 },
        )
        &&& o.next != 0 ==> new.active_order(o.next as int) == Some(
            Order { prev: o.prev, ..old.active_order(o.next as int)->Some_0 },
        )
        &&& forall|k: int| k != id && k != o.prev && k != o.next ==> new.active_order(k) == old.active_order(k)
        &&& new.next_active_id() == old.next_active_id()
        &&& forall|p2: int, s2: bool, i2: int|
            0 <= p2 < old.pair_count() && 0 <= i2 < LEVELS_PER_SIDE && !(p2 == p && s2 == o.is_bid && i2 == i)
                ==> new.level_at(p2, s2, i2) == old.level_at(p2, s2, i2) && new.queue_at(p2, s2, i2)
                == old.queue_at(p2, s2, i2)
        &&& new.pair_count() == old.pair_count()
        &&& forall|p2: int| new.book_at(p2) == old.book_at(p2)
    }

    /// Splices active order `id` out of its level's queue: its neighbours are
    /// linked to each other (or the level's head or tail moves past it) and
    /// its remainder leaves the level's liquidity. The order's own record is
    /// left for the caller to delete.
    fn remove_order_from_book(&mut self, id: u128)
        requires
            old(self).wf(),
            old(self).active_order(id as int) is Some,
        ensures
            Self::spliced(old(self), final(self), id as int),
    {
        let ghost s0 = *self;
        let _ = self.orders.len();
        let idx = (id - 1) as usize;
        proof {
            assert(s0.actives_ok());
            assert(s0.orders@[id - 1] is Some);
        }
        let o = self.orders[idx].unwrap();
        let p = self.find_pair(o.base_token, o.quote_token).unwrap();
        let k = self.slot_of(p, o.is_bid, o.tick);
        let ghost i = level_index(o.tick as int);
        let ghost q = self.queues@[k as int];
        let ghost j = choose|j: int| 0 <= j < q.len() && q[j] == id;
        let mut lv = self.levels[k];
        proof {
            lemma_level_index(o.tick as int);
            assert(level_ok(s0.orders@, s0.levels@[k as int], q, s0.books@[p as int], o.is_bid, tick_at(i)));
            assert(entry_ok(s0.orders@, q, j, s0.books@[p as int], o.is_bid, tick_at(i)));
            if j > 0 {
                assert(entry_ok(s0.orders@, q, j - 1, s0.books@[p as int], o.is_bid, tick_at(i)));
            }
            if j < q.len() - 1 {
                assert(entry_ok(s0.orders@, q, j + 1, s0.books@[p as int], o.is_bid, tick_at(i)));
            }
            assert forall|m: int| 0 <= m < q.len() implies remaining_of(s0.orders@, #[trigger] q[m]) >= 0 by {
                assert(entry_ok(s0.orders@, q, m, s0.books@[p as int], o.is_bid, tick_at(i)));
            }
            lemma_sum_ge_entry(s0.orders@, q, j);
        }
        if o.prev != 0 {
            let pi = (o.prev - 1) as usize;
            let po = self.orders[pi].unwrap();
            self.orders.set(pi, Some(Order { next: o.next, ..po }));
        } else {
            lv.head = o.next;
        }
        if o.next != 0 {
            let ni = (o.next - 1) as usize;
            let no = self.orders[ni].unwrap();
            self.orders.set(ni, Some(Order { prev: o.prev, ..no }));
        } else {
            lv.tail = o.prev;
        }
        lv.total_liquidity = lv.total_liquidity - o.remaining;
        self.levels.set(k, lv);
        self.queues = Ghost(self.queues@.update(k as int, q.remove(j)));
        proof {
            if o.prev != 0 {
                assert(q[j - 1] != q[j]);
            }
            if o.next != 0 {
                assert(q[j + 1] != q[j]);
            }
            if o.prev != 0 && o.next != 0 {
                assert(q[j - 1] != q[j + 1]);
            }
            assert(self.orders@.update(id - 1, None) =~= unlinked_store(s0.orders@, o, id as int));
            s0.lemma_pair_unique(p as int);
            assert(self.splice_at(s0, id as int, j));
        }
    }

    /// `self` is `s0` with active order `id`, found at position `j` of its
    /// queue, spliced out of that queue but its record not yet deleted.
    closed spec fn splice_at(&self, s0: Self, id: int, j: int) -> bool {
        let o = s0.active_order(id)->Some_0;
        let p = s0.pair_of(o.base_token, o.quote_token);
        let k = slot(p, o.is_bid, level_index(o.tick as int));
        let q = s0.queues@[k];
        &&& s0.active_order(id) is Some
        &&& s0.is_pair(p, o.base_token, o.quote_token)
        &&& 0 <= j < q.len()
        &&& q[j] == id
        &&& self.orders@.len() == s0.orders@.len()
        &&& self.orders@.update(id - 1, None) == unlinked_store(s0.orders@, o, id)
        &&& self.orders@[id - 1] == s0.orders@[id - 1]
        &&& self.levels@ == s0.levels@.update(k, unlinked_level(s0.levels@[k], o))
        &&& self.queues@ == s0.queues@.update(k, q.remove(j))
        &&& self.pending@ == s0.pending@
        &&& self.books@ == s0.books@
        &&& self.balances@ == s0.balances@
        &&& self.admin == s0.admin
    }

    /// `s1` is `s0` with active order `id` spliced out of its queue, its
    /// record left in place.
    closed spec fn spliced(s0: &Self, s1: &Self, id: int) -> bool {
        exists|j: int| #[trigger] s1.splice_at(*s0, id, j)
    }

    /// Deletes the record of active order `id` once `remove_order_from_book`
    /// has spliced it out of its queue (`s0` is the state before the
    /// splice).
    fn delete_order(&mut self, Ghost(s0): Ghost<Self>, id: u128)
        requires
            s0.wf(),
            s0.active_order(id as int) is Some,
            Self::spliced(&s0, old(self), id as int),
        ensures
            final(self).wf(),
            Self::removal(&s0, final(self), id as int),
            ({
                let o = s0.active_order(id as int)->Some_0;
                let k = slot(s0.pair_of(o.base_token, o.quote_token), o.is_bid, level_index(o.tick as int));
                &&& final(self).queues@.len() == s0.queues@.len()
                &&& final(self).levels@.len() == s0.levels@.len()
                &&& forall|k2: int| 0 <= k2 < s0.levels@.len() && k2 != k ==> final(self).queues@[k2] == s0.queues@[k2]
                    && final(self).levels@[k2] == s0.levels@[k2]
            }),
            final(self).books@ == s0.books@,
            final(self).pending@ == s0.pending@,
            final(self).balances@ == s0.balances@,
            final(self).admin == s0.admin,
    {
        let ghost j = choose|j: int| #[trigger] self.splice_at(s0, id as int, j);
        let _ = self.orders.len();
        proof {
            assert(self.splice_at(s0, id as int, j));
            assert(1 <= id <= s0.orders@.len());
        }
        self.orders.set((id - 1) as usize, None);
        proof {
            let o = s0.active_order(id as int)->Some_0;
            let p = s0.pair_of(o.base_token, o.quote_token);
            let k = slot(p, o.is_bid, level_index(o.tick as int));
            let q = s0.queues@[k];
            assert(self.orders@ == unlinked_store(s0.orders@, o, id as int));
            self.lemma_removal_wf(s0, id as int, p, k, q, j);
        }
    }



    /// `self` is what `remove_order_from_book` makes of `s0` when it removes
    /// `id`, found at position `j` of queue `q` at slot `k` of pair `p`.
    closed spec fn removal_step(&self, s0: Self, id: int, p: int, k: int, q: Seq<u128>, j: int) -> bool {
        &&& s0.active_order(id) is Some
        &&& {
                let o = s0.active_order(id)->Some_0;
                let i = level_index(o.tick as int);
                let lv0 = s0.levels@[k];
                &&& s0.is_pair(p, o.base_token, o.quote_token)
                &&& p == s0.pair_of(o.base_token, o.quote_token)
                &&& k == slot(p, o.is_bid, i)
                &&& q == s0.queues@[k]
                &&& 0 <= j < q.len()
                &&& q[j] == id
                &&& self.orders@ == unlinked_store(s0.orders@, o, id)
                &&& self.levels@ == s0.levels@.update(k, unlinked_level(lv0, o))
                &&& self.queues@ == s0.queues@.update(k, q.remove(j))
                &&& self.pending@ == s0.pending@
                &&& self.books@ == s0.books@
                &&& self.balances@ == s0.balances@
                &&& self.admin == s0.admin
        }
    }

    /// The state that `remove_order_from_book` leaves is well-formed.
    proof fn lemma_removal_wf(&self, s0: Self, id: int, p: int, k: int, q: Seq<u128>, j: int)
        requires
            s0.wf(),
            self.removal_step(s0, id, p, k, q, j),
        ensures
            self.wf(),
            Self::removal(&s0, self, id),
    {
        let o = s0.active_order(id)->Some_0;
        let i = level_index(o.tick as int);
        let s = o.is_bid;
        let n = s0.books@.len() as int;
        let book = s0.books@[p];
        lemma_level_index(o.tick as int);
        assert(level_ok(s0.orders@, s0.levels@[k], q, book, s, tick_at(i)));
        assert(entry_ok(s0.orders@, q, j, book, s, tick_at(i)));
        if j > 0 {
            assert(entry_ok(s0.orders@, q, j - 1, book, s, tick_at(i)));
            assert(q[j - 1] != q[j]);
        }
        if j < q.len() - 1 {
            assert(entry_ok(s0.orders@, q, j + 1, book, s, tick_at(i)));
            assert(q[j + 1] != q[j]);
        }
        if j > 0 && j < q.len() - 1 {
            assert(q[j - 1] != q[j + 1]);
        }
        // Orders change only within this level.
        assert forall|x: int| #[trigger] order_in(self.orders@, x) != order_in(s0.orders@, x) implies (
            order_in(s0.orders@, x) is None || located(order_in(s0.orders@, x)->Some_0, s0.books@[p], s, i)) by {
            if x == id {
            } else if j > 0 && x == q[j - 1] {
            } else if j < q.len() - 1 && x == q[j + 1] {
            } else {
                assert(order_in(self.orders@, x) == order_in(s0.orders@, x));
            }
        }
        assert(same_pairs(s0.books@, self.books@));
        s0.lemma_levels_frame(self, p, s, i);
        lemma_slot(n, p, s, i, p, s, i);
        lemma_unlink(s0.orders@, s0.levels@[k], q, j, book, s, tick_at(i));
        let q2 = q.remove(j);
        assert(self.queues@[k] == q2);
        assert(self.levels_ok());
        // Active orders rest in their queues.
        assert forall|x: int| 1 <= x <= self.orders@.len() && (#[trigger] self.orders@[x - 1]) is Some implies {
            let o2 = self.orders@[x - 1]->Some_0;
            &&& o2.order_id == x
            &&& valid_tick(o2.tick as int)
            &&& self.has_pair(o2.base_token, o2.quote_token)
            &&& in_queue(self.queues@[slot(self.pair_of(o2.base_token, o2.quote_token), o2.is_bid, level_index(o2.tick as int))], x as u128)
        } by {
            assert(x != id);
            assert(s0.actives_ok());
            assert(order_in(self.orders@, x) is Some);
            assert(s0.orders@[x - 1] is Some);
            let o1 = s0.orders@[x - 1]->Some_0;
            let o2 = self.orders@[x - 1]->Some_0;
            assert(o2.base_token == o1.base_token && o2.quote_token == o1.quote_token && o2.is_bid == o1.is_bid && o2.tick == o1.tick && o2.order_id == o1.order_id);
            let p1 = s0.pair_of(o1.base_token, o1.quote_token);
            lemma_level_index(o1.tick as int);
            let k1 = slot(p1, o1.is_bid, level_index(o1.tick as int));
            let j1 = choose|j1: int| 0 <= j1 < s0.queues@[k1].len() && s0.queues@[k1][j1] == x as u128;
            if k1 == k {
                assert(j1 != j);
                if j1 < j {
                    assert(q2[j1] == x as u128);
                } else {
                    assert(q2[j1 - 1] == x as u128);
                }
            } else {
                lemma_slot(n, p1, o1.is_bid, level_index(o1.tick as int), p, s, i);
            }
        }
        assert(self.cursors_ok()) by {
            assert(s0.cursors_ok());
            assert forall|p2: int, s2: bool, i2: int| 0 <= p2 < n && 0 <= i2 < LEVELS_PER_SIDE
                && s0.queues@[slot(p2, s2, i2)].len() == 0 implies #[trigger] self.queues@[slot(p2, s2, i2)].len() == 0 by {
                lemma_slot(n, p2, s2, i2, p, s, i);
            }
        }
        assert(self.wf());
        s0.lemma_pair_unique(p);
        assert forall|p2: int, s2: bool, i2: int|
            0 <= p2 < s0.pair_count() && 0 <= i2 < LEVELS_PER_SIDE && !(p2 == p && s2 == s && i2 == i)
                implies self.level_at(p2, s2, i2) == s0.level_at(p2, s2, i2) && self.queue_at(p2, s2, i2)
                == s0.queue_at(p2, s2, i2) by {
            lemma_slot(n, p2, s2, i2, p, s, i);
        }
        assert(self.queue_at(p, s, i) == q.remove(j));
        if o.prev != 0 {
            assert(o.prev == q[j - 1]);
        }
        if o.next != 0 {
            assert(o.next == q[j + 1]);
        }
        assert(self.queue_at(p, s, i) == q.remove(j));
        assert(self.level_at(p, s, i).total_liquidity == s0.level_at(p, s, i).total_liquidity - o.remaining);
        assert(self.active_order(id) is None);
        assert(o.prev != 0 ==> self.active_order(o.prev as int) == Some(
            Order { next: o.next, ..s0.active_order(o.prev as int)->Some_0 }));
        assert(o.next != 0 ==> self.active_order(o.next as int) == Some(
            Order { prev: o.prev, ..s0.active_order(o.next as int)->Some_0 }));
        assert(forall|x: int| x != id && x != o.prev && x != o.next ==> self.active_order(x) == s0.active_order(x));
        assert(s0.queue_at(p, s, i) == q);
        assert(0 <= j < q.len() && q[j] == id && self.queue_at(p, s, i) == q.remove(j));
        assert(self.next_active_id() == s0.next_active_id());
        assert(forall|p2: int| self.book_at(p2) == s0.book_at(p2));
    }
}

/// Orders `a` and `b` are the same order, whatever has been filled of it
/// and however it is linked.
pub open spec fn same_identity(a: Order, b: Order) -> bool {
    &&& a.maker == b.maker
    &&& a.base_token == b.base_token
    &&& a.quote_token == b.quote_token
    &&& a.is_bid == b.is_bid
    &&& a.tick == b.tick
    &&& a.amount == b.amount
    &&& a.is_flip == b.is_flip
    &&& a.flip_tick == b.flip_tick
}

/// Order `a` is order `o` moved to the active namespace: the same maker,
/// pair, side, tick, sizes and flip settings, whatever its id and links.
pub open spec fn activated_as(o: Order, a: Order) -> bool {
    &&& a.maker == o.maker
    &&& a.base_token == o.base_token
    &&& a.quote_token == o.quote_token
    &&& a.is_bid == o.is_bid
    &&& a.tick == o.tick
    &&& a.amount == o.amount
    &&& a.remaining == o.remaining
    &&& a.is_flip == o.is_flip
    &&& a.flip_tick == o.flip_tick
}

impl StablecoinExchange {
    /// What remains of the pending orders listed in `ids` from position `j`
    /// on, an id listed twice counted twice.
    pub open spec fn listed_remaining(&self, ids: Seq<u128>, j: int) -> int
        decreases ids.len() - j,
    {
        if j < 0 || j >= ids.len() {
            0
        } else {
            (match self.pending_order(ids[j] as int) {
                Some(o) => o.remaining as int,
                None => 0int,
            }) + self.listed_remaining(ids, j + 1)
        }
    }

    /// The cursor of the side of order `o` is at or beyond its tick: at or
    /// above it for a bid, at or below it for an ask.
    pub open spec fn cursor_covers(&self, o: Order) -> bool {
        let b = self.book_at(self.pair_of(o.base_token, o.quote_token));
        if o.is_bid {
            b.best_bid_tick >= o.tick
        } else {
            b.best_ask_tick <= o.tick
        }
    }

    /// Activating the orders listed in `ids` stays within bounds: every
    /// level's liquidity plus all that the listed pending orders hold fits in
    /// `i128`, and there are active ids left for all of them.
    pub open spec fn block_fits(&self, ids: Seq<u128>) -> bool {
        &&& forall|p: int, s: bool, i: int|
            0 <= p < self.pair_count() && 0 <= i < LEVELS_PER_SIDE ==> #[trigger] self.level_at(p, s, i).total_liquidity
                + self.listed_remaining(ids, 0) <= i128::MAX
        &&& self.next_active_id() - 1 + ids.len() <= usize::MAX
    }

    /// Active order `a` of `new` is a pending order of `old` listed in `ids`,
    /// activated.
    pub open spec fn listed_source(old: &Self, new: &Self, ids: Seq<u128>, a: int) -> bool {
        exists|j: int| 0 <= j < ids.len() && old.pending_order(#[trigger] ids[j] as int) is Some && activated_as(
            old.pending_order(ids[j] as int)->Some_0,
            new.active_order(a)->Some_0,
        )
    }

    /// The active orders after a block: those of `old` are kept, as they were
    /// but for their links, and every new one is a listed pending order,
    /// activated.
    #[verifier::opaque]
    pub open spec fn block_orders(old: &Self, new: &Self, ids: Seq<u128>) -> bool {
        &&& new.next_active_id() >= old.next_active_id()
        &&& forall|x: int| x < old.next_active_id() ==> (#[trigger] new.active_order(x) is Some <==> old.active_order(x) is Some)
        &&& forall|x: int| x < old.next_active_id() && old.active_order(x) is Some ==> same_identity(
            old.active_order(x)->Some_0,
            #[trigger] new.active_order(x)->Some_0,
        ) && new.active_order(x)->Some_0.remaining == old.active_order(x)->Some_0.remaining
        &&& forall|a: int| old.next_active_id() <= a < new.next_active_id() ==> #[trigger] new.active_order(a) is Some
            && Self::listed_source(old, new, ids, a)
    }

    /// Queue `b` is queue `a` with orders numbered from `first_new` on
    /// appended at its tail.
    pub open spec fn extends_queue(a: Seq<u128>, b: Seq<u128>, first_new: int) -> bool {
        &&& a.len() <= b.len()
        &&& b.subrange(0, a.len() as int) == a
        &&& forall|m: int| a.len() <= m < b.len() ==> #[trigger] b[m] >= first_new
    }

    /// Active order `a`, numbered from `first_new` on, rests on side `is_bid`
    /// of pair `p` at `tick`.
    pub open spec fn new_order_at(&self, a: int, first_new: int, p: int, is_bid: bool, tick: int) -> bool {
        &&& a >= first_new
        &&& self.active_order(a) is Some
        &&& self.active_order(a)->Some_0.is_bid == is_bid
        &&& self.active_order(a)->Some_0.tick == tick
        &&& self.is_pair(p, self.active_order(a)->Some_0.base_token, self.active_order(a)->Some_0.quote_token)
    }

    /// The book after a block: every queue is its old self with newly
    /// activated orders appended, and each cursor of each pair stayed or
    /// moved to the tick of a newly activated order, only ever toward
    /// better prices.
    #[verifier::opaque]
    pub open spec fn block_book(old: &Self, new: &Self) -> bool {
        &&& new.pair_count() == old.pair_count()
        &&& forall|p: int, s: bool, i: int| 0 <= p < old.pair_count() && 0 <= i < LEVELS_PER_SIDE ==> Self::extends_queue(
            old.queue_at(p, s, i),
            #[trigger] new.queue_at(p, s, i),
            old.next_active_id(),
        )
        &&& forall|p: int| 0 <= p < old.pair_count() ==> {
            let b0 = old.book_at(p);
            let b1 = #[trigger] new.book_at(p);
            &&& b1.base_token == b0.base_token
            &&& b1.quote_token == b0.quote_token
            &&& b1.best_bid_tick >= b0.best_bid_tick
            &&& (b1.best_bid_tick == b0.best_bid_tick || exists|a: int| #[trigger] new.new_order_at(a, old.next_active_id(), p, true, b1.best_bid_tick as int))
            &&& b1.best_ask_tick <= b0.best_ask_tick
            &&& (b1.best_ask_tick == b0.best_ask_tick || exists|a: int| #[trigger] new.new_order_at(a, old.next_active_id(), p, false, b1.best_ask_tick as int))
        }
    }

    /// What `execute_block` on `ids` for the pair of `base` and `quote` does:
    /// it fails, changing nothing, where there is no such pair or a level's
    /// liquidity would leave `i128`; otherwise every listed id is no longer
    /// pending, each listed order that was pending is now active under a new
    /// id, every other pending order stays, and balances stay. Where no
    /// listed id is pending it succeeds and changes nothing.
    pub open spec fn execute_block_post(
        old: &Self,
        new: &Self,
        base: Address,
        quote: Address,
        ids: Seq<u128>,
        r: Result<(), Error>,
    ) -> bool {
        &&& r is Err ==> *new == *old
        &&& r == Err::<(), Error>(Error::PairNotFound) <==> !old.has_pair(base, quote)
        &&& r is Err ==> r == Err::<(), Error>(Error::PairNotFound) || r == Err::<(), Error>(Error::Overflow)
        &&& old.has_pair(base, quote) && old.block_fits(ids) ==> r is Ok
        &&& r is Ok ==> {
            &&& forall|j: int| 0 <= j < ids.len() ==> new.pending_order(#[trigger] ids[j] as int) is None
            &&& forall|j: int| 0 <= j < ids.len() && old.pending_order(#[trigger] ids[j] as int) is Some ==> exists|a: int|
                old.next_active_id() <= a < new.next_active_id() && new.active_order(a) is Some && activated_as(
                    old.pending_order(ids[j] as int)->Some_0,
                    new.active_order(a)->Some_0,
                )
            &&& forall|id: int| !ids.contains(id as u128) ==> new.pending_order(id) == old.pending_order(id)
            &&& new.next_pending_id() == old.next_pending_id()
            &&& new.next_active_id() >= old.next_active_id()
            &&& Self::balances_unchanged(old, new)
            &&& new.pair_count() == old.pair_count()
            &&& forall|b: Address, q: Address| new.has_pair(b, q) == old.has_pair(b, q)
            &&& new.admin_of() == old.admin_of()
        }
        &&& old.has_pair(base, quote) && (forall|j: int| 0 <= j < ids.len() ==> old.pending_order(#[trigger] ids[j] as int) is None)
            ==> r is Ok && *new == *old
    }

    /// Activates the listed pending orders, in list order: each moves to the
    /// tail of its level's queue under a fresh active id. Ids that are not
    /// pending (never placed, already activated or canceled) are skipped.
    /// Each order joins the book of its own pair.
    #[verifier::spinoff_prover]
    #[verifier::rlimit(100)]
    pub fn execute_block(&mut self, base_token: Address, quote_token: Address, order_ids: Vec<u128>) -> (r: Result<(), Error>)
        requires
            old(self).wf(),
        ensures
            final(self).wf(),
            Self::execute_block_post(old(self), final(self), base_token, quote_token, order_ids@, r),
            r is Ok ==> Self::block_orders(old(self), final(self), order_ids@),
            r is Ok ==> Self::block_book(old(self), final(self)),
            forall|x: int| #[trigger] final(self).active_order(x) is Some ==> final(self).cursor_covers(
                final(self).active_order(x)->Some_0,
            ),
    {
        if self.find_pair(base_token, quote_token).is_none() {
            proof {
                assert forall|x: int| #[trigger] self.active_order(x) is Some implies self.cursor_covers(self.active_order(x)->Some_0) by {
                    lemma_cursor_covers(self, x);
                }
            }
            return Err(Error::PairNotFound);
        }
        let mut any = false;
        let mut j: usize = 0;
        while j < order_ids.len()
            invariant
                j <= order_ids@.len(),
                !any ==> forall|m: int| 0 <= m < j ==> self.pending_order(#[trigger] order_ids@[m] as int) is None,
                any ==> exists|m: int| 0 <= m < j && self.pending_order(#[trigger] order_ids@[m] as int) is Some,
            decreases order_ids@.len() - j,
        {
            if self.get_pending_order(order_ids[j]).is_some() {
                any = true;
            }
            j = j + 1;
        }
        if !any {
            proof {
                Self::lemma_block_orders_start(self, self, order_ids@);
                Self::lemma_block_book_start(self, self);
                assert forall|x: int| #[trigger] self.active_order(x) is Some implies self.cursor_covers(self.active_order(x)->Some_0) by {
                    lemma_cursor_covers(self, x);
                }
            }
            return Ok(());
        }
        let mut work = self.snapshot();
        let ghost s0 = *self;
        let ghost fits = s0.block_fits(order_ids@);
        proof {
            if fits {
                assert forall|p: int, s: bool, i: int|
                    0 <= p < s0.pair_count() && 0 <= i < LEVELS_PER_SIDE implies #[trigger] work.level_at(p, s, i).total_liquidity
                        + s0.listed_remaining(order_ids@, 0) <= i128::MAX by {
                    assert(work.level_at(p, s, i) == s0.level_at(p, s, i));
                    assert(s0.level_at(p, s, i).total_liquidity + s0.listed_remaining(order_ids@, 0) <= i128::MAX);
                }
            }
            assert(work.wf());
            Self::lemma_block_orders_start(&s0, &work, order_ids@);
            Self::lemma_block_book_start(&s0, &work);
            assert(order_ids@.subrange(0, 0) =~= Seq::<u128>::empty());
        }
        let mut j: usize = 0;
        while j < order_ids.len()
            invariant
                j <= order_ids@.len(),
                work.wf(),
                forall|m: int| 0 <= m < j ==> work.pending_order(#[trigger] order_ids@[m] as int) is None,
                forall|id: int| !order_ids@.subrange(0, j as int).contains(id as u128) ==> work.pending_order(id) == s0.pending_order(id),
                work.next_pending_id() == s0.next_pending_id(),
                work.next_active_id() >= s0.next_active_id(),
                Self::balances_unchanged(&s0, &work),
                work.pair_count() == s0.pair_count(),
                work.admin_of() == s0.admin_of(),
                same_pairs(s0.books@, work.books@),
                *self == s0,
                s0 == *old(self),
                s0.wf(),
                s0.has_pair(base_token, quote_token),
                exists|m: int| 0 <= m < order_ids@.len() && s0.pending_order(#[trigger] order_ids@[m] as int) is Some,
                forall|m: int| 0 <= m < j && s0.pending_order(#[trigger] order_ids@[m] as int) is Some ==> exists|a: int|
                    s0.next_active_id() <= a < work.next_active_id() && work.active_order(a) is Some && activated_as(
                        s0.pending_order(order_ids@[m] as int)->Some_0,
                        work.active_order(a)->Some_0,
                    ),
                fits == s0.block_fits(order_ids@),
                Self::block_orders(&s0, &work, order_ids@),
                Self::block_book(&s0, &work),
                fits ==> forall|p: int, s: bool, i: int|
                    0 <= p < s0.pair_count() && 0 <= i < LEVELS_PER_SIDE ==> #[trigger] work.level_at(p, s, i).total_liquidity
                        + s0.listed_remaining(order_ids@, j as int) <= i128::MAX,
                fits ==> work.next_active_id() - 1 + (order_ids@.len() - j) <= usize::MAX,
            decreases order_ids@.len() - j,
        {
            let id = order_ids[j];
            let ghost w0 = work;
            proof {
                assert(s0.pendings_ok());
                let rest = s0.listed_remaining(order_ids@, j + 1);
                assert(s0.listed_remaining(order_ids@, j as int) == (match s0.pending_order(id as int) {
                    Some(o) => o.remaining as int,
                    None => 0int,
                }) + rest);
                if s0.pending_order(id as int) is Some {
                    assert(s0.pending@[id - 1] is Some);
                }
                if w0.pending_order(id as int) is Some {
                    if order_ids@.subrange(0, j as int).contains(id) {
                        let m3 = choose|m3: int| 0 <= m3 < j && order_ids@.subrange(0, j as int)[m3] == id;
                        assert(order_ids@[m3] == id);
                    }
                    assert(w0.pending_order(id as int) == s0.pending_order(id as int));
                    if fits {
                        let o = w0.pending_order(id as int)->Some_0;
                        let pp = w0.pair_of(o.base_token, o.quote_token);
                        assert(w0.pendings_ok());
                        assert(w0.pending@[id - 1] is Some);
                        assert(0 <= pp < s0.pair_count());
                        lemma_level_index(o.tick as int);
                        assert(w0.level_at(pp, o.is_bid, level_index(o.tick as int)).total_liquidity
                            + s0.listed_remaining(order_ids@, j as int) <= i128::MAX);
                        assert(rest >= 0) by {
                            s0.lemma_listed_nonneg(order_ids@, j + 1);
                        }
                        assert(!w0.activation_overflows(id as int));
                    }
                }
            }
            if work.get_pending_order(id).is_some() {
                work.activate_order(id)?;
            }
            proof {
                if w0.pending_order(id as int) is Some {
                    assert(order_ids@[j as int] == id);
                    Self::lemma_block_step(&s0, &w0, &work, order_ids@, j as int);
                    Self::lemma_block_book_step(&s0, &w0, &work, id as int);
                }
                if fits {
                    let rest = s0.listed_remaining(order_ids@, j + 1);
                    assert forall|p: int, s: bool, i: int|
                        0 <= p < s0.pair_count() && 0 <= i < LEVELS_PER_SIDE implies #[trigger] work.level_at(p, s, i).total_liquidity
                            + rest <= i128::MAX by {
                        assert(w0.level_at(p, s, i).total_liquidity + s0.listed_remaining(order_ids@, j as int) <= i128::MAX);
                        if w0.pending_order(id as int) is Some {
                            let o = w0.pending_order(id as int)->Some_0;
                            let pp = w0.pair_of(o.base_token, o.quote_token);
                            if !(p == pp && s == o.is_bid && i == level_index(o.tick as int)) {
                                assert(work.level_at(p, s, i) == w0.level_at(p, s, i));
                            }
                        }
                    }
                }
                assert forall|m: int| 0 <= m < j + 1 && s0.pending_order(#[trigger] order_ids@[m] as int) is Some implies exists|a: int|
                    s0.next_active_id() <= a < work.next_active_id() && work.active_order(a) is Some && activated_as(
                        s0.pending_order(order_ids@[m] as int)->Some_0,
                        work.active_order(a)->Some_0,
                    ) by {
                    let o = s0.pending_order(order_ids@[m] as int)->Some_0;
                    let activated = w0.pending_order(id as int) is Some;
                    // The order a listed id became before this step keeps its fields.
                    let m2 = if m < j {
                        m
                    } else if !activated {
                        if !order_ids@.subrange(0, j as int).contains(id) {
                            assert(w0.pending_order(id as int) == s0.pending_order(id as int));
                        }
                        let m3 = choose|m3: int| 0 <= m3 < j && order_ids@.subrange(0, j as int)[m3] == id;
                        assert(order_ids@[m3] == id);
                        m3
                    } else {
                        m
                    };
                    if m2 < j {
                        let a = choose|a: int| s0.next_active_id() <= a < w0.next_active_id() && w0.active_order(a) is Some
                            && activated_as(s0.pending_order(order_ids@[m2] as int)->Some_0, w0.active_order(a)->Some_0);
                        assert(order_ids@[m2] == order_ids@[m]);
                        if activated {
                            assert(a < w0.next_active_id());
                        }
                        assert(work.active_order(a) is Some && activated_as(o, work.active_order(a)->Some_0));
                    } else {
                        assert(m == j && activated);
                        if order_ids@.subrange(0, j as int).contains(id) {
                            let m3 = choose|m3: int| 0 <= m3 < j && order_ids@.subrange(0, j as int)[m3] == id;
                            assert(order_ids@[m3] == id);
                            assert(w0.pending_order(id as int) is None);
                        }
                        assert(w0.pending_order(id as int) == s0.pending_order(id as int));
                        let a = w0.next_active_id();
                        assert(work.active_order(a) is Some && activated_as(o, work.active_order(a)->Some_0));
                    }
                }
                assert forall|id2: int| !order_ids@.subrange(0, j + 1).contains(id2 as u128) implies work.pending_order(id2) == s0.pending_order(id2) by {
                    assert(order_ids@.subrange(0, j + 1)[j as int] == id);
                    if order_ids@.subrange(0, j as int).contains(id2 as u128) {
                        let m = choose|m: int| 0 <= m < j && order_ids@.subrange(0, j as int)[m] == id2 as u128;
                        assert(order_ids@.subrange(0, j + 1)[m] == id2 as u128);
                    }
                }
            }
            j = j + 1;
        }
        proof {
            assert forall|x: int| #[trigger] work.active_order(x) is Some implies work.cursor_covers(work.active_order(x)->Some_0) by {
                lemma_cursor_covers(&work, x);
            }
            assert(order_ids@.subrange(0, j as int) =~= order_ids@);
            assert forall|b: Address, q: Address| work.has_pair(b, q) == s0.has_pair(b, q) by {
                s0.lemma_same_pairs(&work, b, q);
            }
        }
        *self = work;
        Ok(())
    }

    /// Cancels an order of `maker`, pending or active, and credits what
    /// remains of it to the balance of `maker` keyed by `maker` itself; an
    /// active order leaves its queue. Returns the refund.
    pub fn cancel(&mut self, maker: Address, order_id: u128) -> (r: Result<i128, Error>)
        requires
            old(self).wf(),
        ensures
            final(self).wf(),
            r == (match old(self).pending_order(order_id as int) {
                Some(o) => if o.maker != maker {
                    Err(Error::NotOrderOwner)
                } else if old(self).balance(maker, maker) + o.remaining > i128::MAX {
                    Err(Error::Overflow)
                } else {
                    Ok(o.remaining)
                },
                None => match old(self).active_order(order_id as int) {
                    Some(o) => if o.maker != maker {
                        Err(Error::NotOrderOwner)
                    } else if old(self).balance(maker, maker) + o.remaining > i128::MAX {
                        Err(Error::Overflow)
                    } else {
                        Ok(o.remaining)
                    },
                    None => Err(Error::OrderNotFound),
                },
            }),
            r is Err ==> *final(self) == *old(self),
            r matches Ok(refund) ==> {
                &&& final(self).balance(maker, maker) == old(self).balance(maker, maker) + refund
                &&& forall|u: Address, t: Address| !(u == maker && t == maker) ==> final(self).balance(u, t) == old(self).balance(u, t)
                &&& final(self).pending_order(order_id as int) is None
                &&& forall|id: int| id != order_id ==> final(self).pending_order(id) == old(self).pending_order(id)
                &&& final(self).next_pending_id() == old(self).next_pending_id()
                &&& final(self).admin_of() == old(self).admin_of()
                &&& final(self).next_active_id() == old(self).next_active_id()
                &&& if old(self).pending_order(order_id as int) is Some {
                    &&& forall|id: int| final(self).active_order(id) == old(self).active_order(id)
                    &&& Self::books_unchanged(old(self), final(self))
                } else {
                    Self::removal(old(self), final(self), order_id as int)
                }
            },
    {
        if let Some(o) = self.get_pending_order(order_id) {
            if o.maker != maker {
                return Err(Error::NotOrderOwner);
            }
            let refund = o.remaining;
            proof {
                assert(self.pendings_ok());
                assert(self.pending@[order_id - 1] is Some);
            }
            self.add_balance(maker, o.maker, refund)?;
            let _ = self.pending.len();
            self.pending.set((order_id - 1) as usize, None);
            return Ok(refund);
        }
        if let Some(o) = self.get_order(order_id) {
            if o.maker != maker {
                return Err(Error::NotOrderOwner);
            }
            let refund = o.remaining;
            let current = self.balance_of(maker, o.maker);
            proof {
                assert(self.actives_ok());
                assert(self.orders@[order_id - 1] is Some);
                let p = self.pair_of(o.base_token, o.quote_token);
                lemma_level_index(o.tick as int);
                let k = slot(p, o.is_bid, level_index(o.tick as int));
                let q = self.queues@[k];
                let j = choose|j: int| 0 <= j < q.len() && q[j] == order_id;
                assert(level_ok(self.orders@, self.levels@[k], q, self.books@[p], o.is_bid, tick_at(level_index(o.tick as int))));
                assert(entry_ok(self.orders@, q, j, self.books@[p], o.is_bid, tick_at(level_index(o.tick as int))));
            }
            let total = match current.checked_add(refund) {
                Some(t) => t,
                None => return Err(Error::Overflow),
            };
            let ghost before = *self;
            self.remove_order_from_book(order_id);
            self.delete_order(Ghost(before), order_id);
            self.set_balance(maker, o.maker, total);
            return Ok(refund);
        }
        Err(Error::OrderNotFound)
    }
}

impl StablecoinExchange {
    /// Takes `fill` off the head order of the level at `k`, which keeps
    /// something left, and off the level's liquidity.
    fn reduce_head(&mut self, p: usize, is_bid: bool, tick: i32, k: usize, fill: i128)
        requires
            old(self).wf(),
            p < old(self).books@.len(),
            valid_tick(tick as int),
            k == slot(p as int, is_bid, level_index(tick as int)),
            old(self).queues@[k as int].len() > 0,
            0 < fill < remaining_of(old(self).orders@, old(self).queues@[k as int][0]),
        ensures
            final(self).wf(),
            ({
                let q = old(self).queues@[k as int];
                let o = order_in(old(self).orders@, q[0] as int)->Some_0;
                &&& final(self).orders@ == old(self).orders@.update(q[0] - 1, Some(Order { remaining: (o.remaining - fill) as i128, ..o }))
                &&& final(self).levels@ == old(self).levels@.update(k as int, TickLevel {
                    total_liquidity: (old(self).levels@[k as int].total_liquidity - fill) as i128,
                    ..old(self).levels@[k as int]
                })
                &&& old(self).levels@[k as int].total_liquidity - fill >= 0
            }),
            final(self).queues@ == old(self).queues@,
            final(self).pending@ == old(self).pending@,
            final(self).books@ == old(self).books@,
            final(self).balances@ == old(self).balances@,
            final(self).admin == old(self).admin,
    {
        let ghost s0 = *self;
        let ghost i = level_index(tick as int);
        let ghost q = self.queues@[k as int];
        let ghost book = self.books@[p as int];
        proof {
            lemma_level_index(tick as int);
            assert(level_ok(s0.orders@, s0.levels@[k as int], q, book, is_bid, tick_at(i)));
            assert(entry_ok(s0.orders@, q, 0, book, is_bid, tick_at(i)));
            assert forall|m: int| 0 <= m < q.len() implies remaining_of(s0.orders@, #[trigger] q[m]) >= 0 by {
                assert(entry_ok(s0.orders@, q, m, book, is_bid, tick_at(i)));
            }
            lemma_sum_ge_entry(s0.orders@, q, 0);
        }
        let _ = self.orders.len();
        let mut lv = self.levels[k];
        let id = lv.head;
        let idx = (id - 1) as usize;
        let o = self.orders[idx].unwrap();
        let o2 = Order { remaining: o.remaining - fill, ..o };
        self.orders.set(idx, Some(o2));
        lv.total_liquidity = lv.total_liquidity - fill;
        self.levels.set(k, lv);
        proof {
            let n = s0.books@.len() as int;
            lemma_sum_replace(s0.orders@, q, 0, o2);
            assert(self.orders@ == s0.orders@.update(q[0] - 1, Some(o2)));
            assert forall|x: int| #[trigger] order_in(self.orders@, x) != order_in(s0.orders@, x) implies (
                order_in(s0.orders@, x) is None || located(order_in(s0.orders@, x)->Some_0, s0.books@[p as int], is_bid, i)) by {
                assert(x == q[0]);
            }
            assert(same_pairs(s0.books@, self.books@));
            s0.lemma_levels_frame(self, p as int, is_bid, i);
            lemma_slot(n, p as int, is_bid, i, p as int, is_bid, i);
            assert forall|j: int| 0 <= j < q.len() implies #[trigger] entry_ok(self.orders@, q, j, book, is_bid, tick_at(i)) by {
                assert(entry_ok(s0.orders@, q, j, book, is_bid, tick_at(i)));
                if j > 0 {
                    assert(q[j] != q[0]);
                }
            }
            assert(level_ok(self.orders@, self.levels@[k as int], q, book, is_bid, tick_at(i)));
            assert(self.levels_ok());
            assert forall|x: int| 1 <= x <= self.orders@.len() && (#[trigger] self.orders@[x - 1]) is Some implies {
                let o3 = self.orders@[x - 1]->Some_0;
                &&& o3.order_id == x
                &&& valid_tick(o3.tick as int)
                &&& self.has_pair(o3.base_token, o3.quote_token)
                &&& in_queue(self.queues@[slot(self.pair_of(o3.base_token, o3.quote_token), o3.is_bid, level_index(o3.tick as int))], x as u128)
            } by {
                assert(s0.actives_ok());
                assert(s0.orders@[x - 1] is Some);
            }
            assert(self.flips_ok()) by {
                assert(s0.flips_ok());
                assert forall|x: int| 1 <= x <= self.orders@.len() && (#[trigger] self.orders@[x - 1]) is Some
                    && self.orders@[x - 1]->Some_0.is_flip implies valid_tick(self.orders@[x - 1]->Some_0.flip_tick as int) by {
                    assert(s0.orders@[x - 1] is Some);
                }
            }
        }
    }
}

impl StablecoinExchange {
    /// Fills up to `amount_to_fill` base units from the head of the queue at
    /// `tick` on side `is_bid` of pair `p`, in queue order: each order gives
    /// what it has left or what is still wanted, whichever is less. A maker
    /// is credited base for a bid and quote for an ask. A fully filled order
    /// leaves the queue, and a fully filled flip order leaves its successor
    /// in the pending namespace. Returns the base and quote filled.
    #[verifier::rlimit(100)]
    #[verifier::spinoff_prover]
    fn fill_tick_level(&mut self, p: usize, is_bid: bool, tick: i32, amount_to_fill: i128) -> (r: (i128, i128))
        requires
            old(self).wf(),
            p < old(self).books@.len(),
            valid_tick(tick as int),
            amount_to_fill >= 0,
            old(self).fill_fits(p as int, is_bid, tick as int, amount_to_fill as int),
        ensures
            final(self).wf(),
            ({
                let (base, quote) = r;
                let ctok = if is_bid { old(self).books@[p as int].base_token } else { old(self).books@[p as int].quote_token };
                let k = slot(p as int, is_bid, level_index(tick as int));
                let q = old(self).queues@[k];
                let total = old(self).levels@[k].total_liquidity;
                &&& base == (if amount_to_fill <= total { amount_to_fill as int } else { total as int })
                &&& final(self).levels@[k].total_liquidity == total - base
                &&& 0 <= quote
                &&& quote * PRICE_SCALE <= base * price_of(tick as int)
                &&& exists|c: int| {
                    &&& 0 <= c <= q.len()
                    &&& final(self).queues@[k] == q.subrange(c, q.len() as int)
                    &&& forall|m: int| 0 <= m < c ==> order_in(final(self).orders@, #[trigger] q[m] as int) is None
                    &&& forall|m: int| c < m < q.len() ==> order_in(final(self).orders@, #[trigger] q[m] as int)
                        == order_in(old(self).orders@, q[m] as int)
                    &&& c < q.len() ==> order_in(final(self).orders@, q[c] as int) is Some && same_identity(
                        order_in(old(self).orders@, q[c] as int)->Some_0,
                        order_in(final(self).orders@, q[c] as int)->Some_0,
                    )
                    &&& final(self).pending@ == old(self).pending@ + flip_successors(old(self).orders@, q.subrange(0, c), old(self).pending@.len() + 1int)
                }
                &&& final(self).orders@.len() == old(self).orders@.len()
                &&& is_suffix(q, final(self).queues@[k])
                &&& forall|u: Address| #[trigger] final(self).balance(u, ctok) == old(self).balance(u, ctok)
                    + level_credit(old(self).orders@, q, amount_to_fill as int, tick as int, is_bid, u)
                &&& forall|k2: int| 0 <= k2 < old(self).levels@.len() && k2 != k ==> final(self).queues@[k2] == old(self).queues@[k2]
                    && final(self).levels@[k2] == old(self).levels@[k2]
                &&& final(self).books@ == old(self).books@
                &&& final(self).admin == old(self).admin
                &&& ({
                    let lf = level_fill(queue_rems(old(self).orders@, q), amount_to_fill as int, tick as int);
                    &&& queue_rems(final(self).orders@, final(self).queues@[k]) == lf.0
                    &&& base == lf.1
                    &&& quote == lf.2
                })
                &&& forall|x: int| (forall|m: int| 0 <= m < q.len() ==> q[m] as int != x) ==> #[trigger] order_in(final(self).orders@, x)
                    == order_in(old(self).orders@, x)
                &&& forall|t: Address| #[trigger] final(self).total_credit(t) == old(self).total_credit(t) + (if t == (if is_bid {
                    old(self).books@[p as int].base_token
                } else {
                    old(self).books@[p as int].quote_token
                }) {
                    if is_bid { base as int } else { quote as int }
                } else {
                    0int
                })
                &&& forall|u: Address, t: Address| #[trigger] final(self).balance(u, t) >= old(self).balance(u, t)
                &&& forall|u: Address, t: Address| #[trigger] final(self).balance(u, t) <= old(self).balance(u, t) + (
                    if is_bid { base as int } else { quote as int })
                &&& forall|u: Address, t: Address| #[trigger] final(self).balance(u, t) != old(self).balance(u, t) ==> t == (if is_bid {
                    old(self).books@[p as int].base_token
                } else {
                    old(self).books@[p as int].quote_token
                }) && old(self).maker_on(u, p as int, is_bid)
            }),
    {
        let ghost s0 = *self;
        let ghost ctok = if is_bid { self.books@[p as int].base_token } else { self.books@[p as int].quote_token };
        let k = self.slot_of(p, is_bid, tick);
        let price = crate::price::tick_to_price(tick);
        let ghost q = self.queues@[k as int];
        let ghost total = self.levels@[k as int].total_liquidity;
        let ghost i = level_index(tick as int);
        let mut total_base: i128 = 0;
        let mut total_quote: i128 = 0;
        let mut remaining = amount_to_fill;
        let ghost mut c: int = 0;
        let ghost fits = s0.fill_fits(p as int, is_bid, tick as int, amount_to_fill as int);
        proof {
            lemma_level_index(tick as int);
            assert(q.subrange(0, 0) =~= Seq::<u128>::empty());
            assert(q.subrange(0, q.len() as int) =~= q);
            assert(s0.pending@ + Seq::<Option<Order>>::empty() =~= s0.pending@);
            assert(level_ok(s0.orders@, s0.levels@[k as int], q, s0.books@[p as int], is_bid, tick_at(i)));
            if q.len() > 0 {
                assert(entry_ok(s0.orders@, q, 0, s0.books@[p as int], is_bid, tick_at(i)));
            }
            let lf0 = level_fill(queue_rems(s0.orders@, q), amount_to_fill as int, tick as int);
            assert(lf0 == (lf0.0, 0 + lf0.1, 0 + lf0.2));
        }
        while remaining > 0 && self.levels[k].head != 0
            invariant
                self.wf(),
                p < self.books@.len(),
                valid_tick(tick as int),
                k == slot(p as int, is_bid, i),
                i == level_index(tick as int),
                k < self.levels@.len(),
                price == price_of(tick as int),
                0 <= c <= q.len(),
                self.queues@[k as int] == q.subrange(c, q.len() as int),
                total_base + remaining == amount_to_fill,
                0 <= total_base,
                0 <= remaining,
                self.levels@[k as int].total_liquidity == total - total_base,
                0 <= total_quote,
                total_quote * PRICE_SCALE <= total_base * price,
                forall|m: int| 0 <= m < c ==> order_in(self.orders@, #[trigger] q[m] as int) is None,
                forall|m: int| c < m < q.len() ==> order_in(self.orders@, #[trigger] q[m] as int) == order_in(s0.orders@, q[m] as int),
                c < q.len() ==> ({
                    let o0 = order_in(s0.orders@, q[c] as int)->Some_0;
                    let o1 = order_in(self.orders@, q[c] as int)->Some_0;
                    &&& order_in(self.orders@, q[c] as int) is Some
                    &&& o1.maker == o0.maker && o1.base_token == o0.base_token && o1.quote_token == o0.quote_token
                    &&& o1.is_bid == o0.is_bid && o1.amount == o0.amount && o1.is_flip == o0.is_flip
                    &&& o1.flip_tick == o0.flip_tick
                    &&& o1.tick == o0.tick
                }),
                self.orders@.len() == s0.orders@.len(),
                self.pending@ == s0.pending@ + flip_successors(s0.orders@, q.subrange(0, c), s0.pending@.len() + 1int),
                forall|k2: int| 0 <= k2 < s0.levels@.len() && k2 != k ==> self.queues@[k2] == s0.queues@[k2] && self.levels@[k2] == s0.levels@[k2],
                self.books@ == s0.books@,
                self.admin == s0.admin,
                self.levels@.len() == s0.levels@.len(),
                self.queues@.len() == s0.queues@.len(),
                s0.wf(),
                q == s0.queues@[k as int],
                total == s0.levels@[k as int].total_liquidity,
                ({
                    let lf0 = level_fill(queue_rems(s0.orders@, q), amount_to_fill as int, tick as int);
                    let lfc = level_fill(queue_rems(self.orders@, self.queues@[k as int]), remaining as int, tick as int);
                    lf0 == (lfc.0, total_base + lfc.1, total_quote + lfc.2)
                }),
                forall|x: int| (forall|m: int| 0 <= m < q.len() ==> q[m] as int != x) ==> #[trigger] order_in(self.orders@, x)
                    == order_in(s0.orders@, x),
                ctok == (if is_bid { s0.books@[p as int].base_token } else { s0.books@[p as int].quote_token }),
                forall|t: Address| #[trigger] self.total_credit(t) == s0.total_credit(t) + (if t == ctok {
                    if is_bid { total_base as int } else { total_quote as int }
                } else {
                    0int
                }),
                forall|u: Address, t: Address| #[trigger] self.balance(u, t) >= s0.balance(u, t),
                forall|u: Address, t: Address| #[trigger] self.balance(u, t) <= s0.balance(u, t) + (
                    if is_bid { total_base as int } else { total_quote as int }),
                fits == s0.fill_fits(p as int, is_bid, tick as int, amount_to_fill as int),
                fits,
                s0 == *old(self),
                forall|u: Address| #[trigger] self.balance(u, ctok) + level_credit(self.orders@, self.queues@[k as int], remaining as int, tick as int, is_bid, u) == s0.balance(u, ctok) + level_credit(s0.orders@, q, amount_to_fill as int, tick as int, is_bid, u),
                forall|u: Address, t: Address| #[trigger] self.balance(u, t) != s0.balance(u, t) ==> t == ctok && s0.maker_on(u, p as int, is_bid),
            decreases remaining,
        {
            let ghost w0 = *self;
            let ghost qc = self.queues@[k as int];
            let ghost rc = queue_rems(self.orders@, qc);
            let ghost rem0 = remaining;
            let ghost tb0 = total_base;
            let ghost tq0 = total_quote;
            let lv = self.levels[k];
            let id = lv.head;
            proof {
                assert(level_ok(self.orders@, self.levels@[k as int], qc, self.books@[p as int], is_bid, tick_at(i)));
                assert(qc.len() > 0);
                assert(entry_ok(self.orders@, qc, 0, self.books@[p as int], is_bid, tick_at(i)));
                assert(qc[0] == q[c]);
                assert(order_in(s0.orders@, q[c] as int) is Some) by {
                    assert(level_ok(s0.orders@, s0.levels@[k as int], q, s0.books@[p as int], is_bid, tick_at(i)));
                    assert(entry_ok(s0.orders@, q, c, s0.books@[p as int], is_bid, tick_at(i)));
                }
            }
            let o = self.get_order(id).unwrap();
            let fill = if remaining < o.remaining { remaining } else { o.remaining };
            proof {
                assert((total_base + fill) * price <= amount_to_fill * price) by (nonlinear_arith)
                    requires
                        0 <= total_base + fill <= amount_to_fill,
                        price >= 1,
                ;
                assert(fill * price <= (total_base + fill) * price) by (nonlinear_arith)
                    requires
                        0 <= total_base,
                        0 <= fill,
                        price >= 1,
                ;
            }
            proof {
                lemma_quote_bound(fill as int, price as int);
                assert(fits);
                assert(amount_to_fill * price <= i128::MAX);
                assert(fill * price <= i128::MAX);
            }
            let quote = fill * price / PRICE_SCALE;
            proof {
                assert((total_quote + quote) * PRICE_SCALE <= (total_base + fill) * price) by (nonlinear_arith)
                    requires
                        total_quote * PRICE_SCALE <= total_base * price,
                        quote * PRICE_SCALE <= fill * price,
                ;
            }
            proof {
                assert((total_quote + quote) * PRICE_SCALE <= i128::MAX);
            }
            let new_quote = total_quote + quote;
            total_quote = new_quote;
            total_base = total_base + fill;
            remaining = remaining - fill;
            let credit_token = if is_bid { o.base_token } else { o.quote_token };
            let credit_amount = if is_bid { fill } else { quote };
            proof {
                assert(credit_token == ctok);
            }
            let ghost wb = *self;
            proof {
                if fits {
                    let cap = if is_bid { amount_to_fill as int } else { (amount_to_fill * price) / (PRICE_SCALE as int) };
                    assert(s0.balance(o.maker, ctok) + cap <= i128::MAX);
                    if !is_bid {
                        assert(total_quote <= (amount_to_fill * price) / (PRICE_SCALE as int));
                    }
                    assert(wb.balance(o.maker, ctok) + credit_amount <= i128::MAX);
                }
            }
            proof {
                assert(s0.rests_with(q[c] as int, o.maker, p as int, is_bid)) by {
                    assert(level_ok(s0.orders@, s0.levels@[k as int], q, s0.books@[p as int], is_bid, tick_at(i)));
                    assert(entry_ok(s0.orders@, q, c, s0.books@[p as int], is_bid, tick_at(i)));
                    assert(order_in(w0.orders@, id as int) == Some(o));
                    s0.lemma_pair_unique(p as int);
                }
            }
            let credited = self.add_balance(o.maker, credit_token, credit_amount);
            proof {
                assert(credited is Ok);
            }
            proof {
                assert forall|u: Address, t: Address| #[trigger] self.balance(u, t) != s0.balance(u, t) implies t == ctok && s0.maker_on(u, p as int, is_bid) by {
                    if wb.balance(u, t) != s0.balance(u, t) {
                    } else {
                        assert(u == o.maker && t == credit_token);
                    }
                }
                assert forall|u: Address, t: Address| #[trigger] self.balance(u, t) <= s0.balance(u, t) + (
                    if is_bid { total_base as int } else { total_quote as int }) by {
                    assert(wb.balance(u, t) <= s0.balance(u, t) + (
                        if is_bid { (total_base - fill) as int } else { (total_quote - quote) as int }));
                }
                assert forall|u: Address, t: Address| #[trigger] self.balance(u, t) >= s0.balance(u, t) by {
                    assert(wb.balance(u, t) >= s0.balance(u, t));
                }
                assert forall|t: Address| #[trigger] self.total_credit(t) == s0.total_credit(t) + (if t == ctok {
                    if is_bid { total_base as int } else { total_quote as int }
                } else {
                    0int
                }) by {
                    assert(wb.total_credit(t) == s0.total_credit(t) + (if t == ctok {
                        if is_bid { (total_base - fill) as int } else { (total_quote - quote) as int }
                    } else {
                        0int
                    }));
                }
            }
            let ghost wa = *self;
            if fill == o.remaining {
                let ghost w1 = *self;
                self.remove_order_from_book(id);
                self.delete_order(Ghost(w1), id);
                proof {
                    assert(level_ok(s0.orders@, s0.levels@[k as int], q, s0.books@[p as int], is_bid, tick_at(i)));
                    assert(o.prev == 0);
                    if c + 1 < q.len() {
                        assert(qc[1] == q[c + 1]);
                        assert(o.next == q[c + 1]);
                    } else {
                        assert(o.next == 0);
                    }
                    let j = choose|j: int| 0 <= j < qc.len() && qc[j] == id && self.queues@[k as int] == qc.remove(j);
                    assert(s0.pair_of(o.base_token, o.quote_token) == p) by {
                        s0.lemma_pair_unique(p as int);
                        w1.lemma_pair_unique(p as int);
                    }
                    assert(w1.pair_of(o.base_token, o.quote_token) == p) by {
                        w1.lemma_pair_unique(p as int);
                    }
                    if j != 0 {
                        assert(level_ok(w1.orders@, w1.levels@[k as int], qc, w1.books@[p as int], is_bid, tick_at(i)));
                    }
                    assert(qc.remove(0) =~= q.subrange(c + 1, q.len() as int));
                    assert(o.tick == tick);
                    assert(slot(w1.pair_of(o.base_token, o.quote_token), o.is_bid, level_index(o.tick as int)) == k);
                    assert forall|k2: int| 0 <= k2 < s0.levels@.len() && k2 != k implies self.queues@[k2] == s0.queues@[k2]
                        && self.levels@[k2] == s0.levels@[k2] by {
                        assert(w0.queues@[k2] == s0.queues@[k2]);
                        assert(w0.levels@[k2] == s0.levels@[k2]);
                        assert(w1.levels@ == w0.levels@ && w1.queues@ == w0.queues@);
                        assert(self.queues@[k2] == w1.queues@[k2]);
                        assert(self.levels@[k2] == w1.levels@[k2]);
                    }
                    assert(w1.active_order(id as int) == Some(o));
                    if c + 1 < q.len() {
                        assert(entry_ok(s0.orders@, q, c + 1, s0.books@[p as int], is_bid, tick_at(i)));
                        assert(o.next != 0);
                        assert(order_in(w1.orders@, q[c + 1] as int) == order_in(s0.orders@, q[c + 1] as int));
                        assert(self.active_order(q[c + 1] as int) == Some(Order { prev: 0, ..w1.active_order(q[c + 1] as int)->Some_0 }));
                    }
                }
                if o.is_flip {
                    let n = self.pending.len();
                    proof {
                        assert(w0.flips_ok());
                        assert(w0.actives_ok());
                        assert(w0.orders@[id - 1] is Some);
                        lemma_level_index(o.tick as int);
                    }
                    let f = Order {
                        order_id: (n as u128) + 1,
                        maker: o.maker,
                        base_token: o.base_token,
                        quote_token: o.quote_token,
                        is_bid: !o.is_bid,
                        tick: o.flip_tick,
                        amount: o.amount,
                        remaining: o.amount,
                        prev: 0,
                        next: 0,
                        is_flip: false,
                        flip_tick: 0,
                    };
                    self.push_pending(f);
                }
                proof {
                    let ids = q.subrange(0, c + 1);
                    assert(ids.drop_last() =~= q.subrange(0, c));
                    assert(ids.last() == q[c]);
                    let before = flip_successors(s0.orders@, q.subrange(0, c), s0.pending@.len() + 1int);
                    assert(w0.pending@.len() == s0.pending@.len() + before.len());
                    if o.is_flip {
                        assert(self.pending@ =~= s0.pending@ + before.push(Some(crate::order::flipped(order_in(s0.orders@, q[c] as int)->Some_0, (s0.pending@.len() + 1 + before.len()) as u128))));
                    }
                    c = c + 1;
                    assert forall|m: int| c < m < q.len() implies order_in(self.orders@, #[trigger] q[m] as int) == order_in(s0.orders@, q[m] as int) by {
                        assert(q[m] != q[c - 1]);
                        assert(q[m] != q[c]);
                        assert(entry_ok(s0.orders@, q, m, s0.books@[p as int], is_bid, tick_at(i)));
                        assert(q[m] as int != 0);
                        assert(self.active_order(q[m] as int) == w1.active_order(q[m] as int));
                    }
                    assert forall|k2: int| 0 <= k2 < s0.levels@.len() && k2 != k implies self.queues@[k2] == s0.queues@[k2] && self.levels@[k2] == s0.levels@[k2] by {
                        assert(w0.queues@[k2] == s0.queues@[k2]);
                        assert(w0.levels@[k2] == s0.levels@[k2]);
                        assert(w1.levels@ == w0.levels@ && w1.queues@ == w0.queues@);
                    }
                    assert(queue_rems(self.orders@, self.queues@[k as int]) =~= rc.subrange(1, rc.len() as int)) by {
                        assert(self.queues@[k as int] == qc.remove(0));
                        assert forall|m: int| 0 <= m < qc.len() - 1 implies remaining_of(self.orders@, #[trigger] qc[m + 1]) == remaining_of(w0.orders@, qc[m + 1]) by {
                            assert(qc[m + 1] == q[c + m]);
                        }
                    }
                    assert(rc[0] == o.remaining);
                    assert forall|x: int| (forall|m: int| 0 <= m < q.len() ==> q[m] as int != x) implies #[trigger] order_in(self.orders@, x)
                        == order_in(s0.orders@, x) by {
                        assert(q[c - 1] as int != x);
                        if c < q.len() {
                            assert(q[c] as int != x);
                        }
                        assert(order_in(w0.orders@, x) == order_in(s0.orders@, x));
                        assert(order_in(w1.orders@, x) == order_in(w0.orders@, x));
                        if x != 0 {
                            assert(x != id as int && x != o.next as int);
                            assert(w1.active_order(x) == self.active_order(x));
                        }
                    }
                    assert(self.balances@ == wa.balances@);
                    let q1 = qc.subrange(1, qc.len() as int);
                    assert(self.queues@[k as int] == q1);
                    assert forall|m: int| 0 <= m < q1.len() implies order_in(self.orders@, #[trigger] q1[m] as int)->Some_0.maker
                        == order_in(w0.orders@, q1[m] as int)->Some_0.maker && order_in(self.orders@, q1[m] as int)->Some_0.remaining
                        == order_in(w0.orders@, q1[m] as int)->Some_0.remaining by {
                        assert(q1[m] == q[c + m]);
                        if m > 0 {
                            assert(order_in(w0.orders@, q[c + m] as int) == order_in(s0.orders@, q[c + m] as int));
                        } else {
                            assert(order_in(w0.orders@, q[c] as int) == order_in(s0.orders@, q[c] as int));
                        }
                    }
                    assert forall|u: Address| #[trigger] level_credit(self.orders@, q1, remaining as int, tick as int, is_bid, u)
                        == level_credit(w0.orders@, q1, remaining as int, tick as int, is_bid, u) by {
                        lemma_level_credit_frame(self.orders@, w0.orders@, q1, remaining as int, tick as int, is_bid, u);
                    }
                    assert forall|m: int| 0 <= m < c implies order_in(self.orders@, #[trigger] q[m] as int) is None by {
                        if m < c - 1 {
                            assert(q[m] != q[c - 1]);
                            if c < q.len() {
                                assert(q[m] != q[c]);
                            }
                            assert(w1.active_order(q[m] as int) is None);
                        }
                    }
                }
            } else {
                let ghost w1 = *self;
                self.reduce_head(p, is_bid, tick, k, fill);
                proof {
                    assert(self.balances@ == wa.balances@);
                }
                proof {
                    assert(level_ok(s0.orders@, s0.levels@[k as int], q, s0.books@[p as int], is_bid, tick_at(i)));
                    assert(qc[0] == q[c]);
                    assert(w1.levels@ == w0.levels@);
                    assert(w1.queues@ == w0.queues@);
                    assert(self.queues@ == w0.queues@);
                    assert forall|k2: int| 0 <= k2 < s0.levels@.len() && k2 != k implies self.queues@[k2] == s0.queues@[k2] && self.levels@[k2] == s0.levels@[k2] by {
                        assert(w0.queues@[k2] == s0.queues@[k2]);
                        assert(w0.levels@[k2] == s0.levels@[k2]);
                        assert(self.levels@[k2] == w1.levels@[k2]);
                    }
                    assert forall|m: int| c < m < q.len() implies order_in(self.orders@, #[trigger] q[m] as int) == order_in(s0.orders@, q[m] as int) by {
                        assert(q[m] != q[c]);
                        assert(entry_ok(s0.orders@, q, m, s0.books@[p as int], is_bid, tick_at(i)));
                    }
                    assert(rc[0] == o.remaining);
                    assert(queue_rems(self.orders@, self.queues@[k as int]) =~= rc.update(0, rc[0] - fill)) by {
                        assert forall|m: int| 0 < m < qc.len() implies #[trigger] qc[m] != qc[0] by {
                            assert(level_ok(w0.orders@, w0.levels@[k as int], qc, w0.books@[p as int], is_bid, tick_at(i)));
                        }
                    }
                    assert forall|x: int| (forall|m: int| 0 <= m < q.len() ==> q[m] as int != x) implies #[trigger] order_in(self.orders@, x)
                        == order_in(s0.orders@, x) by {
                        assert(q[c] as int != x);
                        assert(order_in(w0.orders@, x) == order_in(s0.orders@, x));
                        assert(order_in(w1.orders@, x) == order_in(w0.orders@, x));
                    }
                }
            }
            proof {
                assert(self.balances@ == wa.balances@);
                let q1 = qc.subrange(1, qc.len() as int);
                assert forall|u: Address| #[trigger] self.balance(u, ctok) + level_credit(self.orders@, self.queues@[k as int], remaining as int, tick as int, is_bid, u) == s0.balance(u, ctok) + level_credit(s0.orders@, q, amount_to_fill as int, tick as int, is_bid, u) by {
                    assert(wb.balance(u, ctok) == w0.balance(u, ctok));
                    assert(w0.balance(u, ctok) + level_credit(w0.orders@, qc, rem0 as int, tick as int, is_bid, u) == s0.balance(u, ctok) + level_credit(s0.orders@, q, amount_to_fill as int, tick as int, is_bid, u));
                    assert(o == order_in(w0.orders@, qc[0] as int)->Some_0);
                    assert(credit_amount == (if is_bid { fill as int } else { crate::price::quote_amount(fill as int, tick as int) }));
                    assert(level_credit(w0.orders@, qc, rem0 as int, tick as int, is_bid, u) == (if o.maker == u { credit_amount as int } else { 0int })
                        + level_credit(w0.orders@, q1, rem0 - fill, tick as int, is_bid, u));
                    assert(self.balance(u, ctok) == wa.balance(u, ctok));
                    assert(wa.balance(u, ctok) == wb.balance(u, ctok) + (if o.maker == u { credit_amount as int } else { 0int }));
                    if fill == o.remaining {
                        assert(level_credit(self.orders@, q1, remaining as int, tick as int, is_bid, u)
                            == level_credit(w0.orders@, q1, remaining as int, tick as int, is_bid, u));
                    } else {
                        assert(remaining == 0);
                    }
                }
                assert forall|u: Address, t: Address| #[trigger] self.balance(u, t) >= s0.balance(u, t) by {
                    assert(self.balance(u, t) == wa.balance(u, t));
                }
                assert forall|u: Address, t: Address| #[trigger] self.balance(u, t) <= s0.balance(u, t) + (
                    if is_bid { total_base as int } else { total_quote as int }) by {
                    assert(self.balance(u, t) == wa.balance(u, t));
                }
                assert forall|u: Address, t: Address| #[trigger] self.balance(u, t) != s0.balance(u, t) implies t == ctok && s0.maker_on(u, p as int, is_bid) by {
                    assert(self.balance(u, t) == wa.balance(u, t));
                }
                assert forall|t: Address| #[trigger] self.total_credit(t) == s0.total_credit(t) + (if t == ctok {
                    if is_bid { total_base as int } else { total_quote as int }
                } else {
                    0int
                }) by {
                    assert(self.total_credit(t) == wa.total_credit(t));
                }
            }
        }
        proof {
            let qc = self.queues@[k as int];
            assert(level_ok(self.orders@, self.levels@[k as int], qc, self.books@[p as int], is_bid, tick_at(i)));
            if qc.len() > 0 {
                assert forall|m: int| 0 <= m < qc.len() implies remaining_of(self.orders@, #[trigger] qc[m]) >= 0 by {
                    assert(entry_ok(self.orders@, qc, m, self.books@[p as int], is_bid, tick_at(i)));
                }
                lemma_sum_ge_entry(self.orders@, qc, 0);
            }
            assert(0 <= c <= q.len() && self.queues@[k as int] == q.subrange(c, q.len() as int));
            assert(is_suffix(q, self.queues@[k as int]));
        }
        (total_base, total_quote)
    }
}

impl StablecoinExchange {
    /// The highest valid tick at or below `from_tick` whose bid queue in
    /// pair `p` is not empty, if any.
    fn next_bid_tick(&self, p: usize, from_tick: i32) -> (r: Option<i32>)
        requires
            self.wf(),
            p < self.books@.len(),
        ensures
            r matches Some(t) ==> valid_tick(t as int) && t <= from_tick
                && self.queues@[slot(p as int, true, level_index(t as int))].len() > 0
                && forall|t2: int| valid_tick(t2) && t < t2 <= from_tick ==> #[trigger] self.queues@[slot(p as int, true, level_index(t2))].len() == 0,
            r is None ==> forall|t2: int| valid_tick(t2) && t2 <= from_tick ==> #[trigger] self.queues@[slot(p as int, true, level_index(t2))].len() == 0,
    {
        if from_tick < MIN_TICK {
            return None;
        }
        let mut tick: i32 = if from_tick > MAX_TICK { MAX_TICK } else { crate::price::align_tick_down(from_tick) };
        let ghost start = tick;
        while tick >= MIN_TICK
            invariant
                self.wf(),
                p < self.books@.len(),
                tick % TICK_SPACING == 0,
                MIN_TICK - TICK_SPACING <= tick <= MAX_TICK,
                tick <= from_tick,
                forall|t2: int| valid_tick(t2) && tick < t2 <= from_tick ==> #[trigger] self.queues@[slot(p as int, true, level_index(t2))].len() == 0,
            decreases tick - MIN_TICK + TICK_SPACING,
        {
            let k = self.slot_of(p, true, tick);
            if self.levels[k].head != 0 {
                proof {
                    lemma_level_index(tick as int);
                    assert(level_ok(self.orders@, self.levels@[k as int], self.queues@[k as int], self.books@[p as int], true, tick_at(level_index(tick as int))));
                }
                return Some(tick);
            }
            proof {
                lemma_level_index(tick as int);
                assert(level_ok(self.orders@, self.levels@[k as int], self.queues@[k as int], self.books@[p as int], true, tick_at(level_index(tick as int))));
                if self.queues@[k as int].len() > 0 {
                    assert(entry_ok(self.orders@, self.queues@[k as int], 0, self.books@[p as int], true, tick_at(level_index(tick as int))));
                }
            }
            tick = tick - TICK_SPACING;
        }
        None
    }

    /// The lowest valid tick at or above `from_tick` whose ask queue in
    /// pair `p` is not empty, if any.
    fn next_ask_tick(&self, p: usize, from_tick: i32) -> (r: Option<i32>)
        requires
            self.wf(),
            p < self.books@.len(),
        ensures
            r matches Some(t) ==> valid_tick(t as int) && t >= from_tick
                && self.queues@[slot(p as int, false, level_index(t as int))].len() > 0
                && forall|t2: int| valid_tick(t2) && from_tick <= t2 < t ==> #[trigger] self.queues@[slot(p as int, false, level_index(t2))].len() == 0,
            r is None ==> forall|t2: int| valid_tick(t2) && t2 >= from_tick ==> #[trigger] self.queues@[slot(p as int, false, level_index(t2))].len() == 0,
    {
        if from_tick > MAX_TICK {
            return None;
        }
        let mut tick: i32 = if from_tick < MIN_TICK { MIN_TICK } else { crate::price::align_tick_up(from_tick) };
        while tick <= MAX_TICK
            invariant
                self.wf(),
                p < self.books@.len(),
                tick % TICK_SPACING == 0,
                MIN_TICK <= tick <= MAX_TICK + TICK_SPACING,
                tick >= from_tick,
                forall|t2: int| valid_tick(t2) && from_tick <= t2 < tick ==> #[trigger] self.queues@[slot(p as int, false, level_index(t2))].len() == 0,
            decreases MAX_TICK + TICK_SPACING - tick,
        {
            let k = self.slot_of(p, false, tick);
            if self.levels[k].head != 0 {
                proof {
                    lemma_level_index(tick as int);
                    assert(level_ok(self.orders@, self.levels@[k as int], self.queues@[k as int], self.books@[p as int], false, tick_at(level_index(tick as int))));
                }
                return Some(tick);
            }
            proof {
                lemma_level_index(tick as int);
                assert(level_ok(self.orders@, self.levels@[k as int], self.queues@[k as int], self.books@[p as int], false, tick_at(level_index(tick as int))));
                if self.queues@[k as int].len() > 0 {
                    assert(entry_ok(self.orders@, self.queues@[k as int], 0, self.books@[p as int], false, tick_at(level_index(tick as int))));
                }
            }
            tick = tick + TICK_SPACING;
        }
        None
    }
}

impl StablecoinExchange {
    /// Replaces the cursors of pair `p`.
    fn set_cursors(&mut self, p: usize, best_bid_tick: i32, best_ask_tick: i32)
        requires
            old(self).wf(),
            p < old(self).books@.len(),
            best_bid_tick == MIN_TICK - 1 || valid_tick(best_bid_tick as int),
            best_ask_tick == MAX_TICK + 1 || valid_tick(best_ask_tick as int),
            forall|i: int| 0 <= i < LEVELS_PER_SIDE && tick_at(i) > best_bid_tick ==> (
                #[trigger] old(self).queues@[slot(p as int, true, i)]).len() == 0,
            forall|i: int| 0 <= i < LEVELS_PER_SIDE && tick_at(i) < best_ask_tick ==> (
                #[trigger] old(self).queues@[slot(p as int, false, i)]).len() == 0,
        ensures
            final(self).wf(),
            final(self).books@ == old(self).books@.update(p as int, Orderbook { best_bid_tick, best_ask_tick, ..old(self).books@[p as int] }),
            final(self).orders@ == old(self).orders@,
            final(self).pending@ == old(self).pending@,
            final(self).levels@ == old(self).levels@,
            final(self).queues@ == old(self).queues@,
            final(self).balances@ == old(self).balances@,
            final(self).admin == old(self).admin,
    {
        let ghost s0 = *self;
        let b = self.books[p];
        self.books.set(p, Orderbook { best_bid_tick, best_ask_tick, ..b });
        proof {
            assert(same_pairs(s0.books@, self.books@));
            let n = s0.books@.len() as int;
            assert forall|p2: int, s: bool, i: int|
                0 <= p2 < self.books@.len() && 0 <= i < LEVELS_PER_SIDE implies #[trigger] level_ok(
                    self.orders@, self.levels@[slot(p2, s, i)], self.queues@[slot(p2, s, i)], self.books@[p2], s, tick_at(i)) by {
                assert(level_ok(s0.orders@, s0.levels@[slot(p2, s, i)], s0.queues@[slot(p2, s, i)], s0.books@[p2], s, tick_at(i)));
                let q = s0.queues@[slot(p2, s, i)];
                assert forall|j: int| 0 <= j < q.len() implies #[trigger] entry_ok(self.orders@, q, j, self.books@[p2], s, tick_at(i)) by {
                    assert(entry_ok(s0.orders@, q, j, s0.books@[p2], s, tick_at(i)));
                }
            }
            assert forall|x: int| 1 <= x <= self.orders@.len() && (#[trigger] self.orders@[x - 1]) is Some implies {
                let o = self.orders@[x - 1]->Some_0;
                &&& o.order_id == x
                &&& valid_tick(o.tick as int)
                &&& self.has_pair(o.base_token, o.quote_token)
                &&& in_queue(self.queues@[slot(self.pair_of(o.base_token, o.quote_token), o.is_bid, level_index(o.tick as int))], x as u128)
            } by {
                assert(s0.actives_ok());
                let o = self.orders@[x - 1]->Some_0;
                s0.lemma_same_pairs(self, o.base_token, o.quote_token);
            }
            assert forall|x: int| 1 <= x <= self.pending@.len() && (#[trigger] self.pending@[x - 1]) is Some implies
                self.has_pair(self.pending@[x - 1]->Some_0.base_token, self.pending@[x - 1]->Some_0.quote_token) by {
                assert(s0.pendings_ok());
                let o = self.pending@[x - 1]->Some_0;
                s0.lemma_same_pairs(self, o.base_token, o.quote_token);
            }
            assert(self.cursors_ok()) by {
                assert(s0.cursors_ok());
            }
        }
    }

    /// Moves the bid cursor of pair `p` to its highest non-empty bid level,
    /// or to `MIN_TICK - 1` if there is none.
    fn refresh_best_bid(&mut self, p: usize)
        requires
            old(self).wf(),
            p < old(self).books@.len(),
        ensures
            final(self).wf(),
            final(self).books@.len() == old(self).books@.len(),
            final(self).books@[p as int].best_ask_tick == old(self).books@[p as int].best_ask_tick,
            forall|p2: int| 0 <= p2 < old(self).books@.len() && p2 != p ==> final(self).books@[p2] == old(self).books@[p2],
            same_pairs(old(self).books@, final(self).books@),
            final(self).books@[p as int].best_bid_tick == MIN_TICK - 1 || old(self).queues@[
                slot(p as int, true, level_index(final(self).books@[p as int].best_bid_tick as int))].len() > 0,
            final(self).orders@ == old(self).orders@,
            final(self).pending@ == old(self).pending@,
            final(self).levels@ == old(self).levels@,
            final(self).queues@ == old(self).queues@,
            final(self).balances@ == old(self).balances@,
            final(self).admin == old(self).admin,
    {
        let b = self.books[p];
        let best = match self.next_bid_tick(p, MAX_TICK) {
            Some(t) => t,
            None => MIN_TICK - 1,
        };
        proof {
            assert(self.cursors_ok());
            assert forall|i: int| 0 <= i < LEVELS_PER_SIDE && tick_at(i) > best implies (
                #[trigger] self.queues@[slot(p as int, true, i)]).len() == 0 by {
                lemma_tick_at(i);
            }
            assert forall|i: int| 0 <= i < LEVELS_PER_SIDE && tick_at(i) < b.best_ask_tick implies (
                #[trigger] self.queues@[slot(p as int, false, i)]).len() == 0 by {
                assert(self.books@[p as int] == b);
            }
        }
        self.set_cursors(p, best, b.best_ask_tick);
    }

    /// Moves the ask cursor of pair `p` to its lowest non-empty ask level,
    /// or to `MAX_TICK + 1` if there is none.
    fn refresh_best_ask(&mut self, p: usize)
        requires
            old(self).wf(),
            p < old(self).books@.len(),
        ensures
            final(self).wf(),
            final(self).books@.len() == old(self).books@.len(),
            final(self).books@[p as int].best_bid_tick == old(self).books@[p as int].best_bid_tick,
            forall|p2: int| 0 <= p2 < old(self).books@.len() && p2 != p ==> final(self).books@[p2] == old(self).books@[p2],
            same_pairs(old(self).books@, final(self).books@),
            final(self).books@[p as int].best_ask_tick == MAX_TICK + 1 || old(self).queues@[
                slot(p as int, false, level_index(final(self).books@[p as int].best_ask_tick as int))].len() > 0,
            final(self).orders@ == old(self).orders@,
            final(self).pending@ == old(self).pending@,
            final(self).levels@ == old(self).levels@,
            final(self).queues@ == old(self).queues@,
            final(self).balances@ == old(self).balances@,
            final(self).admin == old(self).admin,
    {
        let b = self.books[p];
        let best = match self.next_ask_tick(p, MIN_TICK) {
            Some(t) => t,
            None => MAX_TICK + 1,
        };
        proof {
            assert(self.cursors_ok());
            assert forall|i: int| 0 <= i < LEVELS_PER_SIDE && tick_at(i) < best implies (
                #[trigger] self.queues@[slot(p as int, false, i)]).len() == 0 by {
                lemma_tick_at(i);
            }
            assert forall|i: int| 0 <= i < LEVELS_PER_SIDE && tick_at(i) > b.best_bid_tick implies (
                #[trigger] self.queues@[slot(p as int, true, i)]).len() == 0 by {
                assert(self.books@[p as int] == b);
            }
        }
        self.set_cursors(p, b.best_bid_tick, best);
    }
}

/// `new` keeps every pending order of `old`, in place, and may have more.
pub open spec fn pending_kept(old: Seq<Option<Order>>, new: Seq<Option<Order>>) -> bool {
    &&& old.len() <= new.len()
    &&& forall|x: int| 0 <= x < old.len() ==> #[trigger] new[x] == old[x]
}

impl StablecoinExchange {
    /// Walks the asks of pair `p` from the ask cursor upward, buying base
    /// with up to `amount_in` quote. Returns the base bought and the quote
    /// left over.
    #[verifier::rlimit(100)]
    #[verifier::spinoff_prover]
    fn match_asks(&mut self, p: usize, amount_in: i128) -> (r: Result<(i128, i128), Error>)
        requires
            old(self).wf(),
            p < old(self).books@.len(),
            amount_in >= 0,
        ensures
            final(self).wf(),
            r matches Ok((out, rem)) ==> 0 <= out && 0 <= rem <= amount_in,
            r is Err ==> r == Err::<(i128, i128), Error>(Error::Overflow),
            old(self).walk_fits(p as int, true, amount_in as int) ==> r is Ok,
            r is Ok ==> same_pairs(old(self).books@, final(self).books@),
            r is Ok ==> pending_kept(old(self).pending@, final(self).pending@),
            r is Ok ==> final(self).admin == old(self).admin,
            r is Ok ==> Self::flips_sound(old(self), final(self)),
            r is Ok ==> forall|i2: int| 0 <= i2 < LEVELS_PER_SIDE ==> is_suffix(old(self).queue_at(p as int, false, i2),
                #[trigger] final(self).queue_at(p as int, false, i2)),
            r is Ok ==> forall|i2: int| 0 <= i2 < LEVELS_PER_SIDE ==> #[trigger] final(self).queue_at(p as int, true, i2)
                == old(self).queue_at(p as int, true, i2),
            r is Ok ==> forall|u: Address, t: Address| #[trigger] final(self).balance(u, t) != old(self).balance(u, t)
                ==> t == old(self).books@[p as int].quote_token && old(self).maker_on(u, p as int, false),
            r matches Ok((out, rem)) ==> forall|u: Address, t: Address| #[trigger] final(self).balance(u, t) <= old(self).balance(u, t)
                + (amount_in - rem),
            r is Ok ==> final(self).books@[p as int].best_bid_tick == old(self).books@[p as int].best_bid_tick,
            r is Ok ==> final(self).side_rems(p as int, true) == old(self).side_rems(p as int, true),
            r matches Ok((out, rem)) ==> forall|t: Address| #[trigger] final(self).total_credit(t) == old(self).total_credit(t) + (
                if t == old(self).books@[p as int].quote_token { amount_in - rem } else { 0int }),
            r is Ok ==> forall|u: Address, t: Address| #[trigger] final(self).balance(u, t) >= old(self).balance(u, t),
            r matches Ok((out, rem)) ==> swap_walk(old(self).side_rems(p as int, false), true,
                cursor_index(old(self).books@[p as int].best_ask_tick as int), amount_in as int)
                == (out as int, rem as int, final(self).side_rems(p as int, false)),
    {
        let ghost s0 = *self;
        let mut remaining_in = amount_in;
        let mut total_out: i128 = 0;
        proof {
            assert forall|i2: int| 0 <= i2 < LEVELS_PER_SIDE implies is_suffix(s0.queue_at(p as int, false, i2), #[trigger] self.queue_at(p as int, false, i2)) by {
                lemma_suffix_refl(s0.queue_at(p as int, false, i2));
            }
        }
        let ghost fits = s0.walk_fits(p as int, true, amount_in as int);
        proof {
            assert(pending_kept(s0.pending@, self.pending@));
        }
        loop
            invariant
                self.wf(),
                p < self.books@.len(),
                0 <= remaining_in <= amount_in,
                0 <= total_out,
                same_pairs(s0.books@, self.books@),
                pending_kept(s0.pending@, self.pending@),
                self.admin == s0.admin,
                s0 == *old(self),
                Self::flips_sound(&s0, self),
                self.books@[p as int].best_bid_tick == s0.books@[p as int].best_bid_tick,
                forall|u: Address, t: Address| #[trigger] self.balance(u, t) != s0.balance(u, t) ==> t == s0.books@[p as int].quote_token && s0.maker_on(u, p as int, false),
                forall|i2: int| 0 <= i2 < LEVELS_PER_SIDE ==> is_suffix(s0.queue_at(p as int, false, i2), #[trigger] self.queue_at(p as int, false, i2)),
                forall|i2: int| 0 <= i2 < LEVELS_PER_SIDE ==> #[trigger] self.queue_at(p as int, true, i2) == s0.queue_at(p as int, true, i2),
                fits == s0.walk_fits(p as int, true, amount_in as int),
                forall|u: Address, t: Address| #[trigger] self.balance(u, t) <= s0.balance(u, t) + (amount_in - remaining_in),
                self.side_rems(p as int, true) == s0.side_rems(p as int, true),
                forall|t: Address| #[trigger] self.total_credit(t) == s0.total_credit(t) + (
                    if t == s0.books@[p as int].quote_token { amount_in - remaining_in } else { 0int }),
                forall|u: Address, t: Address| #[trigger] self.balance(u, t) >= s0.balance(u, t),
                ({
                    let w = swap_walk(self.side_rems(p as int, false), true, cursor_index(self.books@[p as int].best_ask_tick as int), remaining_in as int);
                    swap_walk(s0.side_rems(p as int, false), true, cursor_index(s0.books@[p as int].best_ask_tick as int), amount_in as int)
                        == (total_out + w.0, w.1, w.2)
                }),
            ensures
                swap_walk(self.side_rems(p as int, false), true, cursor_index(self.books@[p as int].best_ask_tick as int), remaining_in as int)
                    == (0int, remaining_in as int, self.side_rems(p as int, false)),
            decreases
                MAX_TICK + 1 - self.books@[p as int].best_ask_tick,
                if valid_tick(self.books@[p as int].best_ask_tick as int) {
                    self.levels@[slot(p as int, false, level_index(self.books@[p as int].best_ask_tick as int))].total_liquidity as int
                } else {
                    0int
                },
        {
            let ghost w0 = *self;
            let b = self.books[p];
            if !(remaining_in > 0 && b.best_ask_tick <= MAX_TICK) {
                proof {
                    assert(self.cursors_ok());
                    assert(self.books@[p as int] == b);
                    assert(swap_walk(self.side_rems(p as int, false), true, cursor_index(self.books@[p as int].best_ask_tick as int), remaining_in as int) == (0int, remaining_in as int, self.side_rems(p as int, false)));
                }
                break;
            }
            proof {
                assert(self.cursors_ok());
                assert(valid_tick(b.best_ask_tick as int));
            }
            let tick = b.best_ask_tick;
            let k = self.slot_of(p, false, tick);
            let lv = self.levels[k];
            let ghost i = level_index(tick as int);
            proof {
                lemma_level_index(tick as int);
                assert(cursor_index(tick as int) == i);
                assert(level_ok(self.orders@, self.levels@[k as int], self.queues@[k as int], self.books@[p as int], false, tick_at(i)));
                if self.queues@[k as int].len() > 0 {
                    assert(entry_ok(self.orders@, self.queues@[k as int], 0, self.books@[p as int], false, tick_at(i)));
                }
            }
            if lv.head == 0 {
                match self.next_ask_tick(p, tick + TICK_SPACING) {
                    Some(t) => {
                        proof {
                            assert forall|i2: int| 0 <= i2 < LEVELS_PER_SIDE && tick_at(i2) < t implies (
                                #[trigger] self.queues@[slot(p as int, false, i2)]).len() == 0 by {
                                lemma_tick_at(i2);
                            }
                            assert forall|i2: int| 0 <= i2 < LEVELS_PER_SIDE && tick_at(i2) > b.best_bid_tick implies (
                                #[trigger] self.queues@[slot(p as int, true, i2)]).len() == 0 by {
                            }
                            let side = self.side_rems(p as int, false);
                            lemma_level_index(t as int);
                            assert forall|m: int| i <= m < level_index(t as int) && 0 <= m < LEVELS_PER_SIDE implies (#[trigger] side[m]).len() == 0 by {
                                lemma_tick_at(m);
                            }
                            lemma_walk_skip(side, true, i, level_index(t as int), remaining_in as int);
                        }
                        self.set_cursors(p, b.best_bid_tick, t);
                        proof {
                            Self::lemma_flips_frame(&s0, &w0, &s0, self);
                            assert forall|i2: int| 0 <= i2 < LEVELS_PER_SIDE implies is_suffix(s0.queue_at(p as int, false, i2), #[trigger] self.queue_at(p as int, false, i2)) by {
                                assert(self.queue_at(p as int, false, i2) == w0.queue_at(p as int, false, i2));
                            }
                            assert forall|i2: int| 0 <= i2 < LEVELS_PER_SIDE implies #[trigger] self.queue_at(p as int, true, i2) == s0.queue_at(p as int, true, i2) by {
                                assert(self.queue_at(p as int, true, i2) == w0.queue_at(p as int, true, i2));
                            }
                        assert forall|u: Address, t: Address| #[trigger] self.balance(u, t) >= s0.balance(u, t) by {
                            assert(self.balance(u, t) == w0.balance(u, t));
                        }
                        assert forall|u: Address, t: Address| #[trigger] self.balance(u, t) <= s0.balance(u, t) + (amount_in - remaining_in) by {
                            assert(self.balance(u, t) == w0.balance(u, t));
                        }
                        assert forall|u: Address, t: Address| #[trigger] self.balance(u, t) != s0.balance(u, t) implies t == s0.books@[p as int].quote_token
                            && s0.maker_on(u, p as int, false) by {
                            assert(self.balance(u, t) == w0.balance(u, t));
                        }
                        assert forall|t: Address| #[trigger] self.total_credit(t) == s0.total_credit(t) + (
                            if t == s0.books@[p as int].quote_token { amount_in - remaining_in } else { 0int }) by {
                            assert(self.total_credit(t) == w0.total_credit(t));
                        }
                            assert(self.side_rems(p as int, false) =~= w0.side_rems(p as int, false));
                            assert(self.books@[p as int].best_ask_tick == t);
                            assert(cursor_index(t as int) == level_index(t as int));
                            assert(cursor_index(tick as int) == i);
                        }
                        continue;
                    },
                    None => {
                        proof {
                            let side = self.side_rems(p as int, false);
                            assert forall|m: int| i <= m && 0 <= m < LEVELS_PER_SIDE implies (#[trigger] side[m]).len() == 0 by {
                                lemma_tick_at(m);
                            }
                            lemma_walk_end(side, true, i, remaining_in as int);
                            assert(swap_walk(self.side_rems(p as int, false), true, cursor_index(self.books@[p as int].best_ask_tick as int), remaining_in as int) == (0int, remaining_in as int, self.side_rems(p as int, false)));
                        }
                        break;
                    },
                }
            }
            let scaled = remaining_in.checked_mul(PRICE_SCALE);
            if scaled.is_none() {
                return Err(Error::Overflow);
            }
            let base_available = crate::price::calculate_base_amount(remaining_in, tick);
            let fill = if base_available < lv.total_liquidity { base_available } else { lv.total_liquidity };
            proof {
                lemma_queue_rems_sum(self.orders@, self.queues@[k as int]);
                assert(self.side_rems(p as int, false)[i] == queue_rems(self.orders@, self.queues@[k as int]));
            }
            if fill <= 0 {
                proof {
                    let side = self.side_rems(p as int, false);
                    assert(side[i].len() > 0);
                    assert(swap_walk(side, true, i, remaining_in as int) == (0int, remaining_in as int, side));
                    assert(swap_walk(self.side_rems(p as int, false), true, cursor_index(self.books@[p as int].best_ask_tick as int), remaining_in as int) == (0int, remaining_in as int, self.side_rems(p as int, false)));
                }
                break;
            }
            proof {
                if fits {
                    let x = remaining_in * PRICE_SCALE;
                    assert(x >= 0);
                    lemma_mul_div_le(fill as int, x, price_of(tick as int));
                    assert(fill * price_of(tick as int) <= x);
                    assert((fill * price_of(tick as int)) / (PRICE_SCALE as int) <= remaining_in);
                    assert forall|u: Address, t: Address| #[trigger] self.balance(u, t) + (fill * price_of(tick as int)) / (PRICE_SCALE as int)
                        <= i128::MAX by {
                        assert(s0.balance(u, t) + amount_in <= i128::MAX);
                    }
                    assert(self.fill_fits(p as int, false, tick as int, fill as int));
                }
            }
            if !self.check_fill_fits(p, false, tick, fill) {
                return Err(Error::Overflow);
            }
            let (filled_base, filled_quote) = self.fill_tick_level(p, false, tick, fill);
            proof {
                let lf = level_fill(queue_rems(w0.orders@, w0.queues@[k as int]), fill as int, tick as int);
                w0.lemma_fill_side(self, p as int, false, i, lf.0);
                assert forall|i2: int| 0 <= i2 < LEVELS_PER_SIDE implies is_suffix(s0.queue_at(p as int, false, i2), #[trigger] self.queue_at(p as int, false, i2)) by {
                    lemma_slot(w0.books@.len() as int, p as int, false, i2, p as int, false, i);
                    assert(is_suffix(s0.queue_at(p as int, false, i2), w0.queue_at(p as int, false, i2)));
                    if i2 != i {
                        assert(self.queue_at(p as int, false, i2) == w0.queue_at(p as int, false, i2));
                    } else {
                        lemma_suffix_trans(s0.queue_at(p as int, false, i2), w0.queue_at(p as int, false, i2), self.queue_at(p as int, false, i2));
                    }
                }
                assert forall|i2: int| 0 <= i2 < LEVELS_PER_SIDE implies #[trigger] self.queue_at(p as int, true, i2) == s0.queue_at(p as int, true, i2) by {
                    lemma_slot(w0.books@.len() as int, p as int, true, i2, p as int, false, i);
                    assert(w0.queue_at(p as int, true, i2) == s0.queue_at(p as int, true, i2));
                }
                Self::lemma_flips_after_fill(&s0, &w0, self, k as int, p as int, false, i);
                w0.lemma_fill_other_side(self, p as int, false, i);
                lemma_queue_rems_sum(self.orders@, self.queues@[k as int]);
                assert(filled_base == fill);
                lemma_buy_budget(remaining_in as int, price_of(tick as int), fill as int, filled_quote as int);
            }
            proof {
                let side = w0.side_rems(p as int, false);
                let lf = level_fill(queue_rems(w0.orders@, w0.queues@[k as int]), fill as int, tick as int);
                assert(cursor_index(tick as int) == i);
                assert(side[i] == queue_rems(w0.orders@, w0.queues@[k as int]));
                assert(filled_base == lf.1 && filled_quote == lf.2);
                assert(self.side_rems(p as int, false) == side.update(i, lf.0));
                let rest_i = swap_walk(side.update(i, lf.0), true, i, remaining_in - filled_quote);
                let rest_n = swap_walk(side.update(i, lf.0), true, i + 1, remaining_in - filled_quote);
                if lf.0.len() == 0 {
                    assert(swap_walk(side, true, i, remaining_in as int) == (lf.1 + rest_n.0, rest_n.1, rest_n.2));
                } else {
                    assert(level_ok(self.orders@, self.levels@[k as int], self.queues@[k as int], self.books@[p as int], false, tick_at(i)));
                    assert(seq_sum(lf.0) == self.levels@[k as int].total_liquidity);
                    assert(swap_walk(side, true, i, remaining_in as int) == (lf.1 + rest_i.0, rest_i.1, rest_i.2));
                }
                w0.lemma_side_rems_nonneg(p as int, false);
                self.lemma_side_rems_nonneg(p as int, false);
                crate::matching::lemma_walk_nonneg(side.update(i, lf.0), true, i, remaining_in - filled_quote);
                crate::matching::lemma_walk_nonneg(side.update(i, lf.0), true, i + 1, remaining_in - filled_quote);
                assert forall|u: Address, t: Address| #[trigger] self.balance(u, t) <= s0.balance(u, t) + (amount_in - (remaining_in - filled_quote)) by {
                    assert(w0.balance(u, t) <= s0.balance(u, t) + (amount_in - remaining_in));
                }
                assert forall|u: Address, t: Address| #[trigger] self.balance(u, t) != s0.balance(u, t) implies t == s0.books@[p as int].quote_token
                    && s0.maker_on(u, p as int, false) by {
                    if w0.balance(u, t) == s0.balance(u, t) {
                        assert(w0.maker_on(u, p as int, false));
                        let x = choose|x: int| #[trigger] w0.rests_with(x, u, p as int, false);
                        assert(order_in(w0.orders@, x) is Some);
                        assert(order_in(s0.orders@, x) is Some);
                        assert(s0.rests_with(x, u, p as int, false));
                    }
                }
            }
            proof {
                assert(w0.books@[p as int].quote_token == s0.books@[p as int].quote_token);
                assert forall|u: Address, t: Address| #[trigger] self.balance(u, t) >= s0.balance(u, t) by {
                    assert(w0.balance(u, t) >= s0.balance(u, t));
                }
                assert forall|t: Address| #[trigger] self.total_credit(t) == s0.total_credit(t) + (
                    if t == s0.books@[p as int].quote_token { amount_in - (remaining_in - filled_quote) } else { 0int }) by {
                    assert(w0.total_credit(t) == s0.total_credit(t) + (
                        if t == s0.books@[p as int].quote_token { amount_in - remaining_in } else { 0int }));
                }
            }
            remaining_in = remaining_in - filled_quote;
            total_out = match total_out.checked_add(filled_base) {
                Some(t) => t,
                None => return Err(Error::Overflow),
            };
            if self.levels[k].head == 0 {
                let ghost w1 = *self;
                proof {
                    assert(level_ok(w1.orders@, w1.levels@[k as int], w1.queues@[k as int], w1.books@[p as int], false, tick_at(i)));
                    if w1.queues@[k as int].len() > 0 {
                        assert(entry_ok(w1.orders@, w1.queues@[k as int], 0, w1.books@[p as int], false, tick_at(i)));
                    }
                    assert(w1.cursors_ok());
                }
                self.refresh_best_ask(p);
                proof {
                    Self::lemma_flips_frame(&s0, &w1, &s0, self);
                    assert forall|i2: int| 0 <= i2 < LEVELS_PER_SIDE implies is_suffix(s0.queue_at(p as int, false, i2), #[trigger] self.queue_at(p as int, false, i2)) by {
                        assert(self.queue_at(p as int, false, i2) == w1.queue_at(p as int, false, i2));
                    }
                    assert forall|i2: int| 0 <= i2 < LEVELS_PER_SIDE implies #[trigger] self.queue_at(p as int, true, i2) == s0.queue_at(p as int, true, i2) by {
                        assert(self.queue_at(p as int, true, i2) == w1.queue_at(p as int, true, i2));
                    }
                    assert forall|u: Address, t: Address| #[trigger] self.balance(u, t) >= s0.balance(u, t) by {
                        assert(self.balance(u, t) == w1.balance(u, t));
                    }
                    assert forall|u: Address, t: Address| #[trigger] self.balance(u, t) <= s0.balance(u, t) + (amount_in - remaining_in) by {
                        assert(self.balance(u, t) == w1.balance(u, t));
                    }
                    assert forall|u: Address, t: Address| #[trigger] self.balance(u, t) != s0.balance(u, t) implies t == s0.books@[p as int].quote_token
                        && s0.maker_on(u, p as int, false) by {
                        assert(self.balance(u, t) == w1.balance(u, t));
                    }
                    assert forall|t: Address| #[trigger] self.total_credit(t) == s0.total_credit(t) + (
                        if t == s0.books@[p as int].quote_token { amount_in - remaining_in } else { 0int }) by {
                        assert(self.total_credit(t) == w1.total_credit(t));
                    }
                    let side = w1.side_rems(p as int, false);
                    assert(self.side_rems(p as int, false) =~= side);
                    let nb0 = self.books@[p as int].best_ask_tick;
                    assert(self.cursors_ok());
                    if nb0 != MAX_TICK + 1 {
                        lemma_level_index(nb0 as int);
                    }
                    assert forall|m: int| i + 1 <= m < cursor_index(nb0 as int) && 0 <= m < LEVELS_PER_SIDE implies (#[trigger] side[m]).len() == 0 by {
                        lemma_tick_at(m);
                    }
                    assert(cursor_index(nb0 as int) >= i + 1) by {
                        if nb0 != MAX_TICK + 1 {
                            lemma_level_index(nb0 as int);
                            let m = level_index(nb0 as int);
                            assert(w1.queues@[slot(p as int, false, m)].len() > 0);
                            assert(w1.books@[p as int].best_ask_tick == tick);
                            if m < i {
                                assert(tick_at(m) < tick);
                                assert(w1.queues@[slot(p as int, false, m)].len() == 0);
                            }
                            if m == i {
                                assert(w1.queues@[k as int].len() == 0);
                            }
                        }
                    }
                    lemma_walk_skip(side, true, i + 1, cursor_index(nb0 as int), remaining_in as int);
                    let nb = self.books@[p as int].best_ask_tick;
                    if nb != MAX_TICK + 1 {
                        assert(self.cursors_ok());
                        assert(valid_tick(nb as int));
                        lemma_level_index(nb as int);
                        if nb <= tick {
                            assert(w1.books@[p as int].best_ask_tick == tick);
                        }
                    }
                }
            }
        }
        proof {
            let w = swap_walk(self.side_rems(p as int, false), true, cursor_index(self.books@[p as int].best_ask_tick as int), remaining_in as int);
            assert(w == (0int, remaining_in as int, self.side_rems(p as int, false)));
            assert(swap_walk(s0.side_rems(p as int, false), true, cursor_index(s0.books@[p as int].best_ask_tick as int), amount_in as int)
                == (total_out + w.0, w.1, w.2));
        }
        Ok((total_out, remaining_in))
    }

    /// Walks the bids of pair `p` from the bid cursor downward, selling up
    /// to `amount_in` base for quote. Returns the quote received and the
    /// base left over.
    #[verifier::rlimit(100)]
    #[verifier::spinoff_prover]
    fn match_bids(&mut self, p: usize, amount_in: i128) -> (r: Result<(i128, i128), Error>)
        requires
            old(self).wf(),
            p < old(self).books@.len(),
            amount_in >= 0,
        ensures
            final(self).wf(),
            r matches Ok((out, rem)) ==> 0 <= out && 0 <= rem <= amount_in,
            r is Err ==> r == Err::<(i128, i128), Error>(Error::Overflow),
            old(self).walk_fits(p as int, false, amount_in as int) ==> r is Ok,
            r is Ok ==> same_pairs(old(self).books@, final(self).books@),
            r is Ok ==> pending_kept(old(self).pending@, final(self).pending@),
            r is Ok ==> final(self).admin == old(self).admin,
            r is Ok ==> Self::flips_sound(old(self), final(self)),
            r is Ok ==> forall|i2: int| 0 <= i2 < LEVELS_PER_SIDE ==> is_suffix(old(self).queue_at(p as int, true, i2),
                #[trigger] final(self).queue_at(p as int, true, i2)),
            r is Ok ==> forall|i2: int| 0 <= i2 < LEVELS_PER_SIDE ==> #[trigger] final(self).queue_at(p as int, false, i2)
                == old(self).queue_at(p as int, false, i2),
            r is Ok ==> forall|u: Address, t: Address| #[trigger] final(self).balance(u, t) != old(self).balance(u, t)
                ==> t == old(self).books@[p as int].base_token && old(self).maker_on(u, p as int, true),
            r matches Ok((out, rem)) ==> forall|u: Address, t: Address| #[trigger] final(self).balance(u, t) <= old(self).balance(u, t)
                + (amount_in - rem),
            r is Ok ==> final(self).books@[p as int].best_ask_tick == old(self).books@[p as int].best_ask_tick,
            r is Ok ==> final(self).side_rems(p as int, false) == old(self).side_rems(p as int, false),
            r matches Ok((out, rem)) ==> forall|t: Address| #[trigger] final(self).total_credit(t) == old(self).total_credit(t) + (
                if t == old(self).books@[p as int].base_token { amount_in - rem } else { 0int }),
            r is Ok ==> forall|u: Address, t: Address| #[trigger] final(self).balance(u, t) >= old(self).balance(u, t),
            r matches Ok((out, rem)) ==> swap_walk(old(self).side_rems(p as int, true), false,
                cursor_index(old(self).books@[p as int].best_bid_tick as int), amount_in as int)
                == (out as int, rem as int, final(self).side_rems(p as int, true)),
    {
        let ghost s0 = *self;
        let mut remaining_in = amount_in;
        let mut total_out: i128 = 0;
        proof {
            assert forall|i2: int| 0 <= i2 < LEVELS_PER_SIDE implies is_suffix(s0.queue_at(p as int, true, i2), #[trigger] self.queue_at(p as int, true, i2)) by {
                lemma_suffix_refl(s0.queue_at(p as int, true, i2));
            }
        }
        let ghost fits = s0.walk_fits(p as int, false, amount_in as int);
        proof {
            assert(pending_kept(s0.pending@, self.pending@));
        }
        loop
            invariant
                self.wf(),
                p < self.books@.len(),
                0 <= remaining_in <= amount_in,
                0 <= total_out,
                same_pairs(s0.books@, self.books@),
                pending_kept(s0.pending@, self.pending@),
                self.admin == s0.admin,
                s0 == *old(self),
                Self::flips_sound(&s0, self),
                self.books@[p as int].best_ask_tick == s0.books@[p as int].best_ask_tick,
                forall|u: Address, t: Address| #[trigger] self.balance(u, t) != s0.balance(u, t) ==> t == s0.books@[p as int].base_token && s0.maker_on(u, p as int, true),
                forall|i2: int| 0 <= i2 < LEVELS_PER_SIDE ==> is_suffix(s0.queue_at(p as int, true, i2), #[trigger] self.queue_at(p as int, true, i2)),
                forall|i2: int| 0 <= i2 < LEVELS_PER_SIDE ==> #[trigger] self.queue_at(p as int, false, i2) == s0.queue_at(p as int, false, i2),
                fits == s0.walk_fits(p as int, false, amount_in as int),
                forall|u: Address, t: Address| #[trigger] self.balance(u, t) <= s0.balance(u, t) + (amount_in - remaining_in),
                self.side_rems(p as int, false) == s0.side_rems(p as int, false),
                forall|t: Address| #[trigger] self.total_credit(t) == s0.total_credit(t) + (
                    if t == s0.books@[p as int].base_token { amount_in - remaining_in } else { 0int }),
                forall|u: Address, t: Address| #[trigger] self.balance(u, t) >= s0.balance(u, t),
                ({
                    let w = swap_walk(self.side_rems(p as int, true), false, cursor_index(self.books@[p as int].best_bid_tick as int), remaining_in as int);
                    swap_walk(s0.side_rems(p as int, true), false, cursor_index(s0.books@[p as int].best_bid_tick as int), amount_in as int)
                        == (total_out + w.0, w.1, w.2)
                }),
            ensures
                swap_walk(self.side_rems(p as int, true), false, cursor_index(self.books@[p as int].best_bid_tick as int), remaining_in as int) == (0int, remaining_in as int, self.side_rems(p as int, true)),
            decreases
                self.books@[p as int].best_bid_tick - (MIN_TICK - 1),
                if valid_tick(self.books@[p as int].best_bid_tick as int) {
                    self.levels@[slot(p as int, true, level_index(self.books@[p as int].best_bid_tick as int))].total_liquidity as int
                } else {
                    0int
                },
        {
            let ghost w0 = *self;
            let b = self.books[p];
            if !(remaining_in > 0 && b.best_bid_tick >= MIN_TICK) {
                proof {
                    assert(self.cursors_ok());
                    assert(self.books@[p as int] == b);
                    assert(swap_walk(self.side_rems(p as int, true), false, cursor_index(self.books@[p as int].best_bid_tick as int), remaining_in as int) == (0int, remaining_in as int, self.side_rems(p as int, true)));
                }
                break;
            }
            proof {
                assert(self.cursors_ok());
                assert(valid_tick(b.best_bid_tick as int));
            }
            let tick = b.best_bid_tick;
            let k = self.slot_of(p, true, tick);
            let lv = self.levels[k];
            let ghost i = level_index(tick as int);
            proof {
                lemma_level_index(tick as int);
                assert(cursor_index(tick as int) == i);
                assert(level_ok(self.orders@, self.levels@[k as int], self.queues@[k as int], self.books@[p as int], true, tick_at(i)));
                if self.queues@[k as int].len() > 0 {
                    assert(entry_ok(self.orders@, self.queues@[k as int], 0, self.books@[p as int], true, tick_at(i)));
                }
            }
            if lv.head == 0 {
                match self.next_bid_tick(p, tick - TICK_SPACING) {
                    Some(t) => {
                        proof {
                            assert forall|i2: int| 0 <= i2 < LEVELS_PER_SIDE && tick_at(i2) > t implies (
                                #[trigger] self.queues@[slot(p as int, true, i2)]).len() == 0 by {
                                lemma_tick_at(i2);
                            }
                            assert forall|i2: int| 0 <= i2 < LEVELS_PER_SIDE && tick_at(i2) < b.best_ask_tick implies (
                                #[trigger] self.queues@[slot(p as int, false, i2)]).len() == 0 by {
                            }
                            let side = self.side_rems(p as int, true);
                            lemma_level_index(t as int);
                            assert forall|m: int| level_index(t as int) < m <= i && 0 <= m < LEVELS_PER_SIDE implies (#[trigger] side[m]).len() == 0 by {
                                lemma_tick_at(m);
                            }
                            lemma_walk_skip(side, false, i, level_index(t as int), remaining_in as int);
                        }
                        self.set_cursors(p, t, b.best_ask_tick);
                        proof {
                            Self::lemma_flips_frame(&s0, &w0, &s0, self);
                            assert forall|i2: int| 0 <= i2 < LEVELS_PER_SIDE implies is_suffix(s0.queue_at(p as int, true, i2), #[trigger] self.queue_at(p as int, true, i2)) by {
                                assert(self.queue_at(p as int, true, i2) == w0.queue_at(p as int, true, i2));
                            }
                            assert forall|i2: int| 0 <= i2 < LEVELS_PER_SIDE implies #[trigger] self.queue_at(p as int, false, i2) == s0.queue_at(p as int, false, i2) by {
                                assert(self.queue_at(p as int, false, i2) == w0.queue_at(p as int, false, i2));
                            }
                        assert forall|u: Address, t: Address| #[trigger] self.balance(u, t) >= s0.balance(u, t) by {
                            assert(self.balance(u, t) == w0.balance(u, t));
                        }
                        assert forall|u: Address, t: Address| #[trigger] self.balance(u, t) <= s0.balance(u, t) + (amount_in - remaining_in) by {
                            assert(self.balance(u, t) == w0.balance(u, t));
                        }
                        assert forall|u: Address, t: Address| #[trigger] self.balance(u, t) != s0.balance(u, t) implies t == s0.books@[p as int].base_token
                            && s0.maker_on(u, p as int, true) by {
                            assert(self.balance(u, t) == w0.balance(u, t));
                        }
                        assert forall|t: Address| #[trigger] self.total_credit(t) == s0.total_credit(t) + (
                            if t == s0.books@[p as int].base_token { amount_in - remaining_in } else { 0int }) by {
                            assert(self.total_credit(t) == w0.total_credit(t));
                        }
                            assert(self.side_rems(p as int, true) =~= w0.side_rems(p as int, true));
                            assert(self.books@[p as int].best_bid_tick == t);
                            assert(cursor_index(t as int) == level_index(t as int));
                        }
                        continue;
                    },
                    None => {
                        proof {
                            let side = self.side_rems(p as int, true);
                            assert forall|m: int| m <= i && 0 <= m < LEVELS_PER_SIDE implies (#[trigger] side[m]).len() == 0 by {
                                lemma_tick_at(m);
                            }
                            lemma_walk_end(side, false, i, remaining_in as int);
                            assert(swap_walk(self.side_rems(p as int, true), false, cursor_index(self.books@[p as int].best_bid_tick as int), remaining_in as int) == (0int, remaining_in as int, self.side_rems(p as int, true)));
                        }
                        break;
                    },
                }
            }
            let fill = if remaining_in < lv.total_liquidity { remaining_in } else { lv.total_liquidity };
            proof {
                lemma_queue_rems_sum(self.orders@, self.queues@[k as int]);
                assert(self.side_rems(p as int, true)[i] == queue_rems(self.orders@, self.queues@[k as int]));
            }
            if fill <= 0 {
                proof {
                    let side = self.side_rems(p as int, true);
                    assert(side[i].len() > 0);
                    assert(swap_walk(side, false, i, remaining_in as int) == (0int, remaining_in as int, side));
                    assert(swap_walk(self.side_rems(p as int, true), false, cursor_index(self.books@[p as int].best_bid_tick as int), remaining_in as int) == (0int, remaining_in as int, self.side_rems(p as int, true)));
                }
                break;
            }
            proof {
                if fits {
                    assert(price_of(tick as int) <= 2 * PRICE_SCALE);
                    assert(fill * price_of(tick as int) <= amount_in * (2 * PRICE_SCALE)) by (nonlinear_arith)
                        requires
                            0 <= fill <= amount_in,
                            1 <= price_of(tick as int) <= 2 * PRICE_SCALE,
                    ;
                    assert forall|u: Address, t: Address| #[trigger] self.balance(u, t) + fill <= i128::MAX by {
                        assert(s0.balance(u, t) + amount_in <= i128::MAX);
                    }
                    assert(self.fill_fits(p as int, true, tick as int, fill as int));
                }
            }
            if !self.check_fill_fits(p, true, tick, fill) {
                return Err(Error::Overflow);
            }
            let (filled_base, filled_quote) = self.fill_tick_level(p, true, tick, fill);
            proof {
                let lf = level_fill(queue_rems(w0.orders@, w0.queues@[k as int]), fill as int, tick as int);
                w0.lemma_fill_side(self, p as int, true, i, lf.0);
                assert forall|i2: int| 0 <= i2 < LEVELS_PER_SIDE implies is_suffix(s0.queue_at(p as int, true, i2), #[trigger] self.queue_at(p as int, true, i2)) by {
                    lemma_slot(w0.books@.len() as int, p as int, true, i2, p as int, true, i);
                    assert(is_suffix(s0.queue_at(p as int, true, i2), w0.queue_at(p as int, true, i2)));
                    if i2 != i {
                        assert(self.queue_at(p as int, true, i2) == w0.queue_at(p as int, true, i2));
                    } else {
                        lemma_suffix_trans(s0.queue_at(p as int, true, i2), w0.queue_at(p as int, true, i2), self.queue_at(p as int, true, i2));
                    }
                }
                assert forall|i2: int| 0 <= i2 < LEVELS_PER_SIDE implies #[trigger] self.queue_at(p as int, false, i2) == s0.queue_at(p as int, false, i2) by {
                    lemma_slot(w0.books@.len() as int, p as int, false, i2, p as int, true, i);
                    assert(w0.queue_at(p as int, false, i2) == s0.queue_at(p as int, false, i2));
                }
                Self::lemma_flips_after_fill(&s0, &w0, self, k as int, p as int, true, i);
                w0.lemma_fill_other_side(self, p as int, true, i);
                lemma_queue_rems_sum(self.orders@, self.queues@[k as int]);
                let side = w0.side_rems(p as int, true);
                assert(side[i] == queue_rems(w0.orders@, w0.queues@[k as int]));
                assert(filled_base == lf.1 && filled_quote == lf.2);
                assert(self.side_rems(p as int, true) == side.update(i, lf.0));
                let rest_i = swap_walk(side.update(i, lf.0), false, i, remaining_in - filled_base);
                let rest_n = swap_walk(side.update(i, lf.0), false, i - 1, remaining_in - filled_base);
                if lf.0.len() == 0 {
                    assert(swap_walk(side, false, i, remaining_in as int) == (lf.2 + rest_n.0, rest_n.1, rest_n.2));
                } else {
                    assert(level_ok(self.orders@, self.levels@[k as int], self.queues@[k as int], self.books@[p as int], true, tick_at(i)));
                    assert(seq_sum(lf.0) == self.levels@[k as int].total_liquidity);
                    assert(swap_walk(side, false, i, remaining_in as int) == (lf.2 + rest_i.0, rest_i.1, rest_i.2));
                }
                w0.lemma_side_rems_nonneg(p as int, true);
                self.lemma_side_rems_nonneg(p as int, true);
                crate::matching::lemma_walk_nonneg(side.update(i, lf.0), false, i, remaining_in - filled_base);
                crate::matching::lemma_walk_nonneg(side.update(i, lf.0), false, i - 1, remaining_in - filled_base);
                assert forall|u: Address, t: Address| #[trigger] self.balance(u, t) <= s0.balance(u, t) + (amount_in - (remaining_in - filled_base)) by {
                    assert(w0.balance(u, t) <= s0.balance(u, t) + (amount_in - remaining_in));
                }
                assert forall|u: Address, t: Address| #[trigger] self.balance(u, t) != s0.balance(u, t) implies t == s0.books@[p as int].base_token
                    && s0.maker_on(u, p as int, true) by {
                    if w0.balance(u, t) == s0.balance(u, t) {
                        assert(w0.maker_on(u, p as int, true));
                        let x = choose|x: int| #[trigger] w0.rests_with(x, u, p as int, true);
                        assert(order_in(w0.orders@, x) is Some);
                        assert(order_in(s0.orders@, x) is Some);
                        assert(s0.rests_with(x, u, p as int, true));
                    }
                }
            }
            proof {
                assert(w0.books@[p as int].base_token == s0.books@[p as int].base_token);
                assert forall|u: Address, t: Address| #[trigger] self.balance(u, t) >= s0.balance(u, t) by {
                    assert(w0.balance(u, t) >= s0.balance(u, t));
                }
                assert forall|t: Address| #[trigger] self.total_credit(t) == s0.total_credit(t) + (
                    if t == s0.books@[p as int].base_token { amount_in - (remaining_in - filled_base) } else { 0int }) by {
                    assert(w0.total_credit(t) == s0.total_credit(t) + (
                        if t == s0.books@[p as int].base_token { amount_in - remaining_in } else { 0int }));
                }
            }
            remaining_in = remaining_in - filled_base;
            total_out = match total_out.checked_add(filled_quote) {
                Some(t) => t,
                None => return Err(Error::Overflow),
            };
            if self.levels[k].head == 0 {
                let ghost w1 = *self;
                proof {
                    assert(level_ok(w1.orders@, w1.levels@[k as int], w1.queues@[k as int], w1.books@[p as int], true, tick_at(i)));
                    if w1.queues@[k as int].len() > 0 {
                        assert(entry_ok(w1.orders@, w1.queues@[k as int], 0, w1.books@[p as int], true, tick_at(i)));
                    }
                    assert(w1.cursors_ok());
                }
                self.refresh_best_bid(p);
                proof {
                    Self::lemma_flips_frame(&s0, &w1, &s0, self);
                    assert forall|i2: int| 0 <= i2 < LEVELS_PER_SIDE implies is_suffix(s0.queue_at(p as int, true, i2), #[trigger] self.queue_at(p as int, true, i2)) by {
                        assert(self.queue_at(p as int, true, i2) == w1.queue_at(p as int, true, i2));
                    }
                    assert forall|i2: int| 0 <= i2 < LEVELS_PER_SIDE implies #[trigger] self.queue_at(p as int, false, i2) == s0.queue_at(p as int, false, i2) by {
                        assert(self.queue_at(p as int, false, i2) == w1.queue_at(p as int, false, i2));
                    }
                    assert forall|u: Address, t: Address| #[trigger] self.balance(u, t) >= s0.balance(u, t) by {
                        assert(self.balance(u, t) == w1.balance(u, t));
                    }
                    assert forall|u: Address, t: Address| #[trigger] self.balance(u, t) <= s0.balance(u, t) + (amount_in - remaining_in) by {
                        assert(self.balance(u, t) == w1.balance(u, t));
                    }
                    assert forall|u: Address, t: Address| #[trigger] self.balance(u, t) != s0.balance(u, t) implies t == s0.books@[p as int].base_token
                        && s0.maker_on(u, p as int, true) by {
                        assert(self.balance(u, t) == w1.balance(u, t));
                    }
                    assert forall|t: Address| #[trigger] self.total_credit(t) == s0.total_credit(t) + (
                        if t == s0.books@[p as int].base_token { amount_in - remaining_in } else { 0int }) by {
                        assert(self.total_credit(t) == w1.total_credit(t));
                    }
                    let side = w1.side_rems(p as int, true);
                    assert(self.side_rems(p as int, true) =~= side);
                    let nb0 = self.books@[p as int].best_bid_tick;
                    assert(self.cursors_ok());
                    if nb0 != MIN_TICK - 1 {
                        lemma_level_index(nb0 as int);
                    }
                    assert forall|m: int| cursor_index(nb0 as int) < m <= i - 1 && 0 <= m < LEVELS_PER_SIDE implies (#[trigger] side[m]).len() == 0 by {
                        lemma_tick_at(m);
                    }
                    assert(cursor_index(nb0 as int) <= i - 1) by {
                        if nb0 != MIN_TICK - 1 {
                            lemma_level_index(nb0 as int);
                            let m = level_index(nb0 as int);
                            assert(w1.queues@[slot(p as int, true, m)].len() > 0);
                            assert(w1.books@[p as int].best_bid_tick == tick);
                            if m > i {
                                assert(tick_at(m) > tick);
                                assert(w1.queues@[slot(p as int, true, m)].len() == 0);
                            }
                            if m == i {
                                assert(w1.queues@[k as int].len() == 0);
                            }
                        }
                    }
                    lemma_walk_skip(side, false, i - 1, cursor_index(nb0 as int), remaining_in as int);
                    let nb = self.books@[p as int].best_bid_tick;
                    if nb != MIN_TICK - 1 {
                        assert(self.cursors_ok());
                        assert(valid_tick(nb as int));
                        lemma_level_index(nb as int);
                        if nb >= tick {
                            assert(w1.books@[p as int].best_bid_tick == tick);
                        }
                    }
                }
            }
        }
        Ok((total_out, remaining_in))
    }
}

impl StablecoinExchange {
    /// What a swap of `amount_in` does on the current book: the output, the
    /// input left and the remainders of the side it walked afterwards, walking the asks upward from the ask cursor when
    /// buying and the bids downward from the bid cursor when selling.
    pub open spec fn swap_of(&self, base: Address, quote: Address, is_buy: bool, amount_in: int) -> (int, int, Seq<Seq<int>>) {
        let p = self.pair_of(base, quote);
        let b = self.book_at(p);
        if is_buy {
            swap_walk(self.side_rems(p, false), true, cursor_index(b.best_ask_tick as int), amount_in)
        } else {
            swap_walk(self.side_rems(p, true), false, cursor_index(b.best_bid_tick as int), amount_in)
        }
    }

    /// Estimates the output of a swap of `amount_in` on the current book,
    /// changing nothing: it runs the swap on a copy of the state, so the
    /// estimate is the output the swap itself would give.
    pub fn quote_swap_in(&self, base_token: Address, quote_token: Address, is_buy: bool, amount_in: i128) -> (r: Result<i128, Error>)
        requires
            self.wf(),
        ensures
            r == Err::<i128, Error>(Error::PairNotFound) <==> !self.has_pair(base_token, quote_token),
            self.has_pair(base_token, quote_token) && amount_in < 0 ==> r == Err::<i128, Error>(Error::InvalidAmount),
            r is Err ==> r == Err::<i128, Error>(Error::PairNotFound) || r == Err::<i128, Error>(Error::InvalidAmount)
                || r == Err::<i128, Error>(Error::Overflow),
            r matches Ok(out) ==> out == self.swap_of(base_token, quote_token, is_buy, amount_in as int).0,
            self.has_pair(base_token, quote_token) && amount_in >= 0 && self.swap_fits(base_token, quote_token, is_buy, amount_in as int)
                ==> r == Ok::<i128, Error>(self.swap_of(base_token, quote_token, is_buy, amount_in as int).0 as i128),
    {
        let p = match self.find_pair(base_token, quote_token) {
            Some(p) => p,
            None => return Err(Error::PairNotFound),
        };
        if amount_in < 0 {
            return Err(Error::InvalidAmount);
        }
        let mut work = self.snapshot();
        proof {
            assert(work.wf());
            assert(work.side_rems(p as int, false) =~= self.side_rems(p as int, false));
            assert(work.side_rems(p as int, true) =~= self.side_rems(p as int, true));
            self.lemma_pair_unique(p as int);
            assert(work.books@ == self.books@);
            assert(work.book_at(p as int) == self.book_at(p as int));
            if self.walk_fits(p as int, is_buy, amount_in as int) {
                assert forall|u: Address, t: Address| #[trigger] work.balance(u, t) + amount_in <= i128::MAX by {
                    assert(self.balance(u, t) + amount_in <= i128::MAX);
                }
            }
        }
        let (amount_out, _refund) = if is_buy {
            work.match_asks(p, amount_in)?
        } else {
            work.match_bids(p, amount_in)?
        };
        Ok(amount_out)
    }

    /// Swaps exactly `amount_in` of the input token (quote when buying base,
    /// base when selling it) against the book, best price first and in queue
    /// order within a level. Fails, changing nothing, where the output would
    /// fall below `min_amount_out`. The caller takes `amount_in` from the
    /// taker, then pays out `amount_out` and hands back `refund`.
    pub fn swap_exact_in(
        &mut self,
        taker: Address,
        base_token: Address,
        quote_token: Address,
        is_buy: bool,
        amount_in: i128,
        min_amount_out: i128,
    ) -> (r: Result<SwapOutcome, Error>)
        requires
            old(self).wf(),
        ensures
            final(self).wf(),
            !old(self).has_pair(base_token, quote_token) ==> r == Err::<SwapOutcome, Error>(Error::PairNotFound),
            old(self).has_pair(base_token, quote_token) && amount_in < 0 ==> r == Err::<SwapOutcome, Error>(Error::InvalidAmount),
            r is Err ==> *final(self) == *old(self),
            r is Err ==> r == Err::<SwapOutcome, Error>(Error::PairNotFound) || r == Err::<SwapOutcome, Error>(Error::InvalidAmount)
                || r == Err::<SwapOutcome, Error>(Error::SlippageExceeded) || r == Err::<SwapOutcome, Error>(Error::Overflow),
            r == Err::<SwapOutcome, Error>(Error::SlippageExceeded) ==> old(self).swap_of(base_token, quote_token, is_buy, amount_in as int).0
                < min_amount_out,
            old(self).has_pair(base_token, quote_token) && amount_in >= 0 && old(self).swap_fits(base_token, quote_token, is_buy, amount_in as int)
                ==> (r is Ok <==> old(self).swap_of(base_token, quote_token, is_buy, amount_in as int).0 >= min_amount_out)
                && (r is Err ==> r == Err::<SwapOutcome, Error>(Error::SlippageExceeded)),
            r == Err::<SwapOutcome, Error>(Error::Overflow) ==> !old(self).swap_fits(base_token, quote_token, is_buy, amount_in as int),
            r matches Ok(out) ==> {
                let p = old(self).pair_of(base_token, quote_token);
                let bk = final(self).book_at(p);
                let taken = !is_buy;
                &&& is_buy ==> bk.best_bid_tick == old(self).book_at(p).best_bid_tick && (bk.best_ask_tick == MAX_TICK + 1
                    || final(self).queue_at(p, false, level_index(bk.best_ask_tick as int)).len() > 0)
                &&& !is_buy ==> bk.best_ask_tick == old(self).book_at(p).best_ask_tick && (bk.best_bid_tick == MIN_TICK - 1
                    || final(self).queue_at(p, true, level_index(bk.best_bid_tick as int)).len() > 0)
                &&& old(self).swap_of(base_token, quote_token, is_buy, amount_in as int) == (out.amount_out as int, out.refund as int,
                    final(self).side_rems(old(self).pair_of(base_token, quote_token), !is_buy))
                &&& final(self).side_rems(old(self).pair_of(base_token, quote_token), is_buy) == old(self).side_rems(
                    old(self).pair_of(base_token, quote_token),
                    is_buy,
                )
                &&& forall|t: Address| #[trigger] final(self).total_credit(t) == old(self).total_credit(t) + (
                    if t == (if is_buy { quote_token } else { base_token }) { amount_in - out.refund } else { 0int })
                &&& forall|u: Address, t: Address| #[trigger] final(self).balance(u, t) >= old(self).balance(u, t)
                &&& forall|i: int| 0 <= i < LEVELS_PER_SIDE ==> is_suffix(old(self).queue_at(p, taken, i),
                    #[trigger] final(self).queue_at(p, taken, i))
                &&& forall|i: int| 0 <= i < LEVELS_PER_SIDE ==> #[trigger] final(self).queue_at(p, is_buy, i)
                    == old(self).queue_at(p, is_buy, i)
                &&& forall|u: Address, t: Address| #[trigger] final(self).balance(u, t) <= old(self).balance(u, t) + (amount_in - out.refund)
                &&& forall|u: Address, t: Address| #[trigger] final(self).balance(u, t) != old(self).balance(u, t) ==> t == (if is_buy {
                    quote_token
                } else {
                    base_token
                }) && old(self).maker_on(u, p, !is_buy)
                &&& out.amount_out >= min_amount_out
                &&& out.amount_out >= 0
                &&& 0 <= out.refund <= amount_in
                &&& final(self).pair_count() == old(self).pair_count()
                &&& forall|p: int| 0 <= p < old(self).pair_count() ==> (#[trigger] final(self).book_at(p)).base_token
                    == old(self).book_at(p).base_token && final(self).book_at(p).quote_token == old(self).book_at(p).quote_token
                &&& final(self).next_pending_id() >= old(self).next_pending_id()
                &&& forall|id: int| id < old(self).next_pending_id() ==> final(self).pending_order(id) == old(self).pending_order(id)
                &&& forall|id: int| old(self).next_pending_id() <= id < final(self).next_pending_id() ==> #[trigger] Self::has_source(
                    old(self),
                    final(self),
                    id,
                )
                &&& forall|x: int| #[trigger] old(self).active_order(x) is Some && old(self).active_order(x)->Some_0.is_flip
                    && final(self).active_order(x) is None ==> Self::has_successor(old(self), final(self), x)
                &&& final(self).next_active_id() == old(self).next_active_id()
                &&& forall|x: int| #[trigger] final(self).active_order(x) is Some ==> old(self).active_order(x) is Some && same_identity(
                    old(self).active_order(x)->Some_0,
                    final(self).active_order(x)->Some_0,
                )
                &&& final(self).admin_of() == old(self).admin_of()
            },
    {
        let p = match self.find_pair(base_token, quote_token) {
            Some(p) => p,
            None => return Err(Error::PairNotFound),
        };
        if amount_in < 0 {
            return Err(Error::InvalidAmount);
        }
        let mut work = self.snapshot();
        let ghost w_init = work;
        proof {
            assert(work.wf());
            assert(work.side_rems(p as int, false) =~= self.side_rems(p as int, false));
            assert(work.side_rems(p as int, true) =~= self.side_rems(p as int, true));
            self.lemma_pair_unique(p as int);
            assert(work.books@ == self.books@);
            assert forall|u: Address, t: Address| #[trigger] work.balance(u, t) == self.balance(u, t) by {}
            assert(work.book_at(p as int) == self.book_at(p as int));
            if self.walk_fits(p as int, is_buy, amount_in as int) {
                assert forall|u: Address, t: Address| #[trigger] work.balance(u, t) + amount_in <= i128::MAX by {
                    assert(self.balance(u, t) + amount_in <= i128::MAX);
                }
            }
            if work.walk_fits(p as int, is_buy, amount_in as int) {
                assert forall|u: Address, t: Address| #[trigger] self.balance(u, t) + amount_in <= i128::MAX by {
                    assert(work.balance(u, t) + amount_in <= i128::MAX);
                }
            }
            assert(work.walk_fits(p as int, is_buy, amount_in as int) == self.walk_fits(p as int, is_buy, amount_in as int));
            assert(work.walk_fits(p as int, is_buy, amount_in as int) == self.swap_fits(base_token, quote_token, is_buy, amount_in as int));
        }
        let (amount_out, refund) = if is_buy {
            work.match_asks(p, amount_in)?
        } else {
            work.match_bids(p, amount_in)?
        };
        if amount_out < min_amount_out {
            return Err(Error::SlippageExceeded);
        }
        let ghost wm = work;
        if is_buy {
            work.refresh_best_ask(p);
        } else {
            work.refresh_best_bid(p);
        }
        proof {
            assert(work.side_rems(p as int, false) =~= wm.side_rems(p as int, false));
            assert(work.side_rems(p as int, true) =~= wm.side_rems(p as int, true));
            self.lemma_pair_unique(p as int);
            assert(self.books@[p as int].base_token == base_token && self.books@[p as int].quote_token == quote_token);
            assert forall|t: Address| #[trigger] work.total_credit(t) == self.total_credit(t) + (
                if t == (if is_buy { quote_token } else { base_token }) { amount_in - refund } else { 0int }) by {
                assert(w_init.total_credit(t) == self.total_credit(t));
                assert(work.balances@ == wm.balances@);
                assert(work.total_credit(t) == wm.total_credit(t));
            }
            assert forall|u: Address, t: Address| #[trigger] work.balance(u, t) >= self.balance(u, t) by {
                assert(w_init.balance(u, t) == self.balance(u, t));
                assert(work.balances@ == wm.balances@);
                assert(work.balance(u, t) == wm.balance(u, t));
            }
            assert forall|u: Address, t: Address| #[trigger] work.balance(u, t) != self.balance(u, t) implies t == (if is_buy {
                quote_token
            } else {
                base_token
            }) && self.maker_on(u, p as int, !is_buy) by {
                assert(w_init.balance(u, t) == self.balance(u, t));
                assert(work.balances@ == wm.balances@);
                assert(work.balance(u, t) == wm.balance(u, t));
                let side = !is_buy;
                assert(w_init.maker_on(u, p as int, side));
                let x = choose|x: int| #[trigger] w_init.rests_with(x, u, p as int, side);
                assert(self.rests_with(x, u, p as int, side));
            }
            assert forall|u: Address, t: Address| #[trigger] work.balance(u, t) <= self.balance(u, t) + (amount_in - refund) by {
                assert(w_init.balance(u, t) == self.balance(u, t));
                assert(work.balances@ == wm.balances@);
                assert(work.balance(u, t) == wm.balance(u, t));
            }
            Self::lemma_flips_frame(&w_init, &wm, self, &work);
            let side = !is_buy;
            let other = is_buy;
            assert forall|i: int| 0 <= i < LEVELS_PER_SIDE implies is_suffix(self.queue_at(p as int, side, i),
                #[trigger] work.queue_at(p as int, side, i)) by {
                assert(work.queue_at(p as int, side, i) == wm.queue_at(p as int, side, i));
                assert(w_init.queue_at(p as int, side, i) == self.queue_at(p as int, side, i));
            }
            assert forall|i: int| 0 <= i < LEVELS_PER_SIDE implies #[trigger] work.queue_at(p as int, other, i)
                == self.queue_at(p as int, other, i) by {
                assert(work.queue_at(p as int, other, i) == wm.queue_at(p as int, other, i));
                assert(w_init.queue_at(p as int, other, i) == self.queue_at(p as int, other, i));
            }
            assert forall|id: int| id < self.next_pending_id() implies work.pending_order(id) == self.pending_order(id) by {
                if 1 <= id {
                    assert(work.pending@[id - 1] == self.pending@[id - 1]);
                }
            }
        }
        *self = work;
        Ok(SwapOutcome { amount_out, refund })
    }
}

impl StablecoinExchange {
    /// The active namespace: the order with id `id` is at index `id - 1`.
    pub closed spec fn active_store(&self) -> Seq<Option<Order>> {
        self.orders@
    }

    /// The highest valid tick at or below `from_tick` with resting bids in
    /// the pair, if any.
    pub fn find_next_bid_tick(&self, base_token: Address, quote_token: Address, from_tick: i32) -> (r: Option<i32>)
        requires
            self.wf(),
        ensures
            r matches Some(t) ==> valid_tick(t as int) && t <= from_tick
                && self.queue(base_token, quote_token, true, t as int).len() > 0
                && forall|t2: int| valid_tick(t2) && t < t2 <= from_tick ==> #[trigger] self.queue(base_token, quote_token, true, t2).len() == 0,
            r is None ==> forall|t2: int| valid_tick(t2) && t2 <= from_tick ==> #[trigger] self.queue(base_token, quote_token, true, t2).len() == 0,
    {
        match self.find_pair(base_token, quote_token) {
            Some(p) => self.next_bid_tick(p, from_tick),
            None => None,
        }
    }

    /// The lowest valid tick at or above `from_tick` with resting asks in
    /// the pair, if any.
    pub fn find_next_ask_tick(&self, base_token: Address, quote_token: Address, from_tick: i32) -> (r: Option<i32>)
        requires
            self.wf(),
        ensures
            r matches Some(t) ==> valid_tick(t as int) && t >= from_tick
                && self.queue(base_token, quote_token, false, t as int).len() > 0
                && forall|t2: int| valid_tick(t2) && from_tick <= t2 < t ==> #[trigger] self.queue(base_token, quote_token, false, t2).len() == 0,
            r is None ==> forall|t2: int| valid_tick(t2) && t2 >= from_tick ==> #[trigger] self.queue(base_token, quote_token, false, t2).len() == 0,
    {
        match self.find_pair(base_token, quote_token) {
            Some(p) => self.next_ask_tick(p, from_tick),
            None => None,
        }
    }

    /// Moves the pair's bid cursor to its highest non-empty bid level, or to
    /// `MIN_TICK - 1` if there is none.
    pub fn update_best_bid_tick(&mut self, base_token: Address, quote_token: Address)
        requires
            old(self).wf(),
        ensures
            final(self).wf(),
            Self::orders_unchanged(old(self), final(self)),
            Self::balances_unchanged(old(self), final(self)),
            final(self).pair_count() == old(self).pair_count(),
            Self::levels_unchanged(old(self), final(self)),
            forall|p: int| 0 <= p < old(self).pair_count() ==> (#[trigger] final(self).book_at(p)).base_token == old(self).book_at(p).base_token
                && final(self).book_at(p).quote_token == old(self).book_at(p).quote_token
                && final(self).book_at(p).best_ask_tick == old(self).book_at(p).best_ask_tick,
            forall|p: int| 0 <= p < old(self).pair_count() && !old(self).is_pair(p, base_token, quote_token)
                ==> final(self).book_at(p) == old(self).book_at(p),
            final(self).book(base_token, quote_token) matches Some(b) ==> b.best_bid_tick == MIN_TICK - 1
                || final(self).queue(base_token, quote_token, true, b.best_bid_tick as int).len() > 0,
    {
        if let Some(p) = self.find_pair(base_token, quote_token) {
            let ghost s0 = *self;
            self.refresh_best_bid(p);
            proof {
                s0.lemma_same_pairs(self, base_token, quote_token);
                assert(self.cursors_ok());
            }
        }
    }

    /// Moves the pair's ask cursor to its lowest non-empty ask level, or to
    /// `MAX_TICK + 1` if there is none.
    pub fn update_best_ask_tick(&mut self, base_token: Address, quote_token: Address)
        requires
            old(self).wf(),
        ensures
            final(self).wf(),
            Self::orders_unchanged(old(self), final(self)),
            Self::balances_unchanged(old(self), final(self)),
            final(self).pair_count() == old(self).pair_count(),
            Self::levels_unchanged(old(self), final(self)),
            forall|p: int| 0 <= p < old(self).pair_count() ==> (#[trigger] final(self).book_at(p)).base_token == old(self).book_at(p).base_token
                && final(self).book_at(p).quote_token == old(self).book_at(p).quote_token
                && final(self).book_at(p).best_bid_tick == old(self).book_at(p).best_bid_tick,
            forall|p: int| 0 <= p < old(self).pair_count() && !old(self).is_pair(p, base_token, quote_token)
                ==> final(self).book_at(p) == old(self).book_at(p),
            final(self).book(base_token, quote_token) matches Some(b) ==> b.best_ask_tick == MAX_TICK + 1
                || final(self).queue(base_token, quote_token, false, b.best_ask_tick as int).len() > 0,
    {
        if let Some(p) = self.find_pair(base_token, quote_token) {
            let ghost s0 = *self;
            self.refresh_best_ask(p);
            proof {
                s0.lemma_same_pairs(self, base_token, quote_token);
                assert(self.cursors_ok());
            }
        }
    }

    /// The lowest valid tick.
    pub fn min_tick() -> (r: i32)
        ensures
            r == MIN_TICK,
    {
        MIN_TICK
    }

    /// The highest valid tick.
    pub fn max_tick() -> (r: i32)
        ensures
            r == MAX_TICK,
    {
        MAX_TICK
    }

    /// The distance between neighbouring valid ticks.
    pub fn tick_spacing() -> (r: i32)
        ensures
            r == TICK_SPACING,
    {
        TICK_SPACING
    }

    /// The price of tick 0 and the scale of every price.
    pub fn price_scale() -> (r: i128)
        ensures
            r == PRICE_SCALE,
    {
        PRICE_SCALE
    }

    /// The smallest order size that may be placed.
    pub fn min_order_size() -> (r: i128)
        ensures
            r == MIN_ORDER_SIZE,
    {
        MIN_ORDER_SIZE
    }

    /// The price of a tick.
    pub fn tick_to_price(tick: i32) -> (r: i128)
        ensures
            r == price_of(tick as int),
    {
        crate::price::tick_to_price(tick)
    }
}

// ============ Laws ============

/// Every level of an existing pair agrees with its queue: the queue's ends
/// are the level's `head` and `tail`, its liquidity is the exact sum of what
/// remains of the queue's orders, and walking the queue visits distinct
/// active orders of that pair, side and tick, each linked to its neighbours.
pub proof fn lemma_level_liquidity(ex: &StablecoinExchange, base: Address, quote: Address, is_bid: bool, tick: int)
    requires
        ex.wf(),
        ex.has_pair(base, quote),
        valid_tick(tick),
    ensures
        ({
            let q = ex.queue(base, quote, is_bid, tick);
            let lv = ex.level(base, quote, is_bid, tick);
            let b = ex.book(base, quote)->Some_0;
            &&& (q.len() == 0 <==> lv.head == 0)
            &&& (q.len() == 0 <==> lv.tail == 0)
            &&& q.len() > 0 ==> lv.head == q[0] && lv.tail == q.last()
            &&& lv.total_liquidity == sum_remaining(ex.active_store(), q)
            &&& forall|j: int| 0 <= j < q.len() ==> #[trigger] entry_ok(ex.active_store(), q, j, b, is_bid, tick)
            &&& forall|j: int, k: int| 0 <= j < k < q.len() ==> q[j] != q[k]
            &&& forall|id: int| order_in(ex.active_store(), id) == ex.active_order(id)
        }),
{
    let p = ex.pair_of(base, quote);
    let i = level_index(tick);
    lemma_level_index(tick);
    assert(level_ok(ex.orders@, ex.levels@[slot(p, is_bid, i)], ex.queues@[slot(p, is_bid, i)], ex.books@[p], is_bid, tick_at(i)));
    let q = ex.queues@[slot(p, is_bid, i)];
    if q.len() > 0 {
        assert(entry_ok(ex.orders@, q, 0, ex.books@[p], is_bid, tick_at(i)));
        assert(entry_ok(ex.orders@, q, q.len() - 1, ex.books@[p], is_bid, tick_at(i)));
    }
}

/// Every active order has something left, no more than its size, and rests
/// in the queue of its pair, side and tick; every pending order is whole.
pub proof fn lemma_order_bounds(ex: &StablecoinExchange, id: int)
    requires
        ex.wf(),
    ensures
        ex.active_order(id) matches Some(o) ==> 0 < o.remaining <= o.amount && valid_tick(o.tick as int)
            && in_queue(ex.queue(o.base_token, o.quote_token, o.is_bid, o.tick as int), id as u128),
        ex.pending_order(id) matches Some(o) ==> 0 < o.remaining == o.amount,
{
    if ex.active_order(id) is Some {
        assert(ex.actives_ok());
        assert(ex.orders@[id - 1] is Some);
        let o = ex.orders@[id - 1]->Some_0;
        let p = ex.pair_of(o.base_token, o.quote_token);
        lemma_level_index(o.tick as int);
        let k = slot(p, o.is_bid, level_index(o.tick as int));
        let q = ex.queues@[k];
        let j = choose|j: int| 0 <= j < q.len() && q[j] == id as u128;
        assert(level_ok(ex.orders@, ex.levels@[k], q, ex.books@[p], o.is_bid, tick_at(level_index(o.tick as int))));
        assert(entry_ok(ex.orders@, q, j, ex.books@[p], o.is_bid, tick_at(level_index(o.tick as int))));
    }
    if ex.pending_order(id) is Some {
        assert(ex.pendings_ok());
        assert(ex.pending@[id - 1] is Some);
    }
}

/// No bid level above a pair's bid cursor and no ask level below its ask
/// cursor holds an order.
pub proof fn lemma_best_ticks(ex: &StablecoinExchange, base: Address, quote: Address)
    requires
        ex.wf(),
        ex.has_pair(base, quote),
    ensures
        ({
            let b = ex.book(base, quote)->Some_0;
            &&& forall|t: int| valid_tick(t) && t > b.best_bid_tick ==> #[trigger] ex.queue(base, quote, true, t).len() == 0
            &&& forall|t: int| valid_tick(t) && t < b.best_ask_tick ==> #[trigger] ex.queue(base, quote, false, t).len() == 0
        }),
{
    assert(ex.cursors_ok());
    let p = ex.pair_of(base, quote);
    assert forall|t: int| valid_tick(t) && t > ex.books@[p].best_bid_tick implies #[trigger] ex.queue(base, quote, true, t).len() == 0 by {
        lemma_level_index(t);
    }
    assert forall|t: int| valid_tick(t) && t < ex.books@[p].best_ask_tick implies #[trigger] ex.queue(base, quote, false, t).len() == 0 by {
        lemma_level_index(t);
    }
}

/// Executing a block a second time with the same list of ids changes
/// nothing: every id it activated is no longer pending.
pub proof fn lemma_execute_block_idempotent(
    s0: &StablecoinExchange,
    s1: &StablecoinExchange,
    s2: &StablecoinExchange,
    base: Address,
    quote: Address,
    ids: Seq<u128>,
    r1: Result<(), Error>,
    r2: Result<(), Error>,
)
    requires
        StablecoinExchange::execute_block_post(s0, s1, base, quote, ids, r1),
        r1 is Ok,
        StablecoinExchange::execute_block_post(s1, s2, base, quote, ids, r2),
    ensures
        r2 is Ok,
        *s2 == *s1,
{
    assert(s0.has_pair(base, quote));
    assert(s1.has_pair(base, quote));
}

// ============ Matching against the model ============

impl StablecoinExchange {
    /// The remainders of the orders of every level of one side of pair `p`,
    /// level by level, each head first.
    pub open spec fn side_rems(&self, p: int, is_bid: bool) -> Seq<Seq<int>> {
        Seq::new(LEVELS_PER_SIDE as nat, |i: int| queue_rems(self.active_store(), self.queue_at(p, is_bid, i)))
    }
}

impl StablecoinExchange {
    /// After a fill at level `i` of side `s` of pair `p`, which changed
    /// that level's queue to one with the remainders `r` and touched only
    /// orders of its old queue, the side's remainders changed at `i` alone.
    proof fn lemma_fill_side(&self, new: &Self, p: int, s: bool, i: int, r: Seq<int>)
        requires
            self.wf(),
            new.wf(),
            0 <= p < self.books@.len(),
            0 <= i < LEVELS_PER_SIDE,
            same_pairs(self.books@, new.books@),
            ({
                let k = slot(p, s, i);
                let q = self.queues@[k];
                &&& forall|k2: int| 0 <= k2 < self.levels@.len() && k2 != k ==> new.queues@[k2] == self.queues@[k2]
                &&& forall|x: int| (forall|m: int| 0 <= m < q.len() ==> q[m] as int != x) ==> #[trigger] order_in(new.orders@, x)
                    == order_in(self.orders@, x)
                &&& queue_rems(new.orders@, new.queues@[k]) == r
            }),
        ensures
            new.side_rems(p, s) == self.side_rems(p, s).update(i, r),
    {
        let n = self.books@.len() as int;
        let k = slot(p, s, i);
        let q = self.queues@[k];
        lemma_slot(n, p, s, i, p, s, i);
        assert forall|m: int| 0 <= m < LEVELS_PER_SIDE && m != i implies #[trigger] queue_rems(new.orders@, new.queue_at(p, s, m))
            == queue_rems(self.orders@, self.queue_at(p, s, m)) by {
            lemma_slot(n, p, s, m, p, s, i);
            let q2 = self.queues@[slot(p, s, m)];
            assert(new.queues@[slot(p, s, m)] == q2);
            assert(level_ok(self.orders@, self.levels@[slot(p, s, m)], q2, self.books@[p], s, tick_at(m)));
            assert(level_ok(self.orders@, self.levels@[k], q, self.books@[p], s, tick_at(i)));
            assert forall|j: int| 0 <= j < q2.len() implies order_in(new.orders@, #[trigger] q2[j] as int) == order_in(self.orders@, q2[j] as int) by {
                assert(entry_ok(self.orders@, q2, j, self.books@[p], s, tick_at(m)));
                assert forall|m2: int| 0 <= m2 < q.len() implies q[m2] as int != q2[j] as int by {
                    assert(entry_ok(self.orders@, q, m2, self.books@[p], s, tick_at(i)));
                    if q[m2] == q2[j] {
                        lemma_tick_at(i);
                        lemma_tick_at(m);
                    }
                }
            }
            assert(queue_rems(new.orders@, q2) =~= queue_rems(self.orders@, q2));
        }
        assert(new.side_rems(p, s) =~= self.side_rems(p, s).update(i, r));
    }

    /// A fill at level `i` of side `s` of pair `p`, which touched only orders
    /// of that level's old queue, leaves the other side of the pair as it was.
    proof fn lemma_fill_other_side(&self, new: &Self, p: int, s: bool, i: int)
        requires
            self.wf(),
            0 <= p < self.books@.len(),
            0 <= i < LEVELS_PER_SIDE,
            ({
                let k = slot(p, s, i);
                let q = self.queues@[k];
                &&& forall|k2: int| 0 <= k2 < self.levels@.len() && k2 != k ==> new.queues@[k2] == self.queues@[k2]
                &&& forall|x: int| (forall|m: int| 0 <= m < q.len() ==> q[m] as int != x) ==> #[trigger] order_in(new.orders@, x)
                    == order_in(self.orders@, x)
            }),
        ensures
            new.side_rems(p, !s) == self.side_rems(p, !s),
    {
        let t = !s;
        let n = self.books@.len() as int;
        let k = slot(p, s, i);
        let q = self.queues@[k];
        assert(level_ok(self.orders@, self.levels@[k], q, self.books@[p], s, tick_at(i)));
        assert forall|m: int| 0 <= m < LEVELS_PER_SIDE implies #[trigger] queue_rems(new.orders@, new.queue_at(p, t, m))
            == queue_rems(self.orders@, self.queue_at(p, t, m)) by {
            lemma_slot(n, p, t, m, p, s, i);
            let q2 = self.queues@[slot(p, t, m)];
            assert(new.queues@[slot(p, t, m)] == q2);
            assert(level_ok(self.orders@, self.levels@[slot(p, t, m)], q2, self.books@[p], t, tick_at(m)));
            assert forall|j: int| 0 <= j < q2.len() implies order_in(new.orders@, #[trigger] q2[j] as int) == order_in(self.orders@, q2[j] as int) by {
                assert(entry_ok(self.orders@, q2, j, self.books@[p], t, tick_at(m)));
                assert forall|m2: int| 0 <= m2 < q.len() implies q[m2] as int != q2[j] as int by {
                    assert(entry_ok(self.orders@, q, m2, self.books@[p], s, tick_at(i)));
                }
            }
            assert(queue_rems(new.orders@, q2) =~= queue_rems(self.orders@, q2));
        }
        assert(new.side_rems(p, t) =~= self.side_rems(p, t));
    }
}

impl StablecoinExchange {
    /// Pending order `id` of `new` is the successor of active order `x` of
    /// `old`: a flip order of `old` that `new` no longer holds.
    pub open spec fn successor_of(old: &Self, new: &Self, x: int, id: int) -> bool {
        &&& old.active_order(x) is Some
        &&& old.active_order(x)->Some_0.is_flip
        &&& new.active_order(x) is None
        &&& new.pending_order(id) == Some(crate::order::flipped(old.active_order(x)->Some_0, id as u128))
    }

    /// Pending order `id` of `new` is the successor of some flip order of
    /// `old` that `new` no longer holds.
    pub open spec fn has_source(old: &Self, new: &Self, id: int) -> bool {
        exists|x: int| #[trigger] Self::successor_of(old, new, x, id)
    }

    /// Between `s0` and `cur` no active order was added, those that remain
    /// are the same orders, pending orders were only added, and each added
    /// one is the successor of a flip order that left.
    closed spec fn flips_sound(s0: &Self, cur: &Self) -> bool {
        &&& cur.orders@.len() == s0.orders@.len()
        &&& forall|x: int| #[trigger] order_in(cur.orders@, x) is Some ==> order_in(s0.orders@, x) is Some && same_identity(
            order_in(s0.orders@, x)->Some_0,
            order_in(cur.orders@, x)->Some_0,
        )
        &&& pending_kept(s0.pending@, cur.pending@)
        &&& forall|id: int| s0.pending@.len() < id <= cur.pending@.len() ==> #[trigger] Self::has_source(s0, cur, id)
        &&& forall|x: int| #[trigger] order_in(s0.orders@, x) is Some && order_in(s0.orders@, x)->Some_0.is_flip
            && order_in(cur.orders@, x) is None ==> Self::has_successor(s0, cur, x)
    }

    /// Flip order `x` of `old` has its successor among the pending orders
    /// `new` added.
    pub open spec fn has_successor(old: &Self, new: &Self, x: int) -> bool {
        exists|id: int| old.next_pending_id() <= id < new.next_pending_id() && #[trigger] new.pending_order(id) == Some(
            crate::order::flipped(old.active_order(x)->Some_0, id as u128),
        )
    }

    /// A fill keeps `flips_sound`.
    proof fn lemma_flips_after_fill(s0: &Self, w0: &Self, new: &Self, k: int, p: int, is_bid: bool, i: int)
        requires
            w0.wf(),
            Self::flips_sound(s0, w0),
            0 <= p < w0.books@.len(),
            0 <= i < LEVELS_PER_SIDE,
            k == slot(p, is_bid, i),
            ({
                let q = w0.queues@[k];
                &&& exists|c: int| {
                    &&& 0 <= c <= q.len()
                    &&& forall|m: int| 0 <= m < c ==> order_in(new.orders@, #[trigger] q[m] as int) is None
                    &&& forall|m: int| c < m < q.len() ==> order_in(new.orders@, #[trigger] q[m] as int)
                        == order_in(w0.orders@, q[m] as int)
                    &&& c < q.len() ==> order_in(new.orders@, q[c] as int) is Some && same_identity(
                        order_in(w0.orders@, q[c] as int)->Some_0,
                        order_in(new.orders@, q[c] as int)->Some_0,
                    )
                    &&& new.pending@ == w0.pending@ + flip_successors(w0.orders@, q.subrange(0, c), w0.pending@.len() + 1int)
                }
                &&& new.orders@.len() == w0.orders@.len()
                &&& forall|x: int| (forall|m: int| 0 <= m < q.len() ==> q[m] as int != x) ==> #[trigger] order_in(new.orders@, x)
                    == order_in(w0.orders@, x)
            }),
        ensures
            Self::flips_sound(s0, new),
    {
        let q = w0.queues@[k];
        let c = choose|c: int| {
            &&& 0 <= c <= q.len()
            &&& forall|m: int| 0 <= m < c ==> order_in(new.orders@, #[trigger] q[m] as int) is None
            &&& forall|m: int| c < m < q.len() ==> order_in(new.orders@, #[trigger] q[m] as int)
                == order_in(w0.orders@, q[m] as int)
            &&& c < q.len() ==> order_in(new.orders@, q[c] as int) is Some && same_identity(
                order_in(w0.orders@, q[c] as int)->Some_0,
                order_in(new.orders@, q[c] as int)->Some_0,
            )
            &&& new.pending@ == w0.pending@ + flip_successors(w0.orders@, q.subrange(0, c), w0.pending@.len() + 1int)
        };
        assert(level_ok(w0.orders@, w0.levels@[k], q, w0.books@[p], is_bid, tick_at(i)));
        // Orders of `new` are orders of `w0`, hence of `s0`.
        assert forall|x: int| #[trigger] order_in(new.orders@, x) is Some implies order_in(s0.orders@, x) is Some && same_identity(
            order_in(s0.orders@, x)->Some_0,
            order_in(new.orders@, x)->Some_0,
        ) by {
            if exists|m: int| 0 <= m < q.len() && q[m] as int == x {
                let m = choose|m: int| 0 <= m < q.len() && q[m] as int == x;
                assert(entry_ok(w0.orders@, q, m, w0.books@[p], is_bid, tick_at(i)));
                assert(order_in(w0.orders@, x) is Some);
            }
            assert(order_in(w0.orders@, x) is Some);
        }
        // Pending orders of `w0` keep their sources.
        let ids = q.subrange(0, c);
        let succ = flip_successors(w0.orders@, ids, w0.pending@.len() + 1int);
        crate::matching::lemma_flip_successors(w0.orders@, ids, w0.pending@.len() + 1int);
        assert forall|id: int| s0.pending@.len() < id <= new.pending@.len() implies #[trigger] Self::has_source(s0, new, id) by {
            if id <= w0.pending@.len() {
                assert(Self::has_source(s0, w0, id));
                let x = choose|x: int| #[trigger] Self::successor_of(s0, w0, x, id);
                assert(order_in(w0.orders@, x) is None);
                assert forall|m: int| 0 <= m < q.len() implies q[m] as int != x by {
                    assert(entry_ok(w0.orders@, q, m, w0.books@[p], is_bid, tick_at(i)));
                }
                assert(new.pending@[id - 1] == w0.pending@[id - 1]);
                assert(Self::successor_of(s0, new, x, id));
            } else {
                let j = id - 1 - w0.pending@.len();
                assert(new.pending@[id - 1] == succ[j]);
                let m = choose|m: int| 0 <= m < ids.len() && #[trigger] order_in(w0.orders@, ids[m] as int)->Some_0.is_flip
                    && succ[j] == Some(crate::order::flipped(order_in(w0.orders@, ids[m] as int)->Some_0, (w0.pending@.len() + 1int + j) as u128));
                let x = ids[m] as int;
                assert(ids[m] == q[m]);
                assert(entry_ok(w0.orders@, q, m, w0.books@[p], is_bid, tick_at(i)));
                assert(order_in(w0.orders@, x) is Some);
                assert(order_in(new.orders@, x) is None);
                assert(Self::successor_of(s0, new, x, id));
            }
        }
        assert forall|x: int| #[trigger] order_in(s0.orders@, x) is Some && order_in(s0.orders@, x)->Some_0.is_flip
            && order_in(new.orders@, x) is None implies Self::has_successor(s0, new, x) by {
            if order_in(w0.orders@, x) is None {
                assert(Self::has_successor(s0, w0, x));
                let id = choose|id: int| s0.next_pending_id() <= id < w0.next_pending_id() && #[trigger] w0.pending_order(id) == Some(
                    crate::order::flipped(s0.active_order(x)->Some_0, id as u128));
                assert(new.pending@[id - 1] == w0.pending@[id - 1]);
                assert(new.pending_order(id) == w0.pending_order(id));
            } else {
                if forall|m: int| 0 <= m < q.len() ==> q[m] as int != x {
                    assert(order_in(new.orders@, x) == order_in(w0.orders@, x));
                }
                let m = choose|m: int| 0 <= m < q.len() && q[m] as int == x;
                if m >= c {
                    if m > c {
                        assert(order_in(new.orders@, q[m] as int) == order_in(w0.orders@, q[m] as int));
                    }
                }
                assert(m < c);
                assert(ids[m] == q[m]);
                assert(same_identity(order_in(s0.orders@, x)->Some_0, order_in(w0.orders@, x)->Some_0));
                crate::matching::lemma_flip_successors_complete(w0.orders@, ids, w0.pending@.len() + 1int, m);
                let j = choose|j: int| 0 <= j < succ.len() && #[trigger] succ[j]
                    == Some(crate::order::flipped(order_in(w0.orders@, ids[m] as int)->Some_0, (w0.pending@.len() + 1int + j) as u128));
                let id = w0.pending@.len() + 1 + j;
                assert(new.pending@[id - 1] == succ[j]);
                assert(new.pending_order(id) == Some(crate::order::flipped(s0.active_order(x)->Some_0, id as u128)));
            }
        }
        assert(pending_kept(s0.pending@, new.pending@)) by {
            assert forall|x: int| 0 <= x < s0.pending@.len() implies #[trigger] new.pending@[x] == s0.pending@[x] by {
                assert(new.pending@[x] == w0.pending@[x]);
            }
        }
    }
}

impl StablecoinExchange {
    /// `flips_sound` depends only on the order stores of both states, and on
    /// the active orders of the first only through what they hold.
    proof fn lemma_flips_frame(s0: &Self, a: &Self, s1: &Self, b: &Self)
        requires
            Self::flips_sound(s0, a),
            s1.orders@ == s0.orders@,
            s1.pending@ == s0.pending@,
            b.orders@ == a.orders@,
            b.pending@ == a.pending@,
        ensures
            Self::flips_sound(s1, b),
    {
        assert forall|id: int| s1.pending@.len() < id <= b.pending@.len() implies #[trigger] Self::has_source(s1, b, id) by {
            assert(Self::has_source(s0, a, id));
            let x = choose|x: int| #[trigger] Self::successor_of(s0, a, x, id);
            assert(Self::successor_of(s1, b, x, id));
        }
        assert forall|x: int| #[trigger] order_in(s1.orders@, x) is Some && order_in(s1.orders@, x)->Some_0.is_flip
            && order_in(b.orders@, x) is None implies Self::has_successor(s1, b, x) by {
            assert(Self::has_successor(s0, a, x));
            let id = choose|id: int| s0.next_pending_id() <= id < a.next_pending_id() && #[trigger] a.pending_order(id) == Some(
                crate::order::flipped(s0.active_order(x)->Some_0, id as u128));
            assert(b.pending_order(id) == a.pending_order(id));
        }
    }
}

impl StablecoinExchange {
    /// What remains of every resting order is positive.
    proof fn lemma_side_rems_nonneg(&self, p: int, s: bool)
        requires
            self.wf(),
            0 <= p < self.books@.len(),
        ensures
            crate::matching::side_nonneg(self.side_rems(p, s)),
    {
        let side = self.side_rems(p, s);
        assert forall|i: int, j: int| 0 <= i < side.len() && 0 <= j < side[i].len() implies #[trigger] side[i][j] >= 0 by {
            let q = self.queues@[slot(p, s, i)];
            assert(level_ok(self.orders@, self.levels@[slot(p, s, i)], q, self.books@[p], s, tick_at(i)));
            assert(entry_ok(self.orders@, q, j, self.books@[p], s, tick_at(i)));
        }
    }
}

/// A multiple of `d` no larger than `x` once divided stays no larger than
/// `x` once multiplied back.
proof fn lemma_mul_div_le(f: int, x: int, d: int)
    requires
        x >= 0,
        d >= 1,
        0 <= f <= x / d,
    ensures
        f * d <= x,
{
    vstd::arithmetic::div_mod::lemma_fundamental_div_mod(x, d);
    vstd::arithmetic::div_mod::lemma_mod_bound(x, d);
    assert(f * d <= (x / d) * d) by (nonlinear_arith)
        requires
            0 <= f <= x / d,
            d >= 1,
    ;
    assert(d * (x / d) == (x / d) * d) by (nonlinear_arith);
}

impl StablecoinExchange {
    /// What listed pending orders hold is never negative.
    proof fn lemma_listed_nonneg(&self, ids: Seq<u128>, j: int)
        requires
            self.wf(),
        ensures
            self.listed_remaining(ids, j) >= 0,
        decreases ids.len() - j,
    {
        if 0 <= j < ids.len() {
            self.lemma_listed_nonneg(ids, j + 1);
            if self.pending_order(ids[j] as int) is Some {
                assert(self.pendings_ok());
                assert(self.pending@[ids[j] - 1] is Some);
            }
        }
    }
}

/// Every resting order lies within its side's cursor: no bid rests above
/// the bid cursor and no ask below the ask cursor.
pub proof fn lemma_cursor_covers(ex: &StablecoinExchange, x: int)
    requires
        ex.wf(),
    ensures
        ex.active_order(x) is Some ==> ex.cursor_covers(ex.active_order(x)->Some_0),
{
    if ex.active_order(x) is Some {
        let o = ex.active_order(x)->Some_0;
        lemma_order_bounds(ex, x);
        assert(ex.actives_ok());
        assert(ex.orders@[x - 1] is Some);
        let p = ex.pair_of(o.base_token, o.quote_token);
        lemma_level_index(o.tick as int);
        let k = slot(p, o.is_bid, level_index(o.tick as int));
        assert(ex.queues@[k].len() > 0);
        assert(ex.cursors_ok());
        assert(ex.books@[p] == ex.book_at(p));
    }
}

impl StablecoinExchange {
    /// Whether a fill of up to `amount` base at `tick` on side `is_bid` of
    /// pair `p` stays within `i128` (see `fill_fits`).
    fn check_fill_fits(&self, p: usize, is_bid: bool, tick: i32, amount: i128) -> (r: bool)
        requires
            self.wf(),
            amount >= 0,
        ensures
            r == self.fill_fits(p as int, is_bid, tick as int, amount as int),
    {
        let price = crate::price::tick_to_price(tick);
        let value = match amount.checked_mul(price) {
            Some(v) => v,
            None => {
                proof {
                    assert(amount * price >= 0) by (nonlinear_arith)
                        requires
                            amount >= 0,
                            price >= 1,
                    ;
                }
                return false;
            },
        };
        proof {
            assert(value >= 0) by (nonlinear_arith)
                requires
                    value == amount * price,
                    amount >= 0,
                    price >= 1,
            ;
        }
        let cap = if is_bid { amount } else { value / PRICE_SCALE };
        proof {
            assert(cap == (if is_bid { amount as int } else { (amount * price_of(tick as int)) / (PRICE_SCALE as int) }));
        }
        let limit = i128::MAX - cap;
        let mut j: usize = 0;
        while j < self.balances.len()
            invariant
                self.wf(),
                0 <= cap,
                cap == (if is_bid { amount as int } else { (amount * price_of(tick as int)) / (PRICE_SCALE as int) }),
                amount * price_of(tick as int) <= i128::MAX,
                limit == i128::MAX - cap,
                j <= self.balances@.len(),
                forall|m: int| 0 <= m < j ==> (#[trigger] self.balances@[m]).amount <= limit,
            decreases self.balances@.len() - j,
        {
            if self.balances[j].amount > limit {
                proof {
                    lemma_balance_entry(self.balances@, j as int);
                    let e = self.balances@[j as int];
                    assert(self.balance(e.user, e.token) + cap > i128::MAX);
                }
                return false;
            }
            j = j + 1;
        }
        proof {
            assert forall|u: Address, t: Address| #[trigger] self.balance(u, t) + cap <= i128::MAX by {
                if exists|m: int| 0 <= m < self.balances@.len() && self.balances@[m].user == u && self.balances@[m].token == t {
                    let m = choose|m: int| 0 <= m < self.balances@.len() && self.balances@[m].user == u && self.balances@[m].token == t;
                    lemma_balance_entry(self.balances@, m);
                } else {
                    lemma_balance_absent(self.balances@, u, t);
                }
            }
        }
        true
    }
}

impl StablecoinExchange {
    /// Activating listed order `ids[j]` keeps `block_orders`.
    #[verifier::spinoff_prover]
    proof fn lemma_block_step(s0: &Self, w0: &Self, work: &Self, order_ids: Seq<u128>, j: int)
        requires
            0 <= j < order_ids.len(),
            w0.pending_order(order_ids[j] as int) is Some,
            w0.pending_order(order_ids[j] as int) == s0.pending_order(order_ids[j] as int),
            Self::block_orders(s0, w0, order_ids),
            Self::activation(w0, work, order_ids[j] as int),
            w0.next_active_id() >= s0.next_active_id(),
            w0.wf(),
        ensures
            Self::block_orders(s0, work, order_ids),
    {
        reveal(StablecoinExchange::block_orders);
        let id = order_ids[j];
        if w0.pending_order(id as int) is Some {
            let o = w0.pending_order(id as int)->Some_0;
            let pp = w0.pair_of(o.base_token, o.quote_token);
            let q0 = w0.queue_at(pp, o.is_bid, level_index(o.tick as int));
            let tail = if q0.len() == 0 { 0u128 } else { q0.last() };
            let anew = w0.next_active_id();
            assert(w0.pending_order(id as int) == s0.pending_order(id as int));
            assert(w0.pendings_ok());
            assert(w0.pending@[id - 1] is Some);
            lemma_level_index(o.tick as int);
            let k = slot(pp, o.is_bid, level_index(o.tick as int));
            assert(level_ok(w0.orders@, w0.levels@[k], q0, w0.books@[pp], o.is_bid, tick_at(level_index(o.tick as int))));
            if q0.len() > 0 {
                assert(entry_ok(w0.orders@, q0, q0.len() - 1, w0.books@[pp], o.is_bid, tick_at(level_index(o.tick as int))));
                assert(w0.active_order(tail as int) is Some);
            }
            assert forall|x: int| x < s0.next_active_id() implies (#[trigger] work.active_order(x) is Some <==> s0.active_order(x) is Some) by {
                assert(w0.active_order(x) is Some <==> s0.active_order(x) is Some);
            }
            assert forall|x: int| x < s0.next_active_id() && s0.active_order(x) is Some implies same_identity(
                s0.active_order(x)->Some_0,
                #[trigger] work.active_order(x)->Some_0,
            ) && work.active_order(x)->Some_0.remaining == s0.active_order(x)->Some_0.remaining by {
                assert(w0.active_order(x) is Some);
                assert(same_identity(s0.active_order(x)->Some_0, w0.active_order(x)->Some_0));
            }
            assert forall|a: int| s0.next_active_id() <= a < work.next_active_id() implies #[trigger] work.active_order(a) is Some
                && Self::listed_source(s0, work, order_ids, a) by {
                if a == anew {
                    assert(order_ids[j as int] == id);
                    assert(activated_as(s0.pending_order(order_ids[j as int] as int)->Some_0, work.active_order(a)->Some_0));
                } else {
                    assert(w0.active_order(a) is Some && Self::listed_source(s0, w0, order_ids, a));
                    let jj = choose|jj: int| 0 <= jj < order_ids.len() && s0.pending_order(#[trigger] order_ids[jj] as int) is Some
                && activated_as(s0.pending_order(order_ids[jj] as int)->Some_0, w0.active_order(a)->Some_0);
                    assert(activated_as(s0.pending_order(order_ids[jj] as int)->Some_0, work.active_order(a)->Some_0));
                }
            }
        }
    }
}

impl StablecoinExchange {
    /// Before any activation, the active orders are those of the start.
    proof fn lemma_block_orders_start(s0: &Self, w: &Self, ids: Seq<u128>)
        requires
            w.orders@ == s0.orders@,
        ensures
            Self::block_orders(s0, w, ids),
    {
        reveal(StablecoinExchange::block_orders);
    }
}

impl StablecoinExchange {
    /// Before any activation, the book is that of the start.
    proof fn lemma_block_book_start(s0: &Self, w: &Self)
        requires
            w.orders@ == s0.orders@,
            w.books@ == s0.books@,
            w.queues@ == s0.queues@,
        ensures
            Self::block_book(s0, w),
    {
        reveal(StablecoinExchange::block_book);
        assert forall|p: int, s: bool, i: int| 0 <= p < s0.pair_count() && 0 <= i < LEVELS_PER_SIDE implies Self::extends_queue(
            s0.queue_at(p, s, i),
            #[trigger] w.queue_at(p, s, i),
            s0.next_active_id(),
        ) by {
            assert(w.queue_at(p, s, i).subrange(0, s0.queue_at(p, s, i).len() as int) =~= s0.queue_at(p, s, i));
        }
    }

    /// One activation keeps `block_book`.
    #[verifier::spinoff_prover]
    proof fn lemma_block_book_step(s0: &Self, w0: &Self, work: &Self, id: int)
        requires
            Self::block_book(s0, w0),
            w0.wf(),
            w0.pending_order(id) is Some,
            Self::activation(w0, work, id),
            w0.next_active_id() >= s0.next_active_id(),
            w0.pair_count() == s0.pair_count(),
            work.wf(),
        ensures
            Self::block_book(s0, work),
    {
        reveal(StablecoinExchange::block_book);
        let o = w0.pending_order(id)->Some_0;
        let pp = w0.pair_of(o.base_token, o.quote_token);
        let i0 = level_index(o.tick as int);
        let anew = w0.next_active_id();
        assert(w0.pendings_ok());
        assert(w0.pending@[id - 1] is Some);
        lemma_level_index(o.tick as int);
        assert(w0.is_pair(pp, o.base_token, o.quote_token));
        assert(work.actives_ok());
        assert(work.orders@[anew - 1] is Some);
        assert((anew as u128) as int == anew);
        assert forall|p: int, s: bool, i: int| 0 <= p < s0.pair_count() && 0 <= i < LEVELS_PER_SIDE implies Self::extends_queue(
            s0.queue_at(p, s, i),
            #[trigger] work.queue_at(p, s, i),
            s0.next_active_id(),
        ) by {
            let a = s0.queue_at(p, s, i);
            let b0 = w0.queue_at(p, s, i);
            assert(Self::extends_queue(a, b0, s0.next_active_id()));
            if p == pp && s == o.is_bid && i == i0 {
                let b1 = work.queue_at(p, s, i);
                assert(b1 == b0.push(anew as u128));
                assert(b1.subrange(0, a.len() as int) =~= b0.subrange(0, a.len() as int));
                assert forall|m: int| a.len() <= m < b1.len() implies #[trigger] b1[m] >= s0.next_active_id() by {
                    if m < b0.len() {
                        assert(b1[m] == b0[m]);
                    }
                }
            }
        }
        assert forall|p: int| 0 <= p < s0.pair_count() implies {
            let b0 = s0.book_at(p);
            let b1 = #[trigger] work.book_at(p);
            &&& b1.base_token == b0.base_token
            &&& b1.quote_token == b0.quote_token
            &&& b1.best_bid_tick >= b0.best_bid_tick
            &&& (b1.best_bid_tick == b0.best_bid_tick || exists|a: int| #[trigger] work.new_order_at(a, s0.next_active_id(), p, true, b1.best_bid_tick as int))
            &&& b1.best_ask_tick <= b0.best_ask_tick
            &&& (b1.best_ask_tick == b0.best_ask_tick || exists|a: int| #[trigger] work.new_order_at(a, s0.next_active_id(), p, false, b1.best_ask_tick as int))
        } by {
            let bw = w0.book_at(p);
            let b1 = work.book_at(p);
            assert(w0.book_at(p) == bw);
            s0.lemma_same_pairs_books(w0, work, p);
            // A witness in `w0` is still one in `work`.
            assert forall|a: int, s: bool, t: int| #[trigger] w0.new_order_at(a, s0.next_active_id(), p, s, t) implies work.new_order_at(
                a,
                s0.next_active_id(),
                p,
                s,
                t,
            ) by {
                assert(a < anew);
                let q0 = w0.queue_at(pp, o.is_bid, i0);
                if q0.len() > 0 && a == q0.last() {
                } else {
                    assert(work.active_order(a) == w0.active_order(a));
                }
                assert(work.is_pair(p, work.active_order(a)->Some_0.base_token, work.active_order(a)->Some_0.quote_token));
            }
            if p == pp {
                assert(work.new_order_at(anew, s0.next_active_id(), p, o.is_bid, o.tick as int));
            }
        }
    }

    /// Books of the same pairs across three states.
    proof fn lemma_same_pairs_books(&self, w0: &Self, work: &Self, p: int)
        requires
            0 <= p < self.books@.len(),
            w0.books@.len() == self.books@.len(),
            work.books@.len() == self.books@.len(),
            w0.books@[p].base_token == self.books@[p].base_token,
            w0.books@[p].quote_token == self.books@[p].quote_token,
            work.books@[p].base_token == w0.books@[p].base_token,
            work.books@[p].quote_token == w0.books@[p].quote_token,
        ensures
            work.book_at(p).base_token == self.book_at(p).base_token,
            work.book_at(p).quote_token == self.book_at(p).quote_token,
    {
    }
}

} // verus!
