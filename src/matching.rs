use vstd::prelude::*;

use crate::order::Order;
use crate::price::{level_index, quote_amount, tick_at, LEVELS_PER_SIDE, MAX_TICK, MIN_TICK, PRICE_SCALE};
use crate::queue::order_in;

verus! {

// The matching model: what filling a queue and walking one side of a book
// do, stated over the remainders of the resting orders.

/// The level index a cursor points at: one past the last level for the
/// ask sentinel, one before the first for the bid sentinel.
pub open spec fn cursor_index(tick: int) -> int {
    if tick > MAX_TICK {
        LEVELS_PER_SIDE as int
    } else if tick < MIN_TICK {
        -1
    } else {
        level_index(tick)
    }
}

/// Sum of a sequence of amounts.
pub open spec fn seq_sum(s: Seq<int>) -> int
    decreases s.len(),
{
    if s.len() == 0 {
        0
    } else {
        seq_sum(s.drop_last()) + s.last()
    }
}

/// Filling up to `a` base at `tick` from the front of a queue whose orders
/// have the remainders `r`, each order giving what it has left or what is
/// still wanted, whichever is less: the remainders after, the base filled
/// and the quote paid, each order's quote truncated on its own.
pub open spec fn level_fill(r: Seq<int>, a: int, tick: int) -> (Seq<int>, int, int)
    decreases r.len(),
{
    if a <= 0 || r.len() == 0 {
        (r, 0, 0)
    } else {
        let f = if a < r[0] { a } else { r[0] };
        let qf = quote_amount(f, tick);
        if f == r[0] {
            let rest = level_fill(r.subrange(1, r.len() as int), a - f, tick);
            (rest.0, f + rest.1, qf + rest.2)
        } else {
            (r.update(0, r[0] - f), f, qf)
        }
    }
}

/// What a swap of `rem` yields against one side of a book whose level `i`
/// holds orders with the remainders `side[i]`, starting at level `i` and
/// moving outward (up the asks when buying, down the bids when selling):
/// the output, the input left, and the remainders of the side afterwards. At each non-empty level it fills the base
/// that `rem` buys (buying) or what is left of `rem` (selling), capped by
/// the level's liquidity; it stays at a level the fill did not empty, and
/// stops where a fill would be 0.
pub open spec fn swap_walk(side: Seq<Seq<int>>, is_buy: bool, i: int, rem: int) -> (int, int, Seq<Seq<int>>)
    decreases (if is_buy { LEVELS_PER_SIDE - i } else { i + 1 }), seq_sum(side[i]),
{
    if rem <= 0 || i < 0 || i >= LEVELS_PER_SIDE || i >= side.len() {
        (0, rem, side)
    } else {
        let next = if is_buy { i + 1 } else { i - 1 };
        let r = side[i];
        let liq = seq_sum(r);
        if r.len() == 0 {
            swap_walk(side, is_buy, next, rem)
        } else {
            let tick = tick_at(i);
            let want = if is_buy { crate::price::base_amount(rem, tick) } else { rem };
            let fill = if want < liq { want } else { liq };
            if fill <= 0 {
                (0, rem, side)
            } else {
                let lf = level_fill(r, fill, tick);
                let side2 = side.update(i, lf.0);
                let rem2 = if is_buy { rem - lf.2 } else { rem - lf.1 };
                let got = if is_buy { lf.1 } else { lf.2 };
                if lf.0.len() == 0 {
                    let rest = swap_walk(side2, is_buy, next, rem2);
                    (got + rest.0, rest.1, rest.2)
                } else if 0 <= seq_sum(lf.0) < liq {
                    let rest = swap_walk(side2, is_buy, i, rem2);
                    (got + rest.0, rest.1, rest.2)
                } else {
                    (got, rem2, side2)
                }
            }
        }
    }
}

/// Walking over empty levels changes nothing.
pub(crate) proof fn lemma_walk_skip(side: Seq<Seq<int>>, is_buy: bool, i: int, j: int, rem: int)
    requires
        side.len() == LEVELS_PER_SIDE,
        is_buy ==> 0 <= i <= j,
        !is_buy ==> j <= i < LEVELS_PER_SIDE,
        -1 <= i <= LEVELS_PER_SIDE,
        -1 <= j <= LEVELS_PER_SIDE,
        forall|m: int| (if is_buy { i <= m < j } else { j < m <= i }) && 0 <= m < LEVELS_PER_SIDE ==> (#[trigger] side[m]).len() == 0,
    ensures
        swap_walk(side, is_buy, i, rem) == swap_walk(side, is_buy, j, rem),
    decreases (if is_buy { j - i } else { i - j }),
{
    if i != j {
        if rem > 0 {
            let next = if is_buy { i + 1 } else { i - 1 };
            lemma_walk_skip(side, is_buy, next, j, rem);
        }
    }
}

/// Past the last level the walk yields nothing.
pub(crate) proof fn lemma_walk_end(side: Seq<Seq<int>>, is_buy: bool, i: int, rem: int)
    requires
        side.len() == LEVELS_PER_SIDE,
        -1 <= i <= LEVELS_PER_SIDE,
        forall|m: int| (if is_buy { i <= m } else { m <= i }) && 0 <= m < LEVELS_PER_SIDE ==> (#[trigger] side[m]).len() == 0,
    ensures
        swap_walk(side, is_buy, i, rem) == (0int, rem, side),
    decreases (if is_buy { LEVELS_PER_SIDE - i } else { i + 1 }),
{
    if rem > 0 && 0 <= i < LEVELS_PER_SIDE {
        let next = if is_buy { i + 1 } else { i - 1 };
        lemma_walk_end(side, is_buy, next, rem);
    }
}

/// A sum can be taken from the front as well.
pub(crate) proof fn lemma_seq_sum_first(s: Seq<int>)
    requires
        s.len() > 0,
    ensures
        seq_sum(s) == s[0] + seq_sum(s.subrange(1, s.len() as int)),
    decreases s.len(),
{
    if s.len() > 1 {
        lemma_seq_sum_first(s.drop_last());
        assert(s.drop_last().subrange(1, s.len() - 1) =~= s.subrange(1, s.len() as int).drop_last());
    } else {
        assert(s.subrange(1, s.len() as int) =~= Seq::<int>::empty());
        assert(s.drop_last() =~= Seq::<int>::empty());
    }
}

/// The fill `lf` of queue `r` filled the first `c` orders completely and
/// took `x` from the order after them, leaving all later orders as they were.
pub open spec fn head_fill(r: Seq<int>, lf: (Seq<int>, int, int), c: int, x: int) -> bool {
    &&& 0 <= c <= r.len()
    &&& 0 <= x
    &&& (c == r.len() ==> x == 0)
    &&& (c < r.len() ==> x < r[c])
    &&& lf.1 == seq_sum(r.subrange(0, c)) + x
    &&& lf.0 == (if x == 0 {
        r.subrange(c, r.len() as int)
    } else {
        r.subrange(c, r.len() as int).update(0, r[c] - x)
    })
}

/// A fill takes from the head of a queue: the orders of some prefix are
/// filled completely, the order after them at most in part, and every later
/// order is untouched; the base filled is what the prefix had plus the part
/// taken.
pub proof fn lemma_fill_in_queue_order(r: Seq<int>, a: int, tick: int)
    requires
        forall|j: int| 0 <= j < r.len() ==> r[j] > 0,
    ensures
        exists|c: int, x: int| #[trigger] head_fill(r, level_fill(r, a, tick), c, x),
    decreases r.len(),
{
    let lf = level_fill(r, a, tick);
    if a <= 0 || r.len() == 0 {
        assert(r.subrange(0, 0) =~= Seq::<int>::empty());
        assert(r.subrange(0, r.len() as int) =~= r);
        assert(head_fill(r, lf, 0, 0));
    } else {
        let f = if a < r[0] { a } else { r[0] };
        let r1 = r.subrange(1, r.len() as int);
        if f == r[0] {
            assert forall|j: int| 0 <= j < r1.len() implies r1[j] > 0 by {
                assert(r1[j] == r[j + 1]);
            }
            lemma_fill_in_queue_order(r1, a - f, tick);
            let rest = level_fill(r1, a - f, tick);
            let (c1, x1) = choose|c1: int, x1: int| #[trigger] head_fill(r1, rest, c1, x1);
            let c = c1 + 1;
            lemma_seq_sum_first(r.subrange(0, c));
            assert(r.subrange(0, c).subrange(1, c) =~= r1.subrange(0, c1));
            assert(r1.subrange(c1, r1.len() as int) =~= r.subrange(c, r.len() as int));
            if c1 < r1.len() {
                assert(r1[c1] == r[c]);
            }
            assert(head_fill(r, lf, c, x1));
        } else {
            assert(r.subrange(0, 0) =~= Seq::<int>::empty());
            assert(r.subrange(0, r.len() as int) =~= r);
            assert(head_fill(r, lf, 0, a));
        }
    }
}

/// The pending orders that the fully filled orders `ids` of `store` leave
/// behind, in order: one successor for each flip order, numbered from
/// `next_id` on.
pub open spec fn flip_successors(store: Seq<Option<Order>>, ids: Seq<u128>, next_id: int) -> Seq<Option<Order>>
    decreases ids.len(),
{
    if ids.len() == 0 {
        Seq::empty()
    } else {
        let before = flip_successors(store, ids.drop_last(), next_id);
        let o = order_in(store, ids.last() as int)->Some_0;
        if o.is_flip {
            before.push(Some(crate::order::flipped(o, (next_id + before.len()) as u128)))
        } else {
            before
        }
    }
}

/// Every successor a fill leaves behind comes from a flip order among the
/// completely filled ones, and is that order turned to the other side at
/// its flip tick, for its original amount with nothing filled, and not
/// itself a flip order; orders that are not flip orders leave none.
pub proof fn lemma_flip_successors(store: Seq<Option<Order>>, ids: Seq<u128>, next_id: int)
    ensures
        forall|j: int| #![trigger flip_successors(store, ids, next_id)[j]] 0 <= j < flip_successors(store, ids, next_id).len() ==> exists|m: int|
            0 <= m < ids.len() && #[trigger] order_in(store, ids[m] as int)->Some_0.is_flip
                && flip_successors(store, ids, next_id)[j] == Some(
                crate::order::flipped(order_in(store, ids[m] as int)->Some_0, (next_id + j) as u128),
            ),
        forall|j: int| #![trigger flip_successors(store, ids, next_id)[j]] 0 <= j < flip_successors(store, ids, next_id).len() ==> ({
            let f = flip_successors(store, ids, next_id)[j]->Some_0;
            &&& flip_successors(store, ids, next_id)[j] is Some
            &&& f.remaining == f.amount
            &&& !f.is_flip
            &&& f.prev == 0 && f.next == 0
        }),
        (forall|m: int| 0 <= m < ids.len() ==> !(#[trigger] order_in(store, ids[m] as int)->Some_0.is_flip))
            ==> flip_successors(store, ids, next_id).len() == 0,
    decreases ids.len(),
{
    if ids.len() > 0 {
        let d = ids.drop_last();
        lemma_flip_successors(store, d, next_id);
        let before = flip_successors(store, d, next_id);
        assert forall|j: int| #![trigger before[j]] 0 <= j < before.len() implies exists|m: int|
            0 <= m < ids.len() && #[trigger] order_in(store, ids[m] as int)->Some_0.is_flip
                && before[j] == Some(crate::order::flipped(order_in(store, ids[m] as int)->Some_0, (next_id + j) as u128)) by {
            let m = choose|m: int| 0 <= m < d.len() && #[trigger] order_in(store, d[m] as int)->Some_0.is_flip
                && before[j] == Some(crate::order::flipped(order_in(store, d[m] as int)->Some_0, (next_id + j) as u128));
            assert(d[m] == ids[m]);
        }
        let o = order_in(store, ids.last() as int)->Some_0;
        if o.is_flip {
            assert(order_in(store, ids[ids.len() - 1] as int)->Some_0.is_flip);
        }
        if forall|m: int| 0 <= m < ids.len() ==> !(#[trigger] order_in(store, ids[m] as int)->Some_0.is_flip) {
            assert forall|m: int| 0 <= m < d.len() implies !(#[trigger] order_in(store, d[m] as int)->Some_0.is_flip) by {
                assert(d[m] == ids[m]);
            }
            assert(!order_in(store, ids[ids.len() - 1] as int)->Some_0.is_flip);
        }
    }
}

/// The quote of a fill, truncated, is at most the fill times the price.
pub(crate) proof fn lemma_quote_bound(fill: int, price: int)
    requires
        fill >= 0,
        price >= 1,
    ensures
        0 <= (fill * price) / (PRICE_SCALE as int),
        ((fill * price) / (PRICE_SCALE as int)) * PRICE_SCALE <= fill * price,
{
    assert(fill * price >= 0) by (nonlinear_arith)
        requires
            fill >= 0,
            price >= 1,
    ;
}

/// Spending the quote of at most the base that `rem` quote buys costs at
/// most `rem`.
pub(crate) proof fn lemma_buy_budget(rem: int, price: int, fill: int, spent: int)
    requires
        rem >= 0,
        price >= 1,
        0 <= fill <= (rem * PRICE_SCALE) / price,
        spent * PRICE_SCALE <= fill * price,
    ensures
        spent <= rem,
{
    let x = rem * PRICE_SCALE;
    assert(x >= 0);
    vstd::arithmetic::div_mod::lemma_fundamental_div_mod(x, price);
    vstd::arithmetic::div_mod::lemma_mod_bound(x, price);
    assert(fill * price <= (x / price) * price) by (nonlinear_arith)
        requires
            0 <= fill <= x / price,
            price >= 1,
    ;
    assert(price * (x / price) == (x / price) * price) by (nonlinear_arith);
}

/// All amounts of a side are at least 0.
pub open spec fn side_nonneg(side: Seq<Seq<int>>) -> bool {
    forall|i: int, j: int| 0 <= i < side.len() && 0 <= j < side[i].len() ==> #[trigger] side[i][j] >= 0
}

/// A fill of nonnegative remainders takes and pays nonnegative amounts and
/// leaves nonnegative remainders.
pub(crate) proof fn lemma_level_fill_nonneg(r: Seq<int>, a: int, tick: int)
    requires
        forall|j: int| 0 <= j < r.len() ==> r[j] >= 0,
        tick_at(0) <= tick <= tick_at(LEVELS_PER_SIDE - 1),
    ensures
        level_fill(r, a, tick).1 >= 0,
        level_fill(r, a, tick).2 >= 0,
        forall|j: int| 0 <= j < level_fill(r, a, tick).0.len() ==> level_fill(r, a, tick).0[j] >= 0,
    decreases r.len(),
{
    if !(a <= 0 || r.len() == 0) {
        let f = if a < r[0] { a } else { r[0] };
        lemma_quote_bound(f, crate::price::price_of(tick));
        let r1 = r.subrange(1, r.len() as int);
        assert forall|j: int| 0 <= j < r1.len() implies r1[j] >= 0 by {
            assert(r1[j] == r[j + 1]);
        }
        lemma_level_fill_nonneg(r1, a - f, tick);
    }
}

/// A walk over a nonnegative side yields a nonnegative output.
pub(crate) proof fn lemma_walk_nonneg(side: Seq<Seq<int>>, is_buy: bool, i: int, rem: int)
    requires
        side_nonneg(side),
    ensures
        swap_walk(side, is_buy, i, rem).0 >= 0,
    decreases (if is_buy { LEVELS_PER_SIDE - i } else { i + 1 }), seq_sum(side[i]),
{
    if !(rem <= 0 || i < 0 || i >= LEVELS_PER_SIDE || i >= side.len()) {
        let next = if is_buy { i + 1 } else { i - 1 };
        let r = side[i];
        let liq = seq_sum(r);
        if r.len() == 0 {
            lemma_walk_nonneg(side, is_buy, next, rem);
        } else {
            let tick = tick_at(i);
            let want = if is_buy { crate::price::base_amount(rem, tick) } else { rem };
            let fill = if want < liq { want } else { liq };
            if fill > 0 {
                assert forall|j: int| 0 <= j < r.len() implies r[j] >= 0 by {}
                lemma_level_fill_nonneg(r, fill, tick);
                let lf = level_fill(r, fill, tick);
                let side2 = side.update(i, lf.0);
                let rem2 = if is_buy { rem - lf.2 } else { rem - lf.1 };
                assert(side_nonneg(side2)) by {
                    assert forall|i2: int, j: int| 0 <= i2 < side2.len() && 0 <= j < side2[i2].len() implies #[trigger] side2[i2][j] >= 0 by {
                        if i2 == i {
                        } else {
                            assert(side2[i2] == side[i2]);
                        }
                    }
                }
                if lf.0.len() == 0 {
                    lemma_walk_nonneg(side2, is_buy, next, rem2);
                } else if 0 <= seq_sum(lf.0) < liq {
                    assert(side2[i] == lf.0);
                    lemma_walk_nonneg(side2, is_buy, i, rem2);
                }
            }
        }
    }
}

/// Every completely filled flip order among `ids` leaves its successor.
pub proof fn lemma_flip_successors_complete(store: Seq<Option<Order>>, ids: Seq<u128>, next_id: int, m: int)
    requires
        0 <= m < ids.len(),
        order_in(store, ids[m] as int)->Some_0.is_flip,
    ensures
        exists|j: int| 0 <= j < flip_successors(store, ids, next_id).len() && #[trigger] flip_successors(store, ids, next_id)[j]
            == Some(crate::order::flipped(order_in(store, ids[m] as int)->Some_0, (next_id + j) as u128)),
    decreases ids.len(),
{
    let d = ids.drop_last();
    let before = flip_successors(store, d, next_id);
    if m == ids.len() - 1 {
        let j = before.len() as int;
        assert(flip_successors(store, ids, next_id)[j] == Some(
            crate::order::flipped(order_in(store, ids[m] as int)->Some_0, (next_id + j) as u128),
        ));
    } else {
        assert(d[m] == ids[m]);
        lemma_flip_successors_complete(store, d, next_id, m);
        let j = choose|j: int| 0 <= j < before.len() && #[trigger] before[j]
            == Some(crate::order::flipped(order_in(store, d[m] as int)->Some_0, (next_id + j) as u128));
        assert(flip_successors(store, ids, next_id)[j] == before[j]);
    }
}

} // verus!
