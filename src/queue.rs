use vstd::prelude::*;

use crate::matching::seq_sum;
use crate::order::Order;
use crate::orderbook::{Orderbook, TickLevel};

verus! {

// The queue of a tick level is a sequence of order ids, head first; the
// orders themselves sit in a store where order `id` is at index `id - 1`.

/// The order stored under `id` in a namespace, if any.
pub open spec fn order_in(store: Seq<Option<Order>>, id: int) -> Option<Order> {
    if 1 <= id <= store.len() {
        store[id - 1]
    } else {
        None
    }
}

/// What remains of the order stored under `id`, 0 if there is none.
pub open spec fn remaining_of(store: Seq<Option<Order>>, id: u128) -> int {
    match order_in(store, id as int) {
        Some(o) => o.remaining as int,
        None => 0,
    }
}

/// Sum of what remains of the orders of a queue.
pub open spec fn sum_remaining(store: Seq<Option<Order>>, q: Seq<u128>) -> int
    decreases q.len(),
{
    if q.len() == 0 {
        0
    } else {
        sum_remaining(store, q.drop_last()) + remaining_of(store, q.last())
    }
}

/// Entry `j` of queue `q` is a live order of this level, linked to its
/// neighbours in the queue, with something left to fill.
pub open spec fn entry_ok(
    store: Seq<Option<Order>>,
    q: Seq<u128>,
    j: int,
    book: Orderbook,
    is_bid: bool,
    tick: int,
) -> bool {
    let id = q[j];
    match order_in(store, id as int) {
        Some(o) => {
            &&& o.order_id == id
            &&& o.base_token == book.base_token
            &&& o.quote_token == book.quote_token
            &&& o.is_bid == is_bid
            &&& o.tick == tick
            &&& o.prev == (if j == 0 { 0u128 } else { q[j - 1] })
            &&& o.next == (if j == q.len() - 1 { 0u128 } else { q[j + 1] })
            &&& 0 < o.remaining <= o.amount
        },
        None => false,
    }
}

/// A level agrees with its queue: `head` and `tail` are the queue's ends,
/// `total_liquidity` is the sum of what remains of its orders, and every
/// entry is a distinct live order of the level, linked to its neighbours.
pub open spec fn level_ok(
    store: Seq<Option<Order>>,
    lv: TickLevel,
    q: Seq<u128>,
    book: Orderbook,
    is_bid: bool,
    tick: int,
) -> bool {
    &&& (q.len() == 0 ==> lv.head == 0 && lv.tail == 0)
    &&& (q.len() > 0 ==> lv.head == q[0] && lv.tail == q.last())
    &&& lv.total_liquidity == sum_remaining(store, q)
    &&& forall|j: int| 0 <= j < q.len() ==> #[trigger] entry_ok(store, q, j, book, is_bid, tick)
    &&& forall|j: int, k: int| 0 <= j < k < q.len() ==> q[j] != q[k]
}

/// The queue holds `id`.
pub open spec fn in_queue(q: Seq<u128>, id: u128) -> bool {
    exists|j: int| 0 <= j < q.len() && q[j] == id
}

/// The remainders of the orders of a queue, head first.
pub open spec fn queue_rems(store: Seq<Option<Order>>, q: Seq<u128>) -> Seq<int> {
    q.map_values(|id: u128| remaining_of(store, id))
}

/// The sum over two queues laid end to end is the sum of their sums.
pub(crate) proof fn lemma_sum_concat(store: Seq<Option<Order>>, a: Seq<u128>, b: Seq<u128>)
    ensures
        sum_remaining(store, a + b) == sum_remaining(store, a) + sum_remaining(store, b),
    decreases b.len(),
{
    if b.len() == 0 {
        assert(a + b =~= a);
    } else {
        lemma_sum_concat(store, a, b.drop_last());
        assert((a + b).drop_last() =~= a + b.drop_last());
    }
}

/// The sum over a queue depends only on the queue's own orders.
pub(crate) proof fn lemma_sum_frame(s1: Seq<Option<Order>>, s2: Seq<Option<Order>>, q: Seq<u128>)
    requires
        forall|j: int| 0 <= j < q.len() ==> remaining_of(s1, #[trigger] q[j]) == remaining_of(s2, q[j]),
    ensures
        sum_remaining(s1, q) == sum_remaining(s2, q),
    decreases q.len(),
{
    if q.len() > 0 {
        assert forall|j: int| 0 <= j < q.drop_last().len() implies remaining_of(s1, #[trigger] q.drop_last()[j])
            == remaining_of(s2, q.drop_last()[j]) by {
            assert(q.drop_last()[j] == q[j]);
        }
        lemma_sum_frame(s1, s2, q.drop_last());
    }
}

/// Every order of a queue whose entries are live has a remainder of at
/// least 0, so the sum is at least what remains of any one of them.
pub(crate) proof fn lemma_sum_ge_entry(store: Seq<Option<Order>>, q: Seq<u128>, j: int)
    requires
        0 <= j < q.len(),
        forall|k: int| 0 <= k < q.len() ==> remaining_of(store, #[trigger] q[k]) >= 0,
    ensures
        sum_remaining(store, q) >= remaining_of(store, q[j]),
        sum_remaining(store, q) >= 0,
    decreases q.len(),
{
    let d = q.drop_last();
    assert forall|k: int| 0 <= k < d.len() implies remaining_of(store, #[trigger] d[k]) >= 0 by {
        assert(d[k] == q[k]);
    }
    assert(remaining_of(store, q[q.len() - 1]) >= 0);
    assert(sum_remaining(store, q) == sum_remaining(store, d) + remaining_of(store, q.last()));
    if j < q.len() - 1 {
        assert(d[j] == q[j]);
        lemma_sum_ge_entry(store, d, j);
    } else if d.len() > 0 {
        lemma_sum_ge_entry(store, d, 0);
    }
}

/// The sum over a queue splits around entry `j`.
pub(crate) proof fn lemma_sum_split(store: Seq<Option<Order>>, q: Seq<u128>, j: int)
    requires
        0 <= j < q.len(),
    ensures
        sum_remaining(store, q) == sum_remaining(store, q.subrange(0, j)) + remaining_of(store, q[j])
            + sum_remaining(store, q.subrange(j + 1, q.len() as int)),
{
    let left = q.subrange(0, j);
    let right = q.subrange(j + 1, q.len() as int);
    assert(q =~= left + seq![q[j]] + right);
    lemma_sum_concat(store, left + seq![q[j]], right);
    lemma_sum_concat(store, left, seq![q[j]]);
    assert(seq![q[j]].drop_last() =~= Seq::<u128>::empty());
    reveal_with_fuel(sum_remaining, 2);
}

/// Replacing the order of one entry of a queue of distinct ids changes the
/// queue's sum by the change of that order's remainder.
pub(crate) proof fn lemma_sum_replace(store: Seq<Option<Order>>, q: Seq<u128>, j: int, o2: Order)
    requires
        0 <= j < q.len(),
        1 <= q[j] <= store.len(),
        forall|a: int, b: int| 0 <= a < b < q.len() ==> q[a] != q[b],
    ensures
        sum_remaining(store.update(q[j] - 1, Some(o2)), q) == sum_remaining(store, q) - remaining_of(store, q[j])
            + o2.remaining,
{
    let store2 = store.update(q[j] - 1, Some(o2));
    let left = q.subrange(0, j);
    let right = q.subrange(j + 1, q.len() as int);
    lemma_sum_split(store, q, j);
    lemma_sum_split(store2, q, j);
    assert forall|m: int| 0 <= m < left.len() implies remaining_of(store, #[trigger] left[m]) == remaining_of(store2, left[m]) by {
        assert(left[m] == q[m]);
    }
    assert forall|m: int| 0 <= m < right.len() implies remaining_of(store, #[trigger] right[m]) == remaining_of(store2, right[m]) by {
        assert(right[m] == q[m + j + 1]);
    }
    lemma_sum_frame(store, store2, left);
    lemma_sum_frame(store, store2, right);
}

/// The queue's sum of remainders, as a sum of a sequence of amounts.
pub(crate) proof fn lemma_queue_rems_sum(store: Seq<Option<Order>>, q: Seq<u128>)
    ensures
        seq_sum(queue_rems(store, q)) == sum_remaining(store, q),
        queue_rems(store, q).len() == q.len(),
    decreases q.len(),
{
    if q.len() > 0 {
        lemma_queue_rems_sum(store, q.drop_last());
        assert(queue_rems(store, q).drop_last() =~= queue_rems(store, q.drop_last()));
    }
}

/// The order store after order `id` (which is `o`) left its queue: its
/// neighbours point to each other and its record is gone.
pub open spec fn unlinked_store(store: Seq<Option<Order>>, o: Order, id: int) -> Seq<Option<Order>> {
    let mid = if o.prev != 0 {
        store.update(o.prev - 1, Some(Order { next: o.next, ..store[o.prev - 1]->Some_0 }))
    } else {
        store
    };
    let last = if o.next != 0 {
        mid.update(o.next - 1, Some(Order { prev: o.prev, ..mid[o.next - 1]->Some_0 }))
    } else {
        mid
    };
    last.update(id - 1, None)
}

/// A level after order `o` left its queue.
pub open spec fn unlinked_level(lv: TickLevel, o: Order) -> TickLevel {
    TickLevel {
        head: if o.prev != 0 { lv.head } else { o.next },
        tail: if o.next != 0 { lv.tail } else { o.prev },
        total_liquidity: (lv.total_liquidity - o.remaining) as i128,
    }
}

/// Where entry `j` of a well-formed queue is unlinked, every other entry's
/// order is kept, but for the links of its two neighbours.
pub(crate) proof fn lemma_unlink_orders(store: Seq<Option<Order>>, lv: TickLevel, q: Seq<u128>, j: int, book: Orderbook, s: bool, tick: int)
    requires
        level_ok(store, lv, q, book, s, tick),
        0 <= j < q.len(),
    ensures
        ({
            let o = order_in(store, q[j] as int)->Some_0;
            let store1 = unlinked_store(store, o, q[j] as int);
            &&& order_in(store1, q[j] as int) is None
            &&& forall|m: int| 0 <= m < q.len() && m != j ==> order_in(store1, #[trigger] q[m] as int) == (
                if m == j - 1 {
                    Some(Order { next: o.next, ..order_in(store, q[m] as int)->Some_0 })
                } else if m == j + 1 {
                    Some(Order { prev: o.prev, ..order_in(store, q[m] as int)->Some_0 })
                } else {
                    order_in(store, q[m] as int)
                })
            &&& forall|x: int| #[trigger] order_in(store1, x) != order_in(store, x) ==> x == q[j] || (
                j > 0 && x == q[j - 1]) || (j < q.len() - 1 && x == q[j + 1])
            &&& store1.len() == store.len()
        }),
{
    let o = order_in(store, q[j] as int)->Some_0;
    assert(entry_ok(store, q, j, book, s, tick));
    if j > 0 {
        assert(entry_ok(store, q, j - 1, book, s, tick));
        assert(q[j - 1] != q[j]);
    }
    if j < q.len() - 1 {
        assert(entry_ok(store, q, j + 1, book, s, tick));
        assert(q[j + 1] != q[j]);
    }
    if j > 0 && j < q.len() - 1 {
        assert(q[j - 1] != q[j + 1]);
    }
    let store1 = unlinked_store(store, o, q[j] as int);
    assert forall|m: int| 0 <= m < q.len() && m != j implies order_in(store1, #[trigger] q[m] as int) == (
        if m == j - 1 {
            Some(Order { next: o.next, ..order_in(store, q[m] as int)->Some_0 })
        } else if m == j + 1 {
            Some(Order { prev: o.prev, ..order_in(store, q[m] as int)->Some_0 })
        } else {
            order_in(store, q[m] as int)
        }) by {
        assert(q[m] != q[j]);
        assert(entry_ok(store, q, m, book, s, tick));
        if m != j - 1 && j > 0 {
            assert(q[m] != q[j - 1]);
        }
        if m != j + 1 && j < q.len() - 1 {
            assert(q[m] != q[j + 1]);
        }
    }
}

/// Unlinking entry `j` of a well-formed queue leaves a well-formed queue
/// without that entry, whose liquidity lost that entry's remainder.
#[verifier::rlimit(40)]
pub(crate) proof fn lemma_unlink(store: Seq<Option<Order>>, lv: TickLevel, q: Seq<u128>, j: int, book: Orderbook, s: bool, tick: int)
    requires
        level_ok(store, lv, q, book, s, tick),
        0 <= j < q.len(),
    ensures
        ({
            let o = order_in(store, q[j] as int)->Some_0;
            &&& level_ok(unlinked_store(store, o, q[j] as int), unlinked_level(lv, o), q.remove(j), book, s, tick)
            &&& unlinked_level(lv, o).total_liquidity == lv.total_liquidity - o.remaining
        }),
{
    let o = order_in(store, q[j] as int)->Some_0;
    let store1 = unlinked_store(store, o, q[j] as int);
    let lv1 = unlinked_level(lv, o);
    let q2 = q.remove(j);
    lemma_unlink_orders(store, lv, q, j, book, s, tick);
    assert(entry_ok(store, q, j, book, s, tick));
    assert forall|m: int| 0 <= m < q.len() implies remaining_of(store, #[trigger] q[m]) >= 0 by {
        assert(entry_ok(store, q, m, book, s, tick));
    }
    lemma_sum_ge_entry(store, q, j);
    assert forall|m: int| 0 <= m < q2.len() implies #[trigger] entry_ok(store1, q2, m, book, s, tick) by {
        let mm = if m < j { m } else { m + 1 };
        assert(q2[m] == q[mm]);
        assert(entry_ok(store, q, mm, book, s, tick));
        if m > 0 {
            let pm = if m - 1 < j { m - 1 } else { m };
            assert(q2[m - 1] == q[pm]);
        }
        if m < q2.len() - 1 {
            let nm = if m + 1 < j { m + 1 } else { m + 2 };
            assert(q2[m + 1] == q[nm]);
        }
        if j > 0 {
            assert(entry_ok(store, q, j - 1, book, s, tick));
        }
        if j < q.len() - 1 {
            assert(entry_ok(store, q, j + 1, book, s, tick));
        }
    }
    assert forall|a: int, b: int| 0 <= a < b < q2.len() implies q2[a] != q2[b] by {
        let aa = if a < j { a } else { a + 1 };
        let bb = if b < j { b } else { b + 1 };
        assert(q2[a] == q[aa] && q2[b] == q[bb]);
    }
    lemma_unlink_sum(store, lv, q, j, book, s, tick);
    if q2.len() > 0 {
        if j > 0 {
            assert(q2[0] == q[0]);
            assert(entry_ok(store, q, j - 1, book, s, tick));
        } else {
            assert(q2[0] == q[1]);
        }
        if j < q.len() - 1 {
            assert(q2.last() == q.last());
            assert(entry_ok(store, q, j + 1, book, s, tick));
        } else {
            assert(q2.last() == q[j - 1]);
        }
    }
}

/// Unlinking entry `j` takes exactly its remainder off the queue's sum.
pub(crate) proof fn lemma_unlink_sum(store: Seq<Option<Order>>, lv: TickLevel, q: Seq<u128>, j: int, book: Orderbook, s: bool, tick: int)
    requires
        level_ok(store, lv, q, book, s, tick),
        0 <= j < q.len(),
    ensures
        ({
            let o = order_in(store, q[j] as int)->Some_0;
            sum_remaining(unlinked_store(store, o, q[j] as int), q.remove(j)) == sum_remaining(store, q) - o.remaining
        }),
{
    let o = order_in(store, q[j] as int)->Some_0;
    let store1 = unlinked_store(store, o, q[j] as int);
    lemma_unlink_orders(store, lv, q, j, book, s, tick);
    let q2 = q.remove(j);
    let left = q.subrange(0, j);
    let right = q.subrange(j + 1, q.len() as int);
    assert(q2 =~= left + right);
    assert(q =~= left + seq![q[j]] + right);
    lemma_sum_concat(store, left + seq![q[j]], right);
    lemma_sum_concat(store, left, seq![q[j]]);
    lemma_sum_concat(store1, left, right);
    assert(seq![q[j]].drop_last() =~= Seq::<u128>::empty());
    reveal_with_fuel(sum_remaining, 2);
    assert(sum_remaining(store, seq![q[j]]) == remaining_of(store, q[j]));
    assert(entry_ok(store, q, j, book, s, tick));
    assert forall|m: int| 0 <= m < left.len() implies remaining_of(store, #[trigger] left[m]) == remaining_of(store1, left[m]) by {
        assert(left[m] == q[m]);
        assert(entry_ok(store, q, m, book, s, tick));
    }
    assert forall|m: int| 0 <= m < right.len() implies remaining_of(store, #[trigger] right[m]) == remaining_of(store1, right[m]) by {
        assert(right[m] == q[m + j + 1]);
        assert(entry_ok(store, q, m + j + 1, book, s, tick));
    }
    lemma_sum_frame(store, store1, left);
    lemma_sum_frame(store, store1, right);
}

/// Queue `b` is what is left of queue `a` once some of its head has gone.
pub open spec fn is_suffix(a: Seq<u128>, b: Seq<u128>) -> bool {
    exists|c: int| 0 <= c <= a.len() && b == #[trigger] a.subrange(c, a.len() as int)
}

/// What is left of what is left of a queue is what is left of the queue.
pub(crate) proof fn lemma_suffix_trans(a: Seq<u128>, b: Seq<u128>, c: Seq<u128>)
    requires
        is_suffix(a, b),
        is_suffix(b, c),
    ensures
        is_suffix(a, c),
{
    let c1 = choose|c1: int| 0 <= c1 <= a.len() && b == #[trigger] a.subrange(c1, a.len() as int);
    let c2 = choose|c2: int| 0 <= c2 <= b.len() && c == #[trigger] b.subrange(c2, b.len() as int);
    assert(c =~= a.subrange(c1 + c2, a.len() as int));
}

/// A queue is what is left of itself.
pub(crate) proof fn lemma_suffix_refl(a: Seq<u128>)
    ensures
        is_suffix(a, a),
{
    assert(a =~= a.subrange(0, a.len() as int));
}

/// What a fill of `a` base at `tick`, taken from the head of queue `q` in
/// queue order, credits to maker `u`: each order gives what it has left or
/// what is still wanted, whichever is less, and its maker is credited that
/// base (resting bids) or its quote (resting asks).
pub open spec fn level_credit(store: Seq<Option<Order>>, q: Seq<u128>, a: int, tick: int, is_bid: bool, u: crate::order::Address) -> int
    decreases q.len(),
{
    if a <= 0 || q.len() == 0 {
        0
    } else {
        let o = order_in(store, q[0] as int)->Some_0;
        let f = if a < o.remaining { a } else { o.remaining as int };
        let cr = if is_bid { f } else { crate::price::quote_amount(f, tick) };
        (if o.maker == u { cr } else { 0int }) + level_credit(store, q.subrange(1, q.len() as int), a - f, tick, is_bid, u)
    }
}

/// The credit depends only on the makers and remainders of the queue's orders.
pub(crate) proof fn lemma_level_credit_frame(s1: Seq<Option<Order>>, s2: Seq<Option<Order>>, q: Seq<u128>, a: int, tick: int, is_bid: bool, u: crate::order::Address)
    requires
        forall|m: int| 0 <= m < q.len() ==> order_in(s1, #[trigger] q[m] as int)->Some_0.maker == order_in(s2, q[m] as int)->Some_0.maker
            && order_in(s1, q[m] as int)->Some_0.remaining == order_in(s2, q[m] as int)->Some_0.remaining,
    ensures
        level_credit(s1, q, a, tick, is_bid, u) == level_credit(s2, q, a, tick, is_bid, u),
    decreases q.len(),
{
    if !(a <= 0 || q.len() == 0) {
        let q1 = q.subrange(1, q.len() as int);
        assert(order_in(s1, q[0] as int)->Some_0.maker == order_in(s2, q[0] as int)->Some_0.maker);
        let o = order_in(s1, q[0] as int)->Some_0;
        let f = if a < o.remaining { a } else { o.remaining as int };
        assert forall|m: int| 0 <= m < q1.len() implies order_in(s1, #[trigger] q1[m] as int)->Some_0.maker == order_in(s2, q1[m] as int)->Some_0.maker
            && order_in(s1, q1[m] as int)->Some_0.remaining == order_in(s2, q1[m] as int)->Some_0.remaining by {
            assert(q1[m] == q[m + 1]);
        }
        lemma_level_credit_frame(s1, s2, q1, a - f, tick, is_bid, u);
    }
}

} // verus!
