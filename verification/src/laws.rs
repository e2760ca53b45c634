//! What holds of the matching rules for every queue, side and order.

use crate::clob::{BookView, LevelView, Order, Sender, Side, Trade};
use crate::matching::{
    better, crosses, disjoint_ids, fill_queue, ids_below, match_levels, place, place_index,
    queue_wf, reduced, side_wf, single, trade_with, unique_ids,
};
use vstd::prelude::*;

verus! {

/// The quantity that the orders of a queue still hold together.
pub open spec fn queue_quantity(orders: Seq<Order>) -> nat
    decreases orders.len(),
{
    if orders.len() == 0 {
        0
    } else {
        orders[0].quantity as nat + queue_quantity(orders.drop_first())
    }
}

/// The quantity that rests on a side.
pub open spec fn side_quantity(levels: Seq<LevelView>) -> nat
    decreases levels.len(),
{
    if levels.len() == 0 {
        0
    } else {
        queue_quantity(levels.last().orders) + side_quantity(levels.drop_last())
    }
}

/// The quantity that a run of trades moved.
pub open spec fn traded(trades: Seq<Trade>) -> nat
    decreases trades.len(),
{
    if trades.len() == 0 {
        0
    } else {
        trades[0].quantity as nat + traded(trades.drop_first())
    }
}

/// The quantity of two runs of trades, one after the other, is the sum of
/// their quantities.
pub proof fn lemma_traded_concat(a: Seq<Trade>, b: Seq<Trade>)
    ensures
        traded(a + b) == traded(a) + traded(b),
    decreases a.len(),
{
    if a.len() == 0 {
        assert(a + b =~= b);
    } else {
        assert((a + b).drop_first() =~= a.drop_first() + b);
        lemma_traded_concat(a.drop_first(), b);
    }
}

/// Consuming a queue conserves quantity: what traded and what is left of the
/// incoming quantity make up that quantity, and the queue lost exactly what
/// traded.
pub proof fn lemma_fill_conserves(orders: Seq<Order>, qty: u64)
    ensures
        traded(fill_queue(orders, qty).trades) + fill_queue(orders, qty).remaining == qty,
        queue_quantity(fill_queue(orders, qty).rest) + traded(fill_queue(orders, qty).trades)
            == queue_quantity(orders),
    decreases orders.len(),
{
    let f = fill_queue(orders, qty);
    if qty == 0 || orders.len() == 0 {
        assert(traded(f.trades) == 0);
    } else if orders[0].quantity <= qty {
        let tail = fill_queue(orders.drop_first(), (qty - orders[0].quantity) as u64);
        let first = seq![trade_with(orders[0], orders[0].quantity)];
        lemma_fill_conserves(orders.drop_first(), (qty - orders[0].quantity) as u64);
        lemma_traded_concat(first, tail.trades);
        assert(first.drop_first() =~= Seq::<Trade>::empty());
        assert(traded(first.drop_first()) == 0);
        assert(traded(first) == orders[0].quantity);
    } else {
        assert(f.rest.drop_first() =~= orders.drop_first());
        assert(f.trades.drop_first() =~= Seq::<Trade>::empty());
        assert(traded(f.trades.drop_first()) == 0);
        assert(traded(f.trades) == qty);
        assert(queue_quantity(f.rest) == f.rest[0].quantity + queue_quantity(orders.drop_first()));
    }
}

/// Sweeping a side conserves quantity: what traded and what is left of the
/// incoming quantity make up that quantity, and the side lost exactly what
/// traded.
pub proof fn lemma_sweep_conserves(levels: Seq<LevelView>, taker: Side, limit: u64, qty: u64)
    ensures
        traded(match_levels(levels, taker, limit, qty).trades) + match_levels(
            levels,
            taker,
            limit,
            qty,
        ).remaining == qty,
        side_quantity(match_levels(levels, taker, limit, qty).rest) + traded(
            match_levels(levels, taker, limit, qty).trades,
        ) == side_quantity(levels),
    decreases levels.len(),
{
    if qty == 0 || levels.len() == 0 || !crosses(taker, limit, levels.last().price) {
    } else {
        let best = levels.last();
        let f = fill_queue(best.orders, qty);
        lemma_fill_conserves(best.orders, qty);
        if f.rest.len() == 0 {
            let deeper = match_levels(levels.drop_last(), taker, limit, f.remaining);
            lemma_sweep_conserves(levels.drop_last(), taker, limit, f.remaining);
            lemma_traded_concat(f.trades, deeper.trades);
        } else {
            let rest = levels.drop_last().push(LevelView { price: best.price, orders: f.rest });
            assert(rest.drop_last() =~= levels.drop_last());
        }
    }
}

/// Time priority within a queue. The trades follow the queue in order of
/// arrival, one for each order reached; every trade but the last empties its
/// order; the orders behind the last one reached are left as they were, and
/// only the first order that stays can have lost quantity.
pub proof fn lemma_fill_in_arrival_order(orders: Seq<Order>, qty: u64)
    ensures
        ({
            let f = fill_queue(orders, qty);
            let k = orders.len() - f.rest.len();
            &&& 0 <= k <= f.trades.len() <= k + 1
            &&& f.trades.len() <= orders.len()
            &&& forall|t: int|
                0 <= t < f.trades.len() ==> #[trigger] f.trades[t] == trade_with(
                    orders[t],
                    f.trades[t].quantity,
                ) && f.trades[t].quantity <= orders[t].quantity && (orders[t].quantity > 0
                    ==> f.trades[t].quantity > 0)
            &&& forall|t: int| 0 <= t < k ==> (#[trigger] f.trades[t]).quantity == orders[t].quantity
            &&& forall|j: int| 1 <= j < f.rest.len() ==> #[trigger] f.rest[j] == orders[k + j]
            &&& f.rest.len() > 0 ==> f.remaining == 0
            &&& f.rest.len() > 0 && f.trades.len() == k ==> f.rest[0] == orders[k]
            &&& f.rest.len() > 0 && f.trades.len() == k + 1 ==> f.trades[k].quantity
                < orders[k].quantity && f.rest[0] == reduced(orders[k], f.trades[k].quantity)
        }),
    decreases orders.len(),
{
    let f = fill_queue(orders, qty);
    if qty == 0 || orders.len() == 0 {
    } else if orders[0].quantity <= qty {
        let tail = fill_queue(orders.drop_first(), (qty - orders[0].quantity) as u64);
        lemma_fill_in_arrival_order(orders.drop_first(), (qty - orders[0].quantity) as u64);
        let k = orders.len() - f.rest.len();
        assert forall|t: int| 0 <= t < f.trades.len() implies #[trigger] f.trades[t] == trade_with(
            orders[t],
            f.trades[t].quantity,
        ) && f.trades[t].quantity <= orders[t].quantity && (orders[t].quantity > 0
            ==> f.trades[t].quantity > 0) by {
            if t > 0 {
                assert(f.trades[t] == tail.trades[t - 1]);
                assert(orders[t] == orders.drop_first()[t - 1]);
            }
        }
        assert forall|t: int| 0 <= t < k implies (#[trigger] f.trades[t]).quantity
            == orders[t].quantity by {
            if t > 0 {
                assert(f.trades[t] == tail.trades[t - 1]);
                assert(orders[t] == orders.drop_first()[t - 1]);
            }
        }
        assert forall|j: int| 1 <= j < f.rest.len() implies #[trigger] f.rest[j] == orders[k + j] by {
            assert(orders[k + j] == orders.drop_first()[k - 1 + j]);
        }
        if f.rest.len() > 0 {
            assert(orders[k] == orders.drop_first()[k - 1]);
            if f.trades.len() == k + 1 {
                assert(f.trades[k] == tail.trades[k - 1]);
            }
        }
    } else {
    }
}

/// Whether `rest` is what is left of the queue `orders` when its oldest
/// orders have gone: the youngest orders of `orders` as they were, but for
/// the oldest of them, which may hold less than it did.
pub open spec fn is_tail_of(rest: Seq<Order>, orders: Seq<Order>) -> bool {
    let gone = orders.len() - rest.len();
    &&& 0 < rest.len() <= orders.len()
    &&& forall|j: int| 1 <= j < rest.len() ==> #[trigger] rest[j] == orders[gone + j]
    &&& rest[0] == Order { quantity: rest[0].quantity, ..orders[gone] }
    &&& 0 < rest[0].quantity <= orders[gone].quantity
}

/// Consuming a queue keeps it a queue: what stays is open, of the same
/// price and side, in order of arrival and with the arrival numbers it had;
/// and every trade is at the queue's price.
pub proof fn lemma_fill_keeps_queue(orders: Seq<Order>, qty: u64, price: u64, side: Side, bound: u64)
    requires
        queue_wf(orders, price, side),
        forall|i: int| 0 <= i < orders.len() ==> (#[trigger] orders[i]).seq < bound,
    ensures
        fill_queue(orders, qty).rest.len() > 0 ==> queue_wf(
            fill_queue(orders, qty).rest,
            price,
            side,
        ),
        fill_queue(orders, qty).rest.len() > 0 ==> is_tail_of(fill_queue(orders, qty).rest, orders),
        forall|j: int|
            0 <= j < fill_queue(orders, qty).rest.len() ==> (#[trigger] fill_queue(
                orders,
                qty,
            ).rest[j]).seq < bound,
        forall|t: int|
            0 <= t < fill_queue(orders, qty).trades.len() ==> (#[trigger] fill_queue(
                orders,
                qty,
            ).trades[t]).price == price,
{
    let f = fill_queue(orders, qty);
    let k = orders.len() - f.rest.len();
    lemma_fill_in_arrival_order(orders, qty);
    assert forall|j: int| 0 <= j < f.rest.len() implies (#[trigger] f.rest[j]).seq
        == orders[k + j].seq && f.rest[j].max_price == price && f.rest[j].side == side
        && f.rest[j].quantity > 0 by {
        assert(orders[k + j].quantity > 0);
        if j > 0 {
            assert(f.rest[j] == orders[k + j]);
        }
    }
    assert forall|i: int, j: int| 0 <= i < j < f.rest.len() implies (#[trigger] f.rest[i]).seq < (
    #[trigger] f.rest[j]).seq by {
        assert(orders[k + i].seq < orders[k + j].seq);
    }
    assert forall|t: int| 0 <= t < f.trades.len() implies (#[trigger] f.trades[t]).price
        == price by {
        assert(orders[t].max_price == price);
    }
}

/// The shape of a sweep, and time priority with it. The levels that stay are
/// the worst ones, as they were but for the last of them, which keeps its
/// price and of whose queue the oldest orders alone may have gone or lost
/// quantity: an order is touched only when every older one of its level has
/// gone. What stays is again a well-formed side; the sweep stops with
/// quantity left only where nothing that crosses is left; and every trade is
/// at a price that crosses.
pub proof fn lemma_sweep_shape(
    levels: Seq<LevelView>,
    side: Side,
    bound: u64,
    taker: Side,
    limit: u64,
    qty: u64,
)
    requires
        side_wf(levels, side, bound),
    ensures
        ({
            let m = match_levels(levels, taker, limit, qty);
            &&& side_wf(m.rest, side, bound)
            &&& m.rest.len() <= levels.len()
            &&& forall|i: int|
                0 <= i < m.rest.len() ==> (#[trigger] m.rest[i]).price == levels[i].price
            &&& forall|i: int| 0 <= i < m.rest.len() - 1 ==> #[trigger] m.rest[i] == levels[i]
            &&& m.rest.len() > 0 ==> is_tail_of(
                m.rest.last().orders,
                levels[m.rest.len() - 1].orders,
            )
            &&& m.remaining > 0 ==> m.rest.len() == 0 || !crosses(
                taker,
                limit,
                m.rest.last().price,
            )
            &&& forall|t: int|
                0 <= t < m.trades.len() ==> crosses(taker, limit, (#[trigger] m.trades[t]).price)
        }),
    decreases levels.len(),
{
    let m = match_levels(levels, taker, limit, qty);
    if qty == 0 || levels.len() == 0 || !crosses(taker, limit, levels.last().price) {
        if levels.len() > 0 {
            let q = levels[levels.len() - 1].orders;
            assert(queue_wf(q, levels[levels.len() - 1].price, side));
            assert(q[0].quantity > 0);
        }
    } else {
        let best = levels.last();
        let f = fill_queue(best.orders, qty);
        lemma_fill_in_arrival_order(best.orders, qty);
        lemma_fill_keeps_queue(best.orders, qty, best.price, side, bound);
        let lower = levels.drop_last();
        assert(side_wf(lower, side, bound)) by {
            assert forall|i: int| 0 <= i < lower.len() implies #[trigger] lower[i] == levels[i] by {}
        }
        if f.rest.len() == 0 {
            let deeper = match_levels(lower, taker, limit, f.remaining);
            lemma_sweep_shape(lower, side, bound, taker, limit, f.remaining);
            if m.rest.len() > 0 {
                assert(lower[m.rest.len() - 1] == levels[m.rest.len() - 1]);
            }
            assert forall|i: int| 0 <= i < m.rest.len() implies (#[trigger] m.rest[i]).price
                == levels[i].price by {
                assert(m.rest[i].price == lower[i].price);
            }
            assert forall|i: int| 0 <= i < m.rest.len() - 1 implies #[trigger] m.rest[i]
                == levels[i] by {
                assert(m.rest[i] == lower[i]);
            }
            assert forall|t: int| 0 <= t < m.trades.len() implies crosses(
                taker,
                limit,
                (#[trigger] m.trades[t]).price,
            ) by {
                if t < f.trades.len() {
                    assert(m.trades[t] == f.trades[t]);
                } else {
                    assert(m.trades[t] == deeper.trades[t - f.trades.len()]);
                }
            }
        } else {
            let kept = LevelView { price: best.price, orders: f.rest };
            assert(m.rest == lower.push(kept));
            assert forall|i: int| 0 <= i < m.rest.len() - 1 implies #[trigger] m.rest[i]
                == levels[i] by {
                assert(m.rest[i] == lower[i]);
            }
            assert forall|i: int| 0 <= i < m.rest.len() implies (#[trigger] m.rest[i]).price
                == levels[i].price by {
                if i < lower.len() {
                    assert(m.rest[i] == lower[i]);
                }
            }
            assert forall|i: int| 0 <= i < m.rest.len() implies queue_wf(
                (#[trigger] m.rest[i]).orders,
                m.rest[i].price,
                side,
            ) by {
                if i < lower.len() {
                    assert(m.rest[i] == levels[i]);
                }
            }
            assert forall|i: int, k: int|
                0 <= i < m.rest.len() && 0 <= k < m.rest[i].orders.len() implies (
            #[trigger] m.rest[i].orders[k]).seq < bound by {
                if i < lower.len() {
                    assert(m.rest[i] == levels[i]);
                }
            }
            assert forall|t: int| 0 <= t < m.trades.len() implies crosses(
                taker,
                limit,
                (#[trigger] m.trades[t]).price,
            ) by {
                assert(f.trades[t].price == best.price);
            }
        }
    }
}

/// Price priority. After a sweep no level is left at a price better than
/// one at which a trade happened: a worse level is touched only when every
/// better one has been emptied.
pub proof fn lemma_price_priority(
    levels: Seq<LevelView>,
    side: Side,
    bound: u64,
    taker: Side,
    limit: u64,
    qty: u64,
)
    requires
        side_wf(levels, side, bound),
    ensures
        forall|t: int, i: int|
            0 <= t < match_levels(levels, taker, limit, qty).trades.len() && 0 <= i < match_levels(
                levels,
                taker,
                limit,
                qty,
            ).rest.len() ==> !better(
                side,
                (#[trigger] match_levels(levels, taker, limit, qty).rest[i]).price,
                (#[trigger] match_levels(levels, taker, limit, qty).trades[t]).price,
            ),
    decreases levels.len(),
{
    let m = match_levels(levels, taker, limit, qty);
    if qty == 0 || levels.len() == 0 || !crosses(taker, limit, levels.last().price) {
    } else {
        let best = levels.last();
        let f = fill_queue(best.orders, qty);
        let lower = levels.drop_last();
        lemma_fill_keeps_queue(best.orders, qty, best.price, side, bound);
        lemma_sweep_shape(levels, side, bound, taker, limit, qty);
        assert(side_wf(lower, side, bound)) by {
            assert forall|i: int| 0 <= i < lower.len() implies #[trigger] lower[i] == levels[i] by {}
        }
        if f.rest.len() == 0 {
            let deeper = match_levels(lower, taker, limit, f.remaining);
            lemma_price_priority(lower, side, bound, taker, limit, f.remaining);
            lemma_sweep_shape(lower, side, bound, taker, limit, f.remaining);
            assert forall|t: int, i: int|
                0 <= t < m.trades.len() && 0 <= i < m.rest.len() implies !better(
                side,
                (#[trigger] m.rest[i]).price,
                (#[trigger] m.trades[t]).price,
            ) by {
                assert(m.rest[i].price == levels[i].price);
                if t < f.trades.len() {
                    assert(m.trades[t] == f.trades[t]);
                    assert(better(side, levels[levels.len() - 1].price, levels[i].price));
                } else {
                    assert(m.trades[t] == deeper.trades[t - f.trades.len()]);
                }
            }
        } else {
            assert forall|t: int, i: int|
                0 <= t < m.trades.len() && 0 <= i < m.rest.len() implies !better(
                side,
                (#[trigger] m.rest[i]).price,
                (#[trigger] m.trades[t]).price,
            ) by {
                assert(m.rest[i].price == levels[i].price);
                assert(f.trades[t].price == best.price);
                if i < levels.len() - 1 {
                    assert(better(side, levels[levels.len() - 1].price, levels[i].price));
                }
            }
        }
    }
}

/// Price priority between two levels. Where a sweep has taken anything from
/// a level, or the level itself, every better level has gone: the better
/// price is exhausted before the worse one is touched.
pub proof fn lemma_better_level_first(
    levels: Seq<LevelView>,
    side: Side,
    bound: u64,
    taker: Side,
    limit: u64,
    qty: u64,
    worse: int,
    finer: int,
)
    requires
        side_wf(levels, side, bound),
        0 <= worse < finer < levels.len(),
    ensures
        better(side, levels[finer].price, levels[worse].price),
        match_levels(levels, taker, limit, qty).rest.len() <= worse || match_levels(
            levels,
            taker,
            limit,
            qty,
        ).rest[worse] != levels[worse] ==> match_levels(levels, taker, limit, qty).rest.len()
            <= finer,
{
    lemma_sweep_shape(levels, side, bound, taker, limit, qty);
}

/// What the order at place `k` of level `i` of `levels` still holds when a
/// sweep has left `rest` of them: nothing where the order has gone.
pub open spec fn held_after(levels: Seq<LevelView>, rest: Seq<LevelView>, i: int, k: int) -> nat {
    if i < rest.len() && k >= levels[i].orders.len() - rest[i].orders.len() {
        rest[i].orders[k - (levels[i].orders.len() - rest[i].orders.len())].quantity as nat
    } else {
        0
    }
}

/// Whether `trade` is a trade against the order at place `k` of level `i`
/// of `levels`, at that order's price, for exactly the quantity that the
/// order has lost when the sweep has left `rest`.
pub open spec fn trade_hits(
    levels: Seq<LevelView>,
    rest: Seq<LevelView>,
    trade: Trade,
    i: int,
    k: int,
) -> bool {
    &&& 0 <= i < levels.len()
    &&& 0 <= k < levels[i].orders.len()
    &&& trade == trade_with(levels[i].orders[k], trade.quantity)
    &&& held_after(levels, rest, i, k) + trade.quantity == levels[i].orders[k].quantity
}

/// Whether `trade` is a trade against one of the orders of `levels`, for
/// exactly the quantity that this order has lost when the sweep has left
/// `rest`.
pub open spec fn takes_what_order_loses(
    levels: Seq<LevelView>,
    rest: Seq<LevelView>,
    trade: Trade,
) -> bool {
    exists|i: int, k: int| #[trigger] trade_hits(levels, rest, trade, i, k)
}

/// Conservation order by order. Every trade of a sweep is against one
/// resting order, and the quantity of the trade is the quantity that this
/// order has lost: all it held where it has gone, else the difference
/// between what it held and what it holds.
pub proof fn lemma_trade_takes_what_order_loses(
    levels: Seq<LevelView>,
    side: Side,
    bound: u64,
    taker: Side,
    limit: u64,
    qty: u64,
)
    requires
        side_wf(levels, side, bound),
    ensures
        forall|t: int|
            0 <= t < match_levels(levels, taker, limit, qty).trades.len()
                ==> takes_what_order_loses(
                levels,
                match_levels(levels, taker, limit, qty).rest,
                #[trigger] match_levels(levels, taker, limit, qty).trades[t],
            ),
    decreases levels.len(),
{
    let m = match_levels(levels, taker, limit, qty);
    if qty == 0 || levels.len() == 0 || !crosses(taker, limit, levels.last().price) {
    } else {
        let top = levels.len() - 1;
        let best = levels[top];
        let f = fill_queue(best.orders, qty);
        let lower = levels.drop_last();
        let gone = best.orders.len() - f.rest.len();
        lemma_fill_in_arrival_order(best.orders, qty);
        assert(side_wf(lower, side, bound)) by {
            assert forall|i: int| 0 <= i < lower.len() implies #[trigger] lower[i] == levels[i] by {}
        }
        if f.rest.len() == 0 {
            let deeper = match_levels(lower, taker, limit, f.remaining);
            lemma_trade_takes_what_order_loses(lower, side, bound, taker, limit, f.remaining);
            lemma_sweep_shape(lower, side, bound, taker, limit, f.remaining);
            assert forall|t: int| 0 <= t < m.trades.len() implies takes_what_order_loses(
                levels,
                m.rest,
                #[trigger] m.trades[t],
            ) by {
                if t < f.trades.len() {
                    assert(m.trades[t] == f.trades[t]);
                    assert(f.trades[t].quantity == best.orders[t].quantity);
                    assert(trade_hits(levels, m.rest, m.trades[t], top, t));
                } else {
                    let u = t - f.trades.len();
                    assert(m.trades[t] == deeper.trades[u]);
                    assert(takes_what_order_loses(lower, deeper.rest, deeper.trades[u]));
                    let (i, k) = choose|i: int, k: int|
                        trade_hits(lower, deeper.rest, deeper.trades[u], i, k);
                    assert(lower[i] == levels[i]);
                    assert(trade_hits(levels, m.rest, m.trades[t], i, k));
                }
            }
        } else {
            assert(m.rest[top].orders == f.rest);
            assert forall|t: int| 0 <= t < m.trades.len() implies takes_what_order_loses(
                levels,
                m.rest,
                #[trigger] m.trades[t],
            ) by {
                if t < gone {
                    assert(f.trades[t].quantity == best.orders[t].quantity);
                } else {
                    assert(t == gone);
                    assert(f.rest[0] == reduced(best.orders[gone], f.trades[gone].quantity));
                }
                assert(trade_hits(levels, m.rest, m.trades[t], top, t));
            }
        }
    }
}

/// Trades come in order of price, best first: no trade is at a price better
/// than that of a trade before it, nor better than the best resting price.
pub proof fn lemma_trades_by_price(
    levels: Seq<LevelView>,
    side: Side,
    bound: u64,
    taker: Side,
    limit: u64,
    qty: u64,
)
    requires
        side_wf(levels, side, bound),
    ensures
        forall|t: int|
            0 <= t < match_levels(levels, taker, limit, qty).trades.len() ==> !better(
                side,
                (#[trigger] match_levels(levels, taker, limit, qty).trades[t]).price,
                levels.last().price,
            ),
        forall|s: int, t: int|
            0 <= s < t < match_levels(levels, taker, limit, qty).trades.len() ==> !better(
                side,
                (#[trigger] match_levels(levels, taker, limit, qty).trades[t]).price,
                (#[trigger] match_levels(levels, taker, limit, qty).trades[s]).price,
            ),
    decreases levels.len(),
{
    let m = match_levels(levels, taker, limit, qty);
    if qty == 0 || levels.len() == 0 || !crosses(taker, limit, levels.last().price) {
    } else {
        let best = levels.last();
        let f = fill_queue(best.orders, qty);
        let lower = levels.drop_last();
        lemma_fill_keeps_queue(best.orders, qty, best.price, side, bound);
        if f.rest.len() == 0 {
            let deeper = match_levels(lower, taker, limit, f.remaining);
            assert(side_wf(lower, side, bound)) by {
                assert forall|i: int| 0 <= i < lower.len() implies #[trigger] lower[i]
                    == levels[i] by {}
            }
            lemma_trades_by_price(lower, side, bound, taker, limit, f.remaining);
            assert forall|t: int| 0 <= t < m.trades.len() implies !better(
                side,
                (#[trigger] m.trades[t]).price,
                best.price,
            ) by {
                if t < f.trades.len() {
                    assert(m.trades[t] == f.trades[t]);
                } else {
                    assert(m.trades[t] == deeper.trades[t - f.trades.len()]);
                    assert(lower.len() > 0);
                    assert(lower.last() == levels[levels.len() - 2]);
                    assert(better(side, levels[levels.len() - 1].price, levels[levels.len() - 2].price));
                }
            }
            assert forall|s: int, t: int| 0 <= s < t < m.trades.len() implies !better(
                side,
                (#[trigger] m.trades[t]).price,
                (#[trigger] m.trades[s]).price,
            ) by {
                if s < f.trades.len() {
                    assert(m.trades[s] == f.trades[s]);
                    assert(!better(side, m.trades[t].price, best.price));
                } else {
                    assert(m.trades[s] == deeper.trades[s - f.trades.len()]);
                    assert(m.trades[t] == deeper.trades[t - f.trades.len()]);
                }
            }
        } else {
            assert forall|t: int| 0 <= t < m.trades.len() implies (#[trigger] m.trades[t]).price
                == best.price by {
                assert(f.trades[t].price == best.price);
            }
        }
    }
}

/// The quantity that rests at prices which an incoming order of side
/// `taker` with limit `limit` crosses.
pub open spec fn crossing_quantity(levels: Seq<LevelView>, taker: Side, limit: u64) -> nat
    decreases levels.len(),
{
    if levels.len() == 0 {
        0
    } else if crosses(taker, limit, levels.last().price) {
        queue_quantity(levels.last().orders) + crossing_quantity(levels.drop_last(), taker, limit)
    } else {
        crossing_quantity(levels.drop_last(), taker, limit)
    }
}

/// Where the best level does not cross, none does.
pub proof fn lemma_none_crosses(levels: Seq<LevelView>, taker: Side, limit: u64, bound: u64)
    requires
        side_wf(levels, taker.opposite(), bound),
        levels.len() > 0,
        !crosses(taker, limit, levels.last().price),
    ensures
        crossing_quantity(levels, taker, limit) == 0,
    decreases levels.len(),
{
    let lower = levels.drop_last();
    if lower.len() > 0 {
        assert(side_wf(lower, taker.opposite(), bound)) by {
            assert forall|i: int| 0 <= i < lower.len() implies #[trigger] lower[i] == levels[i] by {}
        }
        assert(lower.last() == levels[levels.len() - 2]);
        assert(better(
            taker.opposite(),
            levels[levels.len() - 1].price,
            levels[levels.len() - 2].price,
        ));
        lemma_none_crosses(lower, taker, limit, bound);
    } else {
        assert(crossing_quantity(lower, taker, limit) == 0);
    }
}

/// An incoming order is filled as far as the resting quantity at crossing
/// prices goes: what trades is the smaller of the incoming quantity and
/// that quantity.
pub proof fn lemma_fills_what_crosses(levels: Seq<LevelView>, taker: Side, limit: u64, qty: u64, bound: u64)
    requires
        side_wf(levels, taker.opposite(), bound),
    ensures
        traded(match_levels(levels, taker, limit, qty).trades) == if qty <= crossing_quantity(
            levels,
            taker,
            limit,
        ) {
            qty as nat
        } else {
            crossing_quantity(levels, taker, limit)
        },
    decreases levels.len(),
{
    let m = match_levels(levels, taker, limit, qty);
    if qty == 0 || levels.len() == 0 {
        assert(traded(m.trades) == 0);
    } else if !crosses(taker, limit, levels.last().price) {
        assert(traded(m.trades) == 0);
        lemma_none_crosses(levels, taker, limit, bound);
    } else {
        let best = levels.last();
        let f = fill_queue(best.orders, qty);
        let lower = levels.drop_last();
        lemma_fill_conserves(best.orders, qty);
        lemma_fill_in_arrival_order(best.orders, qty);
        if f.rest.len() == 0 {
            let deeper = match_levels(lower, taker, limit, f.remaining);
            assert(side_wf(lower, taker.opposite(), bound)) by {
                assert forall|i: int| 0 <= i < lower.len() implies #[trigger] lower[i]
                    == levels[i] by {}
            }
            lemma_fills_what_crosses(lower, taker, limit, f.remaining, bound);
            lemma_traded_concat(f.trades, deeper.trades);
            assert(queue_quantity(f.rest) == 0);
        }
    }
}

/// Time priority at the best level. Where the two oldest orders of the best
/// level both hold more than an incoming order that crosses it, the older
/// one alone trades, for the whole incoming quantity, and everything behind
/// it stays as it was.
pub proof fn lemma_older_order_first(levels: Seq<LevelView>, taker: Side, limit: u64, qty: u64)
    requires
        levels.len() > 0,
        crosses(taker, limit, levels.last().price),
        levels.last().orders.len() >= 2,
        0 < qty < levels.last().orders[0].quantity,
        qty < levels.last().orders[1].quantity,
    ensures
        match_levels(levels, taker, limit, qty).trades == seq![
            trade_with(levels.last().orders[0], qty),
        ],
        match_levels(levels, taker, limit, qty).remaining == 0,
        match_levels(levels, taker, limit, qty).rest == levels.drop_last().push(
            LevelView {
                price: levels.last().price,
                orders: levels.last().orders.update(0, reduced(levels.last().orders[0], qty)),
            },
        ),
        match_levels(levels, taker, limit, qty).rest.last().orders[1] == levels.last().orders[1],
{
}

/// Putting an order to rest keeps a side well formed, one arrival number
/// further on, and the best price is then the better of the old best price
/// and the order's.
pub proof fn lemma_place_keeps_side(levels: Seq<LevelView>, o: Order, bound: u64)
    requires
        side_wf(levels, o.side, bound),
        o.quantity > 0,
        o.seq == bound,
        bound < u64::MAX,
    ensures
        place(levels, o).len() > 0,
        side_wf(place(levels, o), o.side, (bound + 1) as u64),
        place(levels, o).last().price == if levels.len() > 0 && better(
            o.side,
            levels.last().price,
            o.max_price,
        ) {
            levels.last().price
        } else {
            o.max_price
        },
    decreases levels.len(),
{
    let placed = place(levels, o);
    let next = (bound + 1) as u64;
    if levels.len() == 0 {
        assert(single(o).orders[0] == o);
    } else {
        let best = levels.last();
        let lower = levels.drop_last();
        assert forall|i: int| 0 <= i < lower.len() implies #[trigger] lower[i] == levels[i] by {}
        if best.price == o.max_price {
            let grown = LevelView { price: best.price, orders: best.orders.push(o) };
            assert(queue_wf(grown.orders, grown.price, o.side)) by {
                assert forall|i: int, j: int| 0 <= i < j < grown.orders.len() implies (
                #[trigger] grown.orders[i]).seq < (#[trigger] grown.orders[j]).seq by {
                    assert(grown.orders[i] == best.orders[i]);
                    assert(levels[levels.len() - 1].orders[i].seq < bound);
                    if j < best.orders.len() {
                        assert(grown.orders[j] == best.orders[j]);
                    }
                }
            }
            assert forall|i: int| 0 <= i < placed.len() implies queue_wf(
                (#[trigger] placed[i]).orders,
                placed[i].price,
                o.side,
            ) by {
                if i < lower.len() {
                    assert(placed[i] == levels[i]);
                }
            }
            assert forall|i: int, j: int| 0 <= i < j < placed.len() implies better(
                o.side,
                (#[trigger] placed[j]).price,
                (#[trigger] placed[i]).price,
            ) by {
                assert(placed[i].price == levels[i].price);
                assert(placed[j].price == levels[j].price);
            }
            assert forall|i: int, k: int|
                0 <= i < placed.len() && 0 <= k < placed[i].orders.len() implies (
            #[trigger] placed[i].orders[k]).seq < next by {
                if i < lower.len() {
                    assert(placed[i] == levels[i]);
                    assert(levels[i].orders[k].seq < bound);
                } else if k < best.orders.len() {
                    assert(placed[i].orders[k] == levels[levels.len() - 1].orders[k]);
                    assert(levels[levels.len() - 1].orders[k].seq < bound);
                }
            }
        } else if better(o.side, o.max_price, best.price) {
            assert forall|i: int| 0 <= i < placed.len() implies queue_wf(
                (#[trigger] placed[i]).orders,
                placed[i].price,
                o.side,
            ) by {
                if i < levels.len() {
                    assert(placed[i] == levels[i]);
                } else {
                    assert(single(o).orders[0] == o);
                }
            }
            assert forall|i: int, j: int| 0 <= i < j < placed.len() implies better(
                o.side,
                (#[trigger] placed[j]).price,
                (#[trigger] placed[i]).price,
            ) by {
                assert(placed[i] == levels[i]);
                if j < levels.len() {
                    assert(placed[j] == levels[j]);
                } else if i < levels.len() - 1 {
                    assert(better(o.side, levels[levels.len() - 1].price, levels[i].price));
                }
            }
            assert forall|i: int, k: int|
                0 <= i < placed.len() && 0 <= k < placed[i].orders.len() implies (
            #[trigger] placed[i].orders[k]).seq < next by {
                if i < levels.len() {
                    assert(placed[i] == levels[i]);
                    assert(levels[i].orders[k].seq < bound);
                }
            }
        } else {
            let inner = place(lower, o);
            lemma_place_keeps_side(lower, o, bound);
            assert(placed == inner.push(best));
            assert forall|i: int| 0 <= i < placed.len() implies queue_wf(
                (#[trigger] placed[i]).orders,
                placed[i].price,
                o.side,
            ) by {
                if i < inner.len() {
                    assert(placed[i] == inner[i]);
                }
            }
            assert forall|i: int, j: int| 0 <= i < j < placed.len() implies better(
                o.side,
                (#[trigger] placed[j]).price,
                (#[trigger] placed[i]).price,
            ) by {
                assert(placed[i] == inner[i]);
                if j < inner.len() {
                    assert(placed[j] == inner[j]);
                } else {
                    if lower.len() > 0 {
                        assert(better(o.side, levels[levels.len() - 1].price, levels[lower.len() - 1].price));
                        assert(lower.last() == levels[lower.len() - 1]);
                    }
                    if i < inner.len() - 1 {
                        assert(better(o.side, inner[inner.len() - 1].price, inner[i].price));
                    }
                }
            }
            assert forall|i: int, k: int|
                0 <= i < placed.len() && 0 <= k < placed[i].orders.len() implies (
            #[trigger] placed[i].orders[k]).seq < next by {
                if i < inner.len() {
                    assert(placed[i] == inner[i]);
                    assert(inner[i].orders[k].seq < next);
                } else {
                    assert(levels[levels.len() - 1].orders[k].seq < bound);
                }
            }
        }
    }
}

/// Every order that stays after a sweep stood in the same level before it,
/// with the same arrival number, as many places further back as orders of
/// that level have gone.
pub proof fn lemma_sweep_keeps_places(
    levels: Seq<LevelView>,
    side: Side,
    bound: u64,
    taker: Side,
    limit: u64,
    qty: u64,
)
    requires
        side_wf(levels, side, bound),
    ensures
        ({
            let rest = match_levels(levels, taker, limit, qty).rest;
            &&& rest.len() <= levels.len()
            &&& forall|i: int, k: int|
                0 <= i < rest.len() && 0 <= k < rest[i].orders.len() ==> rest[i].orders.len()
                    <= levels[i].orders.len() && (#[trigger] rest[i].orders[k]).seq
                    == levels[i].orders[k + levels[i].orders.len() - rest[i].orders.len()].seq
        }),
{
    let rest = match_levels(levels, taker, limit, qty).rest;
    lemma_sweep_shape(levels, side, bound, taker, limit, qty);
    assert forall|i: int, k: int|
        0 <= i < rest.len() && 0 <= k < rest[i].orders.len() implies rest[i].orders.len()
        <= levels[i].orders.len() && (#[trigger] rest[i].orders[k]).seq == levels[i].orders[k
        + levels[i].orders.len() - rest[i].orders.len()].seq by {
        if i < rest.len() - 1 {
            assert(rest[i] == levels[i]);
        } else {
            let gone = levels[i].orders.len() - rest[i].orders.len();
            assert(is_tail_of(rest[i].orders, levels[i].orders));
            if k > 0 {
                assert(rest[i].orders[k] == levels[i].orders[gone + k]);
            }
        }
    }
}

/// A sweep keeps the arrival numbers of a side distinct, among themselves
/// and from those of another side.
pub proof fn lemma_sweep_keeps_ids(
    levels: Seq<LevelView>,
    side: Side,
    bound: u64,
    taker: Side,
    limit: u64,
    qty: u64,
    other: Seq<LevelView>,
)
    requires
        side_wf(levels, side, bound),
        unique_ids(levels),
        disjoint_ids(levels, other),
    ensures
        unique_ids(match_levels(levels, taker, limit, qty).rest),
        disjoint_ids(match_levels(levels, taker, limit, qty).rest, other),
{
    let rest = match_levels(levels, taker, limit, qty).rest;
    lemma_sweep_keeps_places(levels, side, bound, taker, limit, qty);
    assert forall|i: int, k: int, j: int, l: int|
        0 <= i < rest.len() && 0 <= k < rest[i].orders.len() && 0 <= j < rest.len() && 0 <= l
            < rest[j].orders.len() && (#[trigger] rest[i].orders[k]).seq == (
        #[trigger] rest[j].orders[l]).seq implies i == j && k == l by {
        let gi = levels[i].orders.len() - rest[i].orders.len();
        let gj = levels[j].orders.len() - rest[j].orders.len();
        assert(levels[i].orders[k + gi].seq == levels[j].orders[l + gj].seq);
    }
    assert forall|i: int, k: int, j: int, l: int|
        0 <= i < rest.len() && 0 <= k < rest[i].orders.len() && 0 <= j < other.len() && 0 <= l
            < other[j].orders.len() implies (#[trigger] rest[i].orders[k]).seq != (
    #[trigger] other[j].orders[l]).seq by {
        let gi = levels[i].orders.len() - rest[i].orders.len();
        assert(levels[i].orders[k + gi].seq != other[j].orders[l].seq);
    }
}

/// Where an order comes to rest: at the tail of the level of its price, or
/// alone in a new level among the others.
pub proof fn lemma_place_shape(levels: Seq<LevelView>, o: Order)
    ensures
        0 <= place_index(levels, o) <= levels.len(),
        place_index(levels, o) < levels.len() && levels[place_index(levels, o)].price
            == o.max_price ==> place(levels, o) == levels.update(
            place_index(levels, o),
            LevelView {
                price: o.max_price,
                orders: levels[place_index(levels, o)].orders.push(o),
            },
        ),
        !(place_index(levels, o) < levels.len() && levels[place_index(levels, o)].price
            == o.max_price) ==> place(levels, o) == levels.insert(
            place_index(levels, o),
            single(o),
        ),
    decreases levels.len(),
{
    let at = place_index(levels, o);
    if levels.len() == 0 {
        assert(place(levels, o) =~= levels.insert(0, single(o)));
    } else {
        let best = levels.last();
        let lower = levels.drop_last();
        if best.price == o.max_price {
            assert(place(levels, o) =~= levels.update(
                at,
                LevelView { price: o.max_price, orders: levels[at].orders.push(o) },
            ));
        } else if better(o.side, o.max_price, best.price) {
            assert(place(levels, o) =~= levels.insert(at, single(o)));
        } else {
            lemma_place_shape(lower, o);
            if at < lower.len() {
                assert(lower[at] == levels[at]);
            }
            if at < lower.len() && lower[at].price == o.max_price {
                assert(place(levels, o) =~= levels.update(
                    at,
                    LevelView { price: o.max_price, orders: levels[at].orders.push(o) },
                ));
            } else {
                assert(place(levels, o) =~= levels.insert(at, single(o)));
            }
        }
    }
}

proof fn lemma_join_keeps_ids(levels: Seq<LevelView>, at: int, o: Order, other: Seq<LevelView>)
    requires
        0 <= at < levels.len(),
        ids_below(levels, o.seq),
        ids_below(other, o.seq),
        unique_ids(levels),
        disjoint_ids(levels, other),
    ensures
        unique_ids(
            levels.update(at, LevelView { price: o.max_price, orders: levels[at].orders.push(o) }),
        ),
        disjoint_ids(
            levels.update(at, LevelView { price: o.max_price, orders: levels[at].orders.push(o) }),
            other,
        ),
{
    let placed = levels.update(
        at,
        LevelView { price: o.max_price, orders: levels[at].orders.push(o) },
    );
    let last = levels[at].orders.len() as int;
    assert forall|i: int, k: int|
        0 <= i < placed.len() && 0 <= k < placed[i].orders.len() && !(i == at && k
            == last) implies #[trigger] placed[i].orders[k] == levels[i].orders[k] && 0 <= k
        < levels[i].orders.len() by {
        if i != at {
            assert(placed[i] == levels[i]);
        }
    }
    assert(placed[at].orders[last] == o);
    assert forall|i: int, k: int, j: int, l: int|
        0 <= i < placed.len() && 0 <= k < placed[i].orders.len() && 0 <= j < placed.len() && 0
            <= l < placed[j].orders.len() && (#[trigger] placed[i].orders[k]).seq == (
        #[trigger] placed[j].orders[l]).seq implies i == j && k == l by {
        if !(i == at && k == last) {
            assert(levels[i].orders[k].seq < o.seq);
        }
        if !(j == at && l == last) {
            assert(levels[j].orders[l].seq < o.seq);
        }
    }
    assert forall|i: int, k: int, j: int, l: int|
        0 <= i < placed.len() && 0 <= k < placed[i].orders.len() && 0 <= j < other.len() && 0
            <= l < other[j].orders.len() implies (#[trigger] placed[i].orders[k]).seq != (
    #[trigger] other[j].orders[l]).seq by {
        assert(other[j].orders[l].seq < o.seq);
        if !(i == at && k == last) {
            assert(levels[i].orders[k].seq != other[j].orders[l].seq);
        }
    }
}

proof fn lemma_new_level_keeps_ids(levels: Seq<LevelView>, at: int, o: Order, other: Seq<LevelView>)
    requires
        0 <= at <= levels.len(),
        ids_below(levels, o.seq),
        ids_below(other, o.seq),
        unique_ids(levels),
        disjoint_ids(levels, other),
    ensures
        unique_ids(levels.insert(at, single(o))),
        disjoint_ids(levels.insert(at, single(o)), other),
{
    let placed = levels.insert(at, single(o));
    assert forall|i: int| 0 <= i < placed.len() && i != at implies #[trigger] placed[i]
        == levels[if i < at {
        i
    } else {
        i - 1
    }] by {}
    assert(placed[at] == single(o));
    assert forall|i: int, k: int, j: int, l: int|
        0 <= i < placed.len() && 0 <= k < placed[i].orders.len() && 0 <= j < placed.len() && 0
            <= l < placed[j].orders.len() && (#[trigger] placed[i].orders[k]).seq == (
        #[trigger] placed[j].orders[l]).seq implies i == j && k == l by {
        let i0 = if i < at { i } else { i - 1 };
        let j0 = if j < at { j } else { j - 1 };
        if i != at {
            assert(placed[i] == levels[i0]);
            assert(levels[i0].orders[k].seq < o.seq);
        }
        if j != at {
            assert(placed[j] == levels[j0]);
            assert(levels[j0].orders[l].seq < o.seq);
        }
        if i != at && j != at {
            assert(levels[i0].orders[k].seq == levels[j0].orders[l].seq);
        }
    }
    assert forall|i: int, k: int, j: int, l: int|
        0 <= i < placed.len() && 0 <= k < placed[i].orders.len() && 0 <= j < other.len() && 0
            <= l < other[j].orders.len() implies (#[trigger] placed[i].orders[k]).seq != (
    #[trigger] other[j].orders[l]).seq by {
        let i0 = if i < at { i } else { i - 1 };
        assert(other[j].orders[l].seq < o.seq);
        if i != at {
            assert(placed[i] == levels[i0]);
            assert(levels[i0].orders[k].seq != other[j].orders[l].seq);
        }
    }
}

/// Putting an order to rest under a new arrival number keeps the arrival
/// numbers of its side distinct, among themselves and from those of the
/// other side.
pub proof fn lemma_place_keeps_ids(levels: Seq<LevelView>, o: Order, other: Seq<LevelView>)
    requires
        ids_below(levels, o.seq),
        ids_below(other, o.seq),
        unique_ids(levels),
        disjoint_ids(levels, other),
    ensures
        unique_ids(place(levels, o)),
        disjoint_ids(place(levels, o), other),
{
    let at = place_index(levels, o);
    lemma_place_shape(levels, o);
    if at < levels.len() && levels[at].price == o.max_price {
        lemma_join_keeps_ids(levels, at, o, other);
    } else {
        lemma_new_level_keeps_ids(levels, at, o, other);
    }
}

/// No crossed book. A submission that the book accepts takes a well-formed
/// book to a well-formed one: where both sides hold orders afterwards, the
/// best bid is below the best ask.
pub proof fn lemma_submit_keeps_book(book: BookView, side: Side, price: u64, qty: u64, sender: Sender)
    requires
        book.wf(),
        qty > 0,
        book.next_seq < u64::MAX || book.outcome(side, price, qty).remaining == 0,
    ensures
        book.after(side, price, qty, sender).wf(),
        book.after(side, price, qty, sender).uncrossed(),
{
    let resting = book.side(side.opposite());
    let own = book.side(side);
    let m = match_levels(resting, side, price, qty);
    let post = book.after(side, price, qty, sender);
    lemma_sweep_shape(resting, side.opposite(), book.next_seq, side, price, qty);
    if m.rest.len() > 0 {
        let last = m.rest.len() - 1;
        assert(m.rest[last].price == resting[last].price);
        if last < resting.len() - 1 {
            assert(better(side.opposite(), resting[resting.len() - 1].price, resting[last].price));
        }
    }
    assert(disjoint_ids(resting, own) && disjoint_ids(own, resting)) by {
        assert(disjoint_ids(book.asks, book.bids));
    }
    lemma_sweep_keeps_ids(resting, side.opposite(), book.next_seq, side, price, qty, own);
    if m.remaining > 0 {
        let o = book.remainder(side, price, m.remaining, sender);
        lemma_place_keeps_side(own, o, book.next_seq);
        lemma_bound_grows(m.rest, side.opposite(), book.next_seq);
        assert(disjoint_ids(own, m.rest));
        lemma_place_keeps_ids(own, o, m.rest);
        assert(disjoint_ids(m.rest, place(own, o)));
    } else {
        assert(disjoint_ids(own, m.rest));
    }
}

/// A side that is well formed below one arrival number is so below the next.
pub proof fn lemma_bound_grows(levels: Seq<LevelView>, side: Side, bound: u64)
    requires
        side_wf(levels, side, bound),
        bound < u64::MAX,
    ensures
        side_wf(levels, side, (bound + 1) as u64),
{
}

/// No footprint. A submission that is filled in full leaves its own side of
/// the book as it was.
pub proof fn lemma_full_fill_leaves_own_side(
    book: BookView,
    side: Side,
    price: u64,
    qty: u64,
    sender: Sender,
)
    requires
        book.outcome(side, price, qty).remaining == 0,
    ensures
        book.after(side, price, qty, sender).side(side) == book.side(side),
        book.after(side, price, qty, sender).next_seq == book.next_seq,
{
}

} // verus!
