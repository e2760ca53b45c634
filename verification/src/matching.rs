//! The matching rules: how an incoming quantity consumes a queue, how it
//! sweeps the levels of the opposite side, and where a remainder comes to rest.
//!
//! A side is a sequence of levels kept from the least to the most competitive
//! price, so that the best level is the last one.

use crate::clob::{Level, LevelView, Order, Side, Trade, levels_view};
use std::collections::VecDeque;
use vstd::prelude::*;

verus! {

/// Whether an incoming order of side `taker` with limit `limit` may trade
/// against a resting price.
pub open spec fn crosses(taker: Side, limit: u64, resting: u64) -> bool {
    match taker {
        Side::Bid => resting <= limit,
        Side::Ask => resting >= limit,
    }
}

/// Whether price `a` is strictly more competitive than `b` among resting
/// orders of side `side`: higher for bids, lower for asks.
pub open spec fn better(side: Side, a: u64, b: u64) -> bool {
    match side {
        Side::Bid => a > b,
        Side::Ask => a < b,
    }
}

/// The trade of `qty` units against the resting order `o`, at its price.
pub open spec fn trade_with(o: Order, qty: u64) -> Trade {
    Trade { order_id: o.seq, price: o.max_price, quantity: qty }
}

/// The order `o` with `qty` units taken off it.
pub open spec fn reduced(o: Order, qty: u64) -> Order
    recommends
        qty <= o.quantity,
{
    Order { quantity: (o.quantity - qty) as u64, ..o }
}

/// What consuming a queue leaves: the queue, the trades in the order in
/// which they happened, and what is left of the incoming quantity.
pub ghost struct Fill {
    pub rest: Seq<Order>,
    pub trades: Seq<Trade>,
    pub remaining: u64,
}

/// What sweeping a side leaves.
pub ghost struct Sweep {
    pub rest: Seq<LevelView>,
    pub trades: Seq<Trade>,
    pub remaining: u64,
}

/// Consumes a queue oldest first with `qty` incoming units. Each order met
/// trades the smaller of what it holds and what is left; one that is
/// emptied leaves the queue.
pub open spec fn fill_queue(orders: Seq<Order>, qty: u64) -> Fill
    decreases orders.len(),
{
    if qty == 0 || orders.len() == 0 {
        Fill { rest: orders, trades: Seq::empty(), remaining: qty }
    } else if orders[0].quantity <= qty {
        let tail = fill_queue(orders.drop_first(), (qty - orders[0].quantity) as u64);
        Fill {
            rest: tail.rest,
            trades: seq![trade_with(orders[0], orders[0].quantity)] + tail.trades,
            remaining: tail.remaining,
        }
    } else {
        Fill {
            rest: orders.update(0, reduced(orders[0], qty)),
            trades: seq![trade_with(orders[0], qty)],
            remaining: 0,
        }
    }
}

/// Sweeps the resting levels from the best one on, for an incoming order of
/// side `taker`: a level trades only while its price crosses the limit, and
/// the next level is reached only when this one is emptied and removed.
pub open spec fn match_levels(levels: Seq<LevelView>, taker: Side, limit: u64, qty: u64) -> Sweep
    decreases levels.len(),
{
    if qty == 0 || levels.len() == 0 || !crosses(taker, limit, levels.last().price) {
        Sweep { rest: levels, trades: Seq::empty(), remaining: qty }
    } else {
        let best = levels.last();
        let f = fill_queue(best.orders, qty);
        if f.rest.len() == 0 {
            let deeper = match_levels(levels.drop_last(), taker, limit, f.remaining);
            Sweep {
                rest: deeper.rest,
                trades: f.trades + deeper.trades,
                remaining: deeper.remaining,
            }
        } else {
            Sweep {
                rest: levels.drop_last().push(LevelView { price: best.price, orders: f.rest }),
                trades: f.trades,
                remaining: f.remaining,
            }
        }
    }
}

/// The level that holds `o` alone.
pub open spec fn single(o: Order) -> LevelView {
    LevelView { price: o.max_price, orders: seq![o] }
}

/// Puts `o` to rest among the levels of its side: at the tail of the level
/// of its price where there is one, else in a new level at the place that
/// its price gives it.
pub open spec fn place(levels: Seq<LevelView>, o: Order) -> Seq<LevelView>
    decreases levels.len(),
{
    if levels.len() == 0 {
        seq![single(o)]
    } else {
        let best = levels.last();
        if best.price == o.max_price {
            levels.drop_last().push(LevelView { price: best.price, orders: best.orders.push(o) })
        } else if better(o.side, o.max_price, best.price) {
            levels.push(single(o))
        } else {
            place(levels.drop_last(), o).push(best)
        }
    }
}

/// A queue as a level keeps it: not empty, every order open, of the level's
/// price and side, and in order of arrival.
pub open spec fn queue_wf(orders: Seq<Order>, price: u64, side: Side) -> bool {
    &&& orders.len() > 0
    &&& forall|i: int|
        0 <= i < orders.len() ==> (#[trigger] orders[i]).quantity > 0 && orders[i].max_price
            == price && orders[i].side == side
    &&& forall|i: int, j: int|
        0 <= i < j < orders.len() ==> (#[trigger] orders[i]).seq < (#[trigger] orders[j]).seq
}

/// Every arrival number of a side is below `bound`.
pub open spec fn ids_below(levels: Seq<LevelView>, bound: u64) -> bool {
    forall|i: int, k: int|
        0 <= i < levels.len() && 0 <= k < levels[i].orders.len() ==> (
        #[trigger] levels[i].orders[k]).seq < bound
}

/// A side as the book keeps it: every level well formed, prices strictly
/// improving towards the end, and every arrival number below `next_seq`.
pub open spec fn side_wf(levels: Seq<LevelView>, side: Side, next_seq: u64) -> bool {
    &&& forall|i: int|
        0 <= i < levels.len() ==> queue_wf(
            (#[trigger] levels[i]).orders,
            levels[i].price,
            side,
        )
    &&& forall|i: int, j: int|
        0 <= i < j < levels.len() ==> better(
            side,
            (#[trigger] levels[j]).price,
            (#[trigger] levels[i]).price,
        )
    &&& ids_below(levels, next_seq)
}

/// No arrival number occurs twice among the orders of a side.
pub open spec fn unique_ids(levels: Seq<LevelView>) -> bool {
    forall|i: int, k: int, j: int, l: int|
        0 <= i < levels.len() && 0 <= k < levels[i].orders.len() && 0 <= j < levels.len() && 0
            <= l < levels[j].orders.len() && (#[trigger] levels[i].orders[k]).seq == (
        #[trigger] levels[j].orders[l]).seq ==> i == j && k == l
}

/// No arrival number occurs among the orders of both sides.
pub open spec fn disjoint_ids(a: Seq<LevelView>, b: Seq<LevelView>) -> bool {
    forall|i: int, k: int, j: int, l: int|
        0 <= i < a.len() && 0 <= k < a[i].orders.len() && 0 <= j < b.len() && 0 <= l
            < b[j].orders.len() ==> (#[trigger] a[i].orders[k]).seq != (
        #[trigger] b[j].orders[l]).seq
}

/// Where `place` puts an order: the index of the level that it joins or,
/// where it joins none, of the level that it makes.
pub open spec fn place_index(levels: Seq<LevelView>, o: Order) -> int
    decreases levels.len(),
{
    if levels.len() == 0 {
        0
    } else if levels.last().price == o.max_price {
        levels.len() - 1
    } else if better(o.side, o.max_price, levels.last().price) {
        levels.len() as int
    } else {
        place_index(levels.drop_last(), o)
    }
}

/// Decides `crosses`.
pub fn price_crosses(taker: Side, limit: u64, resting: u64) -> (b: bool)
    ensures
        b == crosses(taker, limit, resting),
{
    match taker {
        Side::Bid => resting <= limit,
        Side::Ask => resting >= limit,
    }
}

/// Decides `better`.
pub fn price_better(side: Side, a: u64, b: u64) -> (r: bool)
    ensures
        r == better(side, a, b),
{
    match side {
        Side::Bid => a > b,
        Side::Ask => a < b,
    }
}

/// Consumes the queue with `qty` incoming units, appends the trades to
/// `trades` and returns what is left of the incoming quantity.
pub fn fill_level(orders: &mut VecDeque<Order>, qty: u64, trades: &mut Vec<Trade>) -> (left: u64)
    ensures
        final(orders)@ == fill_queue(old(orders)@, qty).rest,
        final(trades)@ == old(trades)@ + fill_queue(old(orders)@, qty).trades,
        left == fill_queue(old(orders)@, qty).remaining,
{
    let ghost goal = fill_queue(orders@, qty);
    let ghost done = trades@;
    let mut left: u64 = qty;
    while left > 0 && orders.len() > 0
        invariant
            goal.rest == fill_queue(orders@, left).rest,
            done + goal.trades == trades@ + fill_queue(orders@, left).trades,
            goal.remaining == fill_queue(orders@, left).remaining,
        decreases orders.len() + (if left > 0 { 1int } else { 0int }),
    {
        let ghost queue = orders@;
        let ghost before = trades@;
        let head = orders.pop_front().unwrap();
        proof {
            assert(orders@ =~= queue.drop_first());
        }
        if head.quantity <= left {
            trades.push(Trade { order_id: head.seq, price: head.max_price, quantity: head.quantity });
            left = left - head.quantity;
            proof {
                let tail = fill_queue(orders@, left);
                assert(trades@ + tail.trades =~= before + (seq![
                    trade_with(head, head.quantity),
                ] + tail.trades));
                assert(done + goal.trades == before + fill_queue(queue, (left + head.quantity) as u64).trades);
            }
        } else {
            trades.push(Trade { order_id: head.seq, price: head.max_price, quantity: left });
            orders.push_front(
                Order {
                    quantity: head.quantity - left,
                    max_price: head.max_price,
                    sender: head.sender,
                    side: head.side,
                    seq: head.seq,
                },
            );
            proof {
                assert(orders@ =~= queue.update(0, reduced(head, left)));
                assert(trades@ + Seq::<Trade>::empty() =~= before + seq![trade_with(head, left)]);
            }
            left = 0;
        }
    }
    proof {
        assert(trades@ + Seq::<Trade>::empty() =~= trades@);
    }
    left
}

/// Looks at what consuming the queue with `qty` incoming units would leave
/// of them, and whether it would empty the queue. The queue stays as it is.
pub fn queue_outlook(orders: &VecDeque<Order>, qty: u64) -> (r: (u64, bool))
    ensures
        r.0 == fill_queue(orders@, qty).remaining,
        r.1 == (fill_queue(orders@, qty).rest.len() == 0),
{
    let ghost goal = fill_queue(orders@, qty);
    let mut left: u64 = qty;
    let mut k: usize = 0;
    proof {
        assert(orders@.skip(0) =~= orders@);
    }
    while left > 0 && k < orders.len()
        invariant
            k <= orders@.len(),
            goal == fill_queue(orders@, qty),
            goal.remaining == fill_queue(orders@.skip(k as int), left).remaining,
            (goal.rest.len() == 0) == (fill_queue(orders@.skip(k as int), left).rest.len() == 0),
        decreases orders@.len() - k,
    {
        let held = orders[k].quantity;
        proof {
            assert(orders@.skip(k as int)[0] == orders@[k as int]);
            assert(orders@.skip(k as int).drop_first() =~= orders@.skip(k + 1));
        }
        if held <= left {
            left = left - held;
            k = k + 1;
        } else {
            return (0, false);
        }
    }
    (left, k == orders.len())
}

/// Looks at what a sweep of the resting levels by an incoming order of side
/// `taker` would leave of its quantity. The levels stay as they are.
pub fn unfilled(levels: &Vec<Level>, taker: Side, limit: u64, qty: u64) -> (left: u64)
    ensures
        left == match_levels(levels_view(levels@), taker, limit, qty).remaining,
{
    let ghost side = levels_view(levels@);
    let ghost goal = match_levels(side, taker, limit, qty).remaining;
    let mut left: u64 = qty;
    let mut i: usize = levels.len();
    let mut settled = false;
    proof {
        assert(side.take(i as int) =~= side);
    }
    while !settled && left > 0 && i > 0
        invariant
            i <= levels.len(),
            side == levels_view(levels@),
            settled ==> left == goal,
            !settled ==> goal == match_levels(side.take(i as int), taker, limit, left).remaining,
        decreases i + (if settled { 0int } else { 1int }),
    {
        let best = i - 1;
        proof {
            let head = side.take(i as int);
            assert(head.last() == side[best as int]);
            assert(head.drop_last() =~= side.take(best as int));
        }
        if !price_crosses(taker, limit, levels[best].price) {
            settled = true;
        } else {
            let outlook = queue_outlook(&levels[best].orders, left);
            left = outlook.0;
            if outlook.1 {
                i = best;
            } else {
                settled = true;
            }
        }
    }
    left
}

/// Sweeps the resting levels with an incoming order of side `taker`, appends
/// the trades to `trades` and returns what is left of the incoming
/// quantity.
pub fn sweep(levels: &mut Vec<Level>, taker: Side, limit: u64, qty: u64, trades: &mut Vec<Trade>) -> (left: u64)
    ensures
        levels_view(final(levels)@) == match_levels(levels_view(old(levels)@), taker, limit, qty).rest,
        final(trades)@ == old(trades)@ + match_levels(
            levels_view(old(levels)@),
            taker,
            limit,
            qty,
        ).trades,
        left == match_levels(levels_view(old(levels)@), taker, limit, qty).remaining,
{
    let ghost goal = match_levels(levels_view(levels@), taker, limit, qty);
    let ghost done = trades@;
    let mut left: u64 = qty;
    let mut settled = false;
    while !settled && left > 0 && levels.len() > 0
        invariant
            settled ==> levels_view(levels@) == goal.rest && trades@ == done + goal.trades && left
                == goal.remaining,
            !settled ==> goal.rest == match_levels(levels_view(levels@), taker, limit, left).rest
                && done + goal.trades == trades@ + match_levels(
                levels_view(levels@),
                taker,
                limit,
                left,
            ).trades && goal.remaining == match_levels(
                levels_view(levels@),
                taker,
                limit,
                left,
            ).remaining,
        decreases levels.len() + (if settled { 0int } else { 1int }),
    {
        let ghost side = levels_view(levels@);
        let ghost before = trades@;
        let ghost had = left;
        let best = levels.len() - 1;
        if !price_crosses(taker, limit, levels[best].price) {
            proof {
                assert(trades@ + Seq::<Trade>::empty() =~= trades@);
            }
            settled = true;
        } else {
            left = fill_level(&mut levels[best].orders, left, trades);
            let ghost f = fill_queue(side.last().orders, had);
            if levels[best].orders.len() > 0 {
                proof {
                    assert(levels_view(levels@) =~= side.drop_last().push(
                        LevelView { price: side.last().price, orders: f.rest },
                    ));
                }
                settled = true;
            } else {
                levels.pop();
                proof {
                    assert(levels_view(levels@) =~= side.drop_last());
                    let deeper = match_levels(levels_view(levels@), taker, limit, left);
                    assert(trades@ + deeper.trades =~= before + (f.trades + deeper.trades));
                }
            }
        }
    }
    proof {
        assert(trades@ + Seq::<Trade>::empty() =~= trades@);
    }
    left
}

/// Puts `o` to rest among the levels of its side.
pub fn place_order(levels: &mut Vec<Level>, o: Order)
    ensures
        levels_view(final(levels)@) == place(levels_view(old(levels)@), o),
{
    let ghost side = levels_view(levels@);
    let mut i: usize = levels.len();
    proof {
        assert(side.take(i as int) =~= side);
        assert(place(side, o) + side.skip(i as int) =~= place(side, o));
    }
    while i > 0 && price_better(o.side, levels[i - 1].price, o.max_price)
        invariant
            i <= levels.len(),
            side == levels_view(levels@),
            place(side, o) == place(side.take(i as int), o) + side.skip(i as int),
        decreases i,
    {
        proof {
            let head = side.take(i as int);
            assert(head.last() == side[i - 1]);
            assert(head.drop_last() =~= side.take(i - 1));
            assert(place(head.drop_last(), o).push(head.last()) + side.skip(i as int) =~= place(
                side.take(i - 1),
                o,
            ) + side.skip(i - 1));
        }
        i = i - 1;
    }
    if i > 0 && levels[i - 1].price == o.max_price {
        levels[i - 1].orders.push_back(o);
        proof {
            let head = side.take(i as int);
            assert(head.last() == side[i - 1]);
            assert(levels_view(levels@) =~= head.drop_last().push(
                LevelView { price: head.last().price, orders: head.last().orders.push(o) },
            ) + side.skip(i as int));
        }
    } else {
        let mut orders: VecDeque<Order> = VecDeque::new();
        orders.push_back(o);
        levels.insert(i, Level { price: o.max_price, orders });
        proof {
            let head = side.take(i as int);
            if i > 0 {
                assert(head.last() == side[i - 1]);
                assert(levels_view(levels@) =~= head.push(single(o)) + side.skip(i as int));
            } else {
                assert(levels_view(levels@) =~= seq![single(o)] + side.skip(i as int));
            }
        }
    }
}

} // verus!
