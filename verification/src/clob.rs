//! Accounts, orders and the order book with its matching engine.

use crate::laws::{
    crossing_quantity, lemma_fills_what_crosses, lemma_submit_keeps_book, lemma_sweep_conserves,
    side_quantity, traded,
};
use crate::matching::{
    disjoint_ids, match_levels, place, place_order, side_wf, sweep, unfilled, unique_ids,
};
use std::collections::VecDeque;
use uuid::Uuid;
use vstd::prelude::*;

verus! {

/// Why a balance change was refused.
#[derive(Debug, Clone, Copy, PartialEq, Eq, Structural)]
pub enum AccountError {
    /// The new balance would not fit the ledger's integer range.
    ArithmeticOverflow,
    /// More was to be burnt than the account holds.
    InsufficientBalance,
}

/// A participant: an identity and a ledger balance. The identity is a
/// universally unique identifier, held as the 128-bit number that its
/// sixteen bytes spell, first byte highest.
#[derive(Debug, Clone, Copy, PartialEq, Eq)]
pub struct Sender {
    pub id: u128,
    bal: u64,
}

/// Whether `id` is laid out as a randomly drawn identifier: version 4 in
/// the high half of its seventh byte, and the two variant bits `10` at the
/// top of its ninth byte. The other 122 bits are free.
pub open spec fn is_random_id(id: u128) -> bool {
    id & 0x0000_0000_0000_f000_c000_0000_0000_0000u128
        == 0x0000_0000_0000_4000_8000_0000_0000_0000u128
}

/// Calls `uuid::Uuid::new_v4` and hands the identifier back as a number, by
/// `Uuid::as_u128`. The call draws sixteen random bytes from the operating
/// system's generator and panics where the system has none to give; it
/// then sets the version and variant bits, which is all that is claimed of
/// the value.
#[verifier::external_body]
fn fresh_id() -> (id: u128)
    ensures
        is_random_id(id),
{
    Uuid::new_v4().as_u128()
}

impl Sender {
    /// The identifier as contracts see it.
    pub closed spec fn spec_id(&self) -> u128 {
        self.id
    }

    /// The balance as contracts see it.
    pub closed spec fn spec_bal(&self) -> u64 {
        self.bal
    }

    /// A new account with a freshly drawn identifier and nothing on it.
    pub fn new() -> (s: Self)
        ensures
            s.spec_bal() == 0,
            is_random_id(s.spec_id()),
    {
        Self::with_id(fresh_id())
    }

    /// A new account under the identifier `id`, with nothing on it.
    pub fn with_id(id: u128) -> (s: Self)
        ensures
            s.spec_id() == id,
            s.spec_bal() == 0,
    {
        Self { id, bal: 0 }
    }

    /// The account's identifier.
    #[verifier::when_used_as_spec(spec_id)]
    pub fn id(&self) -> (i: u128)
        ensures
            i == self.spec_id(),
    {
        self.id
    }

    /// Credits `by` units, unless the balance would leave the range of `u64`.
    pub fn mint(&mut self, by: u64) -> (r: Result<(), AccountError>)
        ensures
            final(self).spec_id() == old(self).spec_id(),
            old(self).spec_bal() + by <= u64::MAX ==> r == Ok::<(), AccountError>(())
                && final(self).spec_bal() == old(self).spec_bal() + by,
            old(self).spec_bal() + by > u64::MAX ==> r == Err::<(), AccountError>(
                AccountError::ArithmeticOverflow,
            ) && *final(self) == *old(self),
    {
        if by > u64::MAX - self.bal {
            Err(AccountError::ArithmeticOverflow)
        } else {
            self.bal = self.bal + by;
            Ok(())
        }
    }

    /// Debits `by` units, unless the account holds less.
    pub fn burn(&mut self, by: u64) -> (r: Result<(), AccountError>)
        ensures
            final(self).spec_id() == old(self).spec_id(),
            by <= old(self).spec_bal() ==> r == Ok::<(), AccountError>(())
                && final(self).spec_bal() == old(self).spec_bal() - by,
            by > old(self).spec_bal() ==> r == Err::<(), AccountError>(
                AccountError::InsufficientBalance,
            ) && *final(self) == *old(self),
    {
        if by > self.bal {
            Err(AccountError::InsufficientBalance)
        } else {
            self.bal = self.bal - by;
            Ok(())
        }
    }

    /// The current balance.
    #[verifier::when_used_as_spec(spec_bal)]
    pub fn bal(&self) -> (b: u64)
        ensures
            b == self.spec_bal(),
    {
        self.bal
    }
}

/// The direction of an order.
#[derive(Debug, Clone, Copy, PartialEq, Eq, Structural)]
pub enum Side {
    /// An order to buy at or below its limit.
    Bid,
    /// An order to sell at or above its limit.
    Ask,
}

impl Side {
    /// The side an order of this side trades against.
    pub open spec fn opposite(self) -> Side {
        match self {
            Side::Bid => Side::Ask,
            Side::Ask => Side::Bid,
        }
    }
}

/// An order: what is still to be filled of it, its limit, its owner, and the
/// arrival number that the book gave it when it came to rest.
#[derive(Debug, Clone, Copy, PartialEq, Eq)]
pub struct Order {
    pub quantity: u64,
    pub max_price: u64,
    pub sender: Sender,
    pub side: Side,
    pub seq: u64,
}

/// One fill: the resting order that was hit, its price, and how much traded.
#[derive(Debug, Clone, Copy, PartialEq, Eq, Structural)]
pub struct Trade {
    pub order_id: u64,
    pub price: u64,
    pub quantity: u64,
}

/// The resting orders of one price, oldest first.
#[derive(Debug, PartialEq, Eq)]
pub struct Level {
    pub price: u64,
    pub orders: VecDeque<Order>,
}

/// A price level as contracts see it.
pub ghost struct LevelView {
    pub price: u64,
    pub orders: Seq<Order>,
}

impl View for Level {
    type V = LevelView;

    open spec fn view(&self) -> LevelView {
        LevelView { price: self.price, orders: self.orders@ }
    }
}

/// The levels of one side as contracts see them, in stored order.
pub open spec fn levels_view(levels: Seq<Level>) -> Seq<LevelView> {
    Seq::new(levels.len(), |i: int| levels[i]@)
}

/// Why the book refused an order.
#[derive(Debug, Clone, Copy, PartialEq, Eq, Structural)]
pub enum BookError {
    /// The order asks for no quantity.
    InvalidOrder,
    /// Part of the order would have to rest, and the book has given out
    /// every arrival number it has.
    SequenceExhausted,
}

/// What a submission did: how much of it traded, against which resting
/// orders, and how much was left to rest.
#[derive(Debug, PartialEq, Eq)]
pub struct MatchOutcome {
    pub filled: u64,
    pub trades: Vec<Trade>,
    pub remaining: u64,
}

/// The outcome of a submission as contracts see it.
pub ghost struct OutcomeView {
    pub filled: u64,
    pub trades: Seq<Trade>,
    pub remaining: u64,
}

impl View for MatchOutcome {
    type V = OutcomeView;

    open spec fn view(&self) -> OutcomeView {
        OutcomeView { filled: self.filled, trades: self.trades@, remaining: self.remaining }
    }
}

/// The book as contracts see it: each side from its least to its most
/// competitive level, and the arrival number that the next resting order
/// gets.
pub ghost struct BookView {
    pub asks: Seq<LevelView>,
    pub bids: Seq<LevelView>,
    pub next_seq: u64,
}

impl BookView {
    /// The book without orders, whose first resting order gets the arrival
    /// number `first_seq`.
    pub open spec fn empty_at(first_seq: u64) -> BookView {
        BookView { asks: Seq::empty(), bids: Seq::empty(), next_seq: first_seq }
    }

    /// The book without orders, numbering arrivals from zero.
    pub open spec fn empty() -> BookView {
        Self::empty_at(0)
    }

    /// The levels of one side.
    pub open spec fn side(self, side: Side) -> Seq<LevelView> {
        match side {
            Side::Bid => self.bids,
            Side::Ask => self.asks,
        }
    }

    /// The best bid is below the best ask wherever both sides hold orders.
    pub open spec fn uncrossed(self) -> bool {
        self.asks.len() > 0 && self.bids.len() > 0 ==> self.bids.last().price
            < self.asks.last().price
    }

    /// No two resting orders have the same arrival number.
    pub open spec fn distinct_ids(self) -> bool {
        &&& unique_ids(self.asks)
        &&& unique_ids(self.bids)
        &&& disjoint_ids(self.asks, self.bids)
    }

    /// Both sides are well formed, every resting order has an arrival
    /// number of its own, and the book is not crossed.
    pub open spec fn wf(self) -> bool {
        &&& side_wf(self.asks, Side::Ask, self.next_seq)
        &&& side_wf(self.bids, Side::Bid, self.next_seq)
        &&& self.distinct_ids()
        &&& self.uncrossed()
    }

    /// The order that comes to rest when `left` units of a submission stay
    /// unfilled.
    pub open spec fn remainder(self, side: Side, price: u64, left: u64, sender: Sender) -> Order {
        Order { quantity: left, max_price: price, sender, side, seq: self.next_seq }
    }

    /// The book after an order of `qty` units at `price` was submitted on
    /// `side`: the opposite side swept, and what is left of the order, if
    /// anything, at rest on its own side.
    pub open spec fn after(self, side: Side, price: u64, qty: u64, sender: Sender) -> BookView {
        let m = match_levels(self.side(side.opposite()), side, price, qty);
        if m.remaining > 0 {
            let own = place(self.side(side), self.remainder(side, price, m.remaining, sender));
            let next = (self.next_seq + 1) as u64;
            match side {
                Side::Bid => BookView { asks: m.rest, bids: own, next_seq: next },
                Side::Ask => BookView { asks: own, bids: m.rest, next_seq: next },
            }
        } else {
            match side {
                Side::Bid => BookView { asks: m.rest, ..self },
                Side::Ask => BookView { bids: m.rest, ..self },
            }
        }
    }

    /// What the submission reports.
    pub open spec fn outcome(self, side: Side, price: u64, qty: u64) -> OutcomeView {
        let m = match_levels(self.side(side.opposite()), side, price, qty);
        OutcomeView {
            filled: (qty - m.remaining) as u64,
            trades: m.trades,
            remaining: m.remaining,
        }
    }
}

/// The levels of a side from the best price to the worst.
pub open spec fn best_first(levels: Seq<LevelView>) -> Seq<LevelView> {
    Seq::new(levels.len(), |i: int| levels[levels.len() - 1 - i])
}

/// A copy of the book's resting orders: each side from its best price to
/// its worst, each level oldest order first.
#[derive(Debug, PartialEq, Eq)]
pub struct Snapshot {
    pub bids: Vec<Level>,
    pub asks: Vec<Level>,
}

fn copy_queue(orders: &VecDeque<Order>) -> (c: VecDeque<Order>)
    ensures
        c@ == orders@,
{
    let mut c: VecDeque<Order> = VecDeque::new();
    let mut i: usize = 0;
    while i < orders.len()
        invariant
            i <= orders.len(),
            c@ == orders@.take(i as int),
        decreases orders.len() - i,
    {
        c.push_back(orders[i]);
        proof {
            assert(orders@.take(i + 1) =~= orders@.take(i as int).push(orders@[i as int]));
        }
        i = i + 1;
    }
    proof {
        assert(orders@.take(i as int) =~= orders@);
    }
    c
}

fn copy_best_first(levels: &Vec<Level>) -> (r: Vec<Level>)
    ensures
        levels_view(r@) == best_first(levels_view(levels@)),
{
    let mut r: Vec<Level> = Vec::new();
    let mut i: usize = levels.len();
    while i > 0
        invariant
            i <= levels.len(),
            r.len() == levels.len() - i,
            forall|j: int| 0 <= j < r.len() ==> (#[trigger] r[j])@ == levels[levels.len() - 1 - j]@,
        decreases i,
    {
        i = i - 1;
        r.push(Level { price: levels[i].price, orders: copy_queue(&levels[i].orders) });
    }
    proof {
        assert(levels_view(r@) =~= best_first(levels_view(levels@)));
    }
    r
}

/// The order book of one instrument.
#[derive(Debug)]
pub struct Book {
    asks: Vec<Level>,
    bids: Vec<Level>,
    next_seq: u64,
}

impl View for Book {
    type V = BookView;

    closed spec fn view(&self) -> BookView {
        BookView {
            asks: levels_view(self.asks@),
            bids: levels_view(self.bids@),
            next_seq: self.next_seq,
        }
    }
}

impl Book {
    /// Whether the book is in a state that submissions keep.
    pub open spec fn wf(&self) -> bool {
        self@.wf()
    }

    /// The contract of a submission on `side`.
    pub open spec fn submitted(
        pre: BookView,
        post: BookView,
        side: Side,
        price: u64,
        qty: u64,
        sender: Sender,
        r: Result<MatchOutcome, BookError>,
    ) -> bool {
        if qty == 0 {
            r == Err::<MatchOutcome, BookError>(BookError::InvalidOrder) && post == pre
        } else if pre.next_seq == u64::MAX && pre.outcome(side, price, qty).remaining > 0 {
            r == Err::<MatchOutcome, BookError>(BookError::SequenceExhausted) && post == pre
        } else {
            &&& r is Ok
            &&& r->Ok_0@ == pre.outcome(side, price, qty)
            &&& post == pre.after(side, price, qty, sender)
        }
    }

    /// An empty book.
    pub fn new() -> (b: Self)
        ensures
            b@ == BookView::empty(),
            b.wf(),
    {
        Self::starting_at(0)
    }

    /// An empty book that numbers arrivals from `first_seq` on.
    pub fn starting_at(first_seq: u64) -> (b: Self)
        ensures
            b@ == BookView::empty_at(first_seq),
            b.wf(),
    {
        let b = Self { asks: Vec::new(), bids: Vec::new(), next_seq: first_seq };
        proof {
            assert(levels_view(b.asks@) =~= Seq::empty());
            assert(levels_view(b.bids@) =~= Seq::empty());
        }
        b
    }

    /// Submits an order to sell `quantity` units at `max_price` or above.
    /// It trades against the bids that cross it, best price and oldest
    /// order first, each at the resting order's price; what is left rests
    /// among the asks.
    pub fn ask(&mut self, max_price: u64, quantity: u64, sender: Sender) -> (r: Result<
        MatchOutcome,
        BookError,
    >)
        requires
            old(self).wf(),
        ensures
            final(self).wf(),
            final(self)@.uncrossed(),
            Self::submitted(old(self)@, final(self)@, Side::Ask, max_price, quantity, sender, r),
            r is Ok ==> r->Ok_0.filled + r->Ok_0.remaining == quantity && traded(r->Ok_0.trades@)
                == r->Ok_0.filled,
            r is Ok ==> side_quantity(final(self)@.bids) + r->Ok_0.filled == side_quantity(
                old(self)@.bids,
            ),
            r is Ok ==> r->Ok_0.filled == if quantity <= crossing_quantity(
                old(self)@.bids,
                Side::Ask,
                max_price,
            ) {
                quantity as nat
            } else {
                crossing_quantity(old(self)@.bids, Side::Ask, max_price)
            },
            r is Ok && r->Ok_0.remaining == 0 ==> final(self)@.asks == old(self)@.asks,
    {
        self.submit(Side::Ask, max_price, quantity, sender)
    }

    /// Submits an order to buy `quantity` units at `max_price` or below.
    /// It trades against the asks that cross it, best price and oldest
    /// order first, each at the resting order's price; what is left rests
    /// among the bids.
    pub fn bid(&mut self, max_price: u64, quantity: u64, sender: Sender) -> (r: Result<
        MatchOutcome,
        BookError,
    >)
        requires
            old(self).wf(),
        ensures
            final(self).wf(),
            final(self)@.uncrossed(),
            Self::submitted(old(self)@, final(self)@, Side::Bid, max_price, quantity, sender, r),
            r is Ok ==> r->Ok_0.filled + r->Ok_0.remaining == quantity && traded(r->Ok_0.trades@)
                == r->Ok_0.filled,
            r is Ok ==> side_quantity(final(self)@.asks) + r->Ok_0.filled == side_quantity(
                old(self)@.asks,
            ),
            r is Ok ==> r->Ok_0.filled == if quantity <= crossing_quantity(
                old(self)@.asks,
                Side::Bid,
                max_price,
            ) {
                quantity as nat
            } else {
                crossing_quantity(old(self)@.asks, Side::Bid, max_price)
            },
            r is Ok && r->Ok_0.remaining == 0 ==> final(self)@.bids == old(self)@.bids,
    {
        self.submit(Side::Bid, max_price, quantity, sender)
    }

    /// The most competitive price that rests on `side`: the highest bid,
    /// or the lowest ask.
    pub fn best_price(&self, side: Side) -> (p: Option<u64>)
        ensures
            p is None <==> self@.side(side).len() == 0,
            p is Some ==> p->Some_0 == self@.side(side).last().price,
    {
        let levels = match side {
            Side::Bid => &self.bids,
            Side::Ask => &self.asks,
        };
        if levels.len() == 0 {
            None
        } else {
            Some(levels[levels.len() - 1].price)
        }
    }

    /// Copies out what rests on the book, without changing it.
    pub fn snapshot(&self) -> (s: Snapshot)
        ensures
            levels_view(s.bids@) == best_first(self@.bids),
            levels_view(s.asks@) == best_first(self@.asks),
    {
        Snapshot { bids: copy_best_first(&self.bids), asks: copy_best_first(&self.asks) }
    }

    /// Trades an incoming order of `side` against the other side of the
    /// book, appends the trades to `trades` and returns what is left of the
    /// order's quantity.
    fn match_order(&mut self, side: Side, price: u64, quantity: u64, trades: &mut Vec<Trade>) -> (left:
        u64)
        ensures
            final(self)@.side(side.opposite()) == match_levels(
                old(self)@.side(side.opposite()),
                side,
                price,
                quantity,
            ).rest,
            final(self)@.side(side) == old(self)@.side(side),
            final(self)@.next_seq == old(self)@.next_seq,
            final(trades)@ == old(trades)@ + match_levels(
                old(self)@.side(side.opposite()),
                side,
                price,
                quantity,
            ).trades,
            left == match_levels(old(self)@.side(side.opposite()), side, price, quantity).remaining,
    {
        match side {
            Side::Bid => sweep(&mut self.asks, side, price, quantity, trades),
            Side::Ask => sweep(&mut self.bids, side, price, quantity, trades),
        }
    }

    fn submit(&mut self, side: Side, price: u64, quantity: u64, sender: Sender) -> (r: Result<
        MatchOutcome,
        BookError,
    >)
        requires
            old(self).wf(),
        ensures
            final(self).wf(),
            Self::submitted(old(self)@, final(self)@, side, price, quantity, sender, r),
            r is Ok ==> r->Ok_0.filled + r->Ok_0.remaining == quantity && traded(r->Ok_0.trades@)
                == r->Ok_0.filled,
            r is Ok ==> side_quantity(final(self)@.side(side.opposite())) + r->Ok_0.filled
                == side_quantity(old(self)@.side(side.opposite())),
            r is Ok ==> r->Ok_0.filled == if quantity <= crossing_quantity(
                old(self)@.side(side.opposite()),
                side,
                price,
            ) {
                quantity as nat
            } else {
                crossing_quantity(old(self)@.side(side.opposite()), side, price)
            },
            r is Ok && r->Ok_0.remaining == 0 ==> final(self)@.side(side) == old(self)@.side(side),
    {
        if quantity == 0 {
            return Err(BookError::InvalidOrder);
        }
        if self.next_seq == u64::MAX {
            let would_rest = match side {
                Side::Bid => unfilled(&self.asks, side, price, quantity),
                Side::Ask => unfilled(&self.bids, side, price, quantity),
            };
            if would_rest > 0 {
                return Err(BookError::SequenceExhausted);
            }
        }
        proof {
            lemma_submit_keeps_book(self@, side, price, quantity, sender);
            lemma_sweep_conserves(self@.side(side.opposite()), side, price, quantity);
            lemma_fills_what_crosses(
                self@.side(side.opposite()),
                side,
                price,
                quantity,
                self@.next_seq,
            );
        }
        let mut trades: Vec<Trade> = Vec::new();
        let left = self.match_order(side, price, quantity, &mut trades);
        proof {
            assert(trades@ =~= match_levels(
                old(self)@.side(side.opposite()),
                side,
                price,
                quantity,
            ).trades);
        }
        if left > 0 {
            let rest = Order { quantity: left, max_price: price, sender, side, seq: self.next_seq };
            match side {
                Side::Bid => place_order(&mut self.bids, rest),
                Side::Ask => place_order(&mut self.asks, rest),
            }
            self.next_seq = self.next_seq + 1;
        }
        Ok(MatchOutcome { filled: quantity - left, trades, remaining: left })
    }
}

} // verus!
