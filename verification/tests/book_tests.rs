use clob::clob::{Book, BookError, Level, MatchOutcome, Sender, Side, Trade};


fn quantities(levels: &[Level]) -> Vec<(u64, Vec<u64>)> {
    levels.iter().map(|l| (l.price, l.orders.iter().map(|o| o.quantity).collect())).collect()
}

fn ids(levels: &[Level]) -> Vec<(u64, Vec<u64>)> {
    levels.iter().map(|l| (l.price, l.orders.iter().map(|o| o.seq).collect())).collect()
}

fn trade(order_id: u64, price: u64, quantity: u64) -> Trade {
    Trade { order_id, price, quantity }
}

fn assert_uncrossed(book: &Book) {
    let snap = book.snapshot();
    if let (Some(b), Some(a)) = (snap.bids.first(), snap.asks.first()) {
        assert!(b.price < a.price);
    }
    for side in [&snap.bids, &snap.asks] {
        for l in side.iter() {
            assert!(!l.orders.is_empty());
            for o in l.orders.iter() {
                assert!(o.quantity > 0);
                assert_eq!(o.max_price, l.price);
            }
        }
    }
    for w in snap.bids.windows(2) {
        assert!(w[0].price > w[1].price);
    }
    for w in snap.asks.windows(2) {
        assert!(w[0].price < w[1].price);
    }
}

#[test]
fn test_orderbook() {
    let mut book = Book::new();

    book.ask(120, 10, Sender::new()).unwrap();
    book.ask(110, 9, Sender::new()).unwrap();

    let out = book.bid(110, 10, Sender::new()).unwrap();

    println!("{:#?}", book);
    assert_eq!(out.trades, vec![trade(1, 110, 9)]);
    assert_eq!(out.filled, 9);
    assert_eq!(out.remaining, 1);
    let snap = book.snapshot();
    assert_eq!(quantities(&snap.asks), vec![(120, vec![10])]);
    assert_eq!(quantities(&snap.bids), vec![(110, vec![1])]);
}

#[test]
fn an_empty_book_has_no_levels() {
    let book = Book::new();
    let snap = book.snapshot();
    assert!(snap.bids.is_empty());
    assert!(snap.asks.is_empty());
}

#[test]
fn a_bid_through_two_ask_levels() {
    let mut book = Book::new();
    book.ask(120, 10, Sender::new()).unwrap();
    book.ask(110, 9, Sender::new()).unwrap();

    let out = book.bid(120, 10, Sender::new()).unwrap();

    assert_eq!(out.trades, vec![trade(1, 110, 9), trade(0, 120, 1)]);
    assert_eq!(out.filled, 10);
    assert_eq!(out.remaining, 0);
    let snap = book.snapshot();
    assert_eq!(quantities(&snap.asks), vec![(120, vec![9])]);
    assert!(snap.bids.is_empty());
}

#[test]
fn a_bid_on_an_empty_book_rests_in_full() {
    let mut book = Book::new();
    let who = Sender::new();
    let out = book.bid(50, 5, who).unwrap();
    assert_eq!(out, MatchOutcome { filled: 0, trades: vec![], remaining: 5 });
    let snap = book.snapshot();
    assert!(snap.asks.is_empty());
    assert_eq!(snap.bids.len(), 1);
    assert_eq!(snap.bids[0].price, 50);
    assert_eq!(snap.bids[0].orders.len(), 1);
    let o = snap.bids[0].orders[0];
    assert_eq!(o.quantity, 5);
    assert_eq!(o.max_price, 50);
    assert_eq!(o.side, Side::Bid);
    assert_eq!(o.seq, 0);
    assert_eq!(o.sender, who);
}

#[test]
fn an_ask_on_an_empty_book_rests_in_full() {
    let mut book = Book::new();
    let out = book.ask(50, 5, Sender::new()).unwrap();
    assert_eq!(out, MatchOutcome { filled: 0, trades: vec![], remaining: 5 });
    let snap = book.snapshot();
    assert!(snap.bids.is_empty());
    assert_eq!(quantities(&snap.asks), vec![(50, vec![5])]);
    assert_eq!(snap.asks[0].orders[0].side, Side::Ask);
}

#[test]
fn two_asks_at_one_price_fill_oldest_first() {
    let mut book = Book::new();
    book.ask(30, 3, Sender::new()).unwrap();
    book.ask(30, 4, Sender::new()).unwrap();
    let out = book.bid(30, 5, Sender::new()).unwrap();
    assert_eq!(out.trades, vec![trade(0, 30, 3), trade(1, 30, 2)]);
    assert_eq!(out.filled, 5);
    assert_eq!(out.remaining, 0);
    let snap = book.snapshot();
    assert_eq!(quantities(&snap.asks), vec![(30, vec![2])]);
    assert_eq!(ids(&snap.asks), vec![(30, vec![1])]);
    assert!(snap.bids.is_empty());
}

#[test]
fn zero_quantity_is_refused_and_changes_nothing() {
    let mut book = Book::new();
    book.ask(30, 3, Sender::new()).unwrap();
    book.bid(20, 4, Sender::new()).unwrap();
    let before = book.snapshot();
    assert_eq!(book.bid(30, 0, Sender::new()), Err(BookError::InvalidOrder));
    assert_eq!(book.ask(20, 0, Sender::new()), Err(BookError::InvalidOrder));
    assert_eq!(book.snapshot(), before);
    let out = book.bid(10, 1, Sender::new()).unwrap();
    assert_eq!(out.remaining, 1);
    assert_eq!(ids(&book.snapshot().bids), vec![(20, vec![1]), (10, vec![2])]);
}

#[test]
fn zero_quantity_on_an_empty_book() {
    let mut book = Book::new();
    assert_eq!(book.ask(1, 0, Sender::new()), Err(BookError::InvalidOrder));
    assert_eq!(book.snapshot(), Book::new().snapshot());
}

#[test]
fn an_ask_trades_with_bids_at_or_above_its_limit_only() {
    let mut book = Book::new();
    book.bid(50, 5, Sender::new()).unwrap();
    let out = book.ask(60, 2, Sender::new()).unwrap();
    assert_eq!(out, MatchOutcome { filled: 0, trades: vec![], remaining: 2 });
    let out = book.ask(40, 3, Sender::new()).unwrap();
    assert_eq!(out, MatchOutcome { filled: 3, trades: vec![trade(0, 50, 3)], remaining: 0 });
    let snap = book.snapshot();
    assert_eq!(quantities(&snap.bids), vec![(50, vec![2])]);
    assert_eq!(quantities(&snap.asks), vec![(60, vec![2])]);
}

#[test]
fn a_bid_trades_with_asks_at_or_below_its_limit_only() {
    let mut book = Book::new();
    book.ask(50, 5, Sender::new()).unwrap();
    let out = book.bid(49, 2, Sender::new()).unwrap();
    assert_eq!(out, MatchOutcome { filled: 0, trades: vec![], remaining: 2 });
    let out = book.bid(50, 1, Sender::new()).unwrap();
    assert_eq!(out, MatchOutcome { filled: 1, trades: vec![trade(0, 50, 1)], remaining: 0 });
    let out = book.bid(70, 1, Sender::new()).unwrap();
    assert_eq!(out, MatchOutcome { filled: 1, trades: vec![trade(0, 50, 1)], remaining: 0 });
}

#[test]
fn trades_are_at_the_resting_price() {
    let mut book = Book::new();
    book.bid(10, 1, Sender::new()).unwrap();
    book.bid(12, 1, Sender::new()).unwrap();
    book.bid(11, 1, Sender::new()).unwrap();
    let out = book.ask(5, 3, Sender::new()).unwrap();
    assert_eq!(out.trades, vec![trade(1, 12, 1), trade(2, 11, 1), trade(0, 10, 1)]);
    let snap = book.snapshot();
    assert!(snap.bids.is_empty());
    assert!(snap.asks.is_empty());
}

#[test]
fn an_exact_match_removes_the_order_and_its_level() {
    let mut book = Book::new();
    book.ask(30, 3, Sender::new()).unwrap();
    let out = book.bid(30, 3, Sender::new()).unwrap();
    assert_eq!(out, MatchOutcome { filled: 3, trades: vec![trade(0, 30, 3)], remaining: 0 });
    assert_eq!(book.snapshot(), Book::new().snapshot());
}

#[test]
fn a_remainder_rests_after_a_partial_fill() {
    let mut book = Book::new();
    book.ask(30, 3, Sender::new()).unwrap();
    book.ask(31, 3, Sender::new()).unwrap();
    book.ask(35, 3, Sender::new()).unwrap();
    let out = book.bid(32, 10, Sender::new()).unwrap();
    assert_eq!(out.trades, vec![trade(0, 30, 3), trade(1, 31, 3)]);
    assert_eq!(out.filled, 6);
    assert_eq!(out.remaining, 4);
    let snap = book.snapshot();
    assert_eq!(quantities(&snap.bids), vec![(32, vec![4])]);
    assert_eq!(ids(&snap.bids), vec![(32, vec![3])]);
    assert_eq!(quantities(&snap.asks), vec![(35, vec![3])]);
}

#[test]
fn a_self_trade_is_a_trade() {
    let mut book = Book::new();
    let who = Sender::new();
    book.ask(30, 3, who).unwrap();
    let out = book.bid(30, 2, who).unwrap();
    assert_eq!(out.trades, vec![trade(0, 30, 2)]);
    assert_eq!(quantities(&book.snapshot().asks), vec![(30, vec![1])]);
}

#[test]
fn levels_come_best_first_and_orders_oldest_first() {
    let mut book = Book::new();
    for (p, q) in [(10u64, 1u64), (12, 2), (11, 3), (12, 4), (9, 5), (11, 6)] {
        book.bid(p, q, Sender::new()).unwrap();
    }
    for (p, q) in [(20u64, 1u64), (22, 2), (21, 3), (20, 4), (25, 5), (21, 6)] {
        book.ask(p, q, Sender::new()).unwrap();
    }
    let snap = book.snapshot();
    assert_eq!(
        quantities(&snap.bids),
        vec![(12, vec![2, 4]), (11, vec![3, 6]), (10, vec![1]), (9, vec![5])]
    );
    assert_eq!(
        quantities(&snap.asks),
        vec![(20, vec![1, 4]), (21, vec![3, 6]), (22, vec![2]), (25, vec![5])]
    );
    assert_eq!(
        ids(&snap.asks),
        vec![(20, vec![6, 9]), (21, vec![8, 11]), (22, vec![7]), (25, vec![10])]
    );
    assert_uncrossed(&book);
}

#[test]
fn the_snapshot_leaves_the_book_alone() {
    let mut book = Book::new();
    book.bid(10, 1, Sender::new()).unwrap();
    book.ask(20, 1, Sender::new()).unwrap();
    let a = book.snapshot();
    let b = book.snapshot();
    assert_eq!(a, b);
}

#[test]
fn the_book_is_never_crossed() {
    let mut book = Book::new();
    let mut x: u64 = 12345;
    for _ in 0..500 {
        x = x.wrapping_mul(6364136223846793005).wrapping_add(1442695040888963407);
        let price = 1 + (x >> 33) % 20;
        let qty = 1 + (x >> 40) % 9;
        let out = if (x >> 60) % 2 == 0 {
            book.bid(price, qty, Sender::new()).unwrap()
        } else {
            book.ask(price, qty, Sender::new()).unwrap()
        };
        assert_eq!(out.filled + out.remaining, qty);
        assert_eq!(out.trades.iter().map(|t| t.quantity).sum::<u64>(), out.filled);
        assert_uncrossed(&book);
    }
}

#[test]
fn quantity_is_conserved() {
    let mut book = Book::new();
    book.ask(30, 3, Sender::new()).unwrap();
    book.ask(31, 4, Sender::new()).unwrap();
    book.ask(32, 5, Sender::new()).unwrap();
    let resting = |b: &Book| -> u64 {
        b.snapshot().asks.iter().map(|l| l.orders.iter().map(|o| o.quantity).sum::<u64>()).sum()
    };
    assert_eq!(resting(&book), 12);
    let out = book.bid(31, 6, Sender::new()).unwrap();
    assert_eq!(out.filled, 6);
    assert_eq!(out.remaining, 0);
    assert_eq!(out.trades.iter().map(|t| t.quantity).sum::<u64>(), 6);
    assert_eq!(resting(&book), 6);
    let out = book.bid(31, 6, Sender::new()).unwrap();
    assert_eq!(out.filled, 1);
    assert_eq!(out.remaining, 5);
    assert_eq!(resting(&book), 5);
}

#[test]
fn the_older_of_two_orders_fills_first() {
    let mut book = Book::new();
    book.ask(30, 5, Sender::new()).unwrap();
    book.ask(30, 6, Sender::new()).unwrap();
    let out = book.bid(30, 4, Sender::new()).unwrap();
    assert_eq!(out.trades, vec![trade(0, 30, 4)]);
    let snap = book.snapshot();
    assert_eq!(quantities(&snap.asks), vec![(30, vec![1, 6])]);
    assert_eq!(ids(&snap.asks), vec![(30, vec![0, 1])]);
}

#[test]
fn the_better_level_is_emptied_before_the_next_is_touched() {
    let mut book = Book::new();
    book.ask(41, 5, Sender::new()).unwrap();
    book.ask(40, 2, Sender::new()).unwrap();
    book.ask(40, 2, Sender::new()).unwrap();
    let out = book.bid(41, 3, Sender::new()).unwrap();
    assert_eq!(out.trades, vec![trade(1, 40, 2), trade(2, 40, 1)]);
    assert_eq!(quantities(&book.snapshot().asks), vec![(40, vec![1]), (41, vec![5])]);
    let out = book.bid(41, 3, Sender::new()).unwrap();
    assert_eq!(out.trades, vec![trade(2, 40, 1), trade(0, 41, 2)]);
    assert_eq!(quantities(&book.snapshot().asks), vec![(41, vec![3])]);
}

#[test]
fn a_full_fill_leaves_no_footprint() {
    let mut book = Book::new();
    book.bid(10, 1, Sender::new()).unwrap();
    book.bid(30, 1, Sender::new()).unwrap();
    let bids_before = book.snapshot().bids;
    book.ask(40, 2, Sender::new()).unwrap();
    book.ask(40, 1, Sender::new()).unwrap();
    let out = book.bid(40, 3, Sender::new()).unwrap();
    assert_eq!(out.remaining, 0);
    let snap = book.snapshot();
    assert_eq!(snap.bids, bids_before);
    assert!(snap.asks.is_empty());
    let out = book.bid(30, 7, Sender::new()).unwrap();
    assert_eq!(out.remaining, 7);
    assert_eq!(quantities(&book.snapshot().bids), vec![(30, vec![1, 7]), (10, vec![1])]);
}

#[test]
fn the_largest_price_and_quantity() {
    let mut book = Book::new();
    book.ask(u64::MAX, u64::MAX, Sender::new()).unwrap();
    book.ask(u64::MAX, u64::MAX, Sender::new()).unwrap();
    let out = book.bid(u64::MAX, u64::MAX, Sender::new()).unwrap();
    assert_eq!(out.trades, vec![trade(0, u64::MAX, u64::MAX)]);
    assert_eq!(out.filled, u64::MAX);
    assert_eq!(out.remaining, 0);
    let out = book.bid(0, 1, Sender::new()).unwrap();
    assert_eq!(out.remaining, 1);
    let out = book.ask(0, 2, Sender::new()).unwrap();
    assert_eq!(out.trades, vec![trade(2, 0, 1)]);
    assert_eq!(quantities(&book.snapshot().asks), vec![(0, vec![1]), (u64::MAX, vec![u64::MAX])]);
}

#[test]
fn arrival_numbers_run_out_at_the_top_of_the_range() {
    let mut book = Book::starting_at(u64::MAX - 1);
    let out = book.ask(30, 3, Sender::new()).unwrap();
    assert_eq!(out.remaining, 3);
    assert_eq!(ids(&book.snapshot().asks), vec![(30, vec![u64::MAX - 1])]);
    let before = book.snapshot();
    assert_eq!(book.ask(31, 1, Sender::new()), Err(BookError::SequenceExhausted));
    assert_eq!(book.bid(29, 1, Sender::new()), Err(BookError::SequenceExhausted));
    assert_eq!(book.bid(30, 4, Sender::new()), Err(BookError::SequenceExhausted));
    assert_eq!(book.bid(30, 0, Sender::new()), Err(BookError::InvalidOrder));
    assert_eq!(book.snapshot(), before);
}

#[test]
fn an_order_that_fills_in_full_needs_no_arrival_number() {
    let mut book = Book::starting_at(u64::MAX - 2);
    book.ask(30, 3, Sender::new()).unwrap();
    book.ask(31, 2, Sender::new()).unwrap();
    let out = book.bid(30, 1, Sender::new()).unwrap();
    assert_eq!(out, MatchOutcome { filled: 1, trades: vec![trade(u64::MAX - 2, 30, 1)], remaining: 0 });
    let before = book.snapshot();
    assert_eq!(book.bid(31, 5, Sender::new()), Err(BookError::SequenceExhausted));
    assert_eq!(book.snapshot(), before);
    let out = book.bid(31, 4, Sender::new()).unwrap();
    assert_eq!(
        out.trades,
        vec![trade(u64::MAX - 2, 30, 2), trade(u64::MAX - 1, 31, 2)]
    );
    assert_eq!(out.filled, 4);
    assert_eq!(out.remaining, 0);
    assert_eq!(book.snapshot(), Book::new().snapshot());
    assert_eq!(book.ask(1, 1, Sender::new()), Err(BookError::SequenceExhausted));
}

#[test]
fn a_book_that_starts_at_the_last_number_takes_no_order() {
    let mut book = Book::starting_at(u64::MAX);
    assert_eq!(book.bid(1, 1, Sender::new()), Err(BookError::SequenceExhausted));
    assert_eq!(book.snapshot(), Book::new().snapshot());
}

#[test]
fn a_full_fill_takes_no_arrival_number() {
    let mut book = Book::new();
    book.ask(30, 3, Sender::new()).unwrap();
    book.bid(30, 1, Sender::new()).unwrap();
    book.bid(30, 1, Sender::new()).unwrap();
    book.ask(40, 1, Sender::new()).unwrap();
    assert_eq!(ids(&book.snapshot().asks), vec![(30, vec![0]), (40, vec![1])]);
}

#[test]
fn no_two_resting_orders_share_an_arrival_number() {
    let mut book = Book::new();
    let mut x: u64 = 99;
    for _ in 0..300 {
        x = x.wrapping_mul(6364136223846793005).wrapping_add(1442695040888963407);
        let price = 1 + (x >> 33) % 15;
        let qty = 1 + (x >> 40) % 5;
        if (x >> 60) % 2 == 0 {
            book.bid(price, qty, Sender::new()).unwrap();
        } else {
            book.ask(price, qty, Sender::new()).unwrap();
        }
        let snap = book.snapshot();
        let mut seen: Vec<u64> = Vec::new();
        for l in snap.bids.iter().chain(snap.asks.iter()) {
            let mut last: Option<u64> = None;
            for o in l.orders.iter() {
                assert!(!seen.contains(&o.seq));
                assert!(last.map_or(true, |p| p < o.seq));
                last = Some(o.seq);
                seen.push(o.seq);
            }
        }
    }
}

#[test]
fn the_best_price_of_each_side() {
    let mut book = Book::new();
    assert_eq!(book.best_price(Side::Bid), None);
    assert_eq!(book.best_price(Side::Ask), None);
    book.bid(10, 1, Sender::new()).unwrap();
    book.bid(12, 1, Sender::new()).unwrap();
    book.bid(11, 1, Sender::new()).unwrap();
    book.ask(20, 1, Sender::new()).unwrap();
    book.ask(18, 1, Sender::new()).unwrap();
    book.ask(19, 1, Sender::new()).unwrap();
    assert_eq!(book.best_price(Side::Bid), Some(12));
    assert_eq!(book.best_price(Side::Ask), Some(18));
    book.ask(12, 1, Sender::new()).unwrap();
    assert_eq!(book.best_price(Side::Bid), Some(11));
    assert_eq!(book.best_price(Side::Ask), Some(18));
}
