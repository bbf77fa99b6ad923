use rustex::{LevelDepth, MatchingEngine, Order, Side, Trade};

fn limit(symbol: &str, side: Side, price: u64, quantity: u64) -> Order {
    Order::limit(symbol.to_string(), side, price, quantity)
}

fn market(symbol: &str, side: Side, quantity: u64) -> Order {
    Order::market(symbol.to_string(), side, quantity)
}

/// What the trades say apart from their timestamps: buyer, seller, price,
/// quantity.
fn fills(trades: &[Trade]) -> Vec<(u64, u64, u64, u64)> {
    let mut fills = Vec::new();
    for trade in trades {
        fills.push((trade.buyer_order_id, trade.seller_order_id, trade.price, trade.quantity));
    }
    fills
}

fn depth(engine: &MatchingEngine, symbol: &str, side: Side) -> Vec<LevelDepth> {
    match engine.get_order_book(symbol) {
        Some(book) => book.depth(side),
        None => panic!("no book for {}", symbol),
    }
}

#[test]
fn new_engine_has_no_book_and_starts_at_id_one() {
    let engine = MatchingEngine::new();
    assert!(engine.get_order_book("AAPL").is_none());
    assert_eq!(engine.next_order_id(), 1);
}

#[test]
fn scenario_basic_match() {
    let mut engine = MatchingEngine::new();
    let first = engine.submit_order(limit("AAPL", Side::Sell, 15000, 100)).unwrap();
    assert!(first.is_empty());

    let second = engine.submit_order(limit("AAPL", Side::Buy, 15000, 100)).unwrap();
    assert_eq!(fills(&second), vec![(2, 1, 15000, 100)]);

    assert!(depth(&engine, "AAPL", Side::Buy).is_empty());
    assert!(depth(&engine, "AAPL", Side::Sell).is_empty());
}

#[test]
fn scenario_partial_fill_buyer_remains() {
    let mut engine = MatchingEngine::new();
    engine.submit_order(limit("AAPL", Side::Sell, 15000, 50)).unwrap();
    let trades = engine.submit_order(limit("AAPL", Side::Buy, 15000, 150)).unwrap();
    assert_eq!(fills(&trades), vec![(2, 1, 15000, 50)]);

    assert_eq!(
        depth(&engine, "AAPL", Side::Buy),
        vec![LevelDepth { price: 15000, quantity: 100, orders: 1 }]
    );
    let book = engine.get_order_book("AAPL").unwrap();
    assert_eq!(book.best_bid(), Some(15000));
    assert_eq!(book.best_ask(), None);
}

#[test]
fn scenario_multi_level_sweep() {
    let mut engine = MatchingEngine::new();
    engine.submit_order(limit("AAPL", Side::Sell, 15000, 50)).unwrap();
    engine.submit_order(limit("AAPL", Side::Sell, 15100, 75)).unwrap();
    engine.submit_order(limit("AAPL", Side::Sell, 15200, 100)).unwrap();

    let trades = engine.submit_order(limit("AAPL", Side::Buy, 15150, 120)).unwrap();
    assert_eq!(fills(&trades), vec![(4, 1, 15000, 50), (4, 2, 15100, 70)]);

    assert_eq!(
        depth(&engine, "AAPL", Side::Sell),
        vec![
            LevelDepth { price: 15100, quantity: 5, orders: 1 },
            LevelDepth { price: 15200, quantity: 100, orders: 1 },
        ]
    );
    let book = engine.get_order_book("AAPL").unwrap();
    assert_eq!(book.best_ask(), Some(15100));
    assert_eq!(book.best_bid(), None);
}

#[test]
fn scenario_price_time_priority() {
    let mut engine = MatchingEngine::new();
    engine.submit_order(limit("AAPL", Side::Buy, 15000, 30)).unwrap();
    engine.submit_order(limit("AAPL", Side::Buy, 15000, 40)).unwrap();
    engine.submit_order(limit("AAPL", Side::Buy, 15000, 50)).unwrap();

    let trades = engine.submit_order(limit("AAPL", Side::Sell, 15000, 60)).unwrap();
    assert_eq!(fills(&trades), vec![(1, 4, 15000, 30), (2, 4, 15000, 30)]);

    // Order 2 has 10 left and order 3 its 50.
    assert_eq!(
        depth(&engine, "AAPL", Side::Buy),
        vec![LevelDepth { price: 15000, quantity: 60, orders: 2 }]
    );
    assert!(engine.cancel_order("AAPL", 2));
    assert_eq!(
        depth(&engine, "AAPL", Side::Buy),
        vec![LevelDepth { price: 15000, quantity: 50, orders: 1 }]
    );
    assert!(!engine.cancel_order("AAPL", 1));
    assert!(engine.cancel_order("AAPL", 3));
}

#[test]
fn scenario_cancel_preserves_priority() {
    let mut engine = MatchingEngine::new();
    engine.submit_order(limit("AAPL", Side::Buy, 15000, 30)).unwrap();
    engine.submit_order(limit("AAPL", Side::Buy, 15000, 40)).unwrap();
    engine.submit_order(limit("AAPL", Side::Buy, 15000, 50)).unwrap();
    assert!(engine.cancel_order("AAPL", 1));

    let trades = engine.submit_order(limit("AAPL", Side::Sell, 15000, 35)).unwrap();
    assert_eq!(fills(&trades), vec![(2, 4, 15000, 35)]);
    assert_eq!(
        depth(&engine, "AAPL", Side::Buy),
        vec![LevelDepth { price: 15000, quantity: 55, orders: 2 }]
    );
}

#[test]
fn scenario_multi_symbol_isolation() {
    let mut engine = MatchingEngine::new();
    let first = engine.submit_order(limit("AAPL", Side::Buy, 15000, 100)).unwrap();
    let second = engine.submit_order(limit("MSFT", Side::Sell, 15000, 100)).unwrap();
    assert!(first.is_empty());
    assert!(second.is_empty());

    let aapl = engine.get_order_book("AAPL").unwrap();
    assert_eq!(aapl.best_bid(), Some(15000));
    assert_eq!(aapl.best_ask(), None);
    let msft = engine.get_order_book("MSFT").unwrap();
    assert_eq!(msft.best_bid(), None);
    assert_eq!(msft.best_ask(), Some(15000));

    // Ids are the engine's, not the book's.
    assert!(!engine.cancel_order("AAPL", 2));
    assert!(!engine.cancel_order("MSFT", 1));
    assert!(engine.cancel_order("MSFT", 2));
    assert!(engine.cancel_order("AAPL", 1));
}

#[test]
fn sell_sweeps_the_bids_from_the_highest_down() {
    let mut engine = MatchingEngine::new();
    engine.submit_order(limit("AAPL", Side::Buy, 14900, 100)).unwrap();
    engine.submit_order(limit("AAPL", Side::Buy, 15000, 150)).unwrap();
    engine.submit_order(limit("AAPL", Side::Buy, 15000, 50)).unwrap();
    engine.submit_order(limit("AAPL", Side::Buy, 14800, 10)).unwrap();

    let trades = engine.submit_order(limit("AAPL", Side::Sell, 14900, 250)).unwrap();
    assert_eq!(
        fills(&trades),
        vec![(2, 5, 15000, 150), (3, 5, 15000, 50), (1, 5, 14900, 50)]
    );
    assert_eq!(
        depth(&engine, "AAPL", Side::Buy),
        vec![
            LevelDepth { price: 14900, quantity: 50, orders: 1 },
            LevelDepth { price: 14800, quantity: 10, orders: 1 },
        ]
    );
    assert!(depth(&engine, "AAPL", Side::Sell).is_empty());
}

#[test]
fn limit_rests_when_there_is_nothing_to_trade_with() {
    let mut engine = MatchingEngine::new();
    let trades = engine.submit_order(limit("AAPL", Side::Sell, 15000, 10)).unwrap();
    assert!(trades.is_empty());
    assert_eq!(
        depth(&engine, "AAPL", Side::Sell),
        vec![LevelDepth { price: 15000, quantity: 10, orders: 1 }]
    );
}

#[test]
fn limit_takes_what_is_there_and_rests_with_the_remainder() {
    let mut engine = MatchingEngine::new();
    engine.submit_order(limit("AAPL", Side::Sell, 15000, 10)).unwrap();
    engine.submit_order(limit("AAPL", Side::Sell, 15050, 20)).unwrap();
    engine.submit_order(limit("AAPL", Side::Sell, 15200, 5)).unwrap();

    let trades = engine.submit_order(limit("AAPL", Side::Buy, 15100, 100)).unwrap();
    assert_eq!(fills(&trades), vec![(4, 1, 15000, 10), (4, 2, 15050, 20)]);
    assert_eq!(
        depth(&engine, "AAPL", Side::Buy),
        vec![LevelDepth { price: 15100, quantity: 70, orders: 1 }]
    );
    assert_eq!(
        depth(&engine, "AAPL", Side::Sell),
        vec![LevelDepth { price: 15200, quantity: 5, orders: 1 }]
    );
}

#[test]
fn order_that_ends_the_head_exactly_drops_it() {
    let mut engine = MatchingEngine::new();
    engine.submit_order(limit("AAPL", Side::Sell, 15000, 10)).unwrap();
    engine.submit_order(limit("AAPL", Side::Sell, 15000, 20)).unwrap();

    let trades = engine.submit_order(limit("AAPL", Side::Buy, 15000, 10)).unwrap();
    assert_eq!(fills(&trades), vec![(3, 1, 15000, 10)]);
    assert_eq!(
        depth(&engine, "AAPL", Side::Sell),
        vec![LevelDepth { price: 15000, quantity: 20, orders: 1 }]
    );
    assert!(depth(&engine, "AAPL", Side::Buy).is_empty());
    assert!(!engine.cancel_order("AAPL", 1));

    let trades = engine.submit_order(limit("AAPL", Side::Buy, 15000, 20)).unwrap();
    assert_eq!(fills(&trades), vec![(4, 2, 15000, 20)]);
    assert!(depth(&engine, "AAPL", Side::Sell).is_empty());
    assert_eq!(engine.get_order_book("AAPL").unwrap().best_ask(), None);
}

#[test]
fn partly_filled_head_keeps_its_place_at_the_front() {
    let mut engine = MatchingEngine::new();
    engine.submit_order(limit("AAPL", Side::Sell, 15000, 100)).unwrap();
    engine.submit_order(limit("AAPL", Side::Sell, 15000, 100)).unwrap();

    let first = engine.submit_order(limit("AAPL", Side::Buy, 15000, 30)).unwrap();
    assert_eq!(fills(&first), vec![(3, 1, 15000, 30)]);
    let second = engine.submit_order(limit("AAPL", Side::Buy, 15000, 100)).unwrap();
    assert_eq!(fills(&second), vec![(4, 1, 15000, 70), (4, 2, 15000, 30)]);
}

#[test]
fn market_order_trades_at_every_price() {
    let mut engine = MatchingEngine::new();
    engine.submit_order(limit("AAPL", Side::Sell, 15000, 50)).unwrap();
    engine.submit_order(limit("AAPL", Side::Sell, 9_000_000, 75)).unwrap();

    let trades = engine.submit_order(market("AAPL", Side::Buy, 100)).unwrap();
    assert_eq!(fills(&trades), vec![(3, 1, 15000, 50), (3, 2, 9_000_000, 50)]);
    assert_eq!(
        depth(&engine, "AAPL", Side::Sell),
        vec![LevelDepth { price: 9_000_000, quantity: 25, orders: 1 }]
    );
}

#[test]
fn market_sell_trades_down_to_the_lowest_bid() {
    let mut engine = MatchingEngine::new();
    engine.submit_order(limit("AAPL", Side::Buy, 15000, 50)).unwrap();
    engine.submit_order(limit("AAPL", Side::Buy, 1, 75)).unwrap();

    let trades = engine.submit_order(market("AAPL", Side::Sell, 200)).unwrap();
    assert_eq!(fills(&trades), vec![(1, 3, 15000, 50), (2, 3, 1, 75)]);
    assert!(depth(&engine, "AAPL", Side::Buy).is_empty());
    assert!(depth(&engine, "AAPL", Side::Sell).is_empty());
}

#[test]
fn market_order_with_a_price_is_still_a_market_order() {
    let mut engine = MatchingEngine::new();
    engine.submit_order(limit("AAPL", Side::Sell, 15000, 50)).unwrap();

    let mut order = market("AAPL", Side::Buy, 80);
    order.price = Some(14000);
    let trades = engine.submit_order(order).unwrap();
    assert_eq!(fills(&trades), vec![(2, 1, 15000, 50)]);
    assert!(depth(&engine, "AAPL", Side::Buy).is_empty());
    assert!(!engine.cancel_order("AAPL", 2));
}

#[test]
fn first_submission_makes_the_book_of_its_symbol() {
    let mut engine = MatchingEngine::new();
    assert!(engine.get_order_book("AAPL").is_none());
    engine.submit_order(market("AAPL", Side::Buy, 10)).unwrap();
    let book = engine.get_order_book("AAPL").unwrap();
    assert_eq!(book.best_bid(), None);
    assert_eq!(book.best_ask(), None);
    assert!(engine.get_order_book("MSFT").is_none());
    assert!(engine.get_order_book("AAP").is_none());
    assert!(engine.get_order_book("AAPLX").is_none());
}

#[test]
fn submitted_id_and_timestamp_are_overwritten() {
    let mut engine = MatchingEngine::new();
    let mut order = limit("AAPL", Side::Buy, 15000, 10);
    order.id = 77;
    order.timestamp = 5;
    engine.submit_order(order).unwrap();

    assert!(!engine.cancel_order("AAPL", 77));
    assert!(engine.cancel_order("AAPL", 1));
}

#[test]
fn process_order_takes_the_order_as_it_is() {
    let mut engine = MatchingEngine::new();
    engine.submit_order(limit("AAPL", Side::Sell, 15000, 50)).unwrap();
    assert!(engine.cancel_order("AAPL", 1));
    engine.submit_order(limit("AAPL", Side::Sell, 15000, 50)).unwrap();
    assert_eq!(engine.next_order_id(), 3);

    // Id 1 was issued and rests nowhere; the resting order has id 2, so an
    // order that comes after it cannot be processed under id 1. An order of
    // another symbol can.
    let mut order = limit("MSFT", Side::Buy, 15000, 80);
    order.id = 1;
    order.timestamp = 42;
    let trades = engine.process_order(order);
    assert!(trades.is_empty());
    assert_eq!(engine.next_order_id(), 3);
    assert_eq!(
        depth(&engine, "MSFT", Side::Buy),
        vec![LevelDepth { price: 15000, quantity: 80, orders: 1 }]
    );
    assert!(engine.cancel_order("MSFT", 1));
}

#[test]
fn self_match_is_not_treated_specially() {
    let mut engine = MatchingEngine::new();
    engine.submit_order(limit("AAPL", Side::Sell, 15000, 10)).unwrap();
    let trades = engine.submit_order(limit("AAPL", Side::Buy, 15000, 10)).unwrap();
    assert_eq!(fills(&trades), vec![(2, 1, 15000, 10)]);
}
