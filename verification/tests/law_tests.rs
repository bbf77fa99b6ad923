use rustex::{LevelDepth, MatchingEngine, Order, Side, Trade};

fn limit(side: Side, price: u64, quantity: u64) -> Order {
    Order::limit("AAPL".to_string(), side, price, quantity)
}

fn market(side: Side, quantity: u64) -> Order {
    Order::market("AAPL".to_string(), side, quantity)
}

fn depth(engine: &MatchingEngine, side: Side) -> Vec<LevelDepth> {
    engine.get_order_book("AAPL").unwrap().depth(side)
}

fn best_prices(engine: &MatchingEngine) -> (Option<u64>, Option<u64>) {
    match engine.get_order_book("AAPL") {
        Some(book) => (book.best_bid(), book.best_ask()),
        None => (None, None),
    }
}

fn traded(trades: &[Trade]) -> u64 {
    let mut total = 0;
    for trade in trades {
        total += trade.quantity;
    }
    total
}

/// A book with bids at 14800, 14900, 15000 and asks at 15100, 15200, 15300,
/// two orders at each price, under the ids 1 to 12.
fn busy_engine() -> MatchingEngine {
    let mut engine = MatchingEngine::new();
    for price in [14800, 14900, 15000] {
        engine.submit_order(limit(Side::Buy, price, 10)).unwrap();
        engine.submit_order(limit(Side::Buy, price, 20)).unwrap();
    }
    for price in [15100, 15200, 15300] {
        engine.submit_order(limit(Side::Sell, price, 10)).unwrap();
        engine.submit_order(limit(Side::Sell, price, 20)).unwrap();
    }
    engine
}

#[test]
fn no_level_is_left_empty() {
    let mut engine = busy_engine();
    // Empty the best bid by cancelling, the best ask by trading.
    assert!(engine.cancel_order("AAPL", 5));
    assert!(engine.cancel_order("AAPL", 6));
    engine.submit_order(market(Side::Buy, 30)).unwrap();

    for side in [Side::Buy, Side::Sell] {
        let levels = depth(&engine, side);
        assert_eq!(levels.len(), 2);
        for level in levels {
            assert!(level.orders > 0);
            assert!(level.quantity > 0);
        }
    }
    assert_eq!(best_prices(&engine), (Some(14900), Some(15200)));
}

#[test]
fn index_finds_every_resting_order_and_no_other() {
    let mut engine = busy_engine();
    // Orders 7 and 8 are filled; the remainder of order 13 rests.
    engine.submit_order(limit(Side::Buy, 15100, 35)).unwrap();

    for id in [7, 8] {
        assert!(!engine.cancel_order("AAPL", id));
    }
    for id in [1, 2, 3, 4, 5, 6, 9, 10, 11, 12, 13] {
        assert!(engine.cancel_order("AAPL", id));
        assert!(!engine.cancel_order("AAPL", id));
    }
    assert!(depth(&engine, Side::Buy).is_empty());
    assert!(depth(&engine, Side::Sell).is_empty());
}

#[test]
fn ids_are_issued_in_increasing_order() {
    let mut engine = MatchingEngine::new();
    for expected in 1..=5u64 {
        assert_eq!(engine.next_order_id(), expected);
        engine.submit_order(limit(Side::Sell, 15000, 1)).unwrap();
    }
    let trades = engine.submit_order(limit(Side::Buy, 15000, 5)).unwrap();
    let mut sellers = Vec::new();
    for trade in &trades {
        assert_eq!(trade.buyer_order_id, 6);
        sellers.push(trade.seller_order_id);
    }
    assert_eq!(sellers, vec![1, 2, 3, 4, 5]);
}

#[test]
fn traded_quantity_leaves_both_orders() {
    let mut engine = busy_engine();
    let trades = engine.submit_order(limit(Side::Buy, 15200, 45)).unwrap();

    // 10 and 20 at 15100, then 10 and 5 at 15200.
    assert_eq!(traded(&trades), 45);
    assert_eq!(trades.len(), 4);
    assert_eq!(trades[3].quantity, 5);
    assert_eq!(
        depth(&engine, Side::Sell),
        vec![
            LevelDepth { price: 15200, quantity: 15, orders: 1 },
            LevelDepth { price: 15300, quantity: 30, orders: 2 },
        ]
    );
    // Nothing of the incoming order is left to rest.
    assert_eq!(depth(&engine, Side::Buy).len(), 3);
    assert!(!engine.cancel_order("AAPL", 13));
}

#[test]
fn traded_quantity_and_remainder_make_up_the_order() {
    let mut engine = busy_engine();
    let trades = engine.submit_order(limit(Side::Sell, 14900, 100)).unwrap();

    assert_eq!(traded(&trades), 60);
    assert_eq!(
        depth(&engine, Side::Sell)[0],
        LevelDepth { price: 14900, quantity: 40, orders: 1 }
    );
}

#[test]
fn book_is_not_crossed_after_a_submission() {
    let mut engine = busy_engine();
    for order in [
        limit(Side::Buy, 15250, 35),
        limit(Side::Sell, 14850, 500),
        limit(Side::Buy, 14850, 1),
        market(Side::Sell, 7),
        limit(Side::Buy, 20000, 1000),
    ] {
        engine.submit_order(order).unwrap();
        if let (Some(bid), Some(ask)) = best_prices(&engine) {
            assert!(bid < ask);
        }
    }
    assert_eq!(best_prices(&engine), (Some(20000), None));
}

#[test]
fn earlier_order_at_a_price_is_filled_first() {
    let mut engine = MatchingEngine::new();
    engine.submit_order(limit(Side::Sell, 15000, 10)).unwrap();
    engine.submit_order(limit(Side::Sell, 15000, 10)).unwrap();
    engine.submit_order(limit(Side::Sell, 15000, 10)).unwrap();

    let trades = engine.submit_order(limit(Side::Buy, 15000, 25)).unwrap();
    let mut sellers = Vec::new();
    for trade in &trades {
        sellers.push((trade.seller_order_id, trade.quantity));
    }
    assert_eq!(sellers, vec![(1, 10), (2, 10), (3, 5)]);
}

#[test]
fn market_order_never_rests() {
    let mut engine = MatchingEngine::new();
    engine.submit_order(limit(Side::Sell, 15000, 10)).unwrap();
    let trades = engine.submit_order(market(Side::Buy, 25)).unwrap();

    assert_eq!(traded(&trades), 10);
    assert!(depth(&engine, Side::Buy).is_empty());
    assert!(depth(&engine, Side::Sell).is_empty());
    assert!(!engine.cancel_order("AAPL", 2));
}

#[test]
fn trade_is_made_at_the_resting_price() {
    let mut engine = MatchingEngine::new();
    engine.submit_order(limit(Side::Sell, 15000, 10)).unwrap();
    let bought = engine.submit_order(limit(Side::Buy, 15100, 10)).unwrap();
    assert_eq!(bought[0].price, 15000);

    engine.submit_order(limit(Side::Buy, 15100, 10)).unwrap();
    let sold = engine.submit_order(limit(Side::Sell, 15000, 10)).unwrap();
    assert_eq!(sold[0].price, 15100);
}

#[test]
fn submit_and_cancel_restores_the_best_prices() {
    let mut engine = busy_engine();
    let before = best_prices(&engine);
    assert_eq!(before, (Some(15000), Some(15100)));

    for order in [
        limit(Side::Buy, 15050, 10),
        limit(Side::Sell, 15050, 10),
        limit(Side::Buy, 15000, 10),
        limit(Side::Sell, 16000, 10),
        limit(Side::Buy, 1, 10),
    ] {
        let id = engine.next_order_id();
        let trades = engine.submit_order(order).unwrap();
        assert!(trades.is_empty());
        assert!(engine.cancel_order("AAPL", id));
        assert_eq!(best_prices(&engine), before);
    }
}

#[test]
fn submit_and_cancel_after_a_trade_does_not_restore() {
    let mut engine = MatchingEngine::new();
    engine.submit_order(limit(Side::Sell, 15000, 5)).unwrap();
    assert_eq!(best_prices(&engine), (None, Some(15000)));

    let trades = engine.submit_order(limit(Side::Buy, 15000, 10)).unwrap();
    assert_eq!(trades.len(), 1);
    assert!(engine.cancel_order("AAPL", 2));
    assert_eq!(best_prices(&engine), (None, None));
}

#[test]
fn cancel_of_unknown_id_changes_nothing() {
    let mut engine = busy_engine();
    let bids = depth(&engine, Side::Buy);
    let asks = depth(&engine, Side::Sell);

    assert!(!engine.cancel_order("AAPL", 13));
    assert!(!engine.cancel_order("AAPL", 0));
    assert!(!engine.cancel_order("MSFT", 1));
    assert_eq!(depth(&engine, Side::Buy), bids);
    assert_eq!(depth(&engine, Side::Sell), asks);
    assert!(engine.get_order_book("MSFT").is_none());
    assert_eq!(engine.next_order_id(), 13);
}

#[test]
fn market_buys_against_no_asks_make_no_trade() {
    let mut engine = MatchingEngine::new();
    engine.submit_order(limit(Side::Buy, 15000, 10)).unwrap();

    let first = engine.submit_order(market(Side::Buy, 100)).unwrap();
    let second = engine.submit_order(market(Side::Buy, 100)).unwrap();
    assert!(first.is_empty());
    assert!(second.is_empty());
    assert_eq!(best_prices(&engine), (Some(15000), None));
}
