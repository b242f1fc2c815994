// Prices and sizes are fixed-point integers in a caller-chosen minor unit.
// Where a scenario speaks of fractional amounts, the tests use thousandths
// for prices and tenths for sizes; where every amount is whole, the unit is
// one.

use trading_engine::engine::{MatchingEngine, TradingPair};
use trading_engine::orderbook::{BidOrAsk, Limit, Order, OrderBook};

#[test]
fn orderbook_fill_market_order_ask() {
    let mut orderbook = OrderBook::new();
    orderbook.add_limit_order(500, Order::new(BidOrAsk::Ask, 10));
    orderbook.add_limit_order(100, Order::new(BidOrAsk::Ask, 10));
    orderbook.add_limit_order(200, Order::new(BidOrAsk::Ask, 10));
    orderbook.add_limit_order(300, Order::new(BidOrAsk::Ask, 10));

    let mut market_order = Order::new(BidOrAsk::Bid, 10);
    orderbook.fill_market_order(&mut market_order);

    let ask_limits = orderbook.ask_limits();
    let matched_limit = ask_limits.get(0).unwrap();

    assert_eq!(matched_limit.price, 100);
    assert_eq!(market_order.is_filled(), true);
    assert_eq!(market_order.is_filled(), true);

    let matched_order = matched_limit.orders.get(0).unwrap();
    assert_eq!(matched_order.is_filled(), true);

    println!("{:?}", orderbook.ask_limits());
}

#[test]
fn limit_total_volume() {
    let price = 10000;
    let mut limit = Limit::new(price);
    let buy_limit_order_a = Order::new(BidOrAsk::Bid, 100);
    let buy_limit_order_b = Order::new(BidOrAsk::Bid, 100);
    limit.add_order(buy_limit_order_a);
    limit.add_order(buy_limit_order_b);

    assert_eq!(limit.total_volume(), 200);
}

#[test]
fn limit_order_multi_fill() {
    let price = 10000;
    let mut limit = Limit::new(price);
    let buy_limit_order_a = Order::new(BidOrAsk::Bid, 100);
    let buy_limit_order_b = Order::new(BidOrAsk::Bid, 100);
    limit.add_order(buy_limit_order_a);
    limit.add_order(buy_limit_order_b);
    let mut sell_market_order = Order::new(BidOrAsk::Ask, 199);
    limit.fill_order(&mut sell_market_order);

    assert_eq!(sell_market_order.is_filled(), true);
    assert_eq!(limit.orders.get(0).unwrap().is_filled(), true);
    assert_eq!(limit.orders.get(1).unwrap().is_filled(), false);
    assert_eq!(limit.orders.get(1).unwrap().size, 1);

    println!("{:?}", limit);
}

#[test]
fn limit_order_single_fill() {
    let price = 10000;
    let mut limit = Limit::new(price);
    let buy_limit_order = Order::new(BidOrAsk::Bid, 100);
    limit.add_order(buy_limit_order);
    let mut sell_market_order = Order::new(BidOrAsk::Ask, 99);
    limit.fill_order(&mut sell_market_order);

    assert_eq!(sell_market_order.is_filled(), true);
    assert_eq!(limit.orders.get(0).unwrap().size, 1);
}

#[test]
fn ask_limits_sorted_ascending_bid_limits_sorted_descending() {
    let mut orderbook = OrderBook::new();
    for price in [300, 100, 500, 200] {
        orderbook.add_limit_order(price, Order::new(BidOrAsk::Ask, 7));
        orderbook.add_limit_order(price, Order::new(BidOrAsk::Bid, 7));
    }

    let ask_prices: Vec<u64> = orderbook.ask_limits().iter().map(|l| l.price).collect();
    assert_eq!(ask_prices, vec![100, 200, 300, 500]);

    let bid_prices: Vec<u64> = orderbook.bid_limits().iter().map(|l| l.price).collect();
    assert_eq!(bid_prices, vec![500, 300, 200, 100]);
}

#[test]
fn same_price_orders_share_one_level() {
    let mut orderbook = OrderBook::new();
    orderbook.add_limit_order(4400, Order::new(BidOrAsk::Bid, 55));
    orderbook.add_limit_order(4400, Order::new(BidOrAsk::Bid, 245));

    let bid_limits = orderbook.bid_limits();
    assert_eq!(bid_limits.len(), 1);
    assert_eq!(bid_limits[0].price, 4400);
    assert_eq!(bid_limits[0].orders.len(), 2);
    assert_eq!(bid_limits[0].orders[0].size, 55);
    assert_eq!(bid_limits[0].orders[1].size, 245);
    assert_eq!(bid_limits[0].total_volume(), 300);
}

#[test]
fn fill_conserves_matched_size() {
    let mut orderbook = OrderBook::new();
    orderbook.add_limit_order(100, Order::new(BidOrAsk::Ask, 10));
    orderbook.add_limit_order(200, Order::new(BidOrAsk::Ask, 5));
    let before: u128 = orderbook
        .ask_limits()
        .iter()
        .map(|l| l.total_volume())
        .sum();
    assert_eq!(before, 15);

    let mut market_order = Order::new(BidOrAsk::Bid, 12);
    orderbook.fill_market_order(&mut market_order);

    let after: u128 = orderbook
        .ask_limits()
        .iter()
        .map(|l| l.total_volume())
        .sum();
    assert_eq!(after, 3);
    assert_eq!(market_order.size, 0);
    // The size taken off the book equals the size taken off the market order.
    assert_eq!(before - after, 12 - market_order.size as u128);
}

#[test]
fn market_order_larger_than_book_is_left_partially_filled() {
    let mut orderbook = OrderBook::new();
    orderbook.add_limit_order(100, Order::new(BidOrAsk::Ask, 10));

    let mut market_order = Order::new(BidOrAsk::Bid, 25);
    orderbook.fill_market_order(&mut market_order);

    assert_eq!(market_order.size, 15);
    assert!(!market_order.is_filled());
    assert!(orderbook.ask_limits()[0].orders[0].is_filled());
}

#[test]
fn fill_on_empty_book_changes_nothing() {
    let mut orderbook = OrderBook::new();
    let mut market_order = Order::new(BidOrAsk::Bid, 9);
    orderbook.fill_market_order(&mut market_order);
    assert_eq!(market_order.size, 9);
    assert_eq!(orderbook.ask_limits().len(), 0);
    assert_eq!(orderbook.bid_limits().len(), 0);
}

#[test]
fn empty_level_has_zero_volume() {
    let limit = Limit::new(100);
    assert_eq!(limit.total_volume(), 0);
}

#[test]
fn is_filled_iff_size_zero() {
    assert!(Order::new(BidOrAsk::Bid, 0).is_filled());
    assert!(!Order::new(BidOrAsk::Ask, 1).is_filled());
}

#[test]
fn trading_pair_canonical_form() {
    let pair = TradingPair::new("BTC".to_string(), "USD".to_string());
    assert_eq!(pair.to_string(), "BTC_USD");
}

#[test]
fn place_limit_order_on_registered_market() {
    // Register "BTC_USD"; place a bid of 6.5 at price 10.000, in tenths and
    // thousandths: size 65, price 10000.
    let mut engine = MatchingEngine::new();
    let pair = TradingPair::new("BTC".to_string(), "USD".to_string());
    engine.add_new_market(pair.clone());

    let res = engine.place_limit_order(pair, 10000, Order::new(BidOrAsk::Bid, 65));
    assert_eq!(res, Ok(()));

    assert_eq!(engine.orderbooks.len(), 1);
    let book = &engine.orderbooks[0].1;
    let bid_limits = book.bid_limits();
    assert_eq!(bid_limits.len(), 1);
    assert_eq!(bid_limits[0].price, 10000);
    assert_eq!(bid_limits[0].orders.len(), 1);
    assert_eq!(bid_limits[0].orders[0].size, 65);
}

#[test]
fn place_limit_order_on_unregistered_market_fails_without_side_effect() {
    let mut engine = MatchingEngine::new();
    let btc = TradingPair::new("BTC".to_string(), "USD".to_string());
    engine.add_new_market(btc);

    let eth = TradingPair::new("ETH".to_string(), "USD".to_string());
    let res = engine.place_limit_order(eth, 10000, Order::new(BidOrAsk::Bid, 65));
    assert_eq!(
        res,
        Err("the orderbook for the given trading pair (ETH_USD) does not exist".to_string())
    );

    // No book materialized for the unknown pair, and the registered book is
    // still empty.
    assert_eq!(engine.orderbooks.len(), 1);
    assert_eq!(engine.orderbooks[0].0.clone().to_string(), "BTC_USD");
    assert_eq!(engine.orderbooks[0].1.bid_limits().len(), 0);
    assert_eq!(engine.orderbooks[0].1.ask_limits().len(), 0);
}

#[test]
fn market_bid_consumes_only_the_best_ask_level() {
    let mut orderbook = OrderBook::new();
    orderbook.add_limit_order(100, Order::new(BidOrAsk::Ask, 10));
    orderbook.add_limit_order(200, Order::new(BidOrAsk::Ask, 10));
    orderbook.add_limit_order(300, Order::new(BidOrAsk::Ask, 10));
    orderbook.add_limit_order(500, Order::new(BidOrAsk::Ask, 10));

    let mut market_order = Order::new(BidOrAsk::Bid, 10);
    orderbook.fill_market_order(&mut market_order);
    assert!(market_order.is_filled());

    let ask_limits = orderbook.ask_limits();
    assert_eq!(ask_limits[0].price, 100);
    assert!(ask_limits[0].orders[0].is_filled());
    for limit in ask_limits.iter().skip(1) {
        assert_eq!(limit.orders.len(), 1);
        assert_eq!(limit.orders[0].size, 10);
    }
}

#[test]
fn fifo_fill_within_one_level() {
    // Two resting bids of 100.0 each; a market ask of 199.0 fills the first
    // completely and leaves the second with exactly 1.0.
    let mut limit = Limit::new(10000);
    limit.add_order(Order::new(BidOrAsk::Bid, 1000));
    limit.add_order(Order::new(BidOrAsk::Bid, 1000));
    let mut sell_market_order = Order::new(BidOrAsk::Ask, 1990);
    limit.fill_order(&mut sell_market_order);

    assert!(sell_market_order.is_filled());
    assert!(limit.orders[0].is_filled());
    assert_eq!(limit.orders[1].size, 10);
}

#[test]
fn reregistering_a_market_resets_its_book() {
    let mut engine = MatchingEngine::new();
    let pair = TradingPair::new("BTC".to_string(), "USD".to_string());
    engine.add_new_market(pair.clone());
    engine
        .place_limit_order(pair.clone(), 100, Order::new(BidOrAsk::Bid, 5))
        .unwrap();
    assert_eq!(engine.orderbooks[0].1.bid_limits().len(), 1);

    engine.add_new_market(pair);
    assert_eq!(engine.orderbooks.len(), 1);
    assert_eq!(engine.orderbooks[0].1.bid_limits().len(), 0);
}
