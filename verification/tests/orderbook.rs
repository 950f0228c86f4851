use cex::domain::{Order, OrderId, OrderStatus, OrderType, Price, Qty, Side, Symbol, UserId};
use cex::orderbook::OrderBook;

fn create_order(id: i64, price: i64, side: Side) -> Order {
    Order {
        id: OrderId(id),
        user_id: UserId(99),
        symbol: Symbol(*b"BTC-USDT"),
        side,
        order_type: OrderType::Limit,
        price: Price(price),
        qty: Qty(10),
        filled_qty: Qty(0),
        timestamp: 12345,
        status: OrderStatus::Pending,
    }
}

fn create_buy_order(id: i64, price: i64) -> Order {
    create_order(id, price, Side::Buy)
}

fn create_sell_order(id: i64, price: i64) -> Order {
    create_order(id, price, Side::Sell)
}

fn ids(book: &OrderBook, side: Side, price: i64) -> Vec<i64> {
    let level = match side {
        Side::Buy => book.bid_level(Price(price)),
        Side::Sell => book.ask_level(Price(price)),
    };
    level.map(|q| q.iter().map(|o| o.id.0).collect()).unwrap_or_default()
}

#[test]
fn test_orderbook_sorting() {
    let mut book = OrderBook::new();

    book.add_order(create_buy_order(1, 50_000));
    book.add_order(create_buy_order(2, 49_000));
    book.add_order(create_buy_order(3, 51_000));

    let best_price = book.best_bid_price().unwrap();
    let line_of_orders = book.bid_level(best_price).unwrap();
    let first_person_in_line = line_of_orders.front().unwrap();

    assert_eq!(best_price, Price(51_000));
    assert_eq!(first_person_in_line.id, OrderId(3));
}

#[test]
fn test_best_bid_ask() {
    let mut book = OrderBook::new();

    book.add_order(create_buy_order(1, 50_000));
    book.add_order(create_buy_order(2, 51_000));
    book.add_order(create_sell_order(3, 52_000));
    book.add_order(create_sell_order(4, 53_000));

    assert_eq!(book.best_bid_price(), Some(Price(51000)));
    assert_eq!(book.best_ask_price(), Some(Price(52000)));
}

#[test]
fn test_cancel_order() {
    let mut book = OrderBook::new();
    book.add_order(create_buy_order(1, 50_000));
    book.add_order(create_buy_order(2, 51_000));
    book.add_order(create_buy_order(3, 51_000));

    book.cancel_order(create_buy_order(2, 51_000));

    assert_eq!(book.bid_level(Price(51_000)).unwrap().len(), 1);
}

#[test]
fn empty_book_has_no_best_prices() {
    let mut book = OrderBook::new();
    assert_eq!(book.best_bid_price(), None);
    assert_eq!(book.best_ask_price(), None);
    assert!(book.bid_level(Price(1)).is_none());
}

#[test]
fn orders_at_one_price_keep_arrival_order() {
    let mut book = OrderBook::new();
    book.add_order(create_sell_order(7, 100));
    book.add_order(create_sell_order(5, 100));
    book.add_order(create_sell_order(9, 100));
    assert_eq!(ids(&book, Side::Sell, 100), vec![7, 5, 9]);
    assert_eq!(book.best_ask_price(), Some(Price(100)));
    assert!(book.bid_level(Price(100)).is_none());
}

#[test]
fn cancel_right_after_add_restores_the_book() {
    let mut book = OrderBook::new();
    book.add_order(create_buy_order(1, 50_000));
    book.add_order(create_buy_order(2, 50_000));
    book.add_order(create_buy_order(3, 49_000));
    book.cancel_order(create_buy_order(2, 50_000));
    assert_eq!(ids(&book, Side::Buy, 50_000), vec![1]);
    book.cancel_order(create_buy_order(1, 50_000));
    assert!(book.bid_level(Price(50_000)).is_none());
    assert_eq!(book.best_bid_price(), Some(Price(49_000)));
}

#[test]
fn cancel_removes_every_order_with_the_id_and_keeps_the_rest_in_order() {
    let mut book = OrderBook::new();
    book.add_order(create_buy_order(1, 10));
    book.add_order(create_buy_order(2, 10));
    book.add_order(create_buy_order(1, 10));
    book.add_order(create_buy_order(3, 10));
    book.cancel_order(create_buy_order(1, 10));
    assert_eq!(ids(&book, Side::Buy, 10), vec![2, 3]);
}

#[test]
fn cancel_of_an_absent_order_changes_nothing() {
    let mut book = OrderBook::new();
    book.add_order(create_sell_order(1, 10));
    book.cancel_order(create_sell_order(2, 10));
    book.cancel_order(create_sell_order(1, 11));
    book.cancel_order(create_buy_order(1, 10));
    assert_eq!(ids(&book, Side::Sell, 10), vec![1]);
}

#[test]
fn negative_prices_are_ordered_too() {
    let mut book = OrderBook::new();
    book.add_order(create_sell_order(1, -5));
    book.add_order(create_sell_order(2, 3));
    book.add_order(create_buy_order(3, -7));
    book.add_order(create_buy_order(4, -6));
    assert_eq!(book.best_ask_price(), Some(Price(-5)));
    assert_eq!(book.best_bid_price(), Some(Price(-6)));
}

fn limit(id: i64, user: i64, side: Side, price: i64, qty: i64) -> Order {
    Order {
        id: OrderId(id),
        user_id: UserId(user),
        symbol: Symbol(*b"BTC-USDT"),
        side,
        order_type: OrderType::Limit,
        price: Price(price),
        qty: Qty(qty),
        filled_qty: Qty(0),
        timestamp: 1000 + id,
        status: OrderStatus::Pending,
    }
}

fn resting(book: &OrderBook, side: Side, price: i64) -> Vec<(i64, i64, OrderStatus)> {
    let level = match side {
        Side::Buy => book.bid_level(Price(price)),
        Side::Sell => book.ask_level(Price(price)),
    };
    level
        .map(|q| q.iter().map(|o| (o.id.0, o.filled_qty.0, o.status.clone())).collect())
        .unwrap_or_default()
}

#[test]
fn a_lone_buy_order_makes_no_trade_and_rests() {
    let mut book = OrderBook::new();
    let trades = book.match_order(limit(1, 7, Side::Buy, 100, 5));
    assert!(trades.is_empty());
    assert_eq!(resting(&book, Side::Buy, 100), vec![(1, 0, OrderStatus::Pending)]);
}

#[test]
fn orders_that_do_not_cross_make_no_trade() {
    let mut book = OrderBook::new();
    book.match_order(limit(1, 7, Side::Sell, 101, 5));
    let trades = book.match_order(limit(2, 8, Side::Buy, 100, 5));
    assert!(trades.is_empty());
    assert_eq!(book.best_bid_price(), Some(Price(100)));
    assert_eq!(book.best_ask_price(), Some(Price(101)));
}

#[test]
fn a_buy_order_fills_from_the_lowest_ask_in_arrival_order() {
    let mut book = OrderBook::new();
    book.match_order(limit(1, 11, Side::Sell, 102, 30));
    book.match_order(limit(2, 12, Side::Sell, 101, 40));
    book.match_order(limit(3, 13, Side::Sell, 101, 30));
    book.match_order(limit(4, 14, Side::Sell, 105, 10));
    let trades = book.match_order(limit(5, 99, Side::Buy, 102, 100));
    let seen: Vec<(i64, i64, i64, i64)> = trades.iter().map(|t| (t.maker_user_id, t.taker_user_id, t.price, t.qty)).collect();
    assert_eq!(seen, vec![(12, 99, 101, 40), (13, 99, 101, 30), (11, 99, 102, 30)]);
    assert!(trades.iter().all(|t| t.timestamp == 1005 && &t.symbol == b"BTC-USDT"));
    assert!(book.ask_level(Price(101)).is_none());
    assert!(book.ask_level(Price(102)).is_none());
    assert_eq!(book.best_ask_price(), Some(Price(105)));
    assert!(book.bid_level(Price(102)).is_none());
}

#[test]
fn partial_fills_leave_the_rest_in_the_book() {
    let mut book = OrderBook::new();
    book.match_order(limit(1, 11, Side::Sell, 100, 30));
    let trades = book.match_order(limit(2, 12, Side::Buy, 100, 10));
    assert_eq!(trades.len(), 1);
    assert_eq!((trades[0].price, trades[0].qty), (100, 10));
    assert_eq!(resting(&book, Side::Sell, 100), vec![(1, 10, OrderStatus::PartialFilled)]);
    let trades = book.match_order(limit(3, 13, Side::Buy, 100, 50));
    assert_eq!((trades[0].price, trades[0].qty), (100, 20));
    assert!(book.ask_level(Price(100)).is_none());
    assert_eq!(resting(&book, Side::Buy, 100), vec![(3, 20, OrderStatus::PartialFilled)]);
}

#[test]
fn a_sell_order_fills_from_the_highest_bid() {
    let mut book = OrderBook::new();
    book.match_order(limit(1, 11, Side::Buy, 99, 5));
    book.match_order(limit(2, 12, Side::Buy, 98, 5));
    let trades = book.match_order(limit(3, 13, Side::Sell, 98, 7));
    let seen: Vec<(i64, i64, i64)> = trades.iter().map(|t| (t.maker_user_id, t.price, t.qty)).collect();
    assert_eq!(seen, vec![(11, 99, 5), (12, 98, 2)]);
    assert_eq!(resting(&book, Side::Buy, 98), vec![(2, 2, OrderStatus::PartialFilled)]);
    assert!(book.ask_level(Price(98)).is_none());
}

#[test]
fn a_market_order_takes_any_price_and_never_rests() {
    let mut book = OrderBook::new();
    book.match_order(limit(1, 11, Side::Sell, 500, 3));
    let mut market = limit(2, 12, Side::Buy, 0, 5);
    market.order_type = OrderType::Market;
    let trades = book.match_order(market);
    assert_eq!(trades.len(), 1);
    assert_eq!((trades[0].price, trades[0].qty), (500, 3));
    assert_eq!(book.best_ask_price(), None);
    assert_eq!(book.best_bid_price(), None);
}

#[test]
fn resting_orders_with_nothing_left_are_dropped_without_a_trade() {
    let mut book = OrderBook::new();
    let mut done = limit(1, 11, Side::Sell, 100, 5);
    done.filled_qty = Qty(5);
    book.add_order(done);
    book.add_order(limit(2, 12, Side::Sell, 100, 5));
    let trades = book.match_order(limit(3, 13, Side::Buy, 100, 5));
    assert_eq!(trades.len(), 1);
    assert_eq!(trades[0].maker_user_id, 12);
    assert!(book.ask_level(Price(100)).is_none());
}
