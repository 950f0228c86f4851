use cex::domain::{AppError, Candle, Order, OrderId, OrderStatus, OrderType, Price, Qty, Side, Symbol, Trade, UserId};

#[test]
fn test_newtype_equality() {
    let order1 = OrderId(1);
    let order2 = OrderId(1);
    let order3 = OrderId(2);

    assert_eq!(order1, order2);
    assert_ne!(order1, order3);
}

#[test]
fn test_app_error_display() {
    let err = AppError::Validation("Invalid price".to_string());
    assert_eq!(err.to_string(), "Validation error: Invalid price");
}

#[test]
fn other_app_errors_read_as_their_kind() {
    assert_eq!(AppError::Internal("db down".to_string()).to_string(), "Internal error: db down");
    assert_eq!(AppError::NotFound("order 7".to_string()).to_string(), "Not found: order 7");
}

#[test]
fn conversions_from_integers_wrap_the_value() {
    assert_eq!(OrderId::from(5), OrderId(5));
    assert_eq!(UserId::from(-2), UserId(-2));
    assert_eq!(Price::from(50_000), Price(50_000));
    assert_eq!(Qty::from(0), Qty(0));
}

#[test]
fn symbols_are_padded_or_cut_to_eight_bytes() {
    assert_eq!(Symbol::from("BTC/USD".to_string()), Symbol(*b"BTC/USD\0"));
    assert_eq!(Symbol::from("BTC-USDT-PERP".to_string()), Symbol(*b"BTC-USDT"));
    assert_eq!(Symbol::from(vec![1u8, 2, 3]), Symbol([1, 2, 3, 0, 0, 0, 0, 0]));
    assert_eq!(Symbol::from(Vec::new()), Symbol([0; 8]));
    assert_eq!(Symbol::from("é".to_string()), Symbol([0xc3, 0xa9, 0, 0, 0, 0, 0, 0]));
}

fn order(qty: i64, filled: i64) -> Order {
    Order {
        id: OrderId(1),
        user_id: UserId(1),
        symbol: Symbol(*b"BTC-USDT"),
        side: Side::Buy,
        order_type: OrderType::Market,
        price: Price(10),
        qty: Qty(qty),
        filled_qty: Qty(filled),
        timestamp: 0,
        status: OrderStatus::Pending,
    }
}

#[test]
fn an_order_is_filled_when_all_of_it_is() {
    assert!(order(10, 10).filled());
    assert!(!order(10, 3).filled());
}

fn trade(price: i64, qty: i64) -> Trade {
    Trade { maker_user_id: 1, taker_user_id: 2, symbol: *b"BTC-USDT", price, qty, timestamp: 0 }
}

#[test]
fn a_candle_tracks_open_high_low_close_volume_and_vwap() {
    let mut c = Candle::new(&trade(100, 2), 60);
    assert_eq!((c.open, c.high, c.low, c.close, c.volume, c.total_quote_qty), (100, 100, 100, 100, 2, 200));
    assert_eq!(c.interval_start, 60);
    c.update(&trade(130, 1));
    c.update(&trade(90, 3));
    assert_eq!((c.open, c.high, c.low, c.close), (100, 130, 90, 90));
    assert_eq!(c.volume, 6);
    assert_eq!(c.total_quote_qty, 200 + 130 + 270);
    assert_eq!(c.vwap(), 100);
    assert!(c.low <= c.vwap() && c.vwap() <= c.high);
}

#[test]
fn vwap_rounds_toward_zero() {
    let mut c = Candle::new(&trade(7, 1), 0);
    c.update(&trade(8, 1));
    assert_eq!(c.vwap(), 7);
    let mut n = Candle::new(&trade(-7, 1), 0);
    n.update(&trade(-8, 1));
    assert_eq!(n.vwap(), -7);
    let neg_volume = Candle { volume: -2, total_quote_qty: 7, ..n.clone() };
    assert_eq!(neg_volume.vwap(), -3);
    let min_volume = Candle { volume: i64::MIN, total_quote_qty: i64::MIN, ..n.clone() };
    assert_eq!(min_volume.vwap(), 1);
    let min_volume2 = Candle { volume: i64::MIN, total_quote_qty: 5, ..n };
    assert_eq!(min_volume2.vwap(), 0);
}

#[test]
fn a_candle_sums_its_trades() {
    let trades = [trade(100, 1), trade(120, 1)];
    let mut c = Candle::new(&trades[0], 36300);
    c.update(&trades[1]);
    assert_eq!((c.open, c.high, c.low, c.close, c.volume, c.total_quote_qty), (100, 120, 100, 120, 2, 220));
    assert_eq!(c.vwap(), 110);
    let single = Candle::new(&trade(77, 3), 0);
    assert_eq!(single.vwap(), 77);
}
