use cex::market_data::{minute_of, FeedEvent};
use cex::domain::Trade;
use cex::market_data::CandleEngine;

fn trade(symbol: &[u8; 8], price: i64, qty: i64, timestamp: i64) -> Trade {
    Trade { maker_user_id: 1, taker_user_id: 2, symbol: *symbol, price, qty, timestamp }
}

#[test]
fn trades_of_one_minute_share_a_candle() {
    let mut engine = CandleEngine::new();
    let t1 = trade(b"BTC-USDT", 100, 1, 605);
    let t2 = trade(b"BTC-USDT", 110, 2, 659);
    assert!(engine.accepts(&t1));
    engine.record_trade(&t1);
    engine.record_trade(&t2);
    let c = engine.candle(b"BTC-USDT", 600).unwrap();
    assert_eq!(c.interval_start, 600);
    assert_eq!((c.open, c.high, c.low, c.close), (100, 110, 100, 110));
    assert_eq!(c.volume, 1 + 2);
    assert_eq!(c.total_quote_qty, 100 + 220);
    assert!(engine.candle(b"BTC-USDT", 660).is_none());
}

#[test]
fn symbols_and_minutes_get_their_own_candles() {
    let mut engine = CandleEngine::new();
    engine.record_trade(&trade(b"BTC-USDT", 100, 1, 0));
    engine.record_trade(&trade(b"ETH-USDT", 50, 1, 30));
    engine.record_trade(&trade(b"BTC-USDT", 120, 1, 60));
    assert_eq!(engine.candle(b"BTC-USDT", 0).unwrap().close, 100);
    assert_eq!(engine.candle(b"ETH-USDT", 0).unwrap().close, 50);
    assert_eq!(engine.candle(b"BTC-USDT", 60).unwrap().close, 120);
}

#[test]
fn timestamps_round_down_to_their_minute() {
    let mut engine = CandleEngine::new();
    engine.record_trade(&trade(b"BTC-USDT", 1, 1, -61));
    engine.record_trade(&trade(b"BTC-USDT", 2, 1, -1));
    engine.record_trade(&trade(b"BTC-USDT", 3, 1, 36323));
    engine.record_trade(&trade(b"BTC-USDT", 4, 1, 36359));
    assert_eq!(engine.candle(b"BTC-USDT", -120).unwrap().close, 1);
    assert_eq!(engine.candle(b"BTC-USDT", -60).unwrap().close, 2);
    assert!(engine.candle(b"BTC-USDT", 0).is_none());
    let c = engine.candle(b"BTC-USDT", 36300).unwrap();
    assert_eq!((c.open, c.high, c.low, c.close, c.volume, c.total_quote_qty), (3, 4, 3, 4, 2, 7));
}

#[test]
fn the_first_seconds_after_the_earliest_time_have_no_minute() {
    let engine = CandleEngine::new();
    assert!(!engine.accepts(&trade(b"BTC-USDT", 1, 1, i64::MIN)));
    assert!(!engine.accepts(&trade(b"BTC-USDT", 1, 1, i64::MIN + 7)));
    assert!(engine.accepts(&trade(b"BTC-USDT", 1, 1, i64::MIN + 8)));
}

#[test]
fn overflowing_trades_are_not_accepted() {
    let mut engine = CandleEngine::new();
    assert!(!engine.accepts(&trade(b"BTC-USDT", i64::MAX, 2, 0)));
    assert!(engine.accepts(&trade(b"BTC-USDT", 1, i64::MAX, 0)));
    let big = trade(b"BTC-USDT", 1, i64::MAX - 1, 0);
    assert!(engine.accepts(&big));
    engine.record_trade(&big);
    assert!(engine.accepts(&trade(b"BTC-USDT", 1, 1, 0)));
    assert!(!engine.accepts(&trade(b"BTC-USDT", 1, 2, 0)));
    assert!(engine.accepts(&trade(b"BTC-USDT", 1, 1, 60)));
}

#[test]
fn candle_vwap_stays_between_low_and_high() {
    let mut engine = CandleEngine::new();
    for (price, qty) in [(100, 3), (250, 1), (90, 7), (180, 2)] {
        engine.record_trade(&trade(b"ETH-USDT", price, qty, 120));
    }
    let c = engine.candle(b"ETH-USDT", 120).unwrap();
    assert_eq!((c.low, c.high, c.open, c.close), (90, 250, 100, 180));
    assert_eq!(c.volume, 3 + 1 + 7 + 2);
    let v = c.vwap();
    assert!(c.low <= v && v <= c.high);
    assert_eq!(v, (300 + 250 + 630 + 360) / 13);
}

#[test]
fn feed_events_record_skip_or_stop() {
    let mut engine = CandleEngine::new();
    assert!(engine.on_feed_event(FeedEvent::Traded(trade(b"BTC-USDT", 10, 2, 125))));
    assert!(engine.on_feed_event(FeedEvent::Lagged(3)));
    assert!(!engine.on_feed_event(FeedEvent::Closed));
    let c = engine.candle(b"BTC-USDT", minute_of(125)).unwrap();
    assert_eq!((c.interval_start, c.volume, c.total_quote_qty), (120, 2, 20));
    assert_eq!(minute_of(-1), -60);
    assert_eq!(minute_of(0), 0);
    assert_eq!(minute_of(59), 0);
    assert_eq!(minute_of(-60), -60);
}
