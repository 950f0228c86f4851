//! Market data: the candle engine, which buckets trades by symbol and minute
//! and keeps one OHLCV candle per bucket.
use crate::domain::{
    candle_accepts,
    candle_consistent,
    lemma_opened_candle_consistent,
    lemma_update_keeps_candle_consistent,
    candle_opened,
    candle_opens,
    candle_updated,
    Candle,
    Trade,
};
use std::collections::BTreeMap;
use vstd::arithmetic::power::pow;
use vstd::prelude::*;

verus! {

broadcast use vstd::std_specs::btree::group_btree_axioms;

/// The number that the bytes spell in base 256, the first byte the most
/// significant; for eight bytes this orders symbols as their bytes do.
pub open spec fn bytes_value(s: Seq<u8>) -> nat
    decreases s.len(),
{
    if s.len() == 0 {
        0
    } else {
        bytes_value(s.drop_last()) * 256 + s.last() as nat
    }
}

/// The start of the minute that holds `timestamp`: the timestamp rounded down
/// to a multiple of sixty, so that `start <= timestamp < start + 60`.
pub open spec fn minute_start(timestamp: i64) -> int {
    (timestamp as int / 60) * 60
}

/// Whether the start of the trade's minute fits in an `i64`; it does not only
/// for the first few seconds after `i64::MIN`.
pub open spec fn minute_fits(timestamp: i64) -> bool {
    minute_start(timestamp) >= i64::MIN
}

/// The key of the candle that a trade belongs to: its symbol and its minute.
pub open spec fn candle_key(trade: Trade) -> (u64, i64) {
    (bytes_value(trade.symbol@) as u64, minute_start(trade.timestamp) as i64)
}

/// Whether the engine can record `trade`: its minute has a start, and opening
/// its candle, or adding it to the candle of its minute, does not overflow.
pub open spec fn records_without_overflow(candles: Map<(u64, i64), Candle>, trade: Trade) -> bool {
    let k = candle_key(trade);
    &&& minute_fits(trade.timestamp)
    &&& if candles.contains_key(k) {
        candle_accepts(candles[k], trade)
    } else {
        candle_opens(trade)
    }
}

/// The candles after `trade` is recorded: the first trade of a symbol and
/// minute opens its candle, every later one updates it.
pub open spec fn candles_after(candles: Map<(u64, i64), Candle>, trade: Trade) -> Map<(u64, i64), Candle> {
    let k = candle_key(trade);
    if candles.contains_key(k) {
        candles.insert(k, candle_updated(candles[k], trade))
    } else {
        candles.insert(k, candle_opened(trade, k.1))
    }
}

/// The start of a minute is a multiple of sixty at most the timestamp and
/// less than sixty before it.
pub proof fn lemma_minute_start_bounds(timestamp: i64)
    ensures
        minute_start(timestamp) <= timestamp < minute_start(timestamp) + 60,
        minute_start(timestamp) % 60 == 0,
{
    let t = timestamp as int;
    vstd::arithmetic::div_mod::lemma_fundamental_div_mod(t, 60);
    vstd::arithmetic::div_mod::lemma_mod_bound(t, 60);
    vstd::arithmetic::div_mod::lemma_mod_multiples_basic(t / 60, 60);
}

/// A sequence of bytes spells a number below `256` to the power of its length.
proof fn lemma_bytes_value_bound(s: Seq<u8>)
    ensures
        bytes_value(s) < pow(256, s.len()),
    decreases s.len(),
{
    reveal(pow);
    if s.len() > 0 {
        let init = s.drop_last();
        lemma_bytes_value_bound(init);
        let (v, p) = (bytes_value(init) as int, pow(256, init.len()));
        assert(v * 256 + 255 < p * 256) by (nonlinear_arith)
            requires
                v < p,
        ;
        assert(pow(256, s.len()) == 256 * pow(256, init.len())) by {
            reveal(pow);
        }
    }
}

/// Different byte strings of one length spell different numbers.
pub proof fn lemma_bytes_value_injective(s1: Seq<u8>, s2: Seq<u8>)
    requires
        s1.len() == s2.len(),
        bytes_value(s1) == bytes_value(s2),
    ensures
        s1 == s2,
    decreases s1.len(),
{
    if s1.len() > 0 {
        let (a1, a2) = (bytes_value(s1.drop_last()) as int, bytes_value(s2.drop_last()) as int);
        let (x1, x2) = (s1.last() as int, s2.last() as int);
        assert(a1 == a2 && x1 == x2) by (nonlinear_arith)
            requires
                a1 * 256 + x1 == a2 * 256 + x2,
                0 <= x1 < 256,
                0 <= x2 < 256,
        ;
        lemma_bytes_value_injective(s1.drop_last(), s2.drop_last());
        assert(s1 =~= s1.drop_last().push(s1.last()));
        assert(s2 =~= s2.drop_last().push(s2.last()));
    }
}

/// Recording a trade leaves the candle of every other symbol or minute as it
/// was.
pub proof fn lemma_record_touches_only_own_candle(
    candles: Map<(u64, i64), Candle>,
    trade: Trade,
    symbol: Seq<u8>,
    interval_start: i64,
)
    requires
        symbol.len() == 8,
        minute_fits(trade.timestamp),
        symbol != trade.symbol@ || interval_start != minute_start(trade.timestamp),
    ensures
        ({
            let k = (bytes_value(symbol) as u64, interval_start);
            &&& candles_after(candles, trade).contains_key(k) == candles.contains_key(k)
            &&& candles.contains_key(k) ==> candles_after(candles, trade)[k] == candles[k]
        }),
{
    let k = (bytes_value(symbol) as u64, interval_start);
    lemma_bytes_value_bound(symbol);
    lemma_bytes_value_bound(trade.symbol@);
    assert(pow(256, 8) == 0x1_0000_0000_0000_0000) by {
        reveal(pow);
        reveal_with_fuel(pow, 9);
    }
    if k == candle_key(trade) {
        lemma_bytes_value_injective(symbol, trade.symbol@);
    }
}

/// Recording a trade puts it in the candle of its minute, the multiple of
/// sixty at most its timestamp and less than sixty before it: the first trade
/// of that minute opens the candle with its own price and quantity, counted
/// once; a later trade adds its quantity and money to the candle, keeps its
/// open and becomes its close.
pub proof fn lemma_record_counts_each_trade_once(candles: Map<(u64, i64), Candle>, trade: Trade)
    requires
        records_without_overflow(candles, trade),
    ensures
        ({
            let k = candle_key(trade);
            let c = candles_after(candles, trade)[k];
            &&& candles_after(candles, trade).contains_key(k)
            &&& k.1 <= trade.timestamp < k.1 + 60
            &&& k.1 % 60 == 0
            &&& c.close == trade.price
            &&& candles.contains_key(k) ==> {
                &&& c.volume == candles[k].volume + trade.qty
                &&& c.total_quote_qty == candles[k].total_quote_qty + trade.price * trade.qty
                &&& c.open == candles[k].open
                &&& c.interval_start == candles[k].interval_start
            }
            &&& !candles.contains_key(k) ==> {
                &&& c.volume == trade.qty
                &&& c.total_quote_qty == trade.price * trade.qty
                &&& c.open == trade.price
                &&& c.high == trade.price
                &&& c.low == trade.price
                &&& c.interval_start == k.1
                &&& c.symbol == trade.symbol
            }
        }),
{
    lemma_minute_start_bounds(trade.timestamp);
}

/// When every candle is consistent and a trade of positive quantity is
/// recorded, every candle is still consistent, so each candle's
/// volume-weighted average price lies between its low and its high.
pub proof fn lemma_record_keeps_candles_consistent(candles: Map<(u64, i64), Candle>, trade: Trade)
    requires
        forall|k: (u64, i64)| #[trigger] candles.contains_key(k) ==> candle_consistent(candles[k]),
        trade.qty > 0,
        records_without_overflow(candles, trade),
    ensures
        forall|k: (u64, i64)|
            #[trigger] candles_after(candles, trade).contains_key(k) ==> candle_consistent(
                candles_after(candles, trade)[k],
            ),
{
    let k = candle_key(trade);
    if candles.contains_key(k) {
        lemma_update_keeps_candle_consistent(candles[k], trade);
    } else {
        lemma_opened_candle_consistent(trade, k.1);
    }
}

/// The number that the eight symbol bytes spell.
fn symbol_key(symbol: &[u8; 8]) -> (k: u64)
    ensures
        k == bytes_value(symbol@),
{
    let mut acc: u64 = 0;
    let mut i: usize = 0;
    proof {
        assert(symbol@.take(0) =~= Seq::<u8>::empty());
        assert(pow(256, 8) == 0x1_0000_0000_0000_0000) by {
            reveal(pow);
            reveal_with_fuel(pow, 9);
        }
    }
    while i < 8
        invariant
            i <= 8,
            symbol@.len() == 8,
            acc == bytes_value(symbol@.take(i as int)),
            pow(256, 8) == 0x1_0000_0000_0000_0000,
        decreases 8 - i,
    {
        let ghost before = symbol@.take(i as int);
        let ghost after = symbol@.take(i as int + 1);
        proof {
            assert(after.drop_last() =~= before);
            assert(after.last() == symbol@[i as int]);
            lemma_bytes_value_bound(after);
            vstd::arithmetic::power::lemma_pow_increases(256, (i + 1) as nat, 8);
        }
        acc = acc * 256 + symbol[i] as u64;
        i = i + 1;
    }
    proof {
        assert(symbol@.take(8) =~= symbol@);
    }
    acc
}

/// The start of the minute that holds `timestamp`.
pub fn minute_of(timestamp: i64) -> (m: i64)
    requires
        minute_fits(timestamp),
    ensures
        m == minute_start(timestamp),
{
    proof {
        lemma_minute_start_bounds(timestamp);
        let t = timestamp as int;
        let x: int = if t >= 0 { t } else { -t };
        vstd::arithmetic::div_mod::lemma_fundamental_div_mod(x, 60);
        vstd::arithmetic::div_mod::lemma_remainder(x, 60);
    }
    let q = timestamp / 60;
    let m = q * 60;
    if m > timestamp {
        m - 60
    } else {
        m
    }
}

/// Whether the start of the minute of `timestamp` fits in an `i64`.
fn minute_fits_exec(timestamp: i64) -> (b: bool)
    ensures
        b == minute_fits(timestamp),
{
    proof {
        lemma_minute_start_bounds(timestamp);
        let t = timestamp as int;
        // i64::MIN - 52 and i64::MIN + 8 are the multiples of sixty around i64::MIN.
        let k = t / 60;
        assert(minute_start(timestamp) == k * 60);
        assert(i64::MIN - 52 == -153722867280912931 * 60);
        if t >= i64::MIN + 8 {
            assert(k > -153722867280912931);
        } else {
            assert(k <= -153722867280912931);
        }
    }
    timestamp >= i64::MIN + 8
}

/// What the candle engine hears from the trade feed.
pub enum FeedEvent {
    /// A trade was made.
    Traded(Trade),
    /// The engine fell behind and this many trades were lost.
    Lagged(u64),
    /// The feed has closed.
    Closed,
}

/// Keeps one candle per symbol and minute.
pub struct CandleEngine {
    candles: BTreeMap<(u64, i64), Candle>,
}

impl CandleEngine {
    /// The candles, each under the number its symbol spells and the start
    /// of its minute.
    pub closed spec fn candles(&self) -> Map<(u64, i64), Candle> {
        self.candles@
    }

    /// An engine without candles.
    pub fn new() -> (e: Self)
        ensures
            e.candles() == Map::<(u64, i64), Candle>::empty(),
    {
        CandleEngine { candles: BTreeMap::new() }
    }

    /// Whether `record_trade` can take `trade` without overflow.
    pub fn accepts(&self, trade: &Trade) -> (b: bool)
        ensures
            b == records_without_overflow(self.candles(), *trade),
    {
        if !minute_fits_exec(trade.timestamp) {
            return false;
        }
        let quote = match trade.price.checked_mul(trade.qty) {
            Some(q) => q,
            None => return false,
        };
        let key = (symbol_key(&trade.symbol), minute_of(trade.timestamp));
        match self.candles.get(&key) {
            Some(c) => c.volume.checked_add(trade.qty).is_some() && c.total_quote_qty.checked_add(
                quote,
            ).is_some(),
            None => true,
        }
    }

    /// Records a trade: the first trade of a symbol and minute opens the
    /// candle of that minute, every later trade updates it.
    pub fn record_trade(&mut self, trade: &Trade)
        requires
            records_without_overflow(old(self).candles(), *trade),
        ensures
            final(self).candles() == candles_after(old(self).candles(), *trade),
    {
        let minute = minute_of(trade.timestamp);
        let key = (symbol_key(&trade.symbol), minute);
        match self.candles.remove(&key) {
            Some(mut candle) => {
                candle.update(trade);
                self.candles.insert(key, candle);
            },
            None => {
                self.candles.insert(key, Candle::new(trade, minute));
            },
        }
    }

    /// Handles one event of the trade feed and says whether to keep
    /// listening: a trade is recorded, a lag is passed over, and a closed feed
    /// ends the listening.
    pub fn on_feed_event(&mut self, event: FeedEvent) -> (keep_listening: bool)
        requires
            event matches FeedEvent::Traded(t) ==> records_without_overflow(old(self).candles(), t),
        ensures
            match event {
                FeedEvent::Traded(t) => keep_listening && final(self).candles() == candles_after(
                    old(self).candles(),
                    t,
                ),
                FeedEvent::Lagged(_) => keep_listening && final(self).candles() == old(self).candles(),
                FeedEvent::Closed => !keep_listening && final(self).candles() == old(self).candles(),
            },
    {
        match event {
            FeedEvent::Traded(t) => {
                self.record_trade(&t);
                true
            },
            FeedEvent::Lagged(_) => true,
            FeedEvent::Closed => false,
        }
    }

    /// The candle of `symbol` for the minute that starts at `interval_start`.
    pub fn candle(&self, symbol: &[u8; 8], interval_start: i64) -> (r: Option<&Candle>)
        ensures
            ({
                let k = (bytes_value(symbol@) as u64, interval_start);
                match r {
                    Some(c) => self.candles().contains_key(k) && *c == self.candles()[k],
                    None => !self.candles().contains_key(k),
                }
            }),
    {
        let key = (symbol_key(symbol), interval_start);
        self.candles.get(&key)
    }
}

} // verus!
