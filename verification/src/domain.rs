//! The exchange's shared vocabulary: identifiers, prices, orders, trades and
//! the OHLCV candle with its volume-weighted average price.
use vstd::prelude::*;
use vstd::std_specs::convert::FromSpecImpl;

verus! {

/// Identifier of an order.
#[derive(Debug, Clone, Copy, PartialEq, Eq, Structural, PartialOrd, Ord, Hash)]
pub struct OrderId(pub i64);

/// Identifier of a user.
#[derive(Debug, Clone, Copy, PartialEq, Eq, Structural, PartialOrd, Ord, Hash)]
pub struct UserId(pub i64);

/// A market symbol, such as `BTC-USDT`, as eight bytes padded with zeros.
#[derive(Debug, Clone, Copy, PartialEq, Eq, PartialOrd, Ord, Hash)]
pub struct Symbol(pub [u8; 8]);

/// A price in integer cents.
#[derive(Debug, Clone, Copy, PartialEq, Eq, Structural, PartialOrd, Ord, Hash)]
pub struct Price(pub i64);

/// A quantity of the traded asset.
#[derive(Debug, Clone, Copy, PartialEq, Eq, Structural, PartialOrd, Ord, Hash)]
pub struct Qty(pub i64);

/// Whether an order buys or sells.
#[derive(Debug, Clone, Copy, PartialEq, Eq, Structural)]
pub enum Side {
    Buy,
    Sell,
}

/// How an order is priced.
#[derive(Debug, Clone, Copy, PartialEq, Eq, Structural)]
pub enum OrderType {
    Market,
    Limit,
    StopLimit,
}

/// Where an order stands in its life.
#[derive(Debug, Clone, PartialEq, Eq, Structural)]
pub enum OrderStatus {
    Pending,
    PartialFilled,
    Filled,
    Cancelled,
}

/// A fill between the order that rested in the book (maker) and the one
/// that arrived and crossed it (taker).
#[derive(Debug, Clone)]
pub struct Trade {
    pub maker_user_id: i64,
    pub taker_user_id: i64,
    pub symbol: [u8; 8],
    pub price: i64,
    pub qty: i64,
    pub timestamp: i64,
}

/// An order as the exchange receives and stores it.
#[derive(Debug, Clone, PartialEq)]
pub struct Order {
    pub id: OrderId,
    pub user_id: UserId,
    pub symbol: Symbol,
    pub side: Side,
    pub order_type: OrderType,
    pub price: Price,
    pub qty: Qty,
    pub filled_qty: Qty,
    pub timestamp: i64,
    pub status: OrderStatus,
}

impl Order {
    /// An order is filled when all of its quantity has been filled.
    pub fn filled(&self) -> (r: bool)
        ensures
            r == (self.qty.0 == self.filled_qty.0),
    {
        self.qty.0 == self.filled_qty.0
    }
}

impl From<i64> for OrderId {
    fn from(v: i64) -> (r: Self) {
        OrderId(v)
    }
}

impl FromSpecImpl<i64> for OrderId {
    open spec fn obeys_from_spec() -> bool {
        true
    }

    open spec fn from_spec(v: i64) -> Self {
        OrderId(v)
    }
}

impl From<i64> for UserId {
    fn from(v: i64) -> (r: Self) {
        UserId(v)
    }
}

impl FromSpecImpl<i64> for UserId {
    open spec fn obeys_from_spec() -> bool {
        true
    }

    open spec fn from_spec(v: i64) -> Self {
        UserId(v)
    }
}

impl From<i64> for Price {
    fn from(v: i64) -> (r: Self) {
        Price(v)
    }
}

impl FromSpecImpl<i64> for Price {
    open spec fn obeys_from_spec() -> bool {
        true
    }

    open spec fn from_spec(v: i64) -> Self {
        Price(v)
    }
}

impl From<i64> for Qty {
    fn from(v: i64) -> (r: Self) {
        Qty(v)
    }
}

impl FromSpecImpl<i64> for Qty {
    open spec fn obeys_from_spec() -> bool {
        true
    }

    open spec fn from_spec(v: i64) -> Self {
        Qty(v)
    }
}

/// The eight symbol bytes made from `bytes`: its first eight bytes, padded
/// with zeros where it is shorter.
pub open spec fn symbol_bytes(bytes: Seq<u8>) -> Seq<u8> {
    Seq::new(8, |i: int| if i < bytes.len() { bytes[i] } else { 0u8 })
}

/// The symbol whose bytes are `symbol_bytes(bytes)`.
pub open spec fn symbol_of_bytes(bytes: Seq<u8>) -> Symbol {
    let b = symbol_bytes(bytes);
    Symbol([b[0], b[1], b[2], b[3], b[4], b[5], b[6], b[7]])
}

/// Copies the first eight bytes of `bytes` into a zero-padded symbol.
fn symbol_from_slice(bytes: &[u8]) -> (r: Symbol)
    ensures
        r.0@ == symbol_bytes(bytes@),
        r == symbol_of_bytes(bytes@),
{
    let mut out: [u8; 8] = [0u8; 8];
    let len: usize = if bytes.len() < 8 { bytes.len() } else { 8 };
    let mut i: usize = 0;
    while i < len
        invariant
            len <= 8,
            len <= bytes@.len(),
            len == bytes@.len() || len == 8,
            i <= len,
            out@.len() == 8,
            forall|j: int| 0 <= j < i ==> out@[j] == bytes@[j],
            forall|j: int| i <= j < 8 ==> out@[j] == 0u8,
        decreases len - i,
    {
        out[i] = bytes[i];
        i = i + 1;
    }
    let r = Symbol(out);
    proof {
        assert(r.0@ =~= symbol_bytes(bytes@));
        let c = symbol_of_bytes(bytes@);
        assert(c.0@ =~= r.0@);
        assert(c.0 == r.0);
    }
    r
}

impl From<Vec<u8>> for Symbol {
    /// Takes the first eight bytes, padding a shorter vector with zeros.
    fn from(v: Vec<u8>) -> (r: Self) {
        symbol_from_slice(v.as_slice())
    }
}

impl FromSpecImpl<Vec<u8>> for Symbol {
    open spec fn obeys_from_spec() -> bool {
        true
    }

    open spec fn from_spec(v: Vec<u8>) -> Self {
        symbol_of_bytes(v@)
    }
}

impl From<String> for Symbol {
    /// Takes the first eight bytes of the string's UTF-8 encoding, padding a
    /// shorter string with zeros.
    fn from(s: String) -> (r: Self) {
        symbol_from_slice(s.as_str().as_bytes())
    }
}

impl FromSpecImpl<String> for Symbol {
    open spec fn obeys_from_spec() -> bool {
        true
    }

    open spec fn from_spec(s: String) -> Self {
        symbol_of_bytes(vstd::utf8::encode_utf8(s@))
    }
}

/// Rust's integer division: the quotient of the magnitudes, rounded toward
/// zero, with the sign of the product of the signs.
pub open spec fn trunc_div(a: int, b: int) -> int {
    let q = (if a >= 0 { a } else { -a }) / (if b >= 0 { b } else { -b });
    if (a >= 0) == (b >= 0) { q } else { -q }
}

/// One candle of OHLCV data: the trades of one symbol within one minute.
#[derive(Debug, Clone)]
pub struct Candle {
    pub symbol: [u8; 8],
    /// Unix time of the start of the minute.
    pub interval_start: i64,
    pub open: i64,
    pub high: i64,
    pub low: i64,
    pub close: i64,
    pub volume: i64,
    /// The sum of price times quantity over the candle's trades.
    pub total_quote_qty: i64,
}

/// Whether `Candle::new` can open a candle with `trade` without overflow.
pub open spec fn candle_opens(trade: Trade) -> bool {
    i64::MIN <= trade.price * trade.qty <= i64::MAX
}

/// Whether `Candle::update` can add `trade` to `c` without overflow.
pub open spec fn candle_accepts(c: Candle, trade: Trade) -> bool {
    &&& i64::MIN <= trade.price * trade.qty <= i64::MAX
    &&& i64::MIN <= c.volume + trade.qty <= i64::MAX
    &&& i64::MIN <= c.total_quote_qty + trade.price * trade.qty <= i64::MAX
}

/// The candle opened by `trade` for the minute that starts at `interval_start`.
pub open spec fn candle_opened(trade: Trade, interval_start: i64) -> Candle {
    Candle {
        symbol: trade.symbol,
        interval_start,
        open: trade.price,
        high: trade.price,
        low: trade.price,
        close: trade.price,
        volume: trade.qty,
        total_quote_qty: (trade.price * trade.qty) as i64,
    }
}

/// `c` after `trade`: the highest and lowest price so far, the latest price
/// as close, and the trade's quantity and quote value added.
pub open spec fn candle_updated(c: Candle, trade: Trade) -> Candle {
    Candle {
        high: if trade.price > c.high { trade.price } else { c.high },
        low: if trade.price < c.low { trade.price } else { c.low },
        close: trade.price,
        volume: (c.volume + trade.qty) as i64,
        total_quote_qty: (c.total_quote_qty + trade.price * trade.qty) as i64,
        ..c
    }
}

/// The volume-weighted prices of `c` lie between its low and its high, and its
/// open and close lie there too.
pub open spec fn candle_consistent(c: Candle) -> bool {
    &&& c.volume > 0
    &&& c.low <= c.open <= c.high
    &&& c.low <= c.close <= c.high
    &&& c.low * c.volume <= c.total_quote_qty <= c.high * c.volume
}

/// Dividing by at least two at least halves a non-negative number.
proof fn lemma_div_halves(x: int, d: int)
    requires
        x >= 0,
        d >= 2,
    ensures
        0 <= x / d <= x / 2,
{
    assert(0 <= x / d <= x / 2) by (nonlinear_arith)
        requires
            x >= 0,
            d >= 2,
    {
        vstd::arithmetic::div_mod::lemma_div_is_ordered_by_denominator(x, 2, d);
        vstd::arithmetic::div_mod::lemma_div_pos_is_pos(x, d);
    }
}

impl Candle {
    /// Opens the candle of `trade` for the minute starting at `interval_start`.
    pub fn new(trade: &Trade, interval_start: i64) -> (c: Self)
        requires
            candle_opens(*trade),
        ensures
            c == candle_opened(*trade, interval_start),
            c.symbol == trade.symbol,
            c.interval_start == interval_start,
            c.open == trade.price && c.high == trade.price && c.low == trade.price && c.close
                == trade.price,
            c.volume == trade.qty,
            c.total_quote_qty == trade.price * trade.qty,
    {
        Candle {
            symbol: trade.symbol,
            interval_start,
            open: trade.price,
            high: trade.price,
            low: trade.price,
            close: trade.price,
            volume: trade.qty,
            total_quote_qty: trade.price * trade.qty,
        }
    }

    /// Adds `trade` to the candle.
    pub fn update(&mut self, trade: &Trade)
        requires
            candle_accepts(*old(self), *trade),
        ensures
            *final(self) == candle_updated(*old(self), *trade),
            final(self).symbol == old(self).symbol,
            final(self).interval_start == old(self).interval_start,
            final(self).open == old(self).open,
            final(self).high >= old(self).high && final(self).high >= trade.price,
            final(self).high == old(self).high || final(self).high == trade.price,
            final(self).low <= old(self).low && final(self).low <= trade.price,
            final(self).low == old(self).low || final(self).low == trade.price,
            final(self).close == trade.price,
            final(self).volume == old(self).volume + trade.qty,
            final(self).total_quote_qty == old(self).total_quote_qty + trade.price * trade.qty,
    {
        if trade.price > self.high {
            self.high = trade.price;
        }
        if trade.price < self.low {
            self.low = trade.price;
        }
        self.close = trade.price;
        self.volume = self.volume + trade.qty;
        self.total_quote_qty = self.total_quote_qty + trade.price * trade.qty;
    }

    /// The volume-weighted average price: the total quote value divided by the
    /// volume, rounded toward zero.
    pub fn vwap(&self) -> (r: i64)
        requires
            self.volume != 0,
            !(self.total_quote_qty == i64::MIN && self.volume == -1),
        ensures
            r == trunc_div(self.total_quote_qty as int, self.volume as int),
    {
        let total = self.total_quote_qty;
        let volume = self.volume;
        if volume > 0 {
            total / volume
        } else if volume == i64::MIN {
            proof {
                let x: int = if total >= 0 { total as int } else { -(total as int) };
                let m: int = 0x8000_0000_0000_0000int;
                assert(x <= m);
                if x < m {
                    vstd::arithmetic::div_mod::lemma_basic_div(x, m);
                } else {
                    vstd::arithmetic::div_mod::lemma_div_by_self(m);
                }
            }
            if total == i64::MIN {
                1
            } else {
                0
            }
        } else if volume == -1 {
            proof {
                vstd::arithmetic::div_mod::lemma_div_basics(
                    if total >= 0 { total as int } else { -(total as int) },
                );
            }
            -total
        } else {
            let d = -volume;
            proof {
                lemma_div_halves(if total >= 0 { total as int } else { -(total as int) }, d as int);
            }
            let q = total / d;
            -q
        }
    }
}

/// A candle opened by a trade of positive quantity is consistent.
pub proof fn lemma_opened_candle_consistent(trade: Trade, interval_start: i64)
    requires
        trade.qty > 0,
        candle_opens(trade),
    ensures
        candle_consistent(candle_opened(trade, interval_start)),
{
}

/// Adding a trade of positive quantity keeps a candle consistent.
pub proof fn lemma_update_keeps_candle_consistent(c: Candle, trade: Trade)
    requires
        candle_consistent(c),
        trade.qty > 0,
        candle_accepts(c, trade),
    ensures
        candle_consistent(candle_updated(c, trade)),
{
    let n = candle_updated(c, trade);
    let (p, q, v) = (trade.price as int, trade.qty as int, c.volume as int);
    let (lo, hi) = (c.low as int, c.high as int);
    let (nlo, nhi) = (n.low as int, n.high as int);
    assert(nlo * v <= lo * v) by (nonlinear_arith)
        requires
            nlo <= lo,
            v > 0,
    ;
    assert(hi * v <= nhi * v) by (nonlinear_arith)
        requires
            hi <= nhi,
            v > 0,
    ;
    assert(nlo * q <= p * q <= nhi * q) by (nonlinear_arith)
        requires
            nlo <= p <= nhi,
            q > 0,
    ;
    assert(nlo * (v + q) == nlo * v + nlo * q) by (nonlinear_arith);
    assert(nhi * (v + q) == nhi * v + nhi * q) by (nonlinear_arith);
}

/// The volume-weighted average price of a consistent candle lies between its
/// low and its high.
pub proof fn lemma_vwap_between_low_and_high(c: Candle)
    requires
        candle_consistent(c),
    ensures
        c.volume != 0,
        !(c.total_quote_qty == i64::MIN && c.volume == -1),
        c.low <= trunc_div(c.total_quote_qty as int, c.volume as int) <= c.high,
{
    let (t, v, lo, hi) = (c.total_quote_qty as int, c.volume as int, c.low as int, c.high as int);
    if t >= 0 {
        assert(lo <= t / v <= hi) by (nonlinear_arith)
            requires
                v > 0,
                t >= 0,
                lo * v <= t <= hi * v,
        {
            vstd::arithmetic::div_mod::lemma_fundamental_div_mod(t, v);
            vstd::arithmetic::div_mod::lemma_remainder(t, v);
        }
    } else {
        assert(lo <= -((-t) / v) <= hi) by (nonlinear_arith)
            requires
                v > 0,
                t < 0,
                lo * v <= t <= hi * v,
        {
            vstd::arithmetic::div_mod::lemma_fundamental_div_mod(-t, v);
            vstd::arithmetic::div_mod::lemma_remainder(-t, v);
        }
    }
}

/// The candle built from `trades` (at least one) for the minute starting at
/// `start`: opened with the first trade, then updated with each later one.
pub open spec fn candle_of(trades: Seq<Trade>, start: i64) -> Candle
    decreases trades.len(),
{
    if trades.len() <= 1 {
        candle_opened(trades[0], start)
    } else {
        candle_updated(candle_of(trades.drop_last(), start), trades.last())
    }
}

/// Whether each call that builds `candle_of(trades, start)` stays within its
/// `requires`: the first trade opens the candle, every later one is accepted.
pub open spec fn candle_builds(trades: Seq<Trade>, start: i64) -> bool {
    &&& trades.len() > 0
    &&& candle_opens(trades[0])
    &&& forall|k: int|
        1 <= k < trades.len() ==> candle_accepts(candle_of(trades.take(k), start), #[trigger] trades[k])
}

/// The total quantity of the trades.
pub open spec fn total_qty(trades: Seq<Trade>) -> int
    decreases trades.len(),
{
    if trades.len() == 0 {
        0
    } else {
        total_qty(trades.drop_last()) + trades.last().qty
    }
}

/// The total money of the trades: the sum of price times quantity.
pub open spec fn total_quote(trades: Seq<Trade>) -> int
    decreases trades.len(),
{
    if trades.len() == 0 {
        0
    } else {
        total_quote(trades.drop_last()) + trades.last().price * trades.last().qty
    }
}

/// A candle built from trades holds their sums: its volume is their total
/// quantity and its quote total their total money; it opens at the first
/// price and closes at the last, and every price lies between its low and its
/// high.
pub proof fn lemma_candle_of_sums(trades: Seq<Trade>, start: i64)
    requires
        candle_builds(trades, start),
    ensures
        candle_of(trades, start).volume == total_qty(trades),
        candle_of(trades, start).total_quote_qty == total_quote(trades),
        candle_of(trades, start).open == trades[0].price,
        candle_of(trades, start).close == trades.last().price,
        candle_of(trades, start).interval_start == start,
        forall|i: int|
            0 <= i < trades.len() ==> candle_of(trades, start).low <= (#[trigger] trades[i]).price
                <= candle_of(trades, start).high,
    decreases trades.len(),
{
    if trades.len() == 1 {
        let t = trades[0];
        assert(trades.drop_last().len() == 0);
        assert(total_qty(trades) == total_qty(trades.drop_last()) + t.qty);
        assert(total_quote(trades) == total_quote(trades.drop_last()) + t.price * t.qty);
    } else {
        let init = trades.drop_last();
        assert forall|k: int| 1 <= k < init.len() implies candle_accepts(
            candle_of(init.take(k), start),
            #[trigger] init[k],
        ) by {
            assert(init.take(k) =~= trades.take(k));
            assert(init[k] == trades[k]);
        }
        lemma_candle_of_sums(init, start);
        let k = trades.len() - 1;
        assert(trades.take(k) =~= init);
        assert(candle_accepts(candle_of(init, start), trades[k]));
        assert forall|i: int| 0 <= i < trades.len() implies candle_of(trades, start).low <= (
        #[trigger] trades[i]).price <= candle_of(trades, start).high by {
            if i < init.len() {
                assert(trades[i] == init[i]);
            }
        }
    }
}

/// For trades of positive quantity, the candle's volume-weighted average
/// price is their total money over their total quantity, rounded toward zero;
/// the volume is positive, so the average exists, and it lies between the low
/// and the high.
pub proof fn lemma_candle_vwap_of_trades(trades: Seq<Trade>, start: i64)
    requires
        candle_builds(trades, start),
        forall|i: int| 0 <= i < trades.len() ==> (#[trigger] trades[i]).qty > 0,
    ensures
        candle_of(trades, start).volume > 0,
        candle_consistent(candle_of(trades, start)),
        trunc_div(
            candle_of(trades, start).total_quote_qty as int,
            candle_of(trades, start).volume as int,
        ) == trunc_div(total_quote(trades), total_qty(trades)),
        candle_of(trades, start).low <= trunc_div(total_quote(trades), total_qty(trades))
            <= candle_of(trades, start).high,
    decreases trades.len(),
{
    lemma_candle_of_sums(trades, start);
    if trades.len() == 1 {
        lemma_opened_candle_consistent(trades[0], start);
    } else {
        let init = trades.drop_last();
        assert forall|k: int| 1 <= k < init.len() implies candle_accepts(
            candle_of(init.take(k), start),
            #[trigger] init[k],
        ) by {
            assert(init.take(k) =~= trades.take(k));
            assert(init[k] == trades[k]);
        }
        assert forall|i: int| 0 <= i < init.len() implies (#[trigger] init[i]).qty > 0 by {
            assert(init[i] == trades[i]);
        }
        lemma_candle_vwap_of_trades(init, start);
        let k = trades.len() - 1;
        assert(trades.take(k) =~= init);
        assert(trades[k] == trades.last());
        lemma_update_keeps_candle_consistent(candle_of(init, start), trades.last());
    }
    lemma_vwap_between_low_and_high(candle_of(trades, start));
}

/// An error that the exchange reports to its clients.
#[derive(Debug, Clone, PartialEq, Eq)]
pub enum AppError {
    Internal(String),
    Validation(String),
    NotFound(String),
}

/// The text that names each kind of error.
pub open spec fn app_error_prefix(e: AppError) -> Seq<char> {
    match e {
        AppError::Internal(_) => "Internal error: "@,
        AppError::Validation(_) => "Validation error: "@,
        AppError::NotFound(_) => "Not found: "@,
    }
}

/// The message that an error carries.
pub open spec fn app_error_message(e: AppError) -> Seq<char> {
    match e {
        AppError::Internal(m) => m@,
        AppError::Validation(m) => m@,
        AppError::NotFound(m) => m@,
    }
}

impl AppError {
    /// The error as its users read it: the kind, a colon, and the message.
    pub fn to_string(&self) -> (r: String)
        ensures
            r@ == app_error_prefix(*self) + app_error_message(*self),
    {
        let (prefix, msg) = match self {
            AppError::Internal(m) => ("Internal error: ", m),
            AppError::Validation(m) => ("Validation error: ", m),
            AppError::NotFound(m) => ("Not found: ", m),
        };
        let mut r = String::from_str(prefix);
        r.append(msg.as_str());
        r
    }
}

} // verus!
