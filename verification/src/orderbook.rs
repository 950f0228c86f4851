//! The order book: resting buy orders (bids) and sell orders (asks), each
//! side a map from price to the queue of orders waiting at that price, in the
//! order in which they arrived; and the matching of an incoming order against
//! the other side by price-time priority.
use crate::domain::{Order, OrderId, OrderStatus, OrderType, Price, Qty, Side, Trade};
use std::collections::{BTreeMap, VecDeque};
use vstd::prelude::*;

verus! {

broadcast use vstd::std_specs::btree::group_btree_axioms;

/// The price levels of one side of the book: each price with its queue.
pub open spec fn levels_of(m: BTreeMap<i64, VecDeque<Order>>) -> Map<i64, Seq<Order>> {
    m@.map_values(|q: VecDeque<Order>| q@)
}

/// Every level of one side holds at least one order, and only orders of that
/// side at that level's price.
pub open spec fn side_well_formed(levels: Map<i64, Seq<Order>>, side: Side) -> bool {
    forall|p: i64|
        #[trigger] levels.contains_key(p) ==> {
            &&& levels[p].len() > 0
            &&& forall|i: int|
                0 <= i < levels[p].len() ==> (#[trigger] levels[p][i]).side == side
                    && levels[p][i].price.0 == p
        }
}

/// The queue at price `p`, or the empty queue where no order waits there.
pub open spec fn level_or_empty(levels: Map<i64, Seq<Order>>, p: i64) -> Seq<Order> {
    if levels.contains_key(p) {
        levels[p]
    } else {
        Seq::empty()
    }
}

/// The levels after `order` joins the back of the queue at its price.
pub open spec fn levels_after_add(levels: Map<i64, Seq<Order>>, order: Order) -> Map<i64, Seq<Order>> {
    levels.insert(order.price.0, level_or_empty(levels, order.price.0).push(order))
}

/// Holds of the orders whose identifier is not `id`.
pub open spec fn other_than(id: OrderId) -> spec_fn(Order) -> bool {
    |o: Order| o.id != id
}

/// The levels after the orders with the identifier of `order` leave the
/// queue at its price; a queue left empty is removed.
pub open spec fn levels_after_cancel(levels: Map<i64, Seq<Order>>, order: Order) -> Map<i64, Seq<Order>> {
    let p = order.price.0;
    if levels.contains_key(p) {
        let rest = levels[p].filter(other_than(order.id));
        if rest.len() == 0 {
            levels.remove(p)
        } else {
            levels.insert(p, rest)
        }
    } else {
        levels
    }
}

/// `best` is the highest price among the levels, or there are none.
pub open spec fn is_highest_price(levels: Map<i64, Seq<Order>>, best: Option<Price>) -> bool {
    match best {
        Some(p) => levels.contains_key(p.0) && forall|q: i64| #[trigger] levels.contains_key(q) ==> q <= p.0,
        None => levels.dom().is_empty(),
    }
}

/// `best` is the lowest price among the levels, or there are none.
pub open spec fn is_lowest_price(levels: Map<i64, Seq<Order>>, best: Option<Price>) -> bool {
    match best {
        Some(p) => levels.contains_key(p.0) && forall|q: i64| #[trigger] levels.contains_key(q) ==> p.0 <= q,
        None => levels.dom().is_empty(),
    }
}

/// `BTreeMap::last_key_value`, which std documents as returning the entry with
/// the maximum key, or `None` for an empty map. The contract claims the key
/// it hands back is in the map and no key of the map is greater.
#[verifier::external_body]
fn greatest_key<V>(m: &BTreeMap<i64, V>) -> (r: Option<i64>)
    ensures
        match r {
            Some(k) => m@.contains_key(k) && forall|j: i64| #[trigger] m@.contains_key(j) ==> j <= k,
            None => m@.dom().is_empty(),
        },
{
    m.last_key_value().map(|(k, _)| *k)
}

/// `BTreeMap::first_key_value`, which std documents as returning the entry
/// with the minimum key, or `None` for an empty map. The contract claims the
/// key it hands back is in the map and no key of the map is smaller.
#[verifier::external_body]
fn least_key<V>(m: &BTreeMap<i64, V>) -> (r: Option<i64>)
    ensures
        match r {
            Some(k) => m@.contains_key(k) && forall|j: i64| #[trigger] m@.contains_key(j) ==> k <= j,
            None => m@.dom().is_empty(),
        },
{
    m.first_key_value().map(|(k, _)| *k)
}

/// Puts `order` at the back of the queue at its price.
fn push_order(levels: &mut BTreeMap<i64, VecDeque<Order>>, order: Order)
    ensures
        levels_of(*final(levels)) == levels_after_add(levels_of(*old(levels)), order),
{
    let key = order.price.0;
    let mut queue = match levels.remove(&key) {
        Some(q) => q,
        None => VecDeque::new(),
    };
    queue.push_back(order);
    levels.insert(key, queue);
    proof {
        assert(levels_of(*levels) =~= levels_after_add(levels_of(*old(levels)), order));
    }
}

/// The queue without the orders whose identifier is `id`, the others in the
/// order they had.
fn without_id(queue: VecDeque<Order>, id: OrderId) -> (r: VecDeque<Order>)
    ensures
        r@ == queue@.filter(other_than(id)),
{
    let ghost orig = queue@;
    let mut rest = queue;
    let mut kept: VecDeque<Order> = VecDeque::new();
    let n: usize = rest.len();
    let mut i: usize = 0;
    while i < n
        invariant
            n == orig.len(),
            i <= n,
            rest@ == orig.skip(i as int),
            kept@ == orig.take(i as int).filter(other_than(id)),
        decreases n - i,
    {
        let ghost before = kept@;
        proof {
            assert(rest@.len() > 0);
        }
        let o = match rest.pop_front() {
            Some(o) => o,
            None => {
                proof {
                    assert(false);
                }
                return kept;
            }
        };
        proof {
            assert(o == orig[i as int]);
            assert(orig.take(i as int + 1) =~= orig.take(i as int).push(orig[i as int]));
            orig.take(i as int).lemma_filter_push(orig[i as int], other_than(id));
            assert(rest@ =~= orig.skip(i as int + 1));
        }
        if o.id.0 != id.0 {
            kept.push_back(o);
        }
        i = i + 1;
    }
    proof {
        assert(orig.take(n as int) =~= orig);
    }
    kept
}

/// Removes the orders with the identifier of `order` from the queue at its
/// price, and the queue itself once it is empty.
fn remove_order(levels: &mut BTreeMap<i64, VecDeque<Order>>, order: &Order)
    ensures
        levels_of(*final(levels)) == levels_after_cancel(levels_of(*old(levels)), *order),
{
    let key = order.price.0;
    match levels.remove(&key) {
        None => {
            proof {
                assert(levels_of(*levels) =~= levels_of(*old(levels)));
            }
        },
        Some(queue) => {
            let rest = without_id(queue, order.id);
            if rest.len() > 0 {
                levels.insert(key, rest);
            }
            proof {
                assert(levels_of(*levels) =~= levels_after_cancel(levels_of(*old(levels)), *order));
            }
        },
    }
}

/// Whether an order still has quantity to trade: none of it, or only part of
/// it, has been filled.
pub open spec fn is_live(o: Order) -> bool {
    0 <= o.filled_qty.0 < o.qty.0
}

/// The quantity of an order that is not filled yet.
pub open spec fn remaining(o: Order) -> int {
    o.qty.0 - o.filled_qty.0
}

/// The other side of the market.
pub open spec fn opposite(side: Side) -> Side {
    match side {
        Side::Buy => Side::Sell,
        Side::Sell => Side::Buy,
    }
}

/// The best price among `prices` for a taker on `taker_side`: the lowest ask
/// for a buyer, the highest bid for a seller.
pub open spec fn best_price(prices: Set<i64>, taker_side: Side) -> i64 {
    choose|p: i64|
        prices.contains(p) && forall|q: i64| #[trigger]
            prices.contains(q) ==> if taker_side == Side::Buy {
                p <= q
            } else {
                q <= p
            }
}

/// Whether the taker trades at price `p`: a market order at any price, a
/// buyer at its limit or below, a seller at its limit or above.
pub open spec fn crosses(taker: Order, p: i64) -> bool {
    ||| taker.order_type == OrderType::Market
    ||| (taker.side == Side::Buy && p <= taker.price.0)
    ||| (taker.side == Side::Sell && taker.price.0 <= p)
}

/// The state of matching one incoming order: the opposite side of the book,
/// the incoming order (the taker) and the trades made so far.
pub struct MatchState {
    pub levels: Map<i64, Seq<Order>>,
    pub taker: Order,
    pub trades: Seq<Trade>,
}

/// Matching stops once the taker is filled, the opposite side is empty, or
/// its best price does not cross the taker's.
pub open spec fn match_done(s: MatchState) -> bool {
    ||| !is_live(s.taker)
    ||| s.levels.dom().is_empty()
    ||| !crosses(s.taker, best_price(s.levels.dom(), s.taker.side))
}

/// The order after `fill` more of it is filled: filled once all of it is,
/// partly filled otherwise.
pub open spec fn after_fill(o: Order, fill: int) -> Order {
    Order {
        filled_qty: Qty((o.filled_qty.0 + fill) as i64),
        status: if o.filled_qty.0 + fill == o.qty.0 {
            OrderStatus::Filled
        } else {
            OrderStatus::PartialFilled
        },
        ..o
    }
}

/// The levels with the queue at `p` replaced by `q`, or removed if `q` is empty.
pub open spec fn set_level(levels: Map<i64, Seq<Order>>, p: i64, q: Seq<Order>) -> Map<i64, Seq<Order>> {
    if q.len() == 0 {
        levels.remove(p)
    } else {
        levels.insert(p, q)
    }
}

/// The trade between the resting `maker` and the incoming `taker` for `fill`
/// at the maker's price `p`, at the time of the taker.
pub open spec fn trade_between(maker: Order, taker: Order, p: i64, fill: int) -> Trade {
    Trade {
        maker_user_id: maker.user_id.0,
        taker_user_id: taker.user_id.0,
        symbol: taker.symbol.0,
        price: p,
        qty: fill as i64,
        timestamp: taker.timestamp,
    }
}

/// One step of matching, by price-time priority: the taker meets the first
/// order at the best price. An order there with nothing left to trade is
/// dropped. Otherwise they trade the smaller of their remaining quantities at
/// the resting order's price; a resting order filled completely leaves the
/// queue, one filled in part stays at its front.
pub open spec fn match_step(s: MatchState) -> MatchState {
    if match_done(s) {
        s
    } else {
        let p = best_price(s.levels.dom(), s.taker.side);
        let maker = s.levels[p][0];
        let rest = s.levels[p].drop_first();
        if !is_live(maker) {
            MatchState { levels: set_level(s.levels, p, rest), ..s }
        } else {
            let fill = if remaining(s.taker) <= remaining(maker) {
                remaining(s.taker)
            } else {
                remaining(maker)
            };
            let maker2 = after_fill(maker, fill);
            let queue = if is_live(maker2) {
                seq![maker2] + rest
            } else {
                rest
            };
            MatchState {
                levels: set_level(s.levels, p, queue),
                taker: after_fill(s.taker, fill),
                trades: s.trades.push(trade_between(maker, s.taker, p, fill)),
            }
        }
    }
}

/// `n` steps of matching.
pub open spec fn match_run(s: MatchState, n: nat) -> MatchState
    decreases n,
{
    if n == 0 {
        s
    } else {
        match_step(match_run(s, (n - 1) as nat))
    }
}

/// Where matching from `s` stops.
pub open spec fn matched(s: MatchState) -> MatchState {
    match_run(s, choose|n: nat| match_done(#[trigger] match_run(s, n)))
}

/// The state in which matching `taker` against `levels` starts.
pub open spec fn match_start(levels: Map<i64, Seq<Order>>, taker: Order) -> MatchState {
    MatchState { levels, taker, trades: Seq::empty() }
}

/// Whether what is left of a matched order rests in the book: a limit order
/// with quantity left does, a market order never does.
pub open spec fn rests(taker: Order) -> bool {
    is_live(taker) && taker.order_type != OrderType::Market
}

/// The own side of the book after matching: the taker's remainder joins it
/// when it rests.
pub open spec fn own_side_after(levels: Map<i64, Seq<Order>>, taker: Order) -> Map<i64, Seq<Order>> {
    if rests(taker) {
        levels_after_add(levels, taker)
    } else {
        levels
    }
}

/// Once matching is done, further steps change nothing.
proof fn lemma_run_stays_done(s: MatchState, n: nat, m: nat)
    requires
        n <= m,
        match_done(match_run(s, n)),
    ensures
        match_run(s, m) == match_run(s, n),
    decreases m - n,
{
    if m > n {
        lemma_run_stays_done(s, n, (m - 1) as nat);
    }
}

/// Matching stops where any run of steps reaches a done state.
proof fn lemma_matched_is(s: MatchState, n: nat)
    requires
        match_done(match_run(s, n)),
    ensures
        matched(s) == match_run(s, n),
        match_done(matched(s)),
{
    let k = choose|k: nat| match_done(#[trigger] match_run(s, k));
    assert(match_done(match_run(s, k)));
    if k <= n {
        lemma_run_stays_done(s, k, n);
    } else {
        lemma_run_stays_done(s, n, k);
    }
}

/// A price that is in `prices` and at least as good as every other is the
/// best price.
proof fn lemma_best_price_is(prices: Set<i64>, taker_side: Side, k: i64)
    requires
        prices.contains(k),
        forall|q: i64| #[trigger]
            prices.contains(q) ==> if taker_side == Side::Buy {
                k <= q
            } else {
                q <= k
            },
    ensures
        best_price(prices, taker_side) == k,
{
    let p = best_price(prices, taker_side);
    assert(prices.contains(p));
}

/// A finite set of prices that is not empty has a best price.
proof fn lemma_best_price_exists(prices: Set<i64>, taker_side: Side)
    requires
        prices.finite(),
        prices.len() > 0,
    ensures
        prices.contains(best_price(prices, taker_side)),
        forall|q: i64| #[trigger]
            prices.contains(q) ==> if taker_side == Side::Buy {
                best_price(prices, taker_side) <= q
            } else {
                q <= best_price(prices, taker_side)
            },
    decreases prices.len(),
{
    let x = prices.choose();
    let others = prices.remove(x);
    if others.len() == 0 {
        assert forall|q: i64| #[trigger] prices.contains(q) implies q == x by {
            if q != x {
                assert(others.contains(q));
            }
        }
        lemma_best_price_is(prices, taker_side, x);
    } else {
        lemma_best_price_exists(others, taker_side);
        let b = best_price(others, taker_side);
        let better = if taker_side == Side::Buy {
            if x <= b { x } else { b }
        } else {
            if b <= x { x } else { b }
        };
        assert forall|q: i64| #[trigger] prices.contains(q) implies if taker_side == Side::Buy {
            better <= q
        } else {
            q <= better
        } by {
            if q != x {
                assert(others.contains(q));
            }
        }
        lemma_best_price_is(prices, taker_side, better);
    }
}

/// A step of matching keeps the opposite side well formed.
proof fn lemma_step_keeps_side_well_formed(s: MatchState)
    requires
        side_well_formed(s.levels, opposite(s.taker.side)),
        s.levels.dom().finite(),
    ensures
        match_step(s).levels.dom().finite(),
        side_well_formed(match_step(s).levels, opposite(s.taker.side)),
        match_step(s).taker.side == s.taker.side,
{
    if !match_done(s) {
        let side = opposite(s.taker.side);
        lemma_best_price_exists(s.levels.dom(), s.taker.side);
        let p = best_price(s.levels.dom(), s.taker.side);
        let q = s.levels[p];
        let after = match_step(s).levels;
        assert forall|k: i64| #[trigger] after.contains_key(k) implies {
            &&& after[k].len() > 0
            &&& forall|i: int|
                0 <= i < after[k].len() ==> (#[trigger] after[k][i]).side == side
                    && after[k][i].price.0 == k
        } by {
            if k == p {
                assert forall|i: int| 0 <= i < after[k].len() implies (#[trigger] after[k][i]).side
                    == side && after[k][i].price.0 == k by {
                    let maker = q[0];
                    if is_live(maker) && is_live(after_fill(maker, if remaining(s.taker) <= remaining(maker) {
                        remaining(s.taker)
                    } else {
                        remaining(maker)
                    })) {
                        if i == 0 {
                        } else {
                            assert(after[k][i] == q[i]);
                        }
                    } else {
                        assert(after[k][i] == q[i + 1]);
                    }
                }
            }
        }
    }
}

/// A run of matching keeps the opposite side well formed.
proof fn lemma_run_keeps_side_well_formed(s: MatchState, n: nat)
    requires
        side_well_formed(s.levels, opposite(s.taker.side)),
        s.levels.dom().finite(),
    ensures
        match_run(s, n).levels.dom().finite(),
        side_well_formed(match_run(s, n).levels, opposite(s.taker.side)),
        match_run(s, n).taker.side == s.taker.side,
    decreases n,
{
    if n > 0 {
        lemma_run_keeps_side_well_formed(s, (n - 1) as nat);
        lemma_step_keeps_side_well_formed(match_run(s, (n - 1) as nat));
    }
}

/// An order that meets no crossing price (or has nothing left to trade)
/// makes no trade and leaves the other side as it was; in particular an order
/// facing an empty side, such as a lone buy order, trades nothing.
pub proof fn lemma_no_cross_no_trade(levels: Map<i64, Seq<Order>>, taker: Order)
    requires
        match_done(match_start(levels, taker)),
    ensures
        matched(match_start(levels, taker)) == match_start(levels, taker),
        matched(match_start(levels, taker)).trades.len() == 0,
{
    lemma_matched_is(match_start(levels, taker), 0);
}

/// The total quantity of a sequence of trades.
pub open spec fn traded_qty(trades: Seq<Trade>) -> int
    decreases trades.len(),
{
    if trades.len() == 0 {
        0
    } else {
        traded_qty(trades.drop_last()) + trades.last().qty
    }
}

/// What a run of matching keeps: the taker is the same order with more of it
/// filled, every trade is for a positive quantity at a price the taker
/// crosses, and the trades add up to what was filled of the taker.
pub open spec fn run_keeps(start: Order, s: MatchState) -> bool {
    &&& s.taker == (Order { filled_qty: s.taker.filled_qty, status: s.taker.status, ..start })
    &&& traded_qty(s.trades) == s.taker.filled_qty.0 - start.filled_qty.0
    &&& forall|i: int|
        0 <= i < s.trades.len() ==> (#[trigger] s.trades[i]).qty > 0 && crosses(
            start,
            s.trades[i].price,
        )
}

proof fn lemma_run_keeps(levels: Map<i64, Seq<Order>>, taker: Order, n: nat)
    requires
        levels.dom().finite(),
        side_well_formed(levels, opposite(taker.side)),
    ensures
        run_keeps(taker, match_run(match_start(levels, taker), n)),
    decreases n,
{
    let s0 = match_start(levels, taker);
    if n == 0 {
        assert(s0.trades.len() == 0);
    } else {
        lemma_run_keeps(levels, taker, (n - 1) as nat);
        lemma_run_keeps_side_well_formed(s0, (n - 1) as nat);
        let s = match_run(s0, (n - 1) as nat);
        let t = match_step(s);
        if !match_done(s) {
            lemma_best_price_exists(s.levels.dom(), s.taker.side);
            let p = best_price(s.levels.dom(), s.taker.side);
            if is_live(s.levels[p][0]) {
                assert(t.trades.drop_last() =~= s.trades);
                assert forall|i: int| 0 <= i < t.trades.len() implies (#[trigger] t.trades[i]).qty > 0
                    && crosses(taker, t.trades[i].price) by {
                    if i < s.trades.len() {
                        assert(t.trades[i] == s.trades[i]);
                    }
                }
            }
        }
    }
}

proof fn lemma_run_shift(s: MatchState, m: nat)
    ensures
        match_run(s, m + 1) == match_run(match_step(s), m),
    decreases m,
{
    assert(match_run(s, m + 1) == match_step(match_run(s, m)));
    if m > 0 {
        lemma_run_shift(s, (m - 1) as nat);
        assert(match_run(s, m) == match_run(match_step(s), (m - 1) as nat));
    } else {
        assert(match_run(s, 0) == s);
    }
}

/// Matching always ends: against a well-formed side with finitely many
/// prices, some number of steps reaches a state where matching is done.
pub proof fn lemma_matching_ends(s: MatchState)
    requires
        s.levels.dom().finite(),
        side_well_formed(s.levels, opposite(s.taker.side)),
    ensures
        exists|n: nat| match_done(#[trigger] match_run(s, n)),
    decreases
        remaining(s.taker),
        s.levels.dom().len(),
        s.levels[best_price(s.levels.dom(), s.taker.side)].len(),
{
    if match_done(s) {
        assert(match_done(match_run(s, 0)));
    } else {
        lemma_best_price_exists(s.levels.dom(), s.taker.side);
        lemma_step_keeps_side_well_formed(s);
        let t = match_step(s);
        let p = best_price(s.levels.dom(), s.taker.side);
        if !is_live(s.levels[p][0]) && s.levels[p].len() > 1 {
            assert(t.levels.dom() =~= s.levels.dom());
        }
        lemma_matching_ends(t);
        let m = choose|m: nat| match_done(#[trigger] match_run(t, m));
        lemma_run_shift(s, m);
        assert(match_done(match_run(s, m + 1)));
    }
}

/// Whether price `a` is at least as good as `b` for a taker on `taker_side`:
/// lower for a buyer, higher for a seller.
pub open spec fn at_least_as_good(taker_side: Side, a: i64, b: i64) -> bool {
    if taker_side == Side::Buy {
        a <= b
    } else {
        b <= a
    }
}

/// Price priority in a run: the trades come from the best price to the worst,
/// and every price still on the other side is no better than any traded one.
pub open spec fn price_priority(taker_side: Side, s: MatchState) -> bool {
    &&& forall|i: int, j: int|
        0 <= i < j < s.trades.len() ==> at_least_as_good(
            taker_side,
            #[trigger] s.trades[i].price,
            #[trigger] s.trades[j].price,
        )
    &&& forall|i: int, q: i64|
        0 <= i < s.trades.len() && #[trigger] s.levels.contains_key(q) ==> at_least_as_good(
            taker_side,
            #[trigger] s.trades[i].price,
            q,
        )
}

proof fn lemma_run_price_priority(levels: Map<i64, Seq<Order>>, taker: Order, n: nat)
    requires
        levels.dom().finite(),
        side_well_formed(levels, opposite(taker.side)),
    ensures
        price_priority(taker.side, match_run(match_start(levels, taker), n)),
    decreases n,
{
    let s0 = match_start(levels, taker);
    if n > 0 {
        lemma_run_price_priority(levels, taker, (n - 1) as nat);
        lemma_run_keeps_side_well_formed(s0, (n - 1) as nat);
        lemma_run_keeps(levels, taker, (n - 1) as nat);
        let s = match_run(s0, (n - 1) as nat);
        let t = match_step(s);
        if !match_done(s) {
            lemma_best_price_exists(s.levels.dom(), s.taker.side);
            let p = best_price(s.levels.dom(), s.taker.side);
            assert forall|q: i64| #[trigger] t.levels.contains_key(q) implies s.levels.contains_key(q)
                && at_least_as_good(taker.side, p, q) by {}
            if is_live(s.levels[p][0]) {
                assert(t.trades.last().price == p);
                assert forall|i: int, j: int|
                    0 <= i < j < t.trades.len() implies at_least_as_good(
                    taker.side,
                    #[trigger] t.trades[i].price,
                    #[trigger] t.trades[j].price,
                ) by {
                    assert(t.trades[i] == s.trades[i]);
                    if j < s.trades.len() {
                        assert(t.trades[j] == s.trades[j]);
                    } else {
                        assert(s.levels.contains_key(p));
                    }
                }
                assert forall|i: int, q: i64|
                    0 <= i < t.trades.len() && #[trigger] t.levels.contains_key(q) implies at_least_as_good(
                    taker.side,
                    #[trigger] t.trades[i].price,
                    q,
                ) by {
                    if i < s.trades.len() {
                        assert(t.trades[i] == s.trades[i]);
                        assert(s.levels.contains_key(q));
                    }
                }
            } else {
                assert forall|i: int, q: i64|
                    0 <= i < t.trades.len() && #[trigger] t.levels.contains_key(q) implies at_least_as_good(
                    taker.side,
                    #[trigger] t.trades[i].price,
                    q,
                ) by {
                    assert(s.levels.contains_key(q));
                }
            }
        }
    }
}

/// Price priority: matching fills the incoming order from the best price on
/// the other side to the worst, and whatever is left there is priced no better
/// than any trade made.
pub proof fn lemma_matching_follows_price_priority(levels: Map<i64, Seq<Order>>, taker: Order)
    requires
        levels.dom().finite(),
        side_well_formed(levels, opposite(taker.side)),
    ensures
        price_priority(taker.side, matched(match_start(levels, taker))),
{
    lemma_matching_ends(match_start(levels, taker));
    let n = choose|n: nat| match_done(#[trigger] match_run(match_start(levels, taker), n));
    lemma_matched_is(match_start(levels, taker), n);
    lemma_run_price_priority(levels, taker, n);
}

/// Matching trades only at prices the incoming order accepts, each trade for
/// a positive quantity, and the trades add up to exactly what was filled of
/// the incoming order; the rest of the order is left as it came in.
pub proof fn lemma_matching_respects_the_order(levels: Map<i64, Seq<Order>>, taker: Order)
    requires
        levels.dom().finite(),
        side_well_formed(levels, opposite(taker.side)),
    ensures
        run_keeps(taker, matched(match_start(levels, taker))),
{
    lemma_matching_ends(match_start(levels, taker));
    let n = choose|n: nat| match_done(#[trigger] match_run(match_start(levels, taker), n));
    lemma_matched_is(match_start(levels, taker), n);
    lemma_run_keeps(levels, taker, n);
}

/// Time priority in one step of matching: only the queue at the best price
/// changes. The taker meets the first order there. If they trade and that
/// order keeps some quantity, it stays at the front with the traded quantity
/// added to its filled quantity, and the orders behind it keep their places;
/// otherwise the first order leaves and the others move up in their order.
pub proof fn lemma_step_keeps_time_priority(s: MatchState)
    requires
        s.levels.dom().finite(),
        side_well_formed(s.levels, opposite(s.taker.side)),
        !match_done(s),
    ensures
        ({
            let p = best_price(s.levels.dom(), s.taker.side);
            let q = s.levels[p];
            let t = match_step(s);
            let traded = t.trades.len() == s.trades.len() + 1;
            let stays = traded && q[0].filled_qty.0 + t.trades.last().qty < q[0].qty.0;
            &&& s.levels.contains_key(p)
            &&& t.trades.len() == s.trades.len() || traded
            &&& t.trades.subrange(0, s.trades.len() as int) == s.trades
            &&& traded <==> 0 <= q[0].filled_qty.0 < q[0].qty.0
            &&& traded ==> {
                &&& t.trades.last().maker_user_id == q[0].user_id.0
                &&& t.trades.last().taker_user_id == s.taker.user_id.0
                &&& t.trades.last().price == p
                &&& t.trades.last().symbol == s.taker.symbol.0
                &&& t.trades.last().timestamp == s.taker.timestamp
                &&& t.trades.last().qty == (if s.taker.qty.0 - s.taker.filled_qty.0 <= q[0].qty.0
                    - q[0].filled_qty.0 {
                    s.taker.qty.0 - s.taker.filled_qty.0
                } else {
                    q[0].qty.0 - q[0].filled_qty.0
                })
                &&& t.taker.filled_qty.0 == s.taker.filled_qty.0 + t.trades.last().qty
                &&& t.taker.id == s.taker.id
                &&& t.taker.qty == s.taker.qty
            }
            &&& !traded ==> t.taker == s.taker
            &&& stays ==> {
                &&& t.levels.contains_key(p)
                &&& t.levels[p].len() == q.len()
                &&& t.levels[p][0].id == q[0].id
                &&& t.levels[p][0].user_id == q[0].user_id
                &&& t.levels[p][0].filled_qty.0 == q[0].filled_qty.0 + t.trades.last().qty
                &&& t.levels[p].drop_first() == q.drop_first()
            }
            &&& !stays ==> {
                &&& t.levels.contains_key(p) == (q.len() > 1)
                &&& q.len() > 1 ==> t.levels[p] == q.drop_first()
            }
            &&& forall|k: i64|
                k != p ==> (#[trigger] t.levels.contains_key(k) == s.levels.contains_key(k)) && (
                s.levels.contains_key(k) ==> t.levels[k] == s.levels[k])
        }),
{
    lemma_best_price_exists(s.levels.dom(), s.taker.side);
    let p = best_price(s.levels.dom(), s.taker.side);
    let q = s.levels[p];
    let t = match_step(s);
    assert(q.len() > 0);
    if is_live(q[0]) {
        let fill = if remaining(s.taker) <= remaining(q[0]) {
            remaining(s.taker)
        } else {
            remaining(q[0])
        };
        assert(t.trades.last().qty == fill);
        assert(t.trades.subrange(0, s.trades.len() as int) =~= s.trades);
        if is_live(after_fill(q[0], fill)) {
            assert((seq![after_fill(q[0], fill)] + q.drop_first()).drop_first() =~= q.drop_first());
        }
    } else {
        assert(t.trades.subrange(0, s.trades.len() as int) =~= s.trades);
    }
}

/// Adding an order appends it at the end of the queue at its price: the new
/// queue is the old one, or the empty one, followed by the order, whatever
/// the quantities; every other price keeps its queue.
pub proof fn lemma_add_appends(levels: Map<i64, Seq<Order>>, order: Order)
    ensures
        ({
            let p = order.price.0;
            let a = levels_after_add(levels, order);
            &&& a.contains_key(p)
            &&& a[p].len() > 0
            &&& a[p].last() == order
            &&& a[p].drop_last() == (if levels.contains_key(p) {
                levels[p]
            } else {
                Seq::<Order>::empty()
            })
            &&& forall|k: i64|
                k != p ==> (#[trigger] a.contains_key(k) == levels.contains_key(k)) && (
                levels.contains_key(k) ==> a[k] == levels[k])
        }),
{
    let p = order.price.0;
    let q = level_or_empty(levels, p);
    assert(q.push(order).drop_last() =~= q);
}

/// Cancelling keeps every other order at the price in the order it had: the
/// queue after the cancel is the old queue without the orders of the
/// cancelled identifier, and it is gone when nothing is left; every other
/// price keeps its queue.
pub proof fn lemma_cancel_keeps_arrival_order(levels: Map<i64, Seq<Order>>, order: Order)
    ensures
        ({
            let p = order.price.0;
            let c = levels_after_cancel(levels, order);
            let kept = |o: Order| o.id != order.id;
            &&& levels.contains_key(p) && c.contains_key(p) ==> c[p] == levels[p].filter(kept)
            &&& levels.contains_key(p) && !c.contains_key(p) ==> levels[p].filter(kept).len() == 0
            &&& !levels.contains_key(p) ==> !c.contains_key(p)
            &&& forall|k: i64|
                k != p ==> (#[trigger] c.contains_key(k) == levels.contains_key(k)) && (
                levels.contains_key(k) ==> c[k] == levels[k])
        }),
{
    let kept = |o: Order| o.id != order.id;
    assert(other_than(order.id) =~= kept);
}

/// The order after `fill` more of it is filled.
fn with_fill(o: Order, fill: i64) -> (r: Order)
    requires
        0 <= o.filled_qty.0 + fill <= o.qty.0,
    ensures
        r == after_fill(o, fill as int),
{
    let filled = o.filled_qty.0 + fill;
    let status = if filled == o.qty.0 {
        OrderStatus::Filled
    } else {
        OrderStatus::PartialFilled
    };
    Order { filled_qty: Qty(filled), status, ..o }
}

/// Matches `taker` against the opposite side `levels` until matching is done,
/// and gives back what is left of the taker and the trades, in the order they
/// were made.
fn match_against(levels: &mut BTreeMap<i64, VecDeque<Order>>, taker: Order) -> (r: (Order, Vec<Trade>))
    requires
        side_well_formed(levels_of(*old(levels)), opposite(taker.side)),
    ensures
        ({
            let m = matched(match_start(levels_of(*old(levels)), taker));
            &&& m.levels == levels_of(*final(levels))
            &&& m.taker == r.0
            &&& m.trades == r.1@
            &&& match_done(m)
        }),
        side_well_formed(levels_of(*final(levels)), opposite(taker.side)),
        r.0.side == taker.side,
{
    let ghost init = match_start(levels_of(*levels), taker);
    let ghost side = opposite(taker.side);
    let mut cur = taker;
    let mut trades: Vec<Trade> = Vec::new();
    let ghost mut n: nat = 0;
    proof {
        assert(trades@ =~= Seq::<Trade>::empty());
    }
    loop
        invariant
            side == opposite(taker.side),
            cur.side == taker.side,
            side_well_formed(levels_of(*levels), side),
            match_run(init, n) == (MatchState { levels: levels_of(*levels), taker: cur, trades: trades@ }),
        ensures
            match_done(match_run(init, n)),
        decreases
            remaining(cur),
            levels_of(*levels).dom().len(),
            levels_of(*levels)[best_price(levels_of(*levels).dom(), cur.side)].len(),
    {
        let ghost before = MatchState { levels: levels_of(*levels), taker: cur, trades: trades@ };
        if !(0 <= cur.filled_qty.0 && cur.filled_qty.0 < cur.qty.0) {
            break;
        }
        let best = match cur.side {
            Side::Buy => least_key(levels),
            Side::Sell => greatest_key(levels),
        };
        if best.is_none() {
            proof {
                assert(levels_of(*levels).dom() =~= levels@.dom());
            }
            break;
        }
        let p = best.unwrap();
        proof {
            assert(levels_of(*levels).dom() =~= levels@.dom());
            lemma_best_price_is(levels_of(*levels).dom(), cur.side, p);
        }
        let cross = match cur.order_type {
            OrderType::Market => true,
            _ => match cur.side {
                Side::Buy => p <= cur.price.0,
                Side::Sell => cur.price.0 <= p,
            },
        };
        if !cross {
            break;
        }
        let ghost old_map = *levels;
        let removed = levels.remove(&p);
        if removed.is_none() {
            proof {
                assert(false);
            }
            break;
        }
        let mut queue = removed.unwrap();
        let ghost q = queue@;
        proof {
            assert(q == before.levels[p]);
            assert(q.len() > 0);
        }
        let first = queue.pop_front();
        if first.is_none() {
            proof {
                assert(false);
            }
            break;
        }
        let maker = first.unwrap();
        proof {
            assert(maker == q[0]);
            assert(queue@ =~= q.drop_first());
        }
        if 0 <= maker.filled_qty.0 && maker.filled_qty.0 < maker.qty.0 {
            let taker_left = cur.qty.0 - cur.filled_qty.0;
            let maker_left = maker.qty.0 - maker.filled_qty.0;
            let fill = if taker_left <= maker_left {
                taker_left
            } else {
                maker_left
            };
            trades.push(
                Trade {
                    maker_user_id: maker.user_id.0,
                    taker_user_id: cur.user_id.0,
                    symbol: cur.symbol.0,
                    price: p,
                    qty: fill,
                    timestamp: cur.timestamp,
                },
            );
            let maker2 = with_fill(maker, fill);
            cur = with_fill(cur, fill);
            if maker2.filled_qty.0 < maker2.qty.0 {
                queue.push_front(maker2);
            }
        }
        if queue.len() > 0 {
            levels.insert(p, queue);
        }
        proof {
            let after = match_step(before);
            assert(levels_of(*levels) =~= after.levels);
            assert(trades@ =~= after.trades);
            assert(levels_of(old_map).dom() =~= old_map@.dom());
            lemma_step_keeps_side_well_formed(before);
            n = n + 1;
        }
    }
    proof {
        lemma_matched_is(init, n);
    }
    (cur, trades)
}

/// The order book of one market.
pub struct OrderBook {
    bids: BTreeMap<i64, VecDeque<Order>>,
    asks: BTreeMap<i64, VecDeque<Order>>,
}

impl OrderBook {
    /// The buy orders waiting in the book, by price.
    pub closed spec fn bid_levels(&self) -> Map<i64, Seq<Order>> {
        levels_of(self.bids)
    }

    /// The sell orders waiting in the book, by price.
    pub closed spec fn ask_levels(&self) -> Map<i64, Seq<Order>> {
        levels_of(self.asks)
    }

    /// No level is empty, bids hold buy orders and asks sell orders, each at
    /// its own price.
    pub open spec fn well_formed(&self) -> bool {
        &&& side_well_formed(self.bid_levels(), Side::Buy)
        &&& side_well_formed(self.ask_levels(), Side::Sell)
    }

    #[verifier::type_invariant]
    spec fn book_invariant(self) -> bool {
        self.well_formed()
    }

    /// An empty book.
    pub fn new() -> (book: Self)
        ensures
            book.bid_levels() == Map::<i64, Seq<Order>>::empty(),
            book.ask_levels() == Map::<i64, Seq<Order>>::empty(),
            book.well_formed(),
    {
        let book = OrderBook { bids: BTreeMap::new(), asks: BTreeMap::new() };
        proof {
            assert(levels_of(book.bids) =~= Map::<i64, Seq<Order>>::empty());
            assert(levels_of(book.asks) =~= Map::<i64, Seq<Order>>::empty());
        }
        book
    }

    /// Puts the order at the back of the queue at its price, on its side.
    pub fn add_order(&mut self, order: Order)
        ensures
            order.side == Side::Buy ==> {
                &&& final(self).bid_levels() == levels_after_add(old(self).bid_levels(), order)
                &&& final(self).ask_levels() == old(self).ask_levels()
            },
            order.side == Side::Sell ==> {
                &&& final(self).ask_levels() == levels_after_add(old(self).ask_levels(), order)
                &&& final(self).bid_levels() == old(self).bid_levels()
            },
            final(self).well_formed(),
    {
        proof {
            use_type_invariant(&*self);
        }
        let ghost old_levels = if order.side == Side::Buy { levels_of(self.bids) } else { levels_of(self.asks) };
        let mut levels: BTreeMap<i64, VecDeque<Order>> = BTreeMap::new();
        match order.side {
            Side::Buy => {
                std::mem::swap(&mut levels, &mut self.bids);
                push_order(&mut levels, order);
                proof {
                    lemma_add_keeps_side_well_formed(old_levels, order, Side::Buy);
                }
                self.bids = levels;
            },
            Side::Sell => {
                std::mem::swap(&mut levels, &mut self.asks);
                push_order(&mut levels, order);
                proof {
                    lemma_add_keeps_side_well_formed(old_levels, order, Side::Sell);
                }
                self.asks = levels;
            },
        }
        proof {
            use_type_invariant(&*self);
        }
    }

    /// Takes every order with the identifier of `order` out of the queue at
    /// its price on its side, and drops the queue once it is empty.
    pub fn cancel_order(&mut self, order: Order)
        ensures
            order.side == Side::Buy ==> {
                &&& final(self).bid_levels() == levels_after_cancel(old(self).bid_levels(), order)
                &&& final(self).ask_levels() == old(self).ask_levels()
            },
            order.side == Side::Sell ==> {
                &&& final(self).ask_levels() == levels_after_cancel(old(self).ask_levels(), order)
                &&& final(self).bid_levels() == old(self).bid_levels()
            },
            final(self).well_formed(),
    {
        proof {
            use_type_invariant(&*self);
        }
        let ghost old_levels = if order.side == Side::Buy { levels_of(self.bids) } else { levels_of(self.asks) };
        let mut levels: BTreeMap<i64, VecDeque<Order>> = BTreeMap::new();
        match order.side {
            Side::Buy => {
                std::mem::swap(&mut levels, &mut self.bids);
                remove_order(&mut levels, &order);
                proof {
                    lemma_cancel_keeps_side_well_formed(old_levels, order, Side::Buy);
                }
                self.bids = levels;
            },
            Side::Sell => {
                std::mem::swap(&mut levels, &mut self.asks);
                remove_order(&mut levels, &order);
                proof {
                    lemma_cancel_keeps_side_well_formed(old_levels, order, Side::Sell);
                }
                self.asks = levels;
            },
        }
        proof {
            use_type_invariant(&*self);
        }
    }

    /// Matches an incoming order against the other side of the book by
    /// price-time priority and returns the trades, in the order they were
    /// made. What is left of a limit order then rests on its own side; what
    /// is left of a market order is dropped.
    pub fn match_order(&mut self, order: Order) -> (trades: Vec<Trade>)
        ensures
            ({
                let opposite_before = if order.side == Side::Buy {
                    old(self).ask_levels()
                } else {
                    old(self).bid_levels()
                };
                let m = matched(match_start(opposite_before, order));
                &&& match_done(m)
                &&& trades@ == m.trades
                &&& order.side == Side::Buy ==> {
                    &&& final(self).ask_levels() == m.levels
                    &&& final(self).bid_levels() == own_side_after(old(self).bid_levels(), m.taker)
                }
                &&& order.side == Side::Sell ==> {
                    &&& final(self).bid_levels() == m.levels
                    &&& final(self).ask_levels() == own_side_after(old(self).ask_levels(), m.taker)
                }
            }),
            final(self).well_formed(),
    {
        proof {
            use_type_invariant(&*self);
        }
        let ghost own_before = if order.side == Side::Buy { levels_of(self.bids) } else { levels_of(self.asks) };
        let mut opposite_levels: BTreeMap<i64, VecDeque<Order>> = BTreeMap::new();
        let mut own_levels: BTreeMap<i64, VecDeque<Order>> = BTreeMap::new();
        match order.side {
            Side::Buy => {
                std::mem::swap(&mut opposite_levels, &mut self.asks);
                std::mem::swap(&mut own_levels, &mut self.bids);
            },
            Side::Sell => {
                std::mem::swap(&mut opposite_levels, &mut self.bids);
                std::mem::swap(&mut own_levels, &mut self.asks);
            },
        }
        let side = order.side;
        let (taker, trades) = match_against(&mut opposite_levels, order);
        let live = 0 <= taker.filled_qty.0 && taker.filled_qty.0 < taker.qty.0;
        let limit = match taker.order_type {
            OrderType::Market => false,
            _ => true,
        };
        if live && limit {
            proof {
                lemma_add_keeps_side_well_formed(own_before, taker, side);
            }
            push_order(&mut own_levels, taker);
        }
        match side {
            Side::Buy => {
                self.asks = opposite_levels;
                self.bids = own_levels;
            },
            Side::Sell => {
                self.bids = opposite_levels;
                self.asks = own_levels;
            },
        }
        proof {
            use_type_invariant(&*self);
        }
        trades
    }

    /// The lowest price at which someone sells, if anyone does.
    pub fn best_ask_price(&mut self) -> (r: Option<Price>)
        ensures
            *final(self) == *old(self),
            is_lowest_price(old(self).ask_levels(), r),
            r is None <==> old(self).ask_levels().dom().is_empty(),
            r matches Some(p) ==> old(self).ask_levels().contains_key(p.0) && forall|q: i64| #[trigger]
                old(self).ask_levels().contains_key(q) ==> p.0 <= q,
    {
        match least_key(&self.asks) {
            Some(k) => Some(Price(k)),
            None => None,
        }
    }

    /// The highest price at which someone buys, if anyone does.
    pub fn best_bid_price(&self) -> (r: Option<Price>)
        ensures
            is_highest_price(self.bid_levels(), r),
            r is None <==> self.bid_levels().dom().is_empty(),
            r matches Some(p) ==> self.bid_levels().contains_key(p.0) && forall|q: i64| #[trigger]
                self.bid_levels().contains_key(q) ==> q <= p.0,
    {
        match greatest_key(&self.bids) {
            Some(k) => Some(Price(k)),
            None => None,
        }
    }

    /// The queue of buy orders waiting at `price`, first come first.
    pub fn bid_level(&self, price: Price) -> (r: Option<&VecDeque<Order>>)
        ensures
            match r {
                Some(q) => self.bid_levels().contains_key(price.0) && q@ == self.bid_levels()[price.0],
                None => !self.bid_levels().contains_key(price.0),
            },
    {
        self.bids.get(&price.0)
    }

    /// The queue of sell orders waiting at `price`, first come first.
    pub fn ask_level(&self, price: Price) -> (r: Option<&VecDeque<Order>>)
        ensures
            match r {
                Some(q) => self.ask_levels().contains_key(price.0) && q@ == self.ask_levels()[price.0],
                None => !self.ask_levels().contains_key(price.0),
            },
    {
        self.asks.get(&price.0)
    }
}

/// Filtering out an identifier that no order in `s` carries leaves `s` as it is.
proof fn lemma_filter_keeps_all(s: Seq<Order>, id: OrderId)
    requires
        forall|i: int| 0 <= i < s.len() ==> (#[trigger] s[i]).id != id,
    ensures
        s.filter(other_than(id)) == s,
    decreases s.len(),
{
    if s.len() == 0 {
        reveal(Seq::filter);
    } else {
        let init = s.drop_last();
        lemma_filter_keeps_all(init, id);
        init.lemma_filter_push(s.last(), other_than(id));
        assert(init.push(s.last()) =~= s);
    }
}

/// Cancelling an order right after adding it, when no order with its
/// identifier waited at its price before, gives back the levels as they were.
pub proof fn lemma_cancel_undoes_add(levels: Map<i64, Seq<Order>>, order: Order)
    requires
        side_well_formed(levels, order.side),
        forall|i: int|
            0 <= i < level_or_empty(levels, order.price.0).len() ==> (#[trigger] level_or_empty(
                levels,
                order.price.0,
            )[i]).id != order.id,
    ensures
        levels_after_cancel(levels_after_add(levels, order), order) == levels,
{
    let p = order.price.0;
    let q = level_or_empty(levels, p);
    lemma_filter_keeps_all(q, order.id);
    q.lemma_filter_push(order, other_than(order.id));
    assert(levels_after_add(levels, order)[p] == q.push(order));
    assert(q.push(order).filter(other_than(order.id)) == q);
    assert(levels_after_cancel(levels_after_add(levels, order), order) =~= levels);
}

/// Cancelling an order whose identifier waits nowhere at its price changes
/// nothing.
pub proof fn lemma_cancel_absent_is_noop(levels: Map<i64, Seq<Order>>, order: Order)
    requires
        side_well_formed(levels, order.side),
        forall|i: int|
            0 <= i < level_or_empty(levels, order.price.0).len() ==> (#[trigger] level_or_empty(
                levels,
                order.price.0,
            )[i]).id != order.id,
    ensures
        levels_after_cancel(levels, order) == levels,
{
    let p = order.price.0;
    if levels.contains_key(p) {
        let q = level_or_empty(levels, p);
        assert(q == levels[p]);
        assert forall|i: int| 0 <= i < q.len() implies (#[trigger] q[i]).id != order.id by {
            assert(level_or_empty(levels, order.price.0)[i] == q[i]);
        }
        lemma_filter_keeps_all(q, order.id);
        assert(levels_after_cancel(levels, order) =~= levels);
    }
}

/// After a cancel, no order with the cancelled identifier waits at that price.
pub proof fn lemma_cancel_removes_id(levels: Map<i64, Seq<Order>>, order: Order)
    ensures
        forall|i: int|
            0 <= i < level_or_empty(levels_after_cancel(levels, order), order.price.0).len()
                ==> (#[trigger] level_or_empty(levels_after_cancel(levels, order), order.price.0)[i]).id
                != order.id,
{
    broadcast use vstd::seq_lib::group_filter_ensures;

    let p = order.price.0;
    if levels.contains_key(p) {
        let rest = levels[p].filter(other_than(order.id));
        assert forall|i: int| 0 <= i < rest.len() implies (#[trigger] rest[i]).id != order.id by {
            assert(other_than(order.id)(rest[i]));
        }
    }
}

/// Adding an order of the side keeps that side well formed.
proof fn lemma_add_keeps_side_well_formed(levels: Map<i64, Seq<Order>>, order: Order, side: Side)
    requires
        side_well_formed(levels, side),
        order.side == side,
    ensures
        side_well_formed(levels_after_add(levels, order), side),
{
    let after = levels_after_add(levels, order);
    assert forall|p: i64| #[trigger] after.contains_key(p) implies {
        &&& after[p].len() > 0
        &&& forall|i: int|
            0 <= i < after[p].len() ==> (#[trigger] after[p][i]).side == side
                && after[p][i].price.0 == p
    } by {
        if p == order.price.0 {
            let q = level_or_empty(levels, p);
            assert forall|i: int| 0 <= i < after[p].len() implies (#[trigger] after[p][i]).side == side
                && after[p][i].price.0 == p by {
                if i < q.len() {
                    assert(after[p][i] == q[i]);
                }
            }
        }
    }
}

/// Cancelling keeps a side well formed.
proof fn lemma_cancel_keeps_side_well_formed(levels: Map<i64, Seq<Order>>, order: Order, side: Side)
    requires
        side_well_formed(levels, side),
    ensures
        side_well_formed(levels_after_cancel(levels, order), side),
{
    broadcast use vstd::seq_lib::group_filter_ensures;

    let after = levels_after_cancel(levels, order);
    assert forall|p: i64| #[trigger] after.contains_key(p) implies {
        &&& after[p].len() > 0
        &&& forall|i: int|
            0 <= i < after[p].len() ==> (#[trigger] after[p][i]).side == side
                && after[p][i].price.0 == p
    } by {
        if p == order.price.0 {
            let q = levels[p];
            let rest = q.filter(other_than(order.id));
            assert forall|i: int| 0 <= i < rest.len() implies (#[trigger] rest[i]).side == side
                && rest[i].price.0 == p by {
                assert(rest.contains(rest[i]));
                q.lemma_filter_contains_rev(other_than(order.id), rest[i]);
                let j = choose|j: int| 0 <= j < q.len() && q[j] == rest[i];
                assert(levels[p][j].side == side);
            }
        }
    }
}

} // verus!
