//! Order intake: how the exchange stamps an incoming order, which funds it
//! locks for it, and what it does next after each step of the intake (market
//! check, risk check, storage, hand-over to the matching engine).
use crate::domain::{Order, OrderStatus, Side};
use vstd::prelude::*;

verus! {

/// The client's order as the exchange takes it in: stamped with the time of
/// receipt and pending, everything else as the client sent it.
pub open spec fn received(payload: Order, timestamp: i64) -> Order {
    Order { timestamp, status: OrderStatus::Pending, ..payload }
}

/// The order timestamp for a clock reading of `secs` whole seconds since the
/// Unix epoch, converted as `as` does: readings past `i64::MAX` wrap around.
pub fn timestamp_from_secs(secs: u64) -> (t: i64)
    ensures
        t == secs as i64,
        secs <= i64::MAX ==> t == secs,
{
    secs as i64
}

/// Takes in the client's order at `timestamp`.
pub fn receive_order(payload: &Order, timestamp: i64) -> (o: Order)
    ensures
        o == received(*payload, timestamp),
        o.id == payload.id,
        o.user_id == payload.user_id,
        o.symbol == payload.symbol,
        o.side == payload.side,
        o.order_type == payload.order_type,
        o.price == payload.price,
        o.qty == payload.qty,
        o.filled_qty == payload.filled_qty,
        o.timestamp == timestamp,
        o.status == OrderStatus::Pending,
{
    Order {
        id: payload.id,
        user_id: payload.user_id,
        symbol: payload.symbol,
        side: payload.side,
        order_type: payload.order_type,
        price: payload.price,
        qty: payload.qty,
        filled_qty: payload.filled_qty,
        timestamp,
        status: OrderStatus::Pending,
    }
}

/// Whether the cost of the order, price times quantity, fits in an `i64`.
pub open spec fn cost_fits(order: Order) -> bool {
    i64::MIN <= order.price.0 * order.qty.0 <= i64::MAX
}

/// The asset that an order locks: a buyer pays in dollars, a seller hands
/// over bitcoin.
pub open spec fn locked_asset(side: Side) -> Seq<char> {
    match side {
        Side::Buy => "USD"@,
        Side::Sell => "BTC"@,
    }
}

/// The amount that an order locks: a buyer its whole cost, a seller the
/// quantity it sells.
pub open spec fn locked_amount(order: Order) -> int {
    match order.side {
        Side::Buy => order.price.0 * order.qty.0,
        Side::Sell => order.qty.0 as int,
    }
}

/// Taking in an order changes only its time stamp and its status: the
/// order keeps its identifier, its owner, its market, side, type, price,
/// quantity and filled quantity.
pub proof fn lemma_receiving_changes_only_the_stamp(payload: Order, timestamp: i64)
    ensures
        received(payload, timestamp).id == payload.id,
        received(payload, timestamp).user_id == payload.user_id,
        received(payload, timestamp).symbol == payload.symbol,
        received(payload, timestamp).side == payload.side,
        received(payload, timestamp).order_type == payload.order_type,
        received(payload, timestamp).price == payload.price,
        received(payload, timestamp).qty == payload.qty,
        received(payload, timestamp).filled_qty == payload.filled_qty,
        received(payload, timestamp).timestamp == timestamp,
        received(payload, timestamp).status == OrderStatus::Pending,
{
}

/// Whatever its type, a buy order locks its whole cost, price times
/// quantity, in dollars, and a sell order locks its quantity in bitcoin.
pub proof fn lemma_locked_funds(order: Order)
    ensures
        order.side == Side::Buy ==> locked_asset(order.side) == "USD"@ && locked_amount(order)
            == order.price.0 * order.qty.0,
        order.side == Side::Sell ==> locked_asset(order.side) == "BTC"@ && locked_amount(order)
            == order.qty.0,
{
}

/// The asset and the amount of it to lock before the order may enter the
/// book.
pub fn funds_to_lock(order: &Order) -> (r: (&'static str, i64))
    requires
        cost_fits(*order),
    ensures
        r.0@ == locked_asset(order.side),
        r.1 == locked_amount(*order),
        order.side == Side::Buy ==> r.0@ == "USD"@ && r.1 == order.price.0 * order.qty.0,
        order.side == Side::Sell ==> r.0@ == "BTC"@ && r.1 == order.qty.0,
{
    let cost = order.price.0 * order.qty.0;
    let asset = match order.side {
        Side::Buy => "USD",
        Side::Sell => "BTC",
    };
    let amount = match order.side {
        Side::Buy => cost,
        Side::Sell => order.qty.0,
    };
    (asset, amount)
}

/// What came of the last step of the intake.
pub enum IntakeEvent {
    /// The market of the order was looked up; `known` tells whether it runs.
    MarketChecked { known: bool },
    /// The funds were locked.
    FundsLocked,
    /// The user has too little free balance.
    FundsInsufficient,
    /// The risk check failed for another reason.
    LockFailed,
    /// The order was stored.
    OrderSaved,
    /// Storing the order failed, with this error text.
    SaveFailed(String),
    /// The order was handed to the matching engine, or the hand-over failed.
    Forwarded { delivered: bool },
}

/// The answer that the client gets.
pub enum IntakeReply {
    Created,
    MarketMissing,
    InsufficientFunds,
    RiskCheckFailed,
    SaveFailed(String),
}

/// What the intake does next.
pub enum IntakeAction {
    LockFunds,
    SaveOrder,
    Forward,
    Reply(IntakeReply),
}

/// The next action after each event: lock funds once the market is known,
/// store the order once the funds are locked, hand it over once stored, and
/// answer the client when a step fails or the hand-over is done, whether it
/// was delivered or not.
pub open spec fn next_action(event: IntakeEvent) -> IntakeAction {
    match event {
        IntakeEvent::MarketChecked { known } => if known {
            IntakeAction::LockFunds
        } else {
            IntakeAction::Reply(IntakeReply::MarketMissing)
        },
        IntakeEvent::FundsLocked => IntakeAction::SaveOrder,
        IntakeEvent::FundsInsufficient => IntakeAction::Reply(IntakeReply::InsufficientFunds),
        IntakeEvent::LockFailed => IntakeAction::Reply(IntakeReply::RiskCheckFailed),
        IntakeEvent::OrderSaved => IntakeAction::Forward,
        IntakeEvent::SaveFailed(e) => IntakeAction::Reply(IntakeReply::SaveFailed(e)),
        IntakeEvent::Forwarded { delivered: _ } => IntakeAction::Reply(IntakeReply::Created),
    }
}

/// Decides the next step of the intake from the outcome of the last one.
pub fn intake_step(event: IntakeEvent) -> (a: IntakeAction)
    ensures
        a == next_action(event),
{
    match event {
        IntakeEvent::MarketChecked { known } => if known {
            IntakeAction::LockFunds
        } else {
            IntakeAction::Reply(IntakeReply::MarketMissing)
        },
        IntakeEvent::FundsLocked => IntakeAction::SaveOrder,
        IntakeEvent::FundsInsufficient => IntakeAction::Reply(IntakeReply::InsufficientFunds),
        IntakeEvent::LockFailed => IntakeAction::Reply(IntakeReply::RiskCheckFailed),
        IntakeEvent::OrderSaved => IntakeAction::Forward,
        IntakeEvent::SaveFailed(e) => IntakeAction::Reply(IntakeReply::SaveFailed(e)),
        IntakeEvent::Forwarded { delivered: _ } => IntakeAction::Reply(IntakeReply::Created),
    }
}

/// The intake runs in order: funds are locked only for a known market, an
/// order is stored only after its funds were locked, handed to the matching
/// engine only after it was stored, and the client hears that it was created
/// only after the hand-over.
pub proof fn lemma_intake_runs_in_order(event: IntakeEvent)
    ensures
        next_action(event) is LockFunds <==> event == (IntakeEvent::MarketChecked { known: true }),
        next_action(event) is SaveOrder <==> event is FundsLocked,
        next_action(event) is Forward <==> event is OrderSaved,
        next_action(event) == IntakeAction::Reply(IntakeReply::Created) <==> event is Forwarded,
{
}

/// The HTTP status of each reply.
pub open spec fn reply_status(r: IntakeReply) -> u16 {
    match r {
        IntakeReply::Created => 200,
        IntakeReply::MarketMissing => 400,
        IntakeReply::InsufficientFunds => 400,
        IntakeReply::RiskCheckFailed => 500,
        IntakeReply::SaveFailed(_) => 500,
    }
}

/// The text of each reply.
pub open spec fn reply_text(r: IntakeReply) -> Seq<char> {
    match r {
        IntakeReply::Created => "Order created and funds locked!"@,
        IntakeReply::MarketMissing => "Invalid order the market is not present!"@,
        IntakeReply::InsufficientFunds => "Insufficient funds!"@,
        IntakeReply::RiskCheckFailed => "Risk check failed internally."@,
        IntakeReply::SaveFailed(e) => e@,
    }
}

impl IntakeReply {
    /// The HTTP status of the reply.
    pub fn status(&self) -> (s: u16)
        ensures
            s == reply_status(*self),
    {
        match self {
            IntakeReply::Created => 200,
            IntakeReply::MarketMissing => 400,
            IntakeReply::InsufficientFunds => 400,
            IntakeReply::RiskCheckFailed => 500,
            IntakeReply::SaveFailed(_) => 500,
        }
    }

    /// The text of the reply.
    pub fn text(&self) -> (t: String)
        ensures
            t@ == reply_text(*self),
    {
        match self {
            IntakeReply::Created => String::from_str("Order created and funds locked!"),
            IntakeReply::MarketMissing => String::from_str("Invalid order the market is not present!"),
            IntakeReply::InsufficientFunds => String::from_str("Insufficient funds!"),
            IntakeReply::RiskCheckFailed => String::from_str("Risk check failed internally."),
            IntakeReply::SaveFailed(e) => e.clone(),
        }
    }
}

} // verus!
