use cex::intake::timestamp_from_secs;
use cex::domain::{Order, OrderId, OrderStatus, OrderType, Price, Qty, Side, Symbol, UserId};
use cex::intake::{funds_to_lock, intake_step, receive_order, IntakeAction, IntakeEvent, IntakeReply};

fn payload(side: Side) -> Order {
    Order {
        id: OrderId(1),
        user_id: UserId(101),
        symbol: Symbol(*b"BTC/USD\0"),
        side,
        order_type: OrderType::Limit,
        price: Price(50000),
        qty: Qty(10),
        filled_qty: Qty(3),
        timestamp: 12345,
        status: OrderStatus::Filled,
    }
}

#[test]
fn a_received_order_is_stamped_and_pending() {
    let o = receive_order(&payload(Side::Sell), 999);
    assert_eq!(o.timestamp, 999);
    assert_eq!(o.status, OrderStatus::Pending);
    assert_eq!(o.id, OrderId(1));
    assert_eq!(o.filled_qty, Qty(3));
    assert_eq!(o.side, Side::Sell);
}

#[test]
fn buyers_lock_their_cost_in_dollars_sellers_their_coins() {
    assert_eq!(funds_to_lock(&payload(Side::Buy)), ("USD", 500_000));
    assert_eq!(funds_to_lock(&payload(Side::Sell)), ("BTC", 10));
}

fn reply(a: IntakeAction) -> IntakeReply {
    match a {
        IntakeAction::Reply(r) => r,
        _ => panic!("expected a reply"),
    }
}

#[test]
fn the_intake_moves_step_by_step() {
    assert!(matches!(intake_step(IntakeEvent::MarketChecked { known: true }), IntakeAction::LockFunds));
    assert!(matches!(intake_step(IntakeEvent::FundsLocked), IntakeAction::SaveOrder));
    assert!(matches!(intake_step(IntakeEvent::OrderSaved), IntakeAction::Forward));
    let done = reply(intake_step(IntakeEvent::Forwarded { delivered: false }));
    assert_eq!(done.status(), 200);
    assert_eq!(done.text(), "Order created and funds locked!");
}

#[test]
fn each_failure_gets_its_answer() {
    let r = reply(intake_step(IntakeEvent::MarketChecked { known: false }));
    assert_eq!((r.status(), r.text()), (400, "Invalid order the market is not present!".to_string()));
    let r = reply(intake_step(IntakeEvent::FundsInsufficient));
    assert_eq!((r.status(), r.text()), (400, "Insufficient funds!".to_string()));
    let r = reply(intake_step(IntakeEvent::LockFailed));
    assert_eq!((r.status(), r.text()), (500, "Risk check failed internally.".to_string()));
    let r = reply(intake_step(IntakeEvent::SaveFailed("disk full".to_string())));
    assert_eq!((r.status(), r.text()), (500, "disk full".to_string()));
}

#[test]
fn clock_readings_become_timestamps() {
    assert_eq!(timestamp_from_secs(1_700_000_000), 1_700_000_000);
    assert_eq!(timestamp_from_secs(u64::MAX), -1);
}
