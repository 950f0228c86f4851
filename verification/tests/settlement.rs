use cex::settlement::{lock_changes, lock_outcome, settlement_outcome, LockOutcome, SettlementOutcome};
use cex::settlement::{settlement_changes, BalanceColumn};

#[test]
fn a_trade_moves_locked_funds_to_the_other_side() {
    let changes = settlement_changes(1, 2, "BTC", "USD", 3, 150);
    let seen: Vec<(i64, String, BalanceColumn, bool, i64)> = changes
        .iter()
        .map(|c| (c.user_id, c.asset.clone(), c.column, c.credit, c.amount))
        .collect();
    assert_eq!(
        seen,
        vec![
            (1, "BTC".to_string(), BalanceColumn::Locked, false, 3),
            (1, "USD".to_string(), BalanceColumn::Free, true, 150),
            (2, "USD".to_string(), BalanceColumn::Locked, false, 150),
            (2, "BTC".to_string(), BalanceColumn::Free, true, 3),
        ]
    );
    for asset in ["BTC", "USD"] {
        let net: i64 = changes
            .iter()
            .filter(|c| c.asset == asset)
            .map(|c| if c.credit { c.amount } else { -c.amount })
            .sum();
        assert_eq!(net, 0);
    }
}


#[test]
fn locking_moves_free_funds_to_locked() {
    let changes = lock_changes(7, "USD", 650_000);
    let seen: Vec<(i64, String, BalanceColumn, bool, i64)> = changes
        .iter()
        .map(|c| (c.user_id, c.asset.clone(), c.column, c.credit, c.amount))
        .collect();
    assert_eq!(
        seen,
        vec![
            (7, "USD".to_string(), BalanceColumn::Free, false, 650_000),
            (7, "USD".to_string(), BalanceColumn::Locked, true, 650_000),
        ]
    );
    assert_eq!(changes.iter().map(|c| c.guarded).collect::<Vec<bool>>(), vec![true, false]);
    assert_eq!(lock_outcome(0), LockOutcome::Refused);
    assert_eq!(lock_outcome(1), LockOutcome::Committed);
}

#[test]
fn a_settlement_commits_only_when_every_balance_was_found() {
    assert!(settlement_changes(1, 2, "BTC", "USD", 3, 150).iter().all(|c| !c.guarded));
    assert_eq!(settlement_outcome(&[1, 1, 1, 1]), SettlementOutcome::Commit);
    assert_eq!(settlement_outcome(&[1, 2, 1, 1]), SettlementOutcome::Commit);
    assert_eq!(settlement_outcome(&[1, 1, 1, 0]), SettlementOutcome::RollBack);
    assert_eq!(settlement_outcome(&[0, 1, 1, 1]), SettlementOutcome::RollBack);
}
