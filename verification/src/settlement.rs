//! Settlement: the balance changes that a confirmed trade makes, which the
//! exchange applies in one database transaction.
use vstd::prelude::*;

verus! {

/// The two balances that a user holds in each asset.
#[derive(Debug, Clone, Copy, PartialEq, Eq, Structural)]
pub enum BalanceColumn {
    /// What the user may spend.
    Free,
    /// What is reserved for the user's open orders.
    Locked,
}

/// One change of one balance: `amount` added to it (a credit) or taken from
/// it (a debit). A guarded change is applied only where the balance covers
/// the amount.
pub struct BalanceChange {
    pub user_id: i64,
    pub asset: String,
    pub column: BalanceColumn,
    pub credit: bool,
    pub amount: i64,
    pub guarded: bool,
}

/// A balance change as plain values.
pub struct ChangeView {
    pub user_id: i64,
    pub asset: Seq<char>,
    pub column: BalanceColumn,
    pub credit: bool,
    pub amount: i64,
    pub guarded: bool,
}

impl View for BalanceChange {
    type V = ChangeView;

    open spec fn view(&self) -> ChangeView {
        ChangeView {
            user_id: self.user_id,
            asset: self.asset@,
            column: self.column,
            credit: self.credit,
            amount: self.amount,
            guarded: self.guarded,
        }
    }
}

/// The changes that settle a trade in which the maker sold `base_qty` of the
/// base asset for `quote_qty` of the quote asset to the taker, in the order
/// they are applied: the maker's locked base goes, the maker is paid in free
/// quote, the taker's locked quote goes, the taker receives free base.
pub open spec fn settlement(
    maker_user_id: i64,
    taker_user_id: i64,
    base_asset: Seq<char>,
    quote_asset: Seq<char>,
    base_qty: i64,
    quote_qty: i64,
) -> Seq<ChangeView> {
    seq![
        ChangeView { user_id: maker_user_id, asset: base_asset, column: BalanceColumn::Locked, credit: false, amount: base_qty, guarded: false },
        ChangeView { user_id: maker_user_id, asset: quote_asset, column: BalanceColumn::Free, credit: true, amount: quote_qty, guarded: false },
        ChangeView { user_id: taker_user_id, asset: quote_asset, column: BalanceColumn::Locked, credit: false, amount: quote_qty, guarded: false },
        ChangeView { user_id: taker_user_id, asset: base_asset, column: BalanceColumn::Free, credit: true, amount: base_qty, guarded: false },
    ]
}

fn change(user_id: i64, asset: &str, column: BalanceColumn, credit: bool, amount: i64, guarded: bool) -> (c: BalanceChange)
    ensures
        c@ == (ChangeView { user_id, asset: asset@, column, credit, amount, guarded }),
{
    BalanceChange { user_id, asset: asset.to_owned(), column, credit, amount, guarded }
}

/// The balance changes that settle a trade between `maker_user_id`, whose
/// order rested in the book, and `taker_user_id`, whose order crossed it.
pub fn settlement_changes(
    maker_user_id: i64,
    taker_user_id: i64,
    base_asset: &str,
    quote_asset: &str,
    base_qty: i64,
    quote_qty: i64,
) -> (r: Vec<BalanceChange>)
    ensures
        r@.map_values(|c: BalanceChange| c@) == settlement(
            maker_user_id,
            taker_user_id,
            base_asset@,
            quote_asset@,
            base_qty,
            quote_qty,
        ),
{
    let mut r: Vec<BalanceChange> = Vec::new();
    r.push(change(maker_user_id, base_asset, BalanceColumn::Locked, false, base_qty, false));
    r.push(change(maker_user_id, quote_asset, BalanceColumn::Free, true, quote_qty, false));
    r.push(change(taker_user_id, quote_asset, BalanceColumn::Locked, false, quote_qty, false));
    r.push(change(taker_user_id, base_asset, BalanceColumn::Free, true, base_qty, false));
    proof {
        assert(r@.map_values(|c: BalanceChange| c@) =~= settlement(
            maker_user_id,
            taker_user_id,
            base_asset@,
            quote_asset@,
            base_qty,
            quote_qty,
        ));
    }
    r
}

/// The changes that lock `amount` of `asset` for an order of `user_id`: the
/// free balance gives it up and the locked balance takes it, in that order.
/// The debit of the free balance is guarded, so that no user locks more than
/// the free balance holds.
pub open spec fn funds_lock(user_id: i64, asset: Seq<char>, amount: i64) -> Seq<ChangeView> {
    seq![
        ChangeView { user_id, asset, column: BalanceColumn::Free, credit: false, amount, guarded: true },
        ChangeView { user_id, asset, column: BalanceColumn::Locked, credit: true, amount, guarded: false },
    ]
}

/// The balance changes that lock `amount` of `asset` for an order of
/// `user_id`. The first, the debit of the free balance, is applied only where
/// the free balance covers it.
pub fn lock_changes(user_id: i64, asset: &str, amount: i64) -> (r: Vec<BalanceChange>)
    ensures
        r@.map_values(|c: BalanceChange| c@) == funds_lock(user_id, asset@, amount),
{
    let mut r: Vec<BalanceChange> = Vec::new();
    r.push(change(user_id, asset, BalanceColumn::Free, false, amount, true));
    r.push(change(user_id, asset, BalanceColumn::Locked, true, amount, false));
    proof {
        assert(r@.map_values(|c: BalanceChange| c@) =~= funds_lock(user_id, asset@, amount));
    }
    r
}

/// Whether locking funds went through.
#[derive(Debug, Clone, Copy, PartialEq, Eq, Structural)]
pub enum LockOutcome {
    /// The free balance covered the amount; the lock is committed.
    Committed,
    /// The free balance was too small; nothing changes.
    Refused,
}

/// The outcome of a lock from the number of balance rows whose free balance
/// covered the amount: none means the user has too little.
pub fn lock_outcome(rows_affected: u64) -> (o: LockOutcome)
    ensures
        o == (if rows_affected == 0 {
            LockOutcome::Refused
        } else {
            LockOutcome::Committed
        }),
{
    if rows_affected == 0 {
        LockOutcome::Refused
    } else {
        LockOutcome::Committed
    }
}

/// Locking funds creates no asset and destroys none: it moves the amount from
/// the free to the locked balance of the same user and asset.
pub proof fn lemma_lock_conserves_assets(user_id: i64, asset: Seq<char>, amount: i64, any: Seq<char>)
    ensures
        net_change(funds_lock(user_id, asset, amount), any) == 0,
        funds_lock(user_id, asset, amount)[0].user_id == funds_lock(user_id, asset, amount)[1].user_id,
{
    let s = funds_lock(user_id, asset, amount);
    assert(s.drop_last().drop_last() =~= Seq::<ChangeView>::empty());
    reveal_with_fuel(net_change, 3);
}

/// Whether a settlement goes through.
#[derive(Debug, Clone, Copy, PartialEq, Eq, Structural)]
pub enum SettlementOutcome {
    /// Every change found its balance; the settlement is committed.
    Commit,
    /// Some change found no balance to change; nothing may change.
    RollBack,
}

/// Every change touched at least one balance row.
pub open spec fn all_rows_found(rows_affected: Seq<u64>) -> bool {
    forall|i: int| 0 <= i < rows_affected.len() ==> #[trigger] rows_affected[i] >= 1
}

/// The outcome of a settlement from the number of balance rows that each of
/// its changes touched: it commits only when every change touched a row, so
/// that the assets move between maker and taker completely or not at all.
pub fn settlement_outcome(rows_affected: &[u64]) -> (o: SettlementOutcome)
    ensures
        o == (if all_rows_found(rows_affected@) {
            SettlementOutcome::Commit
        } else {
            SettlementOutcome::RollBack
        }),
{
    let mut i: usize = 0;
    while i < rows_affected.len()
        invariant
            i <= rows_affected@.len(),
            forall|j: int| 0 <= j < i ==> #[trigger] rows_affected@[j] >= 1,
        decreases rows_affected@.len() - i,
    {
        if rows_affected[i] == 0 {
            return SettlementOutcome::RollBack;
        }
        i = i + 1;
    }
    SettlementOutcome::Commit
}

/// What a change adds to the holdings of its asset: the amount for a credit,
/// minus the amount for a debit.
pub open spec fn signed_amount(c: ChangeView) -> int {
    if c.credit {
        c.amount as int
    } else {
        -(c.amount as int)
    }
}

/// What the changes together add to the holdings of `asset`, over all users
/// and both balances.
pub open spec fn net_change(changes: Seq<ChangeView>, asset: Seq<char>) -> int
    decreases changes.len(),
{
    if changes.len() == 0 {
        0
    } else {
        net_change(changes.drop_last(), asset) + if changes.last().asset == asset {
            signed_amount(changes.last())
        } else {
            0
        }
    }
}

/// Settling a trade creates no asset and destroys none: for every asset, the
/// changes add up to nothing.
pub proof fn lemma_settlement_conserves_assets(
    maker_user_id: i64,
    taker_user_id: i64,
    base_asset: Seq<char>,
    quote_asset: Seq<char>,
    base_qty: i64,
    quote_qty: i64,
    asset: Seq<char>,
)
    ensures
        net_change(
            settlement(maker_user_id, taker_user_id, base_asset, quote_asset, base_qty, quote_qty),
            asset,
        ) == 0,
{
    let s = settlement(maker_user_id, taker_user_id, base_asset, quote_asset, base_qty, quote_qty);
    assert(s.drop_last().drop_last().drop_last().drop_last() =~= Seq::<ChangeView>::empty());
    reveal_with_fuel(net_change, 5);
}

/// Settling moves only what was locked for the trade: every debit takes from
/// a locked balance and every credit goes to a free one.
pub proof fn lemma_settlement_spends_only_locked_funds(
    maker_user_id: i64,
    taker_user_id: i64,
    base_asset: Seq<char>,
    quote_asset: Seq<char>,
    base_qty: i64,
    quote_qty: i64,
)
    ensures
        forall|i: int|
            0 <= i < 4 ==> {
                let c = #[trigger] settlement(
                    maker_user_id,
                    taker_user_id,
                    base_asset,
                    quote_asset,
                    base_qty,
                    quote_qty,
                )[i];
                (c.credit ==> c.column == BalanceColumn::Free) && (!c.credit ==> c.column
                    == BalanceColumn::Locked)
            },
{
}

} // verus!
