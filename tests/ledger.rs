use cex_engine::ledger::{Ledger, LedgerError};

fn s(x: &str) -> String {
    x.to_string()
}

#[test]
fn untouched_balance_is_zero() {
    let l = Ledger::new();
    assert_eq!(l.funds(&s("nobody"), &s("USD")), (0, 0));
}

#[test]
fn lock_moves_available_to_locked() {
    let mut l = Ledger::new();
    assert_eq!(l.credit(&s("u"), &s("USD"), 100), Ok(100));
    assert_eq!(l.lock(&s("u"), &s("USD"), 30), Ok(()));
    assert_eq!(l.funds(&s("u"), &s("USD")), (70, 30));
    assert_eq!(l.lock(&s("u"), &s("USD"), 71), Err(LedgerError::InsufficientFunds));
    assert_eq!(l.funds(&s("u"), &s("USD")), (70, 30));
    assert_eq!(l.lock(&s("v"), &s("USD"), 0), Ok(()));
    assert_eq!(l.lock(&s("v"), &s("USD"), 1), Err(LedgerError::InsufficientFunds));
}

#[test]
fn unlock_needs_locked_funds() {
    let mut l = Ledger::new();
    l.credit(&s("u"), &s("BTC"), 10).unwrap();
    l.lock(&s("u"), &s("BTC"), 4).unwrap();
    assert_eq!(l.unlock(&s("u"), &s("BTC"), 5), Err(LedgerError::InsufficientLocked));
    assert_eq!(l.unlock(&s("u"), &s("BTC"), 3), Ok(()));
    assert_eq!(l.funds(&s("u"), &s("BTC")), (9, 1));
}

#[test]
fn settle_moves_locked_to_counterparty() {
    let mut l = Ledger::new();
    l.credit(&s("a"), &s("USD"), 50).unwrap();
    l.lock(&s("a"), &s("USD"), 50).unwrap();
    l.credit(&s("b"), &s("USD"), 7).unwrap();
    assert_eq!(l.settle(&s("a"), &s("b"), &s("USD"), 20), Ok(()));
    assert_eq!(l.funds(&s("a"), &s("USD")), (0, 30));
    assert_eq!(l.funds(&s("b"), &s("USD")), (27, 0));
    assert_eq!(l.settle(&s("a"), &s("b"), &s("USD"), 31), Err(LedgerError::InsufficientLocked));
    assert_eq!(l.settle(&s("a"), &s("a"), &s("USD"), 10), Ok(()));
    assert_eq!(l.funds(&s("a"), &s("USD")), (10, 20));
}

#[test]
fn credit_refuses_supply_overflow() {
    let mut l = Ledger::new();
    l.credit(&s("a"), &s("USD"), 5).unwrap();
    l.lock(&s("a"), &s("USD"), 5).unwrap();
    assert_eq!(l.credit(&s("b"), &s("USD"), u64::MAX - 2), Err(LedgerError::Overflow));
    assert_eq!(l.credit(&s("b"), &s("USD"), u64::MAX - 5), Ok(u64::MAX - 5));
    assert_eq!(l.supply(&s("USD")), u64::MAX);
    assert_eq!(l.settle(&s("a"), &s("b"), &s("USD"), 5), Ok(()));
    assert_eq!(l.funds(&s("b"), &s("USD")), (u64::MAX, 0));
}

#[test]
fn credit_keeps_assets_apart() {
    let mut l = Ledger::new();
    l.credit(&s("u"), &s("USD"), 10).unwrap();
    l.credit(&s("u"), &s("BTC"), 3).unwrap();
    assert_eq!(l.credit(&s("u"), &s("USD"), 5), Ok(15));
    assert_eq!(l.funds(&s("u"), &s("BTC")), (3, 0));
    assert_eq!(l.credit(&s("u"), &s("BTC"), u64::MAX), Err(LedgerError::Overflow));
}

#[test]
fn refused_settlement_changes_nothing() {
    use_update_balances();
}

fn use_update_balances() {
    let mut l = Ledger::new();
    l.credit(&s("t"), &s("USD"), 100).unwrap();
    l.lock(&s("t"), &s("USD"), 100).unwrap();
    l.credit(&s("m"), &s("BTC"), 1).unwrap();
    l.lock(&s("m"), &s("BTC"), 1).unwrap();
    let fill = |qty: u64| cex_engine::orderbook::Fill {
        price: 10,
        qty,
        trade_id: 1,
        other_user_id: s("m"),
        market_order_id: s("o"),
        taker_user_id: s("t"),
    };
    // The second fill needs a second BTC that m never locked: nothing moves.
    let fills = vec![fill(1), fill(1)];
    let r = cex_engine::engine::update_balances(&mut l, &s("t"), &s("BTC"), &s("USD"), cex_engine::orderbook::Side::Buy, 10, &fills);
    assert_eq!(r, Err(LedgerError::InsufficientLocked));
    assert_eq!(l.funds(&s("t"), &s("USD")), (0, 100));
    assert_eq!(l.funds(&s("m"), &s("BTC")), (0, 1));
    let r = cex_engine::engine::update_balances(&mut l, &s("t"), &s("BTC"), &s("USD"), cex_engine::orderbook::Side::Buy, 12, &vec![fill(1)]);
    assert_eq!(r, Ok(()));
    assert_eq!(l.funds(&s("t"), &s("USD")), (2, 88));
    assert_eq!(l.funds(&s("t"), &s("BTC")), (1, 0));
    assert_eq!(l.funds(&s("m"), &s("USD")), (10, 0));
    assert_eq!(l.funds(&s("m"), &s("BTC")), (0, 0));
}
