use cex_engine::engine::Engine;
use cex_engine::error::EngineError;
use cex_engine::market::MarketConfig;
use cex_engine::messages::{
    CancelOrderData, CreateOrderData, GETDEPTHDATA, GETOPENORDERS, MessageFromApi, MessageToApi, ONRAMPDATA,
};
use cex_engine::orderbook::Side;

// BTC-USD with whole-unit prices and quantities in tenths of a BTC: one
// quote ledger unit is 0.1 USD.
fn btc_usd(min_order_size: u64) -> MarketConfig {
    MarketConfig {
        symbol: "BTC-USD".to_string(),
        base_asset: "BTC".to_string(),
        quote_asset: "USD".to_string(),
        price_precision: 0,
        quantity_precision: 1,
        min_price: 1,
        max_price: 1_000_000,
        min_order_size,
        max_order_size: 1_000_000,
    }
}

fn s(x: &str) -> String {
    x.to_string()
}

fn funds(e: &Engine, user: &str, asset: &str) -> (u64, u64) {
    e.balances.funds(&s(user), &s(asset))
}

fn depth(e: &Engine) -> (Vec<(u64, u128)>, Vec<(u64, u128)>) {
    let d = e.get_depth(&s("BTC-USD")).unwrap();
    (
        d.bids.iter().map(|l| (l.price, l.quantity)).collect(),
        d.asks.iter().map(|l| (l.price, l.quantity)).collect(),
    )
}

// A credits 10,000 USD and bids 1 BTC at 100.
fn after_first_bid() -> (Engine, String) {
    let mut e = Engine::new(vec![btc_usd(1)]);
    assert_eq!(e.on_ramp(&s("A"), &s("USD"), 100_000), Ok(100_000));
    let (executed, fills, id) = e.create_order(&s("BTC-USD"), 100, 10, Side::Buy, &s("A")).unwrap();
    assert_eq!(executed, 0);
    assert!(fills.is_empty());
    (e, id)
}

#[test]
fn bid_rests_when_no_asks() {
    let (e, id) = after_first_bid();
    assert_eq!(id.len(), 36);
    assert_eq!(depth(&e), (vec![(100, 10)], vec![]));
    assert_eq!(funds(&e, "A", "USD"), (99_000, 1_000));
}

#[test]
fn sell_matches_resting_bid() {
    let (mut e, bid_id) = after_first_bid();
    assert_eq!(e.on_ramp(&s("B"), &s("BTC"), 10), Ok(10));
    let (executed, fills, _) = e.create_order(&s("BTC-USD"), 100, 5, Side::Sell, &s("B")).unwrap();
    assert_eq!(executed, 5);
    assert_eq!(fills.len(), 1);
    assert_eq!(fills[0].price, 100);
    assert_eq!(fills[0].qty, 5);
    assert_eq!(fills[0].trade_id, 1);
    assert_eq!(fills[0].other_user_id, "A");
    assert_eq!(fills[0].market_order_id, bid_id);
    assert_eq!(fills[0].taker_user_id, "B");
    let bids = &e.orderbooks[0].bids;
    assert_eq!(bids.len(), 1);
    assert_eq!(bids[0].quantity - bids[0].filled, 5);
    assert_eq!(bids[0].price, 100);
    assert_eq!(funds(&e, "A", "USD"), (99_000, 500));
    assert_eq!(funds(&e, "B", "USD"), (500, 0));
    assert_eq!(funds(&e, "A", "BTC"), (5, 0));
    assert_eq!(funds(&e, "B", "BTC"), (5, 0));
}

#[test]
fn cancel_releases_remaining_lock() {
    let (mut e, bid_id) = after_first_bid();
    e.on_ramp(&s("B"), &s("BTC"), 10).unwrap();
    e.create_order(&s("BTC-USD"), 100, 5, Side::Sell, &s("B")).unwrap();
    let o = e.cancel_order(&s("BTC-USD"), &bid_id).unwrap();
    assert_eq!(o.quantity - o.filled, 5);
    assert_eq!(o.price, 100);
    assert_eq!(funds(&e, "A", "USD"), (99_500, 0));
    assert_eq!(depth(&e), (vec![], vec![]));
}

#[test]
fn unknown_market_changes_nothing() {
    let (mut e, _) = after_first_bid();
    let r = e.create_order(&s("XYZ-USD"), 100, 10, Side::Buy, &s("A"));
    assert_eq!(r.err(), Some(EngineError::UnknownMarket));
    assert_eq!(funds(&e, "A", "USD"), (99_000, 1_000));
    assert_eq!(depth(&e), (vec![(100, 10)], vec![]));
}

#[test]
fn quantity_below_minimum_is_rejected() {
    let mut e = Engine::new(vec![btc_usd(2)]);
    e.on_ramp(&s("A"), &s("USD"), 100_000).unwrap();
    let r = e.create_order(&s("BTC-USD"), 100, 1, Side::Buy, &s("A"));
    assert_eq!(r.err(), Some(EngineError::ValidationError));
    assert_eq!(funds(&e, "A", "USD"), (100_000, 0));
    assert_eq!(depth(&e), (vec![], vec![]));
}

#[test]
fn older_ask_fills_first() {
    let mut e = Engine::new(vec![btc_usd(1)]);
    e.on_ramp(&s("B"), &s("BTC"), 3).unwrap();
    e.on_ramp(&s("C"), &s("BTC"), 3).unwrap();
    e.on_ramp(&s("D"), &s("USD"), 1_000).unwrap();
    let (_, _, b_id) = e.create_order(&s("BTC-USD"), 100, 3, Side::Sell, &s("B")).unwrap();
    let (_, _, c_id) = e.create_order(&s("BTC-USD"), 100, 3, Side::Sell, &s("C")).unwrap();
    let (executed, fills, _) = e.create_order(&s("BTC-USD"), 100, 3, Side::Buy, &s("D")).unwrap();
    assert_eq!(executed, 3);
    assert_eq!(fills.len(), 1);
    assert_eq!(fills[0].market_order_id, b_id);
    let asks = &e.orderbooks[0].asks;
    assert_eq!(asks.len(), 1);
    assert_eq!(asks[0].order_id, c_id);
    assert_eq!(asks[0].quantity - asks[0].filled, 3);
    assert_eq!(depth(&e), (vec![], vec![(100, 3)]));
}

#[test]
fn taker_pays_maker_price_and_gets_rest_back() {
    let mut e = Engine::new(vec![btc_usd(1)]);
    e.on_ramp(&s("B"), &s("BTC"), 4).unwrap();
    e.on_ramp(&s("A"), &s("USD"), 1_000).unwrap();
    e.create_order(&s("BTC-USD"), 90, 4, Side::Sell, &s("B")).unwrap();
    let (executed, fills, _) = e.create_order(&s("BTC-USD"), 100, 4, Side::Buy, &s("A")).unwrap();
    assert_eq!(executed, 4);
    assert_eq!(fills[0].price, 90);
    assert_eq!(funds(&e, "A", "USD"), (640, 0));
    assert_eq!(funds(&e, "A", "BTC"), (4, 0));
    assert_eq!(funds(&e, "B", "USD"), (360, 0));
    assert_eq!(funds(&e, "B", "BTC"), (0, 0));
}

#[test]
fn cancel_twice_is_order_not_found() {
    let (mut e, id) = after_first_bid();
    e.cancel_order(&s("BTC-USD"), &id).unwrap();
    let before = funds(&e, "A", "USD");
    assert_eq!(e.cancel_order(&s("BTC-USD"), &id).err(), Some(EngineError::OrderNotFound));
    assert_eq!(funds(&e, "A", "USD"), before);
}

#[test]
fn cancel_of_filled_order_is_order_not_found() {
    let (mut e, bid_id) = after_first_bid();
    e.on_ramp(&s("B"), &s("BTC"), 10).unwrap();
    e.create_order(&s("BTC-USD"), 100, 10, Side::Sell, &s("B")).unwrap();
    let before = (funds(&e, "A", "USD"), funds(&e, "A", "BTC"));
    assert_eq!(before, ((99_000, 0), (10, 0)));
    assert_eq!(e.cancel_order(&s("BTC-USD"), &bid_id).err(), Some(EngineError::OrderNotFound));
    assert_eq!((funds(&e, "A", "USD"), funds(&e, "A", "BTC")), before);
}

#[test]
fn insufficient_funds_is_a_no_op() {
    let mut e = Engine::new(vec![btc_usd(1)]);
    e.on_ramp(&s("A"), &s("USD"), 999).unwrap();
    let r = e.create_order(&s("BTC-USD"), 100, 10, Side::Buy, &s("A"));
    assert_eq!(r.err(), Some(EngineError::InsufficientFunds));
    assert_eq!(funds(&e, "A", "USD"), (999, 0));
    assert_eq!(depth(&e), (vec![], vec![]));
    let r = e.create_order(&s("BTC-USD"), 100, 1, Side::Sell, &s("A"));
    assert_eq!(r.err(), Some(EngineError::InsufficientFunds));
}

#[test]
fn totals_conserved_across_trading() {
    let mut e = Engine::new(vec![btc_usd(1)]);
    e.on_ramp(&s("A"), &s("USD"), 5_000).unwrap();
    e.on_ramp(&s("B"), &s("BTC"), 20).unwrap();
    e.on_ramp(&s("C"), &s("USD"), 5_000).unwrap();
    e.create_order(&s("BTC-USD"), 110, 7, Side::Sell, &s("B")).unwrap();
    e.create_order(&s("BTC-USD"), 105, 6, Side::Sell, &s("B")).unwrap();
    e.create_order(&s("BTC-USD"), 120, 9, Side::Buy, &s("A")).unwrap();
    let (_, _, id) = e.create_order(&s("BTC-USD"), 100, 10, Side::Buy, &s("C")).unwrap();
    e.create_order(&s("BTC-USD"), 100, 5, Side::Sell, &s("B")).unwrap();
    e.cancel_order(&s("BTC-USD"), &id).unwrap();
    let total = |asset: &str| -> u64 {
        ["A", "B", "C"].iter().map(|u| { let (a, l) = funds(&e, u, asset); a + l }).sum()
    };
    assert_eq!(total("USD"), 10_000);
    assert_eq!(total("BTC"), 20);
}

#[test]
fn depth_aggregates_levels_best_first() {
    let mut e = Engine::new(vec![btc_usd(1)]);
    e.on_ramp(&s("A"), &s("USD"), 100_000).unwrap();
    e.on_ramp(&s("B"), &s("BTC"), 100).unwrap();
    e.create_order(&s("BTC-USD"), 99, 2, Side::Buy, &s("A")).unwrap();
    e.create_order(&s("BTC-USD"), 101, 3, Side::Buy, &s("A")).unwrap();
    e.create_order(&s("BTC-USD"), 99, 4, Side::Buy, &s("A")).unwrap();
    e.create_order(&s("BTC-USD"), 105, 1, Side::Sell, &s("B")).unwrap();
    e.create_order(&s("BTC-USD"), 103, 2, Side::Sell, &s("B")).unwrap();
    e.create_order(&s("BTC-USD"), 105, 6, Side::Sell, &s("B")).unwrap();
    // A sell at 101 takes one of the three at 101, leaving two there.
    e.create_order(&s("BTC-USD"), 101, 1, Side::Sell, &s("B")).unwrap();
    assert_eq!(depth(&e), (vec![(101, 2), (99, 6)], vec![(103, 2), (105, 7)]));
    let limited = e.orderbooks[0].depth(1);
    assert_eq!(limited.bids.len(), 1);
    assert_eq!(limited.asks.len(), 1);
    assert_eq!(limited.asks[0].price, 103);
}

#[test]
fn open_orders_lists_asks_then_bids() {
    let mut e = Engine::new(vec![btc_usd(1)]);
    e.on_ramp(&s("A"), &s("USD"), 100_000).unwrap();
    e.on_ramp(&s("A"), &s("BTC"), 10).unwrap();
    let (_, _, bid) = e.create_order(&s("BTC-USD"), 90, 2, Side::Buy, &s("A")).unwrap();
    let (_, _, ask) = e.create_order(&s("BTC-USD"), 110, 2, Side::Sell, &s("A")).unwrap();
    let mine = e.get_open_orders(&s("A"), &s("BTC-USD")).unwrap();
    let ids: Vec<String> = mine.iter().map(|o| o.order_id.clone()).collect();
    assert_eq!(ids, vec![ask, bid]);
    assert!(e.get_open_orders(&s("Z"), &s("BTC-USD")).unwrap().is_empty());
    assert_eq!(e.get_open_orders(&s("A"), &s("ETH-USD")).err(), Some(EngineError::UnknownMarket));
}

#[test]
fn price_out_of_bounds_is_rejected() {
    let mut e = Engine::new(vec![btc_usd(1)]);
    e.on_ramp(&s("A"), &s("USD"), 100_000).unwrap();
    assert_eq!(e.create_order(&s("BTC-USD"), 0, 1, Side::Buy, &s("A")).err(), Some(EngineError::ValidationError));
    assert_eq!(e.create_order(&s("BTC-USD"), 1_000_001, 1, Side::Buy, &s("A")).err(), Some(EngineError::ValidationError));
    assert_eq!(e.create_order(&s("BTC-USD"), 100, 1_000_001, Side::Sell, &s("A")).err(), Some(EngineError::ValidationError));
}

#[test]
fn on_ramp_overflow_is_rejected() {
    let mut e = Engine::new(vec![btc_usd(1)]);
    e.on_ramp(&s("A"), &s("USD"), u64::MAX).unwrap();
    assert_eq!(e.on_ramp(&s("A"), &s("USD"), 1).err(), Some(EngineError::ValidationError));
    assert_eq!(funds(&e, "A", "USD"), (u64::MAX, 0));
}

#[test]
fn duplicate_order_id_is_rejected() {
    let mut e = Engine::new(vec![btc_usd(1)]);
    e.on_ramp(&s("A"), &s("USD"), 100_000).unwrap();
    e.place_order(&s("BTC-USD"), 100, 1, Side::Buy, &s("A"), s("o-1")).unwrap();
    let r = e.place_order(&s("BTC-USD"), 100, 1, Side::Buy, &s("A"), s("o-1"));
    assert_eq!(r.err(), Some(EngineError::InternalInvariantViolation));
    assert_eq!(funds(&e, "A", "USD"), (99_900, 100));
}

#[test]
fn generated_order_ids_differ() {
    let mut e = Engine::new(vec![btc_usd(1)]);
    e.on_ramp(&s("A"), &s("USD"), 100_000).unwrap();
    let (_, _, a) = e.create_order(&s("BTC-USD"), 100, 1, Side::Buy, &s("A")).unwrap();
    let (_, _, b) = e.create_order(&s("BTC-USD"), 100, 1, Side::Buy, &s("A")).unwrap();
    assert_eq!(a.len(), 36);
    assert_ne!(a, b);
}

#[test]
fn process_runs_each_command_kind() {
    let mut e = Engine::new(vec![btc_usd(1)]);
    let (r, _) = e.process(MessageFromApi::ON_RAMP(ONRAMPDATA { amount: 100_000, user_id: s("A"), asset: s("USD"), txn_id: s("t1") }));
    assert!(matches!(r, MessageToApi::BALANCE_CREDITED(ref p) if p.available == 100_000));
    let (r, fills) = e.process(MessageFromApi::CREATE_ORDER(CreateOrderData {
        market: s("BTC-USD"),
        price: 100,
        quantity: 10,
        side: Side::Buy,
        user_id: s("A"),
    }));
    assert!(fills.is_empty());
    let id = match r {
        MessageToApi::ORDER_PLACED(p) => {
            assert_eq!(p.executed_qty, 0);
            p.order_id
        }
        _ => panic!("expected ORDER_PLACED"),
    };
    match e.process(MessageFromApi::GET_DEPTH(GETDEPTHDATA { market: s("BTC-USD") })).0 {
        MessageToApi::DEPTH(d) => assert_eq!((d.bids[0].price, d.bids[0].quantity), (100, 10)),
        _ => panic!("expected DEPTH"),
    }
    match e.process(MessageFromApi::GET_OPEN_ORDERS(GETOPENORDERS { user_id: s("A"), market: s("BTC-USD") })).0 {
        MessageToApi::OPEN_ORDERS(p) => assert_eq!(p.orders.len(), 1),
        _ => panic!("expected OPEN_ORDERS"),
    }
    match e.process(MessageFromApi::CANCEL_ORDER(CancelOrderData { order_id: id.clone(), market: s("BTC-USD") })).0 {
        MessageToApi::ORDER_CANCELLED(p) => assert_eq!((p.price, p.executed_qty, p.remaining_qty), (100, 0, 10)),
        _ => panic!("expected ORDER_CANCELLED"),
    }
    assert!(matches!(
        e.process(MessageFromApi::CANCEL_ORDER(CancelOrderData { order_id: id, market: s("BTC-USD") })).0,
        MessageToApi::ERROR(EngineError::OrderNotFound)
    ));
    assert!(matches!(
        e.process(MessageFromApi::GET_DEPTH(GETDEPTHDATA { market: s("XYZ-USD") })).0,
        MessageToApi::ERROR(EngineError::UnknownMarket)
    ));
    assert_eq!(funds(&e, "A", "USD"), (100_000, 0));
}
