use cex_engine::market::MarketConfig;
use cex_engine::engine::{depth_update, level_or_zero};
use cex_engine::orderbook::{levels_at, Fill, Order, OrderBook, PriceLevel, Side};

fn book() -> OrderBook {
    OrderBook::new(MarketConfig {
        symbol: "SOL-USD".to_string(),
        base_asset: "SOL".to_string(),
        quote_asset: "USD".to_string(),
        price_precision: 0,
        quantity_precision: 0,
        min_price: 1,
        max_price: 1000,
        min_order_size: 1,
        max_order_size: 1000,
    })
}

fn order(id: &str, user: &str, side: Side, price: u64, quantity: u64) -> Order {
    Order {
        order_id: id.to_string(),
        user_id: user.to_string(),
        side,
        price,
        quantity,
        filled: 0,
        sequence: 0,
    }
}

#[test]
fn ticker_is_the_market_symbol() {
    assert_eq!(book().ticker(), "SOL-USD");
}

#[test]
fn asks_kept_by_price_then_age() {
    let mut b = book();
    b.addOrder(order("a1", "m", Side::Sell, 12, 1));
    b.addOrder(order("a2", "m", Side::Sell, 10, 1));
    b.addOrder(order("a3", "m", Side::Sell, 12, 1));
    b.addOrder(order("a4", "m", Side::Sell, 11, 1));
    let ids: Vec<&str> = b.asks.iter().map(|o| o.order_id.as_str()).collect();
    assert_eq!(ids, vec!["a2", "a4", "a1", "a3"]);
    let seqs: Vec<u64> = b.asks.iter().map(|o| o.sequence).collect();
    assert_eq!(seqs, vec![1, 3, 0, 2]);
}

#[test]
fn buy_sweeps_levels_and_rests_remainder() {
    let mut b = book();
    b.addOrder(order("a1", "m", Side::Sell, 10, 2));
    b.addOrder(order("a2", "n", Side::Sell, 11, 2));
    b.addOrder(order("a3", "m", Side::Sell, 13, 2));
    let (executed, fills) = b.addOrder(order("t", "x", Side::Buy, 12, 5));
    assert_eq!(executed, 4);
    let got: Vec<(u64, u64, u64)> = fills.iter().map(|f| (f.price, f.qty, f.trade_id)).collect();
    assert_eq!(got, vec![(10, 2, 1), (11, 2, 2)]);
    assert_eq!(b.last_trade_id, 2);
    assert_eq!(b.asks.len(), 1);
    assert_eq!(b.bids.len(), 1);
    assert_eq!(b.bids[0].order_id, "t");
    assert_eq!(b.bids[0].filled, 4);
    assert_eq!(b.bids[0].price, 12);
}

#[test]
fn sell_partially_fills_best_bid() {
    let mut b = book();
    b.addOrder(order("b1", "m", Side::Buy, 20, 5));
    b.addOrder(order("b2", "m", Side::Buy, 21, 1));
    let (executed, fills) = b.addOrder(order("t", "x", Side::Sell, 19, 3));
    assert_eq!(executed, 3);
    let got: Vec<(&str, u64, u64)> = fills.iter().map(|f| (f.market_order_id.as_str(), f.price, f.qty)).collect();
    assert_eq!(got, vec![("b2", 21, 1), ("b1", 20, 2)]);
    assert_eq!(b.bids.len(), 1);
    assert_eq!(b.bids[0].filled, 2);
    assert!(b.asks.is_empty());
}

#[test]
fn match_bid_leaves_bids_alone() {
    let mut b = book();
    b.addOrder(order("a1", "m", Side::Sell, 10, 2));
    let (executed, fills) = b.matchBid(&order("t", "x", Side::Buy, 9, 2));
    assert_eq!((executed, fills.len()), (0, 0));
    let (executed, fills) = b.matchBid(&order("t", "x", Side::Buy, 10, 1));
    assert_eq!((executed, fills.len()), (1, 1));
    assert_eq!(b.asks[0].filled, 1);
    assert!(b.bids.is_empty());
    let (executed, _) = b.matchAsk(&order("u", "x", Side::Sell, 1, 1));
    assert_eq!(executed, 0);
}

#[test]
fn cancel_by_side() {
    let mut b = book();
    b.addOrder(order("b1", "m", Side::Buy, 20, 5));
    b.addOrder(order("a1", "m", Side::Sell, 30, 5));
    assert!(b.cancelBid(&"a1".to_string()).is_none());
    assert!(b.contains(&"a1".to_string()));
    let o = b.cancelAsk(&"a1".to_string()).unwrap();
    assert_eq!(o.price, 30);
    assert!(!b.contains(&"a1".to_string()));
    assert!(b.cancelAsk(&"a1".to_string()).is_none());
    assert_eq!(b.cancelBid(&"b1".to_string()).unwrap().quantity, 5);
    assert!(b.bids.is_empty());
}

#[test]
fn depth_of_empty_book_is_empty() {
    let d = book().getDepth();
    assert!(d.bids.is_empty() && d.asks.is_empty());
}

#[test]
fn open_orders_of_one_user() {
    let mut b = book();
    b.addOrder(order("b1", "m", Side::Buy, 20, 5));
    b.addOrder(order("b2", "n", Side::Buy, 19, 5));
    b.addOrder(order("a1", "m", Side::Sell, 30, 5));
    let ids: Vec<String> = b.getOpenOrders(&"m".to_string()).into_iter().map(|o| o.order_id).collect();
    assert_eq!(ids, vec!["a1".to_string(), "b1".to_string()]);
}

#[test]
fn book_never_rests_crossed() {
    let mut b = book();
    b.addOrder(order("a1", "m", Side::Sell, 50, 2));
    b.addOrder(order("b1", "n", Side::Buy, 60, 5));
    b.addOrder(order("a2", "m", Side::Sell, 55, 1));
    b.addOrder(order("b2", "n", Side::Buy, 40, 1));
    assert_eq!(b.bids[0].price, 60);
    assert!(b.asks.is_empty());
    b.addOrder(order("a3", "m", Side::Sell, 61, 1));
    assert!(b.bids[0].price < b.asks[0].price);
}

fn lvl(price: u64, quantity: u128) -> PriceLevel {
    PriceLevel { price, quantity }
}

fn pairs(v: &[PriceLevel]) -> Vec<(u64, u128)> {
    v.iter().map(|l| (l.price, l.quantity)).collect()
}

#[test]
fn levels_at_picks_listed_prices() {
    let levels = vec![lvl(10, 1), lvl(11, 2), lvl(12, 3)];
    assert_eq!(pairs(&levels_at(&levels, &vec![12, 10, 99])), vec![(10, 1), (12, 3)]);
    assert!(levels_at(&levels, &vec![]).is_empty());
}

#[test]
fn depth_update_reports_touched_levels() {
    let depth = cex_engine::orderbook::Depth { bids: vec![lvl(9, 4), lvl(8, 1)], asks: vec![lvl(10, 1), lvl(12, 5)] };
    let f = Fill {
        price: 10,
        qty: 1,
        trade_id: 1,
        other_user_id: "m".to_string(),
        market_order_id: "a".to_string(),
        taker_user_id: "t".to_string(),
    };
    let up = depth_update(&depth, Side::Buy, 9, &vec![f]);
    assert_eq!(pairs(&up.asks), vec![(10, 1)]);
    assert_eq!(pairs(&up.bids), vec![(9, 4)]);
    assert_eq!(pairs(&level_or_zero(&depth.asks, 12)), vec![(12, 5)]);
    assert_eq!(pairs(&level_or_zero(&depth.asks, 11)), vec![(11, 0)]);
}
