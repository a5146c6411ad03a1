use cex_engine::engine::{create_db_trades, record_trades, update_db_trades};
use cex_engine::error::EngineError;
use cex_engine::market::{default_markets, validate_market_format, OrderValidator};
use cex_engine::messages::{
    delete_order_request, parse_amount, parse_side, DeleteOrder,
};
use cex_engine::orderbook::{Fill, Side};

#[test]
fn market_format_accepts_base_dash_quote() {
    assert!(validate_market_format("BTC-USD"));
    assert!(validate_market_format("DOGE1-USDT"));
    assert!(validate_market_format("ABCDEFGHIJ-XYZ"));
}

#[test]
fn market_format_rejects_malformed() {
    assert!(!validate_market_format("BTCUSD"));
    assert!(!validate_market_format("BT-USD"));
    assert!(!validate_market_format("btc-usd"));
    assert!(!validate_market_format("BTC-USD-X"));
    assert!(!validate_market_format("ABCDEFGHIJK-USD"));
    assert!(!validate_market_format("BTC-"));
    assert!(!validate_market_format(""));
    assert!(!validate_market_format("BTC_USD"));
}

#[test]
fn validator_checks_bounds() {
    let v = OrderValidator::new();
    assert_eq!(v.get_supported_markets().len(), 5);
    assert_eq!(v.get_supported_markets()[0], "BTC-USD");
    let m = "BTC-USD".to_string();
    assert_eq!(v.validate_order(&m, 5_000_000, 100_000), Ok(()));
    assert_eq!(v.validate_order(&m, 5_000_000, 99_999), Err(EngineError::ValidationError));
    assert_eq!(v.validate_order(&m, 0, 100_000), Err(EngineError::ValidationError));
    assert_eq!(v.validate_order(&m, 100_000_001, 100_000), Err(EngineError::ValidationError));
    assert_eq!(v.validate_order(&"XRP-USD".to_string(), 1, 1), Err(EngineError::UnknownMarket));
    assert_eq!(v.get_market_config(&"SOL-USD".to_string()).unwrap().price_precision, 4);
    assert!(v.get_market_config(&"XRP-USD".to_string()).is_none());
    assert_eq!(default_markets().len(), 5);
}

#[test]
fn delete_request_is_checked() {
    let ok = delete_order_request(&DeleteOrder { order_id: "o1".to_string(), market: "BTC-USD".to_string() }).unwrap();
    assert_eq!((ok.order_id.as_str(), ok.market.as_str()), ("o1", "BTC-USD"));
    let empty = delete_order_request(&DeleteOrder { order_id: String::new(), market: "BTC-USD".to_string() });
    assert_eq!(empty.err(), Some(EngineError::ValidationError));
    let bad = delete_order_request(&DeleteOrder { order_id: "o1".to_string(), market: "btc".to_string() });
    assert_eq!(bad.err(), Some(EngineError::ValidationError));
}

fn fill(trade_id: u64) -> Fill {
    Fill {
        price: 100,
        qty: 2,
        trade_id,
        other_user_id: "maker".to_string(),
        market_order_id: "m1".to_string(),
        taker_user_id: "taker".to_string(),
    }
}

#[test]
fn trade_records_follow_fills() {
    let recs = create_db_trades(&vec![fill(7), fill(8)], &"BTC-USD".to_string(), Side::Sell, 42);
    assert_eq!(recs.len(), 2);
    assert_eq!(recs[1].id, 8);
    assert!(recs[0].is_buyer_maker);
    assert_eq!(recs[0].maker_user_id, "maker");
    assert_eq!(recs[0].taker_user_id, "taker");
    assert_eq!(recs[0].timestamp, 42);
    let stamped = record_trades(&vec![fill(1)], &"BTC-USD".to_string(), Side::Buy);
    assert!(stamped[0].timestamp > 1_600_000_000);
    assert!(!stamped[0].is_buyer_maker);
    let u = update_db_trades(&"o".to_string(), &"BTC-USD".to_string(), 10, 4);
    assert_eq!((u.exec_qty, u.remaining_qty), (4, 6));
}


#[test]
fn amounts_parse_as_decimal_digits() {
    assert_eq!(parse_amount("0"), Some(0));
    assert_eq!(parse_amount("10050"), Some(10050));
    assert_eq!(parse_amount("18446744073709551615"), Some(u64::MAX));
    assert_eq!(parse_amount("18446744073709551616"), None);
    assert_eq!(parse_amount(""), None);
    assert_eq!(parse_amount("12.5"), None);
    assert_eq!(parse_amount("-3"), None);
    assert_eq!(parse_amount("99999999999999999999x"), None);
}

#[test]
fn sides_parse_from_lowercase_words() {
    assert_eq!(parse_side("buy"), Ok(Side::Buy));
    assert_eq!(parse_side("sell"), Ok(Side::Sell));
    assert_eq!(parse_side("Buy"), Err(EngineError::InvalidSide));
    assert_eq!(parse_side(""), Err(EngineError::InvalidSide));
}

#[test]
fn default_market_parameters() {
    let m = default_markets();
    assert_eq!(m[4].symbol, "SOL-USD");
    assert_eq!((m[4].price_precision, m[4].quantity_precision), (4, 4));
    assert_eq!((m[0].min_order_size, m[0].max_order_size), (100_000, 10_000_000_000));
}
