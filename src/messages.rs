//! The commands the engine takes and the results it sends back.
use vstd::prelude::*;
use vstd::string::StrSliceExecFns;
use crate::error::EngineError;
use crate::market::{ticker_format, validate_market_format};
use crate::orderbook::{Depth, Fill, Order, PriceLevel, Side};

verus! {

pub struct CreateOrderData {
    pub market: String,
    pub price: u64,
    pub quantity: u64,
    pub side: Side,
    pub user_id: String,
}

pub struct CancelOrderData {
    pub order_id: String,
    pub market: String,
}

pub struct ONRAMPDATA {
    pub amount: u64,
    pub user_id: String,
    pub asset: String,
    pub txn_id: String,
}

pub struct GETDEPTHDATA {
    pub market: String,
}

pub struct GETOPENORDERS {
    pub user_id: String,
    pub market: String,
}

/// A command, one variant per kind.
pub enum MessageFromApi {
    CREATE_ORDER(CreateOrderData),
    CANCEL_ORDER(CancelOrderData),
    ON_RAMP(ONRAMPDATA),
    GET_DEPTH(GETDEPTHDATA),
    GET_OPEN_ORDERS(GETOPENORDERS),
}

/// The number that the decimal digits `s` spell.
pub open spec fn digits_value(s: Seq<char>) -> int
    decreases s.len(),
{
    if s.len() == 0 {
        0
    } else {
        digits_value(s.drop_last()) * 10 + (s.last() as int - '0' as int)
    }
}

pub open spec fn all_digits(s: Seq<char>) -> bool {
    forall|i: int| 0 <= i < s.len() ==> '0' <= #[trigger] s[i] && s[i] <= '9'
}

/// Reads a whole amount written in decimal digits: `None` where `s` is empty,
/// holds anything but digits, or spells a number above `u64::MAX`.
pub fn parse_amount(s: &str) -> (r: Option<u64>)
    ensures
        r == (if s@.len() > 0 && all_digits(s@) && digits_value(s@) <= u64::MAX {
            Some(digits_value(s@) as u64)
        } else {
            None::<u64>
        }),
{
    let n = s.unicode_len();
    if n == 0 {
        return None;
    }
    let mut v: u64 = 0;
    let mut i: usize = 0;
    while i < n
        invariant
            i <= n,
            n == s@.len(),
            all_digits(s@.subrange(0, i as int)),
            v == digits_value(s@.subrange(0, i as int)),
        decreases n - i,
    {
        let c = s.get_char(i);
        let ghost prefix = s@.subrange(0, i as int + 1);
        proof {
            assert(prefix.drop_last() =~= s@.subrange(0, i as int));
            assert(prefix.last() == c);
        }
        if !('0' <= c && c <= '9') {
            proof {
                assert(!all_digits(s@)) by {
                    assert(s@[i as int] == c);
                }
            }
            return None;
        }
        let d = (c as u32 - '0' as u32) as u64;
        if v > (u64::MAX - d) / 10 {
            proof {
                assert(v * 10 + d > u64::MAX) by (nonlinear_arith)
                    requires v > (u64::MAX - d) / 10, d <= 9;
                if all_digits(s@) {
                    lemma_digits_grow(s@, i as int + 1);
                }
            }
            return None;
        }
        proof {
            assert(v * 10 + d <= u64::MAX) by (nonlinear_arith)
                requires v <= (u64::MAX - d) / 10, d <= 9;
        }
        v = v * 10 + d;
        i = i + 1;
        proof {
            assert forall|j: int| 0 <= j < prefix.len() implies '0' <= #[trigger] prefix[j] && prefix[j] <= '9' by {
                if j < i - 1 {
                    assert(prefix[j] == s@.subrange(0, i as int - 1)[j]);
                }
            }
        }
    }
    proof {
        assert(s@.subrange(0, n as int) =~= s@);
    }
    Some(v)
}

/// A digit string is worth at least any of its prefixes.
proof fn lemma_digits_grow(s: Seq<char>, k: int)
    requires
        0 <= k <= s.len(),
        all_digits(s),
    ensures
        digits_value(s) >= digits_value(s.subrange(0, k)),
        digits_value(s.subrange(0, k)) >= 0,
    decreases s.len(),
{
    if k == s.len() {
        assert(s.subrange(0, k) =~= s);
        lemma_digits_nonneg(s);
    } else {
        let t = s.drop_last();
        assert(all_digits(t)) by {
            assert forall|i: int| 0 <= i < t.len() implies '0' <= #[trigger] t[i] && t[i] <= '9' by {
                assert(t[i] == s[i]);
            }
        }
        lemma_digits_grow(t, k);
        assert(t.subrange(0, k) =~= s.subrange(0, k));
        lemma_digits_nonneg(t);
        assert(s.last() == s[s.len() - 1]);
    }
}

proof fn lemma_digits_nonneg(s: Seq<char>)
    requires
        all_digits(s),
    ensures
        digits_value(s) >= 0,
    decreases s.len(),
{
    if s.len() > 0 {
        let t = s.drop_last();
        assert(all_digits(t)) by {
            assert forall|i: int| 0 <= i < t.len() implies '0' <= #[trigger] t[i] && t[i] <= '9' by {
                assert(t[i] == s[i]);
            }
        }
        lemma_digits_nonneg(t);
        assert(s.last() == s[s.len() - 1]);
    }
}

/// Reads a side as commands write it, `buy` or `sell`.
pub fn parse_side(s: &str) -> (r: Result<Side, EngineError>)
    ensures
        s@ == "buy"@ ==> r == Ok::<Side, EngineError>(Side::Buy),
        s@ == "sell"@ ==> r == Ok::<Side, EngineError>(Side::Sell),
        s@ != "buy"@ && s@ != "sell"@ ==> r == Err::<Side, EngineError>(EngineError::InvalidSide),
{
    proof {
        reveal_strlit("buy");
        reveal_strlit("sell");
        assert("sell"@.len() == 4 && "buy"@.len() == 3);
        assert("sell"@ != "buy"@);
    }
    let t = s.to_owned();
    let buy = "buy".to_owned();
    let sell = "sell".to_owned();
    if t == buy {
        Ok(Side::Buy)
    } else if t == sell {
        Ok(Side::Sell)
    } else {
        Err(EngineError::InvalidSide)
    }
}

/// A cancel request as a client sends it.
pub struct DeleteOrder {
    pub order_id: String,
    pub market: String,
}

/// Turns a client's cancel request into a command: both fields must be
/// present and the market a well-formed ticker.
pub fn delete_order_request(req: &DeleteOrder) -> (r: Result<CancelOrderData, EngineError>)
    ensures
        r is Ok <==> req.order_id@.len() > 0 && req.market@.len() > 0 && ticker_format(req.market@),
        r is Err ==> r == Err::<CancelOrderData, EngineError>(EngineError::ValidationError),
        r matches Ok(c) ==> c.order_id@ == req.order_id@ && c.market@ == req.market@,
{
    if req.order_id.as_str().unicode_len() == 0 || req.market.as_str().unicode_len() == 0 {
        return Err(EngineError::ValidationError);
    }
    if !validate_market_format(req.market.as_str()) {
        return Err(EngineError::ValidationError);
    }
    Ok(CancelOrderData { order_id: req.order_id.clone(), market: req.market.clone() })
}

pub struct FillResponse {
    pub price: u64,
    pub qty: u64,
    pub trade_id: u64,
    pub other_user_id: String,
    pub market_order_id: String,
}

pub struct OrderPlacedPayload {
    pub order_id: String,
    pub executed_qty: u64,
    pub fills: Vec<FillResponse>,
}

pub struct OrderCancelledPayload {
    pub order_id: String,
    pub price: u64,
    pub executed_qty: u64,
    /// The open quantity that the cancel released.
    pub remaining_qty: u64,
}

pub struct OpenOrdersPayload {
    pub orders: Vec<Order>,
}

pub struct DepthPayload {
    pub bids: Vec<PriceLevel>,
    pub asks: Vec<PriceLevel>,
}

pub struct BalanceCreditedPayload {
    pub user_id: String,
    pub asset: String,
    pub available: u64,
}

/// A command's result.
pub enum MessageToApi {
    ORDER_PLACED(OrderPlacedPayload),
    ORDER_CANCELLED(OrderCancelledPayload),
    OPEN_ORDERS(OpenOrdersPayload),
    DEPTH(DepthPayload),
    BALANCE_CREDITED(BalanceCreditedPayload),
    ERROR(EngineError),
}

/// `r` reports fill `f`.
pub open spec fn reports(r: FillResponse, f: Fill) -> bool {
    &&& r.price == f.price
    &&& r.qty == f.qty
    &&& r.trade_id == f.trade_id
    &&& r.other_user_id@ == f.other_user_id@
    &&& r.market_order_id@ == f.market_order_id@
}

/// One report per fill, in fill order.
pub fn fill_responses(fills: &Vec<Fill>) -> (r: Vec<FillResponse>)
    ensures
        r@.len() == fills@.len(),
        forall|k: int| 0 <= k < fills@.len() ==> reports(#[trigger] r@[k], fills@[k]),
{
    let mut out: Vec<FillResponse> = Vec::new();
    let mut k: usize = 0;
    while k < fills.len()
        invariant
            k <= fills.len(),
            out@.len() == k,
            forall|j: int| 0 <= j < k ==> reports(#[trigger] out@[j], fills@[j]),
        decreases fills.len() - k,
    {
        let f = &fills[k];
        out.push(FillResponse {
            price: f.price,
            qty: f.qty,
            trade_id: f.trade_id,
            other_user_id: f.other_user_id.clone(),
            market_order_id: f.market_order_id.clone(),
        });
        k = k + 1;
    }
    out
}

} // verus!
