//! The engine: resolves each command's market and runs it against the ledger
//! and that market's order book, one command at a time.
use vstd::prelude::*;
use crate::error::EngineError;
use crate::messages::{
    fill_responses, reports, BalanceCreditedPayload, DepthPayload, MessageFromApi, MessageToApi, OpenOrdersPayload,
    OrderCancelledPayload, OrderPlacedPayload,
};
use crate::ledger::{Ledger, LedgerError};
use crate::market::{fits_market, order_fits, MarketConfig};
use crate::outside::{new_order_id, unix_now};
use crate::reserve::{book_holds, books_hold, holds_for, leg, lemma_book_holds_le, lemma_book_holds_nonneg, lemma_books_hold_empty, lemma_books_hold_update,
    lemma_match_release, lemma_plan_release_nonneg, lemma_side_holds_insert, lemma_side_holds_nonneg, lemma_side_holds_remove, plan_release, side_holds};
use crate::orderbook::{crosses, fill_is, joins_at, lemma_match_plan, match_plan, side_wf, sum,levels_at, levels, level_view, PriceLevel, opposite, orders_of, remaining, submitted, Depth, Fill, Order, OrderBook, Side};

verus! {

/// What an order of `side` at `price` for `quantity` locks: the quote amount
/// `price * quantity` for a buy, the base quantity for a sell.
pub open spec fn lock_amount(side: Side, price: u64, quantity: u64) -> int {
    match side {
        Side::Buy => price * quantity,
        Side::Sell => quantity as int,
    }
}

/// The asset that an order of `side` locks in market `c`.
pub open spec fn lock_asset(c: MarketConfig, side: Side) -> Seq<char> {
    match side {
        Side::Buy => c.quote_asset@,
        Side::Sell => c.base_asset@,
    }
}

/// `u` is the taker `taker` or the maker of one of `fills`.
pub open spec fn party(u: Seq<char>, taker: Seq<char>, fills: Seq<Fill>) -> bool {
    u == taker || exists|k: int| 0 <= k < fills.len() && (#[trigger] fills[k]).other_user_id@ == u
}

/// What settling fill `f` of a taker order of `side` and limit `limit` adds
/// to the available funds of `u` in `a`: the maker gets the quote amount
/// (buy) or the base quantity (sell), the taker the other leg, and a buying
/// taker the part of its lock that the better price saved.
pub open spec fn fill_avail_delta(u: Seq<char>, a: Seq<char>, f: Fill, side: Side, limit: u64, base: Seq<char>, quote: Seq<char>) -> int {
    match side {
        Side::Buy => (if u == f.other_user_id@ && a == quote { f.price * f.qty } else { 0 })
            + (if u == f.taker_user_id@ && a == base { f.qty as int } else { 0 })
            + (if u == f.taker_user_id@ && a == quote && limit > f.price { (limit - f.price) * f.qty } else { 0 }),
        Side::Sell => (if u == f.other_user_id@ && a == base { f.qty as int } else { 0 })
            + (if u == f.taker_user_id@ && a == quote { f.price * f.qty } else { 0 }),
    }
}

/// What settling fill `f` takes out of the locked funds of `u` in `a`.
pub open spec fn fill_locked_delta(u: Seq<char>, a: Seq<char>, f: Fill, side: Side, limit: u64, base: Seq<char>, quote: Seq<char>) -> int {
    match side {
        Side::Buy => (if u == f.taker_user_id@ && a == quote { f.price * f.qty } else { 0 })
            + (if u == f.other_user_id@ && a == base { f.qty as int } else { 0 })
            + (if u == f.taker_user_id@ && a == quote && limit > f.price { (limit - f.price) * f.qty } else { 0 }),
        Side::Sell => (if u == f.taker_user_id@ && a == base { f.qty as int } else { 0 })
            + (if u == f.other_user_id@ && a == quote { f.price * f.qty } else { 0 }),
    }
}

/// `fill_avail_delta` summed over `fills`.
pub open spec fn avail_gain(u: Seq<char>, a: Seq<char>, fills: Seq<Fill>, side: Side, limit: u64, base: Seq<char>, quote: Seq<char>) -> int
    decreases fills.len(),
{
    if fills.len() == 0 {
        0
    } else {
        avail_gain(u, a, fills.drop_last(), side, limit, base, quote) + fill_avail_delta(u, a, fills.last(), side, limit, base, quote)
    }
}

/// `fill_locked_delta` summed over `fills`.
pub open spec fn locked_spent(u: Seq<char>, a: Seq<char>, fills: Seq<Fill>, side: Side, limit: u64, base: Seq<char>, quote: Seq<char>) -> int
    decreases fills.len(),
{
    if fills.len() == 0 {
        0
    } else {
        locked_spent(u, a, fills.drop_last(), side, limit, base, quote) + fill_locked_delta(u, a, fills.last(), side, limit, base, quote)
    }
}

/// Settling a fill only ever takes from locked funds.
proof fn lemma_fill_delta_nonneg(f: Fill, side: Side, limit: u64, base: Seq<char>, quote: Seq<char>)
    ensures
        forall|u: Seq<char>, a: Seq<char>| #[trigger] fill_locked_delta(u, a, f, side, limit, base, quote) >= 0,
        f.price * f.qty >= 0,
        limit > f.price ==> (limit - f.price) * f.qty >= 0,
{
    assert(f.price * f.qty >= 0) by (nonlinear_arith);
    if limit > f.price {
        assert((limit - f.price) * f.qty >= 0) by (nonlinear_arith)
            requires limit > f.price;
    }
}

/// What a prefix of the fills takes from locked funds grows fill by fill and
/// stays within what all of them take.
proof fn lemma_spent_prefix(fills: Seq<Fill>, k: int, side: Side, limit: u64, base: Seq<char>, quote: Seq<char>, u: Seq<char>, a: Seq<char>)
    requires
        0 <= k < fills.len(),
    ensures
        locked_spent(u, a, fills.subrange(0, k + 1), side, limit, base, quote)
            == locked_spent(u, a, fills.subrange(0, k), side, limit, base, quote) + fill_locked_delta(u, a, fills[k], side, limit, base, quote),
        locked_spent(u, a, fills.subrange(0, k + 1), side, limit, base, quote) <= locked_spent(u, a, fills, side, limit, base, quote),
    decreases fills.len() - k,
{
    assert(fills.subrange(0, k + 1).drop_last() =~= fills.subrange(0, k));
    assert(fills.subrange(0, k + 1).last() == fills[k]);
    if k + 1 == fills.len() {
        assert(fills.subrange(0, k + 1) =~= fills);
    } else {
        lemma_spent_prefix(fills, k + 1, side, limit, base, quote, u, a);
        lemma_fill_delta_nonneg(fills[k + 1], side, limit, base, quote);
    }
}

/// What a taker order of `side` and limit `limit` locks for `n` of quantity.
pub open spec fn taker_spent(side: Side, limit: u64, n: int) -> int {
    match side {
        Side::Buy => limit * n,
        Side::Sell => n,
    }
}

/// What settling `fills` takes from locked funds is what the matched resting
/// orders release plus what the taker locked for the quantity it traded.
proof fn lemma_spent_split(fills: Seq<Fill>, book: Seq<Order>, qs: Seq<nat>, side: Side, limit: u64, t: Seq<char>,
    base: Seq<char>, quote: Seq<char>, u: Seq<char>, a: Seq<char>)
    requires
        fills.len() == qs.len(),
        qs.len() <= book.len(),
        forall|k: int| 0 <= k < fills.len() ==> {
            &&& (#[trigger] fills[k]).price == book[k].price
            &&& fills[k].qty == qs[k]
            &&& fills[k].other_user_id@ == book[k].user_id@
            &&& fills[k].taker_user_id@ == t
            &&& book[k].side == opposite(side)
            &&& crosses(side, limit, book[k].price)
        },
    ensures
        locked_spent(u, a, fills, side, limit, base, quote) == plan_release(book, qs, u, a, base, quote)
            + (if u == t && a == asset_for(side, base, quote) { taker_spent(side, limit, sum(qs) as int) } else { 0 }),
    decreases fills.len(),
{
    if fills.len() == 0 {
        assert(sum(qs) == 0);
        assert(limit * 0 == 0) by (nonlinear_arith);
    } else {
        let n = fills.len() - 1;
        let f = fills[n];
        let o = book[n];
        let q = qs[n];
        assert(fills.drop_last().len() == qs.drop_last().len());
        assert forall|k: int| 0 <= k < fills.drop_last().len() implies {
            &&& (#[trigger] fills.drop_last()[k]).price == book[k].price
            &&& fills.drop_last()[k].qty == qs.drop_last()[k]
            &&& fills.drop_last()[k].other_user_id@ == book[k].user_id@
            &&& fills.drop_last()[k].taker_user_id@ == t
            &&& book[k].side == opposite(side)
            &&& crosses(side, limit, book[k].price)
        } by {
            assert(fills.drop_last()[k] == fills[k]);
            assert(qs.drop_last()[k] == qs[k]);
        }
        lemma_spent_split(fills.drop_last(), book, qs.drop_last(), side, limit, t, base, quote, u, a);
        assert(fills.last() == f);
        assert(qs.last() == q);
        let s0 = sum(qs.drop_last()) as int;
        assert(limit * (s0 + q) == limit * s0 + limit * q) by (nonlinear_arith);
        assert(f.price * f.qty + (limit - f.price) * f.qty == limit * f.qty) by (nonlinear_arith);
    }
}

/// Submitting `order` to book `b` (which becomes `nb`) changes what the book
/// holds and takes from locked funds in step: the matched resting orders
/// release what settlement takes from their owners, and the taker's lock
/// covers what it trades plus what rests.
proof fn lemma_submit_holds(b: OrderBook, nb: OrderBook, order: Order, executed: u64, fills: Seq<Fill>, u: Seq<char>, a: Seq<char>)
    requires
        b.wf(),
        submitted(b, nb, order, executed, fills),
        order.filled == 0,
    ensures
        ({
            let base = b.config.base_asset@;
            let quote = b.config.quote_asset@;
            let other = b.side_of(opposite(order.side));
            let qs = match_plan(other, order.side, order.price, order.quantity as nat).1;
            let rel = plan_release(other, qs, u, a, base, quote);
            let mine = u == order.user_id@ && a == asset_for(order.side, base, quote);
            &&& executed <= order.quantity
            &&& 0 <= rel <= book_holds(b, u, a)
            &&& book_holds(nb, u, a) == book_holds(b, u, a) - rel
                + (if mine { taker_spent(order.side, order.price, order.quantity - executed) } else { 0 })
            &&& locked_spent(u, a, fills, order.side, order.price, base, quote)
                == rel + (if mine { taker_spent(order.side, order.price, executed as int) } else { 0 })
            &&& taker_spent(order.side, order.price, executed as int) + taker_spent(order.side, order.price, order.quantity - executed)
                == lock_amount(order.side, order.price, order.quantity)
            &&& 0 <= taker_spent(order.side, order.price, executed as int)
            &&& 0 <= taker_spent(order.side, order.price, order.quantity - executed)
            &&& book_holds(nb, u, a) >= 0
        }),
{
    let base = b.config.base_asset@;
    let quote = b.config.quote_asset@;
    let side = order.side;
    let other = b.side_of(opposite(side));
    let own = b.side_of(side);
    let want = order.quantity as nat;
    let (rest, qs) = match_plan(other, side, order.price, want);
    let nb_other = nb.side_of(opposite(side));
    let nb_own = nb.side_of(side);
    lemma_match_plan(other, side, order.price, want, b.next_sequence);
    lemma_match_release(other, side, order.price, want, b.next_sequence, u, a, base, quote);
    let rel = plan_release(other, qs, u, a, base, quote);
    lemma_plan_release_nonneg(other, qs, u, a, base, quote);
    assert forall|k: int| 0 <= k < fills.len() implies {
        &&& (#[trigger] fills[k]).price == other[k].price
        &&& fills[k].qty == qs[k]
        &&& fills[k].other_user_id@ == other[k].user_id@
        &&& fills[k].taker_user_id@ == order.user_id@
        &&& other[k].side == opposite(side)
        &&& crosses(side, order.price, other[k].price)
    } by {
        assert(fill_is(fills[k], other[k], qs[k], b.last_trade_id + 1 + k, order.user_id@));
    }
    lemma_spent_split(fills, other, qs, side, order.price, order.user_id@, base, quote, u, a);
    // What each side holds is not negative.
    if rest.len() > 0 {
        lemma_side_holds_nonneg(rest, opposite(side), b.next_sequence, u, a, base, quote, 0);
    }
    if own.len() > 0 {
        lemma_side_holds_nonneg(own, side, b.next_sequence, u, a, base, quote, 0);
    }
    assert(side_holds(rest, u, a, base, quote) >= 0);
    assert(side_holds(own, u, a, base, quote) >= 0);
    let e = executed as int;
    let qn = order.quantity as int;
    assert(order.price * e + order.price * (qn - e) == order.price * qn) by (nonlinear_arith);
    assert(order.price * e >= 0 && order.price * (qn - e) >= 0) by (nonlinear_arith)
        requires 0 <= e <= qn;
    let resting = Order { filled: (order.filled + executed) as u64, sequence: b.next_sequence, ..order };
    let mine = u == order.user_id@ && a == asset_for(side, base, quote);
    if executed < want {
        let j = choose|j: int| joins_at(own, side, order.price, j) && nb_own == own.insert(j, resting);
        lemma_side_holds_insert(own, j, resting, u, a, base, quote);
        assert(remaining(resting) == qn - e);
        assert(holds_for(resting, u, a, base, quote) == (if mine { taker_spent(side, order.price, qn - e) } else { 0 }));
        assert(side_holds(nb_own, u, a, base, quote) == side_holds(own, u, a, base, quote)
            + (if mine { taker_spent(side, order.price, qn - e) } else { 0 }));
    } else {
        assert(qn - e == 0);
        assert(order.price * 0 == 0);
        assert(side_holds(nb_own, u, a, base, quote) == side_holds(own, u, a, base, quote)
            + (if mine { taker_spent(side, order.price, qn - e) } else { 0 }));
    }
    assert(side_holds(rest, u, a, base, quote) == side_holds(other, u, a, base, quote) - rel);
    if side == Side::Buy {
        assert(book_holds(b, u, a) == side_holds(own, u, a, base, quote) + side_holds(other, u, a, base, quote));
        assert(book_holds(nb, u, a) == side_holds(nb_own, u, a, base, quote) + side_holds(rest, u, a, base, quote));
    } else {
        assert(book_holds(b, u, a) == side_holds(other, u, a, base, quote) + side_holds(own, u, a, base, quote));
        assert(book_holds(nb, u, a) == side_holds(rest, u, a, base, quote) + side_holds(nb_own, u, a, base, quote));
    }
}

/// Settles one fill of a taker order of `side` with limit `limit`: the quote
/// leg (`price * qty`) and the base leg (`qty`) move between taker and maker;
/// a buying taker gets back the part of its lock that the better price saved.
fn settle_fill(ledger: &mut Ledger, side: Side, limit: u64, fill: &Fill, base: &String, quote: &String) -> (r: Result<(), LedgerError>)
    requires
        old(ledger).wf(),
    ensures
        final(ledger).wf(),
        r is Ok ==> forall|a: Seq<char>| #[trigger] final(ledger).total_of(a) == old(ledger).total_of(a),
        r is Ok ==> forall|u: Seq<char>, a: Seq<char>| u != fill.taker_user_id@ && u != fill.other_user_id@
            ==> #[trigger] final(ledger).balance_of(u, a) == old(ledger).balance_of(u, a),
        r is Ok ==> forall|u: Seq<char>, a: Seq<char>| #[trigger] final(ledger).available(u, a)
            == old(ledger).available(u, a) + fill_avail_delta(u, a, *fill, side, limit, base@, quote@),
        r is Ok ==> forall|u: Seq<char>, a: Seq<char>| #[trigger] final(ledger).locked(u, a)
            == old(ledger).locked(u, a) - fill_locked_delta(u, a, *fill, side, limit, base@, quote@),
        (forall|u: Seq<char>, a: Seq<char>| #[trigger] old(ledger).locked(u, a)
            >= fill_locked_delta(u, a, *fill, side, limit, base@, quote@)) ==> r is Ok,
{
    let ghost covered = forall|u: Seq<char>, a: Seq<char>| #[trigger] old(ledger).locked(u, a)
        >= fill_locked_delta(u, a, *fill, side, limit, base@, quote@);
    proof {
        lemma_fill_delta_nonneg(*fill, side, limit, base@, quote@);
        if covered {
            let t = fill.taker_user_id@;
            let m = fill.other_user_id@;
            assert(old(ledger).locked(t, quote@) >= fill_locked_delta(t, quote@, *fill, side, limit, base@, quote@));
            assert(old(ledger).locked(m, quote@) >= fill_locked_delta(m, quote@, *fill, side, limit, base@, quote@));
            assert(old(ledger).locked(t, quote@) <= u64::MAX);
            assert(old(ledger).locked(m, quote@) <= u64::MAX);
            assert(fill.price * fill.qty <= u64::MAX);
            if side == Side::Buy && limit > fill.price {
                assert((limit - fill.price) * fill.qty <= u64::MAX);
            }
        }
    }
    if fill.qty > 0 && fill.price > u64::MAX / fill.qty {
        proof {
            assert(fill.price * fill.qty > u64::MAX) by (nonlinear_arith)
                requires fill.price > u64::MAX / fill.qty, fill.qty > 0;
        }
        return Err(LedgerError::Overflow);
    }
    proof {
        assert(fill.price * fill.qty <= u64::MAX) by (nonlinear_arith)
            requires fill.qty == 0 || fill.price <= u64::MAX / fill.qty;
    }
    let quote_amount = fill.price * fill.qty;
    match side {
        Side::Buy => {
            let r1 = ledger.settle(&fill.taker_user_id, &fill.other_user_id, quote, quote_amount);
            if r1.is_err() {
                return r1;
            }
            let r2 = ledger.settle(&fill.other_user_id, &fill.taker_user_id, base, fill.qty);
            if r2.is_err() {
                return r2;
            }
            if limit > fill.price {
                let saved = limit - fill.price;
                if fill.qty > 0 && saved > u64::MAX / fill.qty {
                    proof {
                        assert(saved * fill.qty > u64::MAX) by (nonlinear_arith)
                            requires saved > u64::MAX / fill.qty, fill.qty > 0;
                    }
                    return Err(LedgerError::Overflow);
                }
                proof {
                    assert(saved * fill.qty <= u64::MAX) by (nonlinear_arith)
                        requires fill.qty == 0 || saved <= u64::MAX / fill.qty;
                }
                ledger.unlock(&fill.taker_user_id, quote, saved * fill.qty)
            } else {
                Ok(())
            }
        },
        Side::Sell => {
            let r1 = ledger.settle(&fill.taker_user_id, &fill.other_user_id, base, fill.qty);
            if r1.is_err() {
                return r1;
            }
            ledger.settle(&fill.other_user_id, &fill.taker_user_id, quote, quote_amount)
        },
    }
}

/// Settles every fill of a taker order, in order.
pub fn update_balances(ledger: &mut Ledger, user_id: &String, base: &String, quote: &String, side: Side, limit: u64, fills: &Vec<Fill>)
    -> (r: Result<(), LedgerError>)
    requires
        old(ledger).wf(),
        forall|k: int| 0 <= k < fills@.len() ==> (#[trigger] fills@[k]).taker_user_id@ == user_id@,
    ensures
        final(ledger).wf(),
        r is Ok ==> forall|a: Seq<char>| #[trigger] final(ledger).total_of(a) == old(ledger).total_of(a),
        r is Ok ==> forall|u: Seq<char>, a: Seq<char>| !party(u, user_id@, fills@)
            ==> #[trigger] final(ledger).balance_of(u, a) == old(ledger).balance_of(u, a),
        r is Ok ==> forall|u: Seq<char>, a: Seq<char>| #[trigger] final(ledger).available(u, a)
            == old(ledger).available(u, a) + avail_gain(u, a, fills@, side, limit, base@, quote@),
        r is Ok ==> forall|u: Seq<char>, a: Seq<char>| #[trigger] final(ledger).locked(u, a)
            == old(ledger).locked(u, a) - locked_spent(u, a, fills@, side, limit, base@, quote@),
        r is Err ==> *final(ledger) == *old(ledger),
        (forall|u: Seq<char>, a: Seq<char>| #[trigger] old(ledger).locked(u, a)
            >= locked_spent(u, a, fills@, side, limit, base@, quote@)) ==> r is Ok,
{
    let ghost start = *ledger;
    let ghost covered = forall|u: Seq<char>, a: Seq<char>| #[trigger] old(ledger).locked(u, a)
        >= locked_spent(u, a, fills@, side, limit, base@, quote@);
    let mut work = ledger.copy();
    let mut k: usize = 0;
    while k < fills.len()
        invariant
            k <= fills.len(),
            start == *old(ledger),
            *ledger == *old(ledger),
            ledger.wf(),
            covered == (forall|u: Seq<char>, a: Seq<char>| #[trigger] start.locked(u, a)
                >= locked_spent(u, a, fills@, side, limit, base@, quote@)),
            work.wf(),
            forall|j: int| 0 <= j < fills@.len() ==> (#[trigger] fills@[j]).taker_user_id@ == user_id@,
            forall|a: Seq<char>| #[trigger] work.total_of(a) == start.total_of(a),
            forall|u: Seq<char>, a: Seq<char>| !party(u, user_id@, fills@)
                ==> #[trigger] work.balance_of(u, a) == start.balance_of(u, a),
            forall|u: Seq<char>, a: Seq<char>| #[trigger] work.available(u, a)
                == start.available(u, a) + avail_gain(u, a, fills@.subrange(0, k as int), side, limit, base@, quote@),
            forall|u: Seq<char>, a: Seq<char>| #[trigger] work.locked(u, a)
                == start.locked(u, a) - locked_spent(u, a, fills@.subrange(0, k as int), side, limit, base@, quote@),
        decreases fills.len() - k,
    {
        let ghost before = work;
        proof {
            if covered {
                assert forall|u: Seq<char>, a: Seq<char>| #[trigger] before.locked(u, a)
                    >= fill_locked_delta(u, a, fills@[k as int], side, limit, base@, quote@) by {
                    lemma_spent_prefix(fills@, k as int, side, limit, base@, quote@, u, a);
                    assert(start.locked(u, a) >= locked_spent(u, a, fills@, side, limit, base@, quote@));
                }
            }
        }
        let r = settle_fill(&mut work, side, limit, &fills[k], base, quote);
        if r.is_err() {
            return r;
        }
        proof {
            assert forall|u: Seq<char>, a: Seq<char>| !party(u, user_id@, fills@)
                implies #[trigger] work.balance_of(u, a) == start.balance_of(u, a) by {
                assert(fills@[k as int].other_user_id@ != u);
                assert(work.balance_of(u, a) == before.balance_of(u, a));
            }
            let next = fills@.subrange(0, k as int + 1);
            assert(next.drop_last() =~= fills@.subrange(0, k as int));
            assert(next.last() == fills@[k as int]);
        }
        k = k + 1;
    }
    proof {
        assert(fills@.subrange(0, fills@.len() as int) =~= fills@);
    }
    *ledger = work;
    Ok(())
}

/// The asset that an order of `side` locks, given the market's assets.
pub open spec fn asset_for(side: Side, base: Seq<char>, quote: Seq<char>) -> Seq<char> {
    match side {
        Side::Buy => quote,
        Side::Sell => base,
    }
}

/// Locks what an order needs before it reaches the book: `price * quantity`
/// of `quote` for a buy, `quantity` of `base` for a sell.
pub fn check_and_lock_funds(ledger: &mut Ledger, base: &String, quote: &String, side: Side, user_id: &String, price: u64, quantity: u64)
    -> (r: Result<(), EngineError>)
    requires
        old(ledger).wf(),
    ensures
        final(ledger).wf(),
        r is Err ==> *final(ledger) == *old(ledger),
        lock_amount(side, price, quantity) > u64::MAX ==> r == Err::<(), EngineError>(EngineError::ValidationError),
        lock_amount(side, price, quantity) <= u64::MAX ==> {
            let asset = asset_for(side, base@, quote@);
            let amount = lock_amount(side, price, quantity);
            &&& (r is Ok <==> old(ledger).available(user_id@, asset) >= amount)
            &&& (r is Err ==> r == Err::<(), EngineError>(EngineError::InsufficientFunds))
            &&& (r is Ok ==> final(ledger).available(user_id@, asset) == old(ledger).available(user_id@, asset) - amount
                && final(ledger).locked(user_id@, asset) == old(ledger).locked(user_id@, asset) + amount
                && final(ledger).same_except(old(ledger), user_id@, asset))
        },
        r is Ok ==> forall|a: Seq<char>| #[trigger] final(ledger).total_of(a) == old(ledger).total_of(a),
{
    let amount = match side {
        Side::Buy => {
            if quantity > 0 && price > u64::MAX / quantity {
                proof {
                    assert(price * quantity > u64::MAX) by (nonlinear_arith)
                        requires price > u64::MAX / quantity, quantity > 0;
                }
                return Err(EngineError::ValidationError);
            }
            proof {
                if quantity > 0 {
                    assert(price * quantity <= u64::MAX) by (nonlinear_arith)
                        requires price <= u64::MAX / quantity, quantity > 0;
                }
            }
            price * quantity
        },
        Side::Sell => quantity,
    };
    let asset = match side {
        Side::Buy => quote,
        Side::Sell => base,
    };
    match ledger.lock(user_id, asset, amount) {
        Ok(()) => Ok(()),
        Err(_) => Err(EngineError::InsufficientFunds),
    }
}

/// What cancelling `o` releases: `price * (quantity - filled)` of the quote
/// asset for a buy, `quantity - filled` of the base asset for a sell.
pub open spec fn release_amount(o: Order) -> int {
    match o.side {
        Side::Buy => o.price * remaining(o),
        Side::Sell => remaining(o),
    }
}

/// A trade, as handed to the persistence collaborator.
pub struct TRADEADDEDDATA {
    pub market: String,
    pub id: u64,
    /// The resting (maker) order was the buy.
    pub is_buyer_maker: bool,
    pub price: u64,
    pub quantity: u64,
    pub maker_user_id: String,
    pub taker_user_id: String,
    pub timestamp: i64,
}

/// The state of an order after a command, as handed to the persistence collaborator.
pub struct ORDERUPDATEDATA {
    pub order_id: String,
    pub market: String,
    pub exec_qty: u64,
    pub remaining_qty: u64,
}

/// `e` records fill `f` of a taker order of `side` in `market` at time `timestamp`.
pub open spec fn records(e: TRADEADDEDDATA, f: Fill, market: Seq<char>, side: Side, timestamp: i64) -> bool {
    &&& e.market@ == market
    &&& e.id == f.trade_id
    &&& e.is_buyer_maker == (side == Side::Sell)
    &&& e.price == f.price
    &&& e.quantity == f.qty
    &&& e.maker_user_id@ == f.other_user_id@
    &&& e.taker_user_id@ == f.taker_user_id@
    &&& e.timestamp == timestamp
}

/// One trade record per fill of a taker order of `side`, in fill order.
pub fn create_db_trades(fills: &Vec<Fill>, market: &String, side: Side, timestamp: i64) -> (r: Vec<TRADEADDEDDATA>)
    ensures
        r@.len() == fills@.len(),
        forall|k: int| 0 <= k < fills@.len() ==> records(#[trigger] r@[k], fills@[k], market@, side, timestamp),
{
    let mut out: Vec<TRADEADDEDDATA> = Vec::new();
    let mut k: usize = 0;
    while k < fills.len()
        invariant
            k <= fills.len(),
            out@.len() == k,
            forall|j: int| 0 <= j < k ==> records(#[trigger] out@[j], fills@[j], market@, side, timestamp),
        decreases fills.len() - k,
    {
        let f = &fills[k];
        out.push(TRADEADDEDDATA {
            market: market.clone(),
            id: f.trade_id,
            is_buyer_maker: side == Side::Sell,
            price: f.price,
            quantity: f.qty,
            maker_user_id: f.other_user_id.clone(),
            taker_user_id: f.taker_user_id.clone(),
            timestamp,
        });
        k = k + 1;
    }
    out
}

/// The trade records of `fills`, stamped with the current time.
pub fn record_trades(fills: &Vec<Fill>, market: &String, side: Side) -> (r: Vec<TRADEADDEDDATA>)
    ensures
        r@.len() == fills@.len(),
        forall|k: int| 0 <= k < fills@.len() ==> records(#[trigger] r@[k], fills@[k], market@, side, r@[0].timestamp),
{
    let now = unix_now();
    create_db_trades(fills, market, side, now)
}

/// The state record of an order of `quantity` of which `executed` was filled.
pub fn update_db_trades(order_id: &String, market: &String, quantity: u64, executed: u64) -> (r: ORDERUPDATEDATA)
    requires
        executed <= quantity,
    ensures
        r.order_id@ == order_id@,
        r.market@ == market@,
        r.exec_qty == executed,
        r.remaining_qty == quantity - executed,
{
    ORDERUPDATEDATA { order_id: order_id.clone(), market: market.clone(), exec_qty: executed, remaining_qty: quantity - executed }
}

/// `after` is `before` once the resting order `o`, of id `id`, was cancelled
/// in book `i`: the order left its side, and what it held locked went back to
/// its owner's available funds.
pub open spec fn cancelled(before: Engine, after: Engine, i: int, id: Seq<char>, o: Order) -> bool {
    let b = before.orderbooks@[i];
    let nb = after.orderbooks@[i];
    let asset = lock_asset(b.config, o.side);
    &&& o.order_id@ == id
    &&& after.orderbooks@ == before.orderbooks@.update(i, nb)
    &&& exists|j: int| 0 <= j < b.side_of(o.side).len() && b.side_of(o.side)[j] == o
        && nb.side_of(o.side) == b.side_of(o.side).remove(j)
    &&& nb.side_of(opposite(o.side)) == b.side_of(opposite(o.side))
    &&& nb.config == b.config
    &&& nb.last_trade_id == b.last_trade_id
    &&& nb.next_sequence == b.next_sequence
    &&& after.balances.available(o.user_id@, asset) == before.balances.available(o.user_id@, asset) + release_amount(o)
    &&& after.balances.locked(o.user_id@, asset) == before.balances.locked(o.user_id@, asset) - release_amount(o)
    &&& after.balances.same_except(&before.balances, o.user_id@, asset)
    &&& forall|a: Seq<char>| #[trigger] after.balances.total_of(a) == before.balances.total_of(a)
}

/// The prices of `fills`, in fill order.
pub fn fill_prices(fills: &Vec<Fill>) -> (r: Vec<u64>)
    ensures
        r@.len() == fills@.len(),
        forall|k: int| 0 <= k < fills@.len() ==> r@[k] == (#[trigger] fills@[k]).price,
{
    let mut out: Vec<u64> = Vec::new();
    let mut k: usize = 0;
    while k < fills.len()
        invariant
            k <= fills.len(),
            out@.len() == k,
            forall|j: int| 0 <= j < k ==> out@[j] == (#[trigger] fills@[j]).price,
        decreases fills.len() - k,
    {
        out.push(fills[k].price);
        k = k + 1;
    }
    out
}

/// The levels of `depth` that an order of `side` at `price` changed: on
/// the other side those at the prices it traded at, on its own side the one
/// at its price.
pub fn depth_update(depth: &Depth, side: Side, price: u64, fills: &Vec<Fill>) -> (r: Depth)
    ensures
        ({
            let traded = |l: PriceLevel| exists|k: int| 0 <= k < fills@.len() && (#[trigger] fills@[k]).price == l.price;
            let own = |l: PriceLevel| l.price == price;
            match side {
                Side::Buy => r.asks@ == depth.asks@.filter(traded) && r.bids@ == depth.bids@.filter(own),
                Side::Sell => r.bids@ == depth.bids@.filter(traded) && r.asks@ == depth.asks@.filter(own),
            }
        }),
{
    let traded = fill_prices(fills);
    let mut mine: Vec<u64> = Vec::new();
    mine.push(price);
    let ghost t = |l: PriceLevel| exists|k: int| 0 <= k < fills@.len() && (#[trigger] fills@[k]).price == l.price;
    let ghost o = |l: PriceLevel| l.price == price;
    proof {
        assert((|l: PriceLevel| traded@.contains(l.price)) =~= t) by {
            assert forall|l: PriceLevel| traded@.contains(l.price) == t(l) by {
                if traded@.contains(l.price) {
                    let k = choose|k: int| 0 <= k < traded@.len() && traded@[k] == l.price;
                    assert(fills@[k].price == l.price);
                }
                if t(l) {
                    let k = choose|k: int| 0 <= k < fills@.len() && (#[trigger] fills@[k]).price == l.price;
                    assert(traded@[k] == l.price);
                }
            }
        }
        assert((|l: PriceLevel| mine@.contains(l.price)) =~= o) by {
            assert forall|l: PriceLevel| mine@.contains(l.price) == o(l) by {
                if l.price == price {
                    assert(mine@[0] == l.price);
                }
            }
        }
    }
    match side {
        Side::Buy => Depth { asks: levels_at(&depth.asks, &traded), bids: levels_at(&depth.bids, &mine) },
        Side::Sell => Depth { bids: levels_at(&depth.bids, &traded), asks: levels_at(&depth.asks, &mine) },
    }
}

/// The level at `price` of one side, or a level of zero quantity at that
/// price where the side has none.
pub fn level_or_zero(levels: &Vec<PriceLevel>, price: u64) -> (r: Vec<PriceLevel>)
    ensures
        ({
            let at = |l: PriceLevel| l.price == price;
            if levels@.filter(at).len() > 0 {
                r@ == levels@.filter(at)
            } else {
                r@ == seq![PriceLevel { price: price, quantity: 0 }]
            }
        }),
{
    let mut mine: Vec<u64> = Vec::new();
    mine.push(price);
    let ghost o = |l: PriceLevel| l.price == price;
    proof {
        assert((|l: PriceLevel| mine@.contains(l.price)) =~= o) by {
            assert forall|l: PriceLevel| mine@.contains(l.price) == o(l) by {
                if l.price == price {
                    assert(mine@[0] == l.price);
                }
            }
        }
    }
    let found = levels_at(levels, &mine);
    if found.len() > 0 {
        found
    } else {
        let mut zero: Vec<PriceLevel> = Vec::new();
        zero.push(PriceLevel { price, quantity: 0 });
        proof {
            assert(zero@ =~= seq![PriceLevel { price: price, quantity: 0 }]);
        }
        zero
    }
}

/// Under the engine's invariant, the lock taken for `order` and the funds
/// its resting counterparties hold cover everything settlement takes.
proof fn lemma_cover_before_settle(e: Engine, i: int, nb: OrderBook, order: Order, executed: u64, fills: Seq<Fill>, l1: Ledger)
    requires
        e.wf(),
        0 <= i < e.orderbooks@.len(),
        submitted(e.orderbooks@[i], nb, order, executed, fills),
        order.filled == 0,
        forall|u: Seq<char>, a: Seq<char>| #[trigger] l1.locked(u, a) == e.balances.locked(u, a)
            + (if u == order.user_id@ && a == lock_asset(e.orderbooks@[i].config, order.side) {
                lock_amount(order.side, order.price, order.quantity) } else { 0 }),
    ensures
        forall|u: Seq<char>, a: Seq<char>| #[trigger] l1.locked(u, a) >= locked_spent(u, a, fills, order.side, order.price,
            e.orderbooks@[i].config.base_asset@, e.orderbooks@[i].config.quote_asset@),
{
    let b = e.orderbooks@[i];
    assert forall|u: Seq<char>, a: Seq<char>| #[trigger] l1.locked(u, a) >= locked_spent(u, a, fills, order.side, order.price,
        b.config.base_asset@, b.config.quote_asset@) by {
        lemma_submit_holds(b, nb, order, executed, fills, u, a);
        assert forall|k: int| 0 <= k < e.orderbooks@.len() implies book_holds(#[trigger] e.orderbooks@[k], u, a) >= 0 by {
            lemma_book_holds_nonneg(e.orderbooks@[k], u, a);
        }
        lemma_book_holds_le(e.orderbooks@, i, u, a);
        assert(books_hold(e.orderbooks@, u, a) <= e.balances.locked(u, a));
    }
}

/// After settlement, what the books hold is still locked.
proof fn lemma_cover_after_settle(e: Engine, i: int, nb: OrderBook, order: Order, executed: u64, fills: Seq<Fill>, l2: Ledger)
    requires
        e.wf(),
        0 <= i < e.orderbooks@.len(),
        submitted(e.orderbooks@[i], nb, order, executed, fills),
        order.filled == 0,
        forall|u: Seq<char>, a: Seq<char>| #[trigger] l2.locked(u, a) == e.balances.locked(u, a)
            + (if u == order.user_id@ && a == lock_asset(e.orderbooks@[i].config, order.side) {
                lock_amount(order.side, order.price, order.quantity) } else { 0 })
            - locked_spent(u, a, fills, order.side, order.price,
                e.orderbooks@[i].config.base_asset@, e.orderbooks@[i].config.quote_asset@),
    ensures
        forall|u: Seq<char>, a: Seq<char>| #[trigger] books_hold(e.orderbooks@.update(i, nb), u, a) <= l2.locked(u, a),
{
    let b = e.orderbooks@[i];
    assert forall|u: Seq<char>, a: Seq<char>| #[trigger] books_hold(e.orderbooks@.update(i, nb), u, a) <= l2.locked(u, a) by {
        lemma_submit_holds(b, nb, order, executed, fills, u, a);
        lemma_books_hold_update(e.orderbooks@, i, nb, u, a);
        assert(books_hold(e.orderbooks@, u, a) <= e.balances.locked(u, a));
    }
}

/// Taking resting order `o` out of book `i` lowers what the books hold by
/// what `o` held, which the ledger has locked.
proof fn lemma_cancel_cover(e: Engine, i: int, nb: OrderBook, o: Order, j: int)
    requires
        e.wf(),
        0 <= i < e.orderbooks@.len(),
        0 <= j < e.orderbooks@[i].side_of(o.side).len(),
        e.orderbooks@[i].side_of(o.side)[j] == o,
        nb.side_of(o.side) == e.orderbooks@[i].side_of(o.side).remove(j),
        nb.side_of(opposite(o.side)) == e.orderbooks@[i].side_of(opposite(o.side)),
        nb.config == e.orderbooks@[i].config,
    ensures
        0 <= release_amount(o) <= e.balances.locked(o.user_id@, lock_asset(e.orderbooks@[i].config, o.side)),
        o.filled < o.quantity,
        forall|u: Seq<char>, a: Seq<char>| #[trigger] books_hold(e.orderbooks@.update(i, nb), u, a)
            == books_hold(e.orderbooks@, u, a)
                - (if u == o.user_id@ && a == lock_asset(e.orderbooks@[i].config, o.side) { release_amount(o) } else { 0 }),
{
    let b = e.orderbooks@[i];
    let base = b.config.base_asset@;
    let quote = b.config.quote_asset@;
    let s = b.side_of(o.side);
    let ua = o.user_id@;
    let la = lock_asset(b.config, o.side);
    assert(side_wf(s, o.side, b.next_sequence));
    lemma_side_holds_nonneg(s, o.side, b.next_sequence, ua, la, base, quote, j);
    lemma_book_holds_nonneg(b, ua, la);
    assert forall|k: int| 0 <= k < e.orderbooks@.len() implies book_holds(#[trigger] e.orderbooks@[k], ua, la) >= 0 by {
        lemma_book_holds_nonneg(e.orderbooks@[k], ua, la);
    }
    lemma_book_holds_le(e.orderbooks@, i, ua, la);
    assert(books_hold(e.orderbooks@, ua, la) <= e.balances.locked(ua, la));
    assert(holds_for(o, ua, la, base, quote) == release_amount(o));
    assert forall|u: Seq<char>, a: Seq<char>| #[trigger] books_hold(e.orderbooks@.update(i, nb), u, a)
        == books_hold(e.orderbooks@, u, a) - (if u == ua && a == la { release_amount(o) } else { 0 }) by {
        lemma_side_holds_remove(s, j, u, a, base, quote);
        lemma_books_hold_update(e.orderbooks@, i, nb, u, a);
        assert(holds_for(o, u, a, base, quote) == (if u == ua && a == la { release_amount(o) } else { 0 }));
    }
}

/// `after` is `before` once an order of `user` for `quantity` at `price` on
/// `side`, with id `id`, was placed in book `i`: the book changed as
/// `submitted` says, and the ledger by the order's lock and the settlement of
/// its fills.
pub open spec fn order_placed(before: Engine, after: Engine, i: int, price: u64, quantity: u64, side: Side, user: String,
    executed: u64, fills: Seq<Fill>, id: String) -> bool {
    let b = before.orderbooks@[i];
    let order = Order { order_id: id, user_id: user, side: side, price: price, quantity: quantity, filled: 0, sequence: 0 };
    let mine = |u: Seq<char>, a: Seq<char>| u == user@ && a == lock_asset(b.config, side);
    &&& executed <= quantity
    &&& after.orderbooks@ == before.orderbooks@.update(i, after.orderbooks@[i])
    &&& submitted(b, after.orderbooks@[i], order, executed, fills)
    &&& forall|a: Seq<char>| #[trigger] after.balances.total_of(a) == before.balances.total_of(a)
    &&& forall|u: Seq<char>, a: Seq<char>| !party(u, user@, fills)
        ==> #[trigger] after.balances.balance_of(u, a) == before.balances.balance_of(u, a)
    &&& forall|u: Seq<char>, a: Seq<char>| #[trigger] after.balances.available(u, a)
        == before.balances.available(u, a)
            - (if mine(u, a) { lock_amount(side, price, quantity) } else { 0 })
            + avail_gain(u, a, fills, side, price, b.config.base_asset@, b.config.quote_asset@)
    &&& forall|u: Seq<char>, a: Seq<char>| #[trigger] after.balances.locked(u, a)
        == before.balances.locked(u, a)
            + (if mine(u, a) { lock_amount(side, price, quantity) } else { 0 })
            - locked_spent(u, a, fills, side, price, b.config.base_asset@, b.config.quote_asset@)
}

pub struct Engine {
    /// The market registry: one book per market, each holding its market's parameters.
    pub orderbooks: Vec<OrderBook>,
    pub balances: Ledger,
}

impl Engine {
    /// The ledger and each book are well formed, and what the resting orders
    /// of all books hold for a user in an asset is locked in the ledger.
    pub open spec fn wf(&self) -> bool {
        &&& self.balances.wf()
        &&& forall|i: int| 0 <= i < self.orderbooks@.len() ==> (#[trigger] self.orderbooks@[i]).wf()
        &&& forall|u: Seq<char>, a: Seq<char>| #[trigger] books_hold(self.orderbooks@, u, a) <= self.balances.locked(u, a)
    }

    /// Market `m` resolves to book `i`: the first book with that ticker.
    pub open spec fn market_at(&self, m: Seq<char>, i: int) -> bool {
        &&& 0 <= i < self.orderbooks@.len()
        &&& self.orderbooks@[i].config.symbol@ == m
        &&& forall|j: int| 0 <= j < i ==> (#[trigger] self.orderbooks@[j]).config.symbol@ != m
    }

    pub open spec fn knows(&self, m: Seq<char>) -> bool {
        exists|i: int| 0 <= i < self.orderbooks@.len() && (#[trigger] self.orderbooks@[i]).config.symbol@ == m
    }

    /// An engine with an empty book for each market and an empty ledger.
    pub fn new(configs: Vec<MarketConfig>) -> (r: Engine)
        ensures
            r.wf(),
            r.orderbooks@.len() == configs@.len(),
            forall|i: int| 0 <= i < configs@.len() ==> {
                &&& (#[trigger] r.orderbooks@[i]).config == configs@[i]
                &&& r.orderbooks@[i].bids@.len() == 0
                &&& r.orderbooks@[i].asks@.len() == 0
                &&& r.orderbooks@[i].last_trade_id == 0
                &&& r.orderbooks@[i].next_sequence == 0
            },
            forall|u: Seq<char>, a: Seq<char>| #[trigger] r.balances.balance_of(u, a) == (crate::ledger::Funds { available: 0, locked: 0 }),
            forall|a: Seq<char>| #[trigger] r.balances.total_of(a) == 0,
    {
        let mut orderbooks: Vec<OrderBook> = Vec::new();
        let mut i: usize = 0;
        while i < configs.len()
            invariant
                i <= configs.len(),
                orderbooks@.len() == i,
                forall|j: int| 0 <= j < i ==> {
                    &&& (#[trigger] orderbooks@[j]).config == configs@[j]
                    &&& orderbooks@[j].bids@.len() == 0
                    &&& orderbooks@[j].asks@.len() == 0
                    &&& orderbooks@[j].last_trade_id == 0
                    &&& orderbooks@[j].next_sequence == 0
                    &&& orderbooks@[j].wf()
                },
            decreases configs.len() - i,
        {
            orderbooks.push(OrderBook::new(configs[i].copy()));
            i = i + 1;
        }
        let e = Engine { orderbooks, balances: Ledger::new() };
        proof {
            assert forall|u: Seq<char>, a: Seq<char>| #[trigger] books_hold(e.orderbooks@, u, a) <= e.balances.locked(u, a) by {
                lemma_books_hold_empty(e.orderbooks@, u, a);
            }
        }
        e
    }

    /// The index of the book of `market`.
    pub fn resolve(&self, market: &String) -> (r: Option<usize>)
        ensures
            match r {
                Some(i) => self.market_at(market@, i as int),
                None => !self.knows(market@),
            },
    {
        let mut i: usize = 0;
        while i < self.orderbooks.len()
            invariant
                i <= self.orderbooks.len(),
                forall|j: int| 0 <= j < i ==> (#[trigger] self.orderbooks@[j]).config.symbol@ != market@,
            decreases self.orderbooks.len() - i,
        {
            if self.orderbooks[i].config.symbol == *market {
                return Some(i);
            }
            i = i + 1;
        }
        None
    }

    /// Places a limit order under a freshly generated order id; see `place_order`.
    pub fn create_order(&mut self, market: &String, price: u64, quantity: u64, side: Side, user_id: &String)
        -> (r: Result<(u64, Vec<Fill>, String), EngineError>)
        requires
            old(self).wf(),
        ensures
            final(self).wf(),
            r is Err ==> *final(self) == *old(self),
            !old(self).knows(market@) ==> r == Err::<(u64, Vec<Fill>, String), EngineError>(EngineError::UnknownMarket),
            forall|i: int| #[trigger] old(self).market_at(market@, i) ==> {
                let b = old(self).orderbooks@[i];
                let fits = order_fits(b.config, price, quantity) && lock_amount(side, price, quantity) <= u64::MAX;
                let funded = old(self).balances.available(user_id@, lock_asset(b.config, side)) >= lock_amount(side, price, quantity);
                &&& (!fits ==> r == Err::<(u64, Vec<Fill>, String), EngineError>(EngineError::ValidationError))
                &&& (fits && !b.has_room() ==> r == Err::<(u64, Vec<Fill>, String), EngineError>(EngineError::InternalInvariantViolation))
                &&& (fits && b.has_room() && !funded ==> r == Err::<(u64, Vec<Fill>, String), EngineError>(EngineError::InsufficientFunds))
                &&& (fits && b.has_room() && funded
                    ==> r is Ok || r == Err::<(u64, Vec<Fill>, String), EngineError>(EngineError::InternalInvariantViolation))
                &&& (fits && b.has_room() && funded && b.bids@.len() == 0 && b.asks@.len() == 0 ==> r is Ok)
                &&& (r matches Ok((executed, fills, id)) ==> order_placed(*old(self), *final(self), i, price, quantity, side, *user_id,
                    executed, fills@, id))
            },
    {
        let order_id = new_order_id();
        let r = self.place_order(market, price, quantity, side, user_id, order_id);
        r
    }

    /// Places a limit order with the id `order_id`: validates it against its
    /// market, locks the funds it needs, matches it and settles every fill.
    /// A rejected order changes nothing.
#[verifier::rlimit(40)]
    pub fn place_order(&mut self, market: &String, price: u64, quantity: u64, side: Side, user_id: &String, order_id: String)
        -> (r: Result<(u64, Vec<Fill>, String), EngineError>)
        requires
            old(self).wf(),
        ensures
            final(self).wf(),
            r is Err ==> *final(self) == *old(self),
            !old(self).knows(market@) ==> r == Err::<(u64, Vec<Fill>, String), EngineError>(EngineError::UnknownMarket),
            forall|i: int| #[trigger] old(self).market_at(market@, i) ==> {
                let b = old(self).orderbooks@[i];
                let fits = order_fits(b.config, price, quantity) && lock_amount(side, price, quantity) <= u64::MAX;
                let room = b.has_room();
                let asset = lock_asset(b.config, side);
                let funded = old(self).balances.available(user_id@, asset) >= lock_amount(side, price, quantity);
                let order = Order { order_id: order_id, user_id: *user_id, side: side, price: price, quantity: quantity, filled: 0, sequence: 0 };
                &&& (!fits ==> r == Err::<(u64, Vec<Fill>, String), EngineError>(EngineError::ValidationError))
                &&& (fits && !room ==> r == Err::<(u64, Vec<Fill>, String), EngineError>(EngineError::InternalInvariantViolation))
                &&& (fits && room && !funded ==> r == Err::<(u64, Vec<Fill>, String), EngineError>(EngineError::InsufficientFunds))
                &&& (fits && room && funded && b.holds_id(order_id@)
                    ==> r == Err::<(u64, Vec<Fill>, String), EngineError>(EngineError::InternalInvariantViolation))
                &&& (fits && room && funded && !b.holds_id(order_id@) ==> r is Ok)
                &&& (r matches Ok((executed, fills, id)) ==> {
                    &&& id == order_id
                    &&& executed <= quantity
                    &&& final(self).orderbooks@ == old(self).orderbooks@.update(i, final(self).orderbooks@[i])
                    &&& submitted(b, final(self).orderbooks@[i], order, executed, fills@)
                    &&& forall|a: Seq<char>| #[trigger] final(self).balances.total_of(a) == old(self).balances.total_of(a)
                    &&& forall|u: Seq<char>, a: Seq<char>| !party(u, user_id@, fills@)
                        ==> #[trigger] final(self).balances.balance_of(u, a) == old(self).balances.balance_of(u, a)
                    &&& forall|u: Seq<char>, a: Seq<char>| #[trigger] final(self).balances.available(u, a)
                        == old(self).balances.available(u, a)
                            - (if u == user_id@ && a == lock_asset(b.config, side) { lock_amount(side, price, quantity) } else { 0 })
                            + avail_gain(u, a, fills@, side, price, b.config.base_asset@, b.config.quote_asset@)
                    &&& forall|u: Seq<char>, a: Seq<char>| #[trigger] final(self).balances.locked(u, a)
                        == old(self).balances.locked(u, a)
                            + (if u == user_id@ && a == lock_asset(b.config, side) { lock_amount(side, price, quantity) } else { 0 })
                            - locked_spent(u, a, fills@, side, price, b.config.base_asset@, b.config.quote_asset@)
                })
            },
    {
        let idx = match self.resolve(market) {
            Some(i) => i,
            None => return Err(EngineError::UnknownMarket),
        };
        let ghost b = self.orderbooks@[idx as int];
        if !fits_market(&self.orderbooks[idx].config, price, quantity) {
            return Err(EngineError::ValidationError);
        }
        if side == Side::Buy && price > u64::MAX / quantity {
            proof {
                assert(price * quantity > u64::MAX) by (nonlinear_arith)
                    requires price > u64::MAX / quantity, quantity > 0;
            }
            return Err(EngineError::ValidationError);
        }
        proof {
            if side == Side::Buy {
                assert(price * quantity <= u64::MAX) by (nonlinear_arith)
                    requires price <= u64::MAX / quantity, quantity > 0;
            }
        }
        let nbids = self.orderbooks[idx].bids.len() as u64;
        let nasks = self.orderbooks[idx].asks.len() as u64;
        if self.orderbooks[idx].next_sequence == u64::MAX || self.orderbooks[idx].last_trade_id > u64::MAX - nbids
            || self.orderbooks[idx].last_trade_id + nbids > u64::MAX - nasks {
            return Err(EngineError::InternalInvariantViolation);
        }
        let mut ledger = self.balances.copy();
        let locked = check_and_lock_funds(&mut ledger, &self.orderbooks[idx].config.base_asset,
            &self.orderbooks[idx].config.quote_asset, side, user_id, price, quantity);
        if locked.is_err() {
            return Err(EngineError::InsufficientFunds);
        }
        if self.orderbooks[idx].contains(&order_id) {
            return Err(EngineError::InternalInvariantViolation);
        }
        let ghost l1 = ledger;
        let mut nb = self.orderbooks[idx].copy();
        let ghost copy = nb;
        assert(copy.side_of(Side::Buy) == b.side_of(Side::Buy));
        assert(copy.side_of(Side::Sell) == b.side_of(Side::Sell));
        let id = order_id.clone();
        let order = Order { order_id, user_id: user_id.clone(), side, price, quantity, filled: 0, sequence: 0 };
        let ghost sorder = order;
        let (executed, fills) = nb.addOrder(order);
        proof {
            assert forall|k: int| 0 <= k < fills@.len() implies (#[trigger] fills@[k]).taker_user_id@ == user_id@ by {
                assert(fill_is(fills@[k], copy.side_of(opposite(side))[k],
                    match_plan(copy.side_of(opposite(side)), side, price, quantity as nat).1[k],
                    copy.last_trade_id + 1 + k, user_id@));
            }
            assert(submitted(b, nb, sorder, executed, fills@));
            assert forall|u: Seq<char>, a: Seq<char>| #[trigger] l1.locked(u, a) == old(self).balances.locked(u, a)
                + (if u == user_id@ && a == lock_asset(b.config, side) { lock_amount(side, price, quantity) } else { 0 }) by {
                if !(u == user_id@ && a == lock_asset(b.config, side)) {
                    assert(l1.balance_of(u, a) == old(self).balances.balance_of(u, a));
                }
            }
            lemma_cover_before_settle(*old(self), idx as int, nb, sorder, executed, fills@, l1);
            lemma_submit_holds(b, nb, sorder, executed, fills@, user_id@, user_id@);
        }
        let settled = update_balances(&mut ledger, user_id, &nb.config.base_asset, &nb.config.quote_asset, side, price, &fills);
        if settled.is_err() {
            return Err(EngineError::InternalInvariantViolation);
        }
        proof {
            lemma_cover_after_settle(*old(self), idx as int, nb, sorder, executed, fills@, ledger);
        }
        self.orderbooks.set(idx, nb);
        self.balances = ledger;
        proof {
            assert forall|j: int| 0 <= j < self.orderbooks@.len() implies (#[trigger] self.orderbooks@[j]).wf() by {
                if j != idx {
                    assert(self.orderbooks@[j] == old(self).orderbooks@[j]);
                }
            }
        }
        Ok((executed, fills, id))
    }

    /// Cancels the resting order `order_id` of `market` and releases what it
    /// still holds locked. Returns the order as it rested.
#[verifier::rlimit(40)]
    pub fn cancel_order(&mut self, market: &String, order_id: &String) -> (r: Result<Order, EngineError>)
        requires
            old(self).wf(),
        ensures
            final(self).wf(),
            r is Err ==> *final(self) == *old(self),
            !old(self).knows(market@) ==> r == Err::<Order, EngineError>(EngineError::UnknownMarket),
            r matches Ok(o) ==> o.filled < o.quantity,
            forall|i: int| #[trigger] old(self).market_at(market@, i) ==> {
                let b = old(self).orderbooks@[i];
                &&& (!b.holds_id(order_id@) ==> r == Err::<Order, EngineError>(EngineError::OrderNotFound))
                &&& (b.holds_id(order_id@) ==> r is Ok)
                &&& (r matches Ok(o) ==> cancelled(*old(self), *final(self), i, order_id@, o) && o.filled < o.quantity)
            },
    {
        let idx = match self.resolve(market) {
            Some(i) => i,
            None => return Err(EngineError::UnknownMarket),
        };
        let ghost b = self.orderbooks@[idx as int];
        let mut nb = self.orderbooks[idx].copy();
        let ghost copy = nb;
        assert(copy.side_of(Side::Buy) == b.side_of(Side::Buy));
        assert(copy.side_of(Side::Sell) == b.side_of(Side::Sell));
        let found = match nb.cancelBid(order_id) {
            Some(o) => Some(o),
            None => nb.cancelAsk(order_id),
        };
        let o = match found {
            Some(o) => o,
            None => return Err(EngineError::OrderNotFound),
        };
        proof {
            let j = choose|j: int| 0 <= j < b.side_of(o.side).len() && b.side_of(o.side)[j] == o
                && nb.side_of(o.side) == b.side_of(o.side).remove(j);
            lemma_cancel_cover(*old(self), idx as int, nb, o, j);
        }
        let open_qty = o.quantity - o.filled;
        let (amount, asset) = match o.side {
            Side::Buy => {
                if open_qty > 0 && o.price > u64::MAX / open_qty {
                    proof {
                        assert(o.price * open_qty > u64::MAX) by (nonlinear_arith)
                            requires o.price > u64::MAX / open_qty, open_qty > 0;
                    }
                    return Err(EngineError::InternalInvariantViolation);
                }
                proof {
                    if open_qty > 0 {
                        assert(o.price * open_qty <= u64::MAX) by (nonlinear_arith)
                            requires o.price <= u64::MAX / open_qty, open_qty > 0;
                    }
                }
                (o.price * open_qty, &nb.config.quote_asset)
            },
            Side::Sell => (open_qty, &nb.config.base_asset),
        };
        if self.balances.unlock(&o.user_id, asset, amount).is_err() {
            return Err(EngineError::InternalInvariantViolation);
        }
        self.orderbooks.set(idx, nb);
        proof {
            assert forall|j: int| 0 <= j < self.orderbooks@.len() implies (#[trigger] self.orderbooks@[j]).wf() by {
                if j != idx {
                    assert(self.orderbooks@[j] == old(self).orderbooks@[j]);
                }
            }
        }
        Ok(o)
    }

    /// Credits `amount` of `asset` to `user_id` and returns the new available amount.
    pub fn on_ramp(&mut self, user_id: &String, asset: &String, amount: u64) -> (r: Result<u64, EngineError>)
        requires
            old(self).wf(),
        ensures
            final(self).wf(),
            final(self).orderbooks == old(self).orderbooks,
            r is Ok <==> old(self).balances.total_of(asset@) + amount <= u64::MAX,
            r is Err ==> r == Err::<u64, EngineError>(EngineError::ValidationError) && *final(self) == *old(self),
            r matches Ok(n) ==> n == old(self).balances.available(user_id@, asset@) + amount
                && final(self).balances.available(user_id@, asset@) == n
                && final(self).balances.locked(user_id@, asset@) == old(self).balances.locked(user_id@, asset@)
                && final(self).balances.same_except(&old(self).balances, user_id@, asset@),
    {
        match self.balances.credit(user_id, asset, amount) {
            Ok(n) => Ok(n),
            Err(_) => Err(EngineError::ValidationError),
        }
    }

    /// Both sides' price levels of `market`.
    pub fn get_depth(&self, market: &String) -> (r: Result<Depth, EngineError>)
        requires
            self.wf(),
        ensures
            !self.knows(market@) ==> r == Err::<Depth, EngineError>(EngineError::UnknownMarket),
            forall|i: int| #[trigger] self.market_at(market@, i) ==> (r matches Ok(d)
                && level_view(d.bids@) == levels(self.orderbooks@[i].bids@)
                && level_view(d.asks@) == levels(self.orderbooks@[i].asks@)),
    {
        match self.resolve(market) {
            Some(i) => Ok(self.orderbooks[i].getDepth()),
            None => Err(EngineError::UnknownMarket),
        }
    }

    /// The resting orders of `user_id` in `market`.
    pub fn get_open_orders(&self, user_id: &String, market: &String) -> (r: Result<Vec<Order>, EngineError>)
        ensures
            !self.knows(market@) ==> r == Err::<Vec<Order>, EngineError>(EngineError::UnknownMarket),
            forall|i: int| #[trigger] self.market_at(market@, i) ==> (r matches Ok(v)
                && v@ == orders_of(self.orderbooks@[i].asks@, user_id@) + orders_of(self.orderbooks@[i].bids@, user_id@)),
    {
        match self.resolve(market) {
            Some(i) => Ok(self.orderbooks[i].getOpenOrders(user_id)),
            None => Err(EngineError::UnknownMarket),
        }
    }

    /// Runs one command to completion and returns its result, with the fills
    /// of a placed order (none for any other result). A command that ends in
    /// an error changes nothing.
    pub fn process(&mut self, msg: MessageFromApi) -> (r: (MessageToApi, Vec<Fill>))
        requires
            old(self).wf(),
        ensures
            final(self).wf(),
            r.0 is ERROR ==> *final(self) == *old(self),
            !(r.0 is ORDER_PLACED) ==> r.1@.len() == 0,
            match msg {
                MessageFromApi::CREATE_ORDER(d) => {
                    &&& (r.0 is ORDER_PLACED || r.0 is ERROR)
                    &&& (!old(self).knows(d.market@) ==> r.0 == MessageToApi::ERROR(EngineError::UnknownMarket))
                    &&& forall|i: int| #[trigger] old(self).market_at(d.market@, i) ==> {
                        let b = old(self).orderbooks@[i];
                        let fits = order_fits(b.config, d.price, d.quantity) && lock_amount(d.side, d.price, d.quantity) <= u64::MAX;
                        let funded = old(self).balances.available(d.user_id@, lock_asset(b.config, d.side))
                            >= lock_amount(d.side, d.price, d.quantity);
                        &&& (!fits ==> r.0 == MessageToApi::ERROR(EngineError::ValidationError))
                        &&& (fits && !b.has_room() ==> r.0 == MessageToApi::ERROR(EngineError::InternalInvariantViolation))
                        &&& (fits && b.has_room() && !funded ==> r.0 == MessageToApi::ERROR(EngineError::InsufficientFunds))
                        &&& (fits && b.has_room() && funded
                            ==> r.0 is ORDER_PLACED || r.0 == MessageToApi::ERROR(EngineError::InternalInvariantViolation))
                        &&& (fits && b.has_room() && funded && b.bids@.len() == 0 && b.asks@.len() == 0 ==> r.0 is ORDER_PLACED)
                        &&& (r.0 matches MessageToApi::ORDER_PLACED(p) ==> {
                            &&& order_placed(*old(self), *final(self), i, d.price, d.quantity, d.side, d.user_id,
                                p.executed_qty, r.1@, p.order_id)
                            &&& p.fills@.len() == r.1@.len()
                            &&& forall|k: int| 0 <= k < r.1@.len() ==> reports(#[trigger] p.fills@[k], r.1@[k])
                        })
                    }
                },
                MessageFromApi::CANCEL_ORDER(d) => {
                    &&& (r.0 is ORDER_CANCELLED || r.0 is ERROR)
                    &&& (!old(self).knows(d.market@) ==> r.0 == MessageToApi::ERROR(EngineError::UnknownMarket))
                    &&& forall|i: int| #[trigger] old(self).market_at(d.market@, i) ==> {
                        let b = old(self).orderbooks@[i];
                        &&& (!b.holds_id(d.order_id@) ==> r.0 == MessageToApi::ERROR(EngineError::OrderNotFound))
                        &&& (b.holds_id(d.order_id@) ==> r.0 is ORDER_CANCELLED)
                        &&& (r.0 matches MessageToApi::ORDER_CANCELLED(p) ==> exists|o: Order| {
                            &&& cancelled(*old(self), *final(self), i, d.order_id@, o)
                            &&& o.filled < o.quantity
                            &&& p == (OrderCancelledPayload {
                                order_id: o.order_id,
                                price: o.price,
                                executed_qty: o.filled,
                                remaining_qty: (o.quantity - o.filled) as u64,
                            })
                        })
                    }
                },
                MessageFromApi::ON_RAMP(d) => {
                    &&& final(self).orderbooks == old(self).orderbooks
                    &&& (r.0 is BALANCE_CREDITED <==> old(self).balances.total_of(d.asset@) + d.amount <= u64::MAX)
                    &&& (!(r.0 is BALANCE_CREDITED) ==> r.0 == MessageToApi::ERROR(EngineError::ValidationError))
                    &&& (r.0 matches MessageToApi::BALANCE_CREDITED(p) ==> {
                        &&& p.user_id == d.user_id
                        &&& p.asset == d.asset
                        &&& p.available == old(self).balances.available(d.user_id@, d.asset@) + d.amount
                        &&& final(self).balances.available(d.user_id@, d.asset@) == p.available
                        &&& final(self).balances.locked(d.user_id@, d.asset@) == old(self).balances.locked(d.user_id@, d.asset@)
                        &&& final(self).balances.same_except(&old(self).balances, d.user_id@, d.asset@)
                    })
                },
                MessageFromApi::GET_DEPTH(d) => {
                    &&& *final(self) == *old(self)
                    &&& (!old(self).knows(d.market@) ==> r.0 == MessageToApi::ERROR(EngineError::UnknownMarket))
                    &&& forall|i: int| #[trigger] old(self).market_at(d.market@, i) ==> (r.0 matches MessageToApi::DEPTH(p)
                        && level_view(p.bids@) == levels(old(self).orderbooks@[i].bids@)
                        && level_view(p.asks@) == levels(old(self).orderbooks@[i].asks@))
                },
                MessageFromApi::GET_OPEN_ORDERS(d) => {
                    &&& *final(self) == *old(self)
                    &&& (!old(self).knows(d.market@) ==> r.0 == MessageToApi::ERROR(EngineError::UnknownMarket))
                    &&& forall|i: int| #[trigger] old(self).market_at(d.market@, i) ==> (r.0 matches MessageToApi::OPEN_ORDERS(p)
                        && p.orders@ == orders_of(old(self).orderbooks@[i].asks@, d.user_id@)
                            + orders_of(old(self).orderbooks@[i].bids@, d.user_id@))
                },
            },
    {
        match msg {
            MessageFromApi::CREATE_ORDER(d) => {
                match self.create_order(&d.market, d.price, d.quantity, d.side, &d.user_id) {
                    Ok((executed, fills, id)) => {
                        let out = fill_responses(&fills);
                        (MessageToApi::ORDER_PLACED(OrderPlacedPayload { order_id: id, executed_qty: executed, fills: out }), fills)
                    },
                    Err(e) => (MessageToApi::ERROR(e), Vec::new()),
                }
            },
            MessageFromApi::CANCEL_ORDER(d) => {
                match self.cancel_order(&d.market, &d.order_id) {
                    Ok(o) => {
                        let remaining_qty = o.quantity - o.filled;
                        (MessageToApi::ORDER_CANCELLED(OrderCancelledPayload {
                            order_id: o.order_id,
                            price: o.price,
                            executed_qty: o.filled,
                            remaining_qty,
                        }), Vec::new())
                    },
                    Err(e) => (MessageToApi::ERROR(e), Vec::new()),
                }
            },
            MessageFromApi::ON_RAMP(d) => {
                match self.on_ramp(&d.user_id, &d.asset, d.amount) {
                    Ok(n) => (MessageToApi::BALANCE_CREDITED(BalanceCreditedPayload { user_id: d.user_id, asset: d.asset, available: n }),
                        Vec::new()),
                    Err(e) => (MessageToApi::ERROR(e), Vec::new()),
                }
            },
            MessageFromApi::GET_DEPTH(d) => {
                match self.get_depth(&d.market) {
                    Ok(depth) => (MessageToApi::DEPTH(DepthPayload { bids: depth.bids, asks: depth.asks }), Vec::new()),
                    Err(e) => (MessageToApi::ERROR(e), Vec::new()),
                }
            },
            MessageFromApi::GET_OPEN_ORDERS(d) => {
                match self.get_open_orders(&d.user_id, &d.market) {
                    Ok(orders) => (MessageToApi::OPEN_ORDERS(OpenOrdersPayload { orders }), Vec::new()),
                    Err(e) => (MessageToApi::ERROR(e), Vec::new()),
                }
            },
        }
    }
}

} // verus!