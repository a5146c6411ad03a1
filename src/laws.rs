//! Properties of the book and the ledger that hold across operations.
use vstd::prelude::*;
use crate::engine::{cancelled, fill_avail_delta, fill_locked_delta, Engine};
use crate::ledger::{settled, Ledger};
use crate::orderbook::{
    ids_apart, ids_unique,
    ahead, crosses, fill_is, joins_at, lemma_match_plan, levels, match_plan, opposite, remaining, side_wf, submitted, worse,
    Fill, Order, OrderBook, Side,
};

verus! {

/// Price-time priority: of two resting orders at one price, the older one
/// is emptied by an incoming order before the newer one is touched.
pub proof fn law_price_time_priority(book: Seq<Order>, taker: Side, limit: u64, want: nat, next_seq: u64, i: int, j: int)
    requires
        side_wf(book, opposite(taker), next_seq),
        0 <= i < book.len(),
        0 <= j < book.len(),
        book[i].price == book[j].price,
        book[i].sequence < book[j].sequence,
    ensures
        ({
            let qs = match_plan(book, taker, limit, want).1;
            j < qs.len() ==> i < qs.len() && qs[i] == remaining(book[i])
        }),
{
    lemma_match_plan(book, taker, limit, want, next_seq);
    if j < i {
        assert(ahead(opposite(taker), book[j], book[i]));
    }
}

/// Price improvement: every fill of a submitted order is at the price of the
/// resting order it matched, which is at least as good as the taker's limit.
pub proof fn law_fill_at_maker_price(before: OrderBook, after: OrderBook, order: Order, executed: u64, fills: Seq<Fill>)
    requires
        before.wf(),
        submitted(before, after, order, executed, fills),
    ensures
        forall|k: int| 0 <= k < fills.len() ==> {
            &&& (#[trigger] fills[k]).price == before.side_of(opposite(order.side))[k].price
            &&& crosses(order.side, order.price, fills[k].price)
        },
{
    let other = before.side_of(opposite(order.side));
    let want = (order.quantity - order.filled) as nat;
    let qs = match_plan(other, order.side, order.price, want).1;
    lemma_match_plan(other, order.side, order.price, want, before.next_sequence);
    assert forall|k: int| 0 <= k < fills.len() implies {
        &&& (#[trigger] fills[k]).price == other[k].price
        &&& crosses(order.side, order.price, fills[k].price)
    } by {
        assert(fill_is(fills[k], other[k], qs[k], before.last_trade_id + 1 + k, order.user_id@));
    }
}

/// The open quantity of the orders of `s` at `price`.
pub open spec fn open_at(s: Seq<Order>, price: u64) -> int
    decreases s.len(),
{
    if s.len() == 0 {
        0
    } else {
        open_at(s.drop_last(), price) + if s.last().price == price { remaining(s.last()) } else { 0 }
    }
}

proof fn lemma_open_at_absent(s: Seq<Order>, price: u64)
    requires
        forall|i: int| 0 <= i < s.len() ==> (#[trigger] s[i]).price != price,
    ensures
        open_at(s, price) == 0,
    decreases s.len(),
{
    if s.len() > 0 {
        lemma_open_at_absent(s.drop_last(), price);
    }
}

/// Depth aggregation: on a well-formed side, each level's quantity is the
/// open quantity of all resting orders at its price, no level is empty, the
/// levels run strictly from the best price to the worst, and every resting
/// order's price has its level.
#[verifier::rlimit(40)]
pub proof fn law_depth_levels(s: Seq<Order>, side: Side, next_seq: u64)
    requires
        side_wf(s, side, next_seq),
    ensures
        forall|k: int| 0 <= k < levels(s).len() ==> (#[trigger] levels(s)[k]).1 == open_at(s, levels(s)[k].0),
        forall|k: int| 0 <= k < levels(s).len() ==> (#[trigger] levels(s)[k]).1 > 0,
        forall|k: int, l: int| 0 <= k < l < levels(s).len() ==> worse(side, (#[trigger] levels(s)[l]).0, (#[trigger] levels(s)[k]).0),
        forall|i: int| 0 <= i < s.len() ==> exists|k: int| 0 <= k < levels(s).len() && (#[trigger] levels(s)[k]).0 == (#[trigger] s[i]).price,
        s.len() > 0 ==> levels(s).len() > 0 && levels(s).last().0 == s.last().price,
    decreases s.len(),
{
    if s.len() == 0 {
        return;
    }
    let t = s.drop_last();
    assert forall|i: int, j: int| 0 <= i < j < t.len() implies ahead(side, #[trigger] t[i], #[trigger] t[j]) by {
        assert(ahead(side, s[i], s[j]));
    }
    law_depth_levels(t, side, next_seq);
    let prev = levels(t);
    let o = s.last();
    let cur = levels(s);
    assert(s[s.len() - 1] == o);
    assert forall|p: u64| #[trigger] open_at(s, p) == open_at(t, p) + if o.price == p { remaining(o) } else { 0 } by {}
    if prev.len() > 0 && prev.last().0 == o.price {
        assert(cur == prev.update(prev.len() - 1, (o.price, (prev.last().1 + remaining(o)) as nat)));
        assert forall|k: int, l: int| 0 <= k < l < cur.len() implies worse(side, (#[trigger] cur[l]).0, (#[trigger] cur[k]).0) by {
            assert(worse(side, prev[l].0, prev[k].0));
        }
        assert forall|i: int| 0 <= i < s.len() implies exists|k: int| 0 <= k < cur.len() && (#[trigger] cur[k]).0 == (#[trigger] s[i]).price by {
            if i < t.len() {
                assert(s[i] == t[i]);
                let k = choose|k: int| 0 <= k < prev.len() && (#[trigger] prev[k]).0 == t[i].price;
                assert(cur[k].0 == s[i].price);
            } else {
                assert(cur[prev.len() - 1].0 == s[i].price);
            }
        }
    } else {
        assert(cur == prev.push((o.price, remaining(o) as nat)));
        if t.len() > 0 {
            assert(ahead(side, s[t.len() - 1], o));
            assert(t.last() == s[t.len() - 1]);
            assert(worse(side, o.price, prev.last().0));
            assert forall|i: int| 0 <= i < t.len() implies (#[trigger] t[i]).price != o.price by {
                if i < t.len() - 1 {
                    assert(ahead(side, s[i], s[t.len() - 1]));
                    assert(s[i] == t[i]);
                }
            }
        }
        lemma_open_at_absent(t, o.price);
        assert forall|k: int| 0 <= k < cur.len() implies (#[trigger] cur[k]).1 == open_at(s, cur[k].0) by {
            if k < prev.len() {
                assert(cur[k] == prev[k]);
                if t.len() > 0 {
                    assert(worse(side, prev.last().0, prev[k].0) || k == prev.len() - 1);
                }
            }
        }
        assert forall|k: int, l: int| 0 <= k < l < cur.len() implies worse(side, (#[trigger] cur[l]).0, (#[trigger] cur[k]).0) by {
            if l < prev.len() {
                assert(worse(side, prev[l].0, prev[k].0));
            } else if k < prev.len() - 1 {
                assert(worse(side, prev[prev.len() - 1].0, prev[k].0));
            }
        }
        assert forall|i: int| 0 <= i < s.len() implies exists|k: int| 0 <= k < cur.len() && (#[trigger] cur[k]).0 == (#[trigger] s[i]).price by {
            if i < t.len() {
                assert(s[i] == t[i]);
                let k = choose|k: int| 0 <= k < prev.len() && (#[trigger] prev[k]).0 == t[i].price;
                assert(cur[k].0 == s[i].price);
            } else {
                assert(cur[prev.len() as int].0 == s[i].price);
            }
        }
    }
}

/// Conservation: one leg of a fill leaves the summed `available + locked` of
/// its two parties unchanged, and every other balance untouched.
pub proof fn law_settle_conserves(before: Ledger, after: Ledger, from: Seq<char>, to: Seq<char>, asset: Seq<char>, amount: nat)
    requires
        before.locked(from, asset) >= amount,
        settled(before, after, from, to, asset, amount),
    ensures
        from != to ==> after.available(from, asset) + after.locked(from, asset) + after.available(to, asset) + after.locked(to, asset)
            == before.available(from, asset) + before.locked(from, asset) + before.available(to, asset) + before.locked(to, asset),
        after.available(from, asset) + after.locked(from, asset) + (if from != to { after.available(to, asset) + after.locked(to, asset) } else { 0 })
            == before.available(from, asset) + before.locked(from, asset) + (if from != to { before.available(to, asset) + before.locked(to, asset) } else { 0 }),
        forall|u: Seq<char>, a: Seq<char>| !(u == from && a == asset) && !(u == to && a == asset)
            ==> #[trigger] after.balance_of(u, a) == before.balance_of(u, a),
{
}

/// Conservation over a fill: settling it moves funds between its taker and
/// its maker only, and in every asset what one of them gains in
/// `available + locked` the other loses.
pub proof fn law_fill_conserves(f: Fill, side: Side, limit: u64, base: Seq<char>, quote: Seq<char>, a: Seq<char>)
    ensures
        ({
            let t = f.taker_user_id@;
            let m = f.other_user_id@;
            let net = |u: Seq<char>| fill_avail_delta(u, a, f, side, limit, base, quote) - fill_locked_delta(u, a, f, side, limit, base, quote);
            &&& t != m ==> net(t) + net(m) == 0
            &&& t == m ==> net(t) == 0
            &&& forall|u: Seq<char>| u != t && u != m ==> fill_avail_delta(u, a, f, side, limit, base, quote) == 0
                && #[trigger] fill_locked_delta(u, a, f, side, limit, base, quote) == 0
        }),
{
}

/// Idempotent cancel: once an order was cancelled, its market's book no
/// longer holds its id, so cancelling it again is refused with
/// `OrderNotFound` and changes nothing.
#[verifier::rlimit(40)]
pub proof fn law_cancel_removes(before: Engine, after: Engine, market: Seq<char>, i: int, id: Seq<char>, o: Order)
    requires
        before.wf(),
        before.market_at(market, i),
        cancelled(before, after, i, id, o),
    ensures
        after.market_at(market, i),
        !after.orderbooks@[i].holds_id(id),
{
    let b = before.orderbooks@[i];
    let nb = after.orderbooks@[i];
    assert forall|j: int| 0 <= j < i implies (#[trigger] after.orderbooks@[j]).config.symbol@ != market by {
        assert(after.orderbooks@[j] == before.orderbooks@[j]);
    }
    let own = b.side_of(o.side);
    let j = choose|j: int| 0 <= j < own.len() && own[j] == o && nb.side_of(o.side) == own.remove(j);
    assert(b.wf());
    assert(ids_unique(own));
    assert forall|k: int| 0 <= k < nb.side_of(o.side).len() implies (#[trigger] nb.side_of(o.side)[k]).order_id@ != id by {
        if k < j {
            assert(nb.side_of(o.side)[k] == own[k]);
        } else {
            assert(nb.side_of(o.side)[k] == own[k + 1]);
        }
    }
    let other = b.side_of(opposite(o.side));
    assert forall|k: int| 0 <= k < other.len() implies (#[trigger] other[k]).order_id@ != id by {
        if o.side == Side::Buy {
            assert(ids_apart(b.bids@, b.asks@));
            assert(b.bids@[j].order_id@ != b.asks@[k].order_id@);
        } else {
            assert(ids_apart(b.bids@, b.asks@));
            assert(b.bids@[k].order_id@ != b.asks@[j].order_id@);
        }
    }
    if o.side == Side::Buy {
        assert(!(exists|k: int| 0 <= k < nb.bids.len() && (#[trigger] nb.bids@[k]).order_id@ == id));
        assert(!(exists|k: int| 0 <= k < nb.asks.len() && (#[trigger] nb.asks@[k]).order_id@ == id));
    } else {
        assert(!(exists|k: int| 0 <= k < nb.bids.len() && (#[trigger] nb.bids@[k]).order_id@ == id));
        assert(!(exists|k: int| 0 <= k < nb.asks.len() && (#[trigger] nb.asks@[k]).order_id@ == id));
    }
}

/// A resting order that a submission fills completely leaves the book, so a
/// later cancel of it is refused with `OrderNotFound`.
#[verifier::rlimit(40)]
pub proof fn law_filled_maker_leaves(before: OrderBook, after: OrderBook, order: Order, executed: u64, fills: Seq<Fill>, k: int)
    requires
        before.wf(),
        !before.holds_id(order.order_id@),
        submitted(before, after, order, executed, fills),
        0 <= k < fills.len(),
        fills[k].qty == remaining(before.side_of(opposite(order.side))[k]),
    ensures
        !after.holds_id(fills[k].market_order_id@),
{
    let other = before.side_of(opposite(order.side));
    let own = before.side_of(order.side);
    let want = (order.quantity - order.filled) as nat;
    let (rest, qs) = match_plan(other, order.side, order.price, want);
    lemma_match_plan(other, order.side, order.price, want, before.next_sequence);
    let d = other.len() - rest.len();
    assert(fill_is(fills[k], other[k], qs[k], before.last_trade_id + 1 + k, order.user_id@));
    let id = other[k].order_id@;
    assert(k < d);
    assert(ids_unique(other));
    assert forall|i: int| 0 <= i < rest.len() implies (#[trigger] rest[i]).order_id@ != id by {
        assert(rest[i].order_id == other[i + d].order_id);
    }
    assert forall|i: int| 0 <= i < own.len() implies (#[trigger] own[i]).order_id@ != id by {
        if order.side == Side::Buy {
            assert(before.bids@[i].order_id@ != before.asks@[k].order_id@);
        } else {
            assert(before.bids@[k].order_id@ != before.asks@[i].order_id@);
        }
    }
    assert(other[k].order_id@ != order.order_id@) by {
        if order.side == Side::Buy {
            assert(before.asks@[k] == other[k]);
        } else {
            assert(before.bids@[k] == other[k]);
        }
    }
    let now_own = after.side_of(order.side);
    assert forall|i: int| 0 <= i < now_own.len() implies (#[trigger] now_own[i]).order_id@ != id by {
        if executed < want {
            let j = choose|j: int| joins_at(own, order.side, order.price, j)
                && now_own == own.insert(j, Order { filled: (order.filled + executed) as u64, sequence: before.next_sequence, ..order });
            if i < j {
                assert(now_own[i] == own[i]);
            } else if i > j {
                assert(now_own[i] == own[i - 1]);
            }
        }
    }
    if order.side == Side::Buy {
        assert(!(exists|i: int| 0 <= i < after.bids.len() && (#[trigger] after.bids@[i]).order_id@ == id));
        assert(!(exists|i: int| 0 <= i < after.asks.len() && (#[trigger] after.asks@[i]).order_id@ == id));
    } else {
        assert(!(exists|i: int| 0 <= i < after.bids.len() && (#[trigger] after.bids@[i]).order_id@ == id));
        assert(!(exists|i: int| 0 <= i < after.asks.len() && (#[trigger] after.asks@[i]).order_id@ == id));
    }
}

} // verus!
