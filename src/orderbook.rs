//! One market's order book: resting orders kept in price-time priority, the
//! matching algorithm, cancellation, depth aggregation and open-order lookup.
use vstd::prelude::*;
use crate::market::MarketConfig;

verus! {

#[derive(Clone, Copy, Debug, PartialEq, Eq, Structural)]
pub enum Side {
    Buy,
    Sell,
}

pub open spec fn opposite(s: Side) -> Side {
    match s {
        Side::Buy => Side::Sell,
        Side::Sell => Side::Buy,
    }
}

/// A limit order. Prices are counted in price ticks and quantities in
/// quantity steps of the order's market.
pub struct Order {
    pub order_id: String,
    pub user_id: String,
    pub side: Side,
    pub price: u64,
    pub quantity: u64,
    pub filled: u64,
    /// Insertion counter of the book; the older order has the smaller number.
    pub sequence: u64,
}

/// One match between an incoming (taker) order and a resting (maker) order.
pub struct Fill {
    /// The maker order's price.
    pub price: u64,
    pub qty: u64,
    pub trade_id: u64,
    /// The maker's user.
    pub other_user_id: String,
    /// The maker's order.
    pub market_order_id: String,
    pub taker_user_id: String,
}

pub open spec fn remaining(o: Order) -> int {
    o.quantity - o.filled
}

/// A resting order at `maker_price` can trade with a `taker` order limited to `limit`.
pub open spec fn crosses(taker: Side, limit: u64, maker_price: u64) -> bool {
    match taker {
        Side::Buy => maker_price <= limit,
        Side::Sell => maker_price >= limit,
    }
}

/// On a side of the book holding `side` orders, `a` is served before `b`:
/// better price first, then lower sequence number.
pub open spec fn ahead(side: Side, a: Order, b: Order) -> bool {
    ||| (side == Side::Buy && a.price > b.price)
    ||| (side == Side::Sell && a.price < b.price)
    ||| (a.price == b.price && a.sequence < b.sequence)
}

/// A well-formed side of the book: resting `side` orders, each partly open,
/// numbered below `next_seq`, kept in priority order.
pub open spec fn side_wf(s: Seq<Order>, side: Side, next_seq: u64) -> bool {
    &&& forall|i: int| 0 <= i < s.len() ==> {
        &&& (#[trigger] s[i]).side == side
        &&& s[i].filled < s[i].quantity
        &&& s[i].sequence < next_seq
    }
    &&& forall|i: int, j: int| 0 <= i < j < s.len() ==> ahead(side, #[trigger] s[i], #[trigger] s[j])
}

/// What matching a `taker` order of limit `limit` and open quantity `want`
/// against the resting orders `book` (best first) leaves in the book, and the
/// quantity taken from each resting order, front first.
pub open spec fn match_plan(book: Seq<Order>, taker: Side, limit: u64, want: nat) -> (Seq<Order>, Seq<nat>)
    decreases book.len(),
{
    if want == 0 || book.len() == 0 || !crosses(taker, limit, book[0].price) {
        (book, Seq::empty())
    } else {
        let avail = remaining(book[0]);
        if want < avail {
            (book.update(0, Order { filled: (book[0].filled + want) as u64, ..book[0] }), seq![want])
        } else {
            let rest = match_plan(book.drop_first(), taker, limit, (want - avail) as nat);
            (rest.0, seq![avail as nat] + rest.1)
        }
    }
}

pub open spec fn sum(s: Seq<nat>) -> nat
    decreases s.len(),
{
    if s.len() == 0 {
        0
    } else {
        sum(s.drop_last()) + s.last()
    }
}

/// `a` is `b` with at most its filled quantity raised.
pub open spec fn same_but_filled(a: Order, b: Order) -> bool {
    &&& a.order_id == b.order_id
    &&& a.user_id == b.user_id
    &&& a.side == b.side
    &&& a.price == b.price
    &&& a.quantity == b.quantity
    &&& a.sequence == b.sequence
    &&& a.filled >= b.filled
}

/// What matching against a well-formed side does: it takes from the resting
/// orders strictly front to back, only from orders whose price crosses the
/// taker's limit, empties each order before it touches the next, takes no more
/// than the taker wants, and leaves a well-formed side made of the untouched
/// tail, the first of which may be partly filled.
#[verifier::rlimit(40)]
pub proof fn lemma_match_plan(book: Seq<Order>, taker: Side, limit: u64, want: nat, next_seq: u64)
    requires
        side_wf(book, opposite(taker), next_seq),
    ensures
        ({
            let (rest, qs) = match_plan(book, taker, limit, want);
            let d = book.len() - rest.len();
            &&& qs.len() <= book.len()
            &&& sum(qs) <= want
            &&& forall|k: int| 0 <= k < qs.len() ==> crosses(taker, limit, #[trigger] book[k].price)
            &&& forall|k: int| 0 <= k < qs.len() ==> 0 < #[trigger] qs[k] <= remaining(book[k])
            &&& forall|k: int| 0 <= k < qs.len() - 1 ==> #[trigger] qs[k] == remaining(book[k])
            &&& side_wf(rest, opposite(taker), next_seq)
            &&& 0 <= d <= qs.len()
            &&& forall|i: int| 0 <= i < rest.len() ==> same_but_filled(#[trigger] rest[i], book[i + d])
            &&& forall|i: int| 1 <= i < rest.len() ==> #[trigger] rest[i] == book[i + d]
            &&& (d == qs.len() ==> rest =~= book.subrange(d, book.len() as int))
            &&& (sum(qs) < want ==> d == qs.len() && (rest.len() == 0 || !crosses(taker, limit, rest[0].price)))
            &&& (d < qs.len() ==> sum(qs) == want && rest.len() > 0 && d == qs.len() - 1
                && rest[0].filled == book[d].filled + qs[qs.len() - 1])
        }),
    decreases book.len(),
{
    if want == 0 || book.len() == 0 || !crosses(taker, limit, book[0].price) {
        assert(book.subrange(0, book.len() as int) =~= book);
    } else {
        let avail = remaining(book[0]);
        if want < avail {
            let rest = book.update(0, Order { filled: (book[0].filled + want) as u64, ..book[0] });
            let qs = seq![want];
            assert(qs.drop_last() =~= Seq::<nat>::empty());
            assert(sum(Seq::<nat>::empty()) == 0);
            assert(sum(qs) == want);
            assert forall|i: int, j: int| 0 <= i < j < rest.len() implies ahead(opposite(taker), #[trigger] rest[i], #[trigger] rest[j]) by {
                assert(ahead(opposite(taker), book[i], book[j]));
            }
        } else {
            let tail = book.drop_first();
            assert forall|i: int, j: int| 0 <= i < j < tail.len() implies ahead(opposite(taker), #[trigger] tail[i], #[trigger] tail[j]) by {
                assert(ahead(opposite(taker), book[i + 1], book[j + 1]));
            }
            lemma_match_plan(tail, taker, limit, (want - avail) as nat, next_seq);
            let (rest, qs1) = match_plan(tail, taker, limit, (want - avail) as nat);
            let qs = seq![avail as nat] + qs1;
            lemma_sum_prepend(avail as nat, qs1);
            assert forall|k: int| 0 <= k < qs.len() implies crosses(taker, limit, #[trigger] book[k].price) by {
                if k > 0 {
                    assert(book[k] == tail[k - 1]);
                }
            }
            assert forall|k: int| 0 <= k < qs.len() implies 0 < #[trigger] qs[k] <= remaining(book[k]) by {
                if k > 0 {
                    assert(qs[k] == qs1[k - 1]);
                    assert(book[k] == tail[k - 1]);
                }
            }
            assert forall|k: int| 0 <= k < qs.len() - 1 implies #[trigger] qs[k] == remaining(book[k]) by {
                if k > 0 {
                    assert(qs[k] == qs1[k - 1]);
                    assert(book[k] == tail[k - 1]);
                }
            }
            let d1 = tail.len() - rest.len();
            assert forall|i: int| 0 <= i < rest.len() implies same_but_filled(#[trigger] rest[i], book[i + d1 + 1]) by {
                assert(book[i + d1 + 1] == tail[i + d1]);
            }
            assert forall|i: int| 1 <= i < rest.len() implies #[trigger] rest[i] == book[i + d1 + 1] by {
                assert(book[i + d1 + 1] == tail[i + d1]);
            }
            if d1 == qs1.len() {
                assert(rest =~= book.subrange(d1 + 1, book.len() as int));
            }
            if d1 < qs1.len() {
                assert(qs[qs.len() - 1] == qs1[qs1.len() - 1]);
                assert(book[d1 + 1] == tail[d1]);
            }
        }
    }
}

/// The sum of a sequence with one value put in front.
pub proof fn lemma_sum_prepend(x: nat, s: Seq<nat>)
    ensures
        sum(seq![x] + s) == x + sum(s),
    decreases s.len(),
{
    if s.len() == 0 {
        assert((seq![x] + s).drop_last() =~= Seq::<nat>::empty());
        assert(sum(Seq::<nat>::empty()) == 0);
    } else {
        assert((seq![x] + s).drop_last() =~= seq![x] + s.drop_last());
        assert((seq![x] + s).last() == s.last());
        lemma_sum_prepend(x, s.drop_last());
    }
}

/// `f` is the fill of `qty` against `maker`, numbered `trade_id`.
pub open spec fn fill_is(f: Fill, maker: Order, qty: nat, trade_id: int, taker_user: Seq<char>) -> bool {
    &&& f.price == maker.price
    &&& f.qty == qty
    &&& f.trade_id == trade_id
    &&& f.other_user_id@ == maker.user_id@
    &&& f.market_order_id@ == maker.order_id@
    &&& f.taker_user_id@ == taker_user
}

fn can_trade(taker: Side, limit: u64, maker_price: u64) -> (r: bool)
    ensures
        r == crosses(taker, limit, maker_price),
{
    match taker {
        Side::Buy => maker_price <= limit,
        Side::Sell => maker_price >= limit,
    }
}

/// Matches a taker order against the resting orders of the other side, best
/// first, and numbers the fills from `last_trade_id + 1`.
#[verifier::rlimit(40)]
fn match_side(
    resting: &mut Vec<Order>,
    taker: Side,
    taker_user: &String,
    limit: u64,
    want: u64,
    last_trade_id: u64,
    Ghost(next_seq): Ghost<u64>,
) -> (r: (u64, Vec<Fill>))
    requires
        side_wf(old(resting)@, opposite(taker), next_seq),
        last_trade_id + old(resting).len() <= u64::MAX,
    ensures
        final(resting)@ == match_plan(old(resting)@, taker, limit, want as nat).0,
        r.1@.len() == match_plan(old(resting)@, taker, limit, want as nat).1.len(),
        r.0 == sum(match_plan(old(resting)@, taker, limit, want as nat).1),
        forall|k: int| 0 <= k < r.1@.len() ==> fill_is(#[trigger] r.1@[k], old(resting)@[k],
            match_plan(old(resting)@, taker, limit, want as nat).1[k], last_trade_id + 1 + k, taker_user@),
{
    let ghost orig = resting@;
    let mut fills: Vec<Fill> = Vec::new();
    let mut executed: u64 = 0;
    let mut rem: u64 = want;
    let ghost mut taken: Seq<nat> = Seq::empty();
    while rem > 0 && resting.len() > 0
        && can_trade(taker, limit, resting[0].price)
        && resting[0].quantity - resting[0].filled <= rem
        invariant
            side_wf(orig, opposite(taker), next_seq),
            side_wf(resting@, opposite(taker), next_seq),
            last_trade_id + orig.len() <= u64::MAX,
            executed + rem == want,
            fills@.len() == taken.len(),
            taken.len() <= orig.len(),
            resting@ == orig.subrange(taken.len() as int, orig.len() as int),
            executed == sum(taken),
            match_plan(orig, taker, limit, want as nat).0 == match_plan(resting@, taker, limit, rem as nat).0,
            match_plan(orig, taker, limit, want as nat).1 == taken + match_plan(resting@, taker, limit, rem as nat).1,
            forall|k: int| 0 <= k < fills@.len() ==> fill_is(#[trigger] fills@[k], orig[k], taken[k], last_trade_id + 1 + k, taker_user@),
        decreases resting.len(),
    {
        let ghost cur = resting@;
        let maker = resting.remove(0);
        let qty = maker.quantity - maker.filled;
        let fill = Fill {
            price: maker.price,
            qty,
            trade_id: last_trade_id + 1 + fills.len() as u64,
            other_user_id: maker.user_id,
            market_order_id: maker.order_id,
            taker_user_id: taker_user.clone(),
        };
        fills.push(fill);
        executed = executed + qty;
        rem = rem - qty;
        proof {
            assert(cur[0] == orig[taken.len() as int]);
            assert(resting@ =~= cur.drop_first());
            assert(taken.push(qty as nat).drop_last() =~= taken);
            assert(taken + (seq![qty as nat] + match_plan(resting@, taker, limit, rem as nat).1)
                =~= taken.push(qty as nat) + match_plan(resting@, taker, limit, rem as nat).1);
            taken = taken.push(qty as nat);
            assert(resting@ =~= orig.subrange(taken.len() as int, orig.len() as int));
        }
    }
    if rem > 0 && resting.len() > 0
        && can_trade(taker, limit, resting[0].price)
    {
        let ghost cur = resting@;
        let mut maker = resting.remove(0);
        let fill = Fill {
            price: maker.price,
            qty: rem,
            trade_id: last_trade_id + 1 + fills.len() as u64,
            other_user_id: maker.user_id.clone(),
            market_order_id: maker.order_id.clone(),
            taker_user_id: taker_user.clone(),
        };
        fills.push(fill);
        maker.filled = maker.filled + rem;
        resting.insert(0, maker);
        executed = executed + rem;
        proof {
            assert(cur[0] == orig[taken.len() as int]);
            assert(resting@ =~= cur.update(0, Order { filled: (cur[0].filled + rem) as u64, ..cur[0] }));
            assert(taken.push(rem as nat).drop_last() =~= taken);
            assert(taken + seq![rem as nat] =~= taken.push(rem as nat));
            taken = taken.push(rem as nat);
        }
        rem = 0;
    } else {
        proof {
            assert(taken + Seq::<nat>::empty() =~= taken);
        }
    }
    (executed, fills)
}

/// No order id occurs twice in `s`.
pub open spec fn ids_unique(s: Seq<Order>) -> bool {
    forall|i: int, j: int| 0 <= i < j < s.len() ==> (#[trigger] s[i]).order_id@ != (#[trigger] s[j]).order_id@
}

/// No order id occurs both in `s` and in `t`.
pub open spec fn ids_apart(s: Seq<Order>, t: Seq<Order>) -> bool {
    forall|i: int, j: int| 0 <= i < s.len() && 0 <= j < t.len() ==> (#[trigger] s[i]).order_id@ != (#[trigger] t[j]).order_id@
}

/// No order id occurs twice among the bids and asks together.
pub open spec fn ids_distinct(bids: Seq<Order>, asks: Seq<Order>) -> bool {
    &&& ids_unique(bids)
    &&& ids_unique(asks)
    &&& ids_apart(bids, asks)
}

/// Order ids stay distinct when matching trims the other side to `rest`.
proof fn lemma_ids_trim(own: Seq<Order>, other: Seq<Order>, rest: Seq<Order>, d: int)
    requires
        ids_unique(other),
        ids_apart(own, other),
        0 <= d,
        d + rest.len() <= other.len(),
        forall|i: int| 0 <= i < rest.len() ==> (#[trigger] rest[i]).order_id == other[i + d].order_id,
    ensures
        ids_unique(rest),
        ids_apart(own, rest),
        ids_apart(rest, own),
{
    assert forall|a: int, b: int| 0 <= a < b < rest.len() implies (#[trigger] rest[a]).order_id@ != (#[trigger] rest[b]).order_id@ by {
        assert(rest[a].order_id == other[a + d].order_id);
        assert(rest[b].order_id == other[b + d].order_id);
    }
    assert forall|a: int, b: int| 0 <= a < own.len() && 0 <= b < rest.len() implies (#[trigger] own[a]).order_id@ != (#[trigger] rest[b]).order_id@ by {
        assert(rest[b].order_id == other[b + d].order_id);
    }
    assert forall|a: int, b: int| 0 <= a < rest.len() && 0 <= b < own.len() implies (#[trigger] rest[a]).order_id@ != (#[trigger] own[b]).order_id@ by {
        assert(rest[a].order_id == other[a + d].order_id);
    }
}

/// Order ids stay distinct when matching trims the other side to `rest` and
/// a new order with a fresh id joins the own side.
#[verifier::rlimit(40)]
proof fn lemma_ids_after_submit(own: Seq<Order>, other: Seq<Order>, rest: Seq<Order>, d: int, j: int, o: Order)
    requires
        ids_unique(own),
        ids_unique(other),
        ids_apart(own, other),
        0 <= d,
        d + rest.len() <= other.len(),
        forall|i: int| 0 <= i < rest.len() ==> (#[trigger] rest[i]).order_id == other[i + d].order_id,
        0 <= j <= own.len(),
        forall|i: int| 0 <= i < own.len() ==> (#[trigger] own[i]).order_id@ != o.order_id@,
        forall|i: int| 0 <= i < other.len() ==> (#[trigger] other[i]).order_id@ != o.order_id@,
    ensures
        ids_unique(rest),
        ids_apart(own, rest),
        ids_apart(rest, own),
        ids_unique(own.insert(j, o)),
        ids_apart(own.insert(j, o), rest),
        ids_apart(rest, own.insert(j, o)),
{
    let t = own.insert(j, o);
    assert forall|a: int, b: int| 0 <= a < b < rest.len() implies (#[trigger] rest[a]).order_id@ != (#[trigger] rest[b]).order_id@ by {
        assert(rest[a].order_id == other[a + d].order_id);
        assert(rest[b].order_id == other[b + d].order_id);
    }
    assert forall|a: int, b: int| 0 <= a < own.len() && 0 <= b < rest.len() implies (#[trigger] own[a]).order_id@ != (#[trigger] rest[b]).order_id@ by {
        assert(rest[b].order_id == other[b + d].order_id);
    }
    assert forall|a: int, b: int| 0 <= a < rest.len() && 0 <= b < own.len() implies (#[trigger] rest[a]).order_id@ != (#[trigger] own[b]).order_id@ by {
        assert(rest[a].order_id == other[a + d].order_id);
    }
    assert forall|a: int, b: int| 0 <= a < b < t.len() implies (#[trigger] t[a]).order_id@ != (#[trigger] t[b]).order_id@ by {
        if b < j {
        } else if a > j {
            assert(t[a] == own[a - 1]);
            assert(t[b] == own[b - 1]);
        } else if a < j && b > j {
            assert(t[b] == own[b - 1]);
        } else if a == j {
            assert(t[b] == own[b - 1]);
        }
    }
    assert forall|a: int, b: int| 0 <= a < t.len() && 0 <= b < rest.len() implies (#[trigger] t[a]).order_id@ != (#[trigger] rest[b]).order_id@ by {
        assert(rest[b].order_id == other[b + d].order_id);
        if a < j {
            assert(t[a] == own[a]);
        } else if a > j {
            assert(t[a] == own[a - 1]);
        }
    }
    assert forall|a: int, b: int| 0 <= a < rest.len() && 0 <= b < t.len() implies (#[trigger] rest[a]).order_id@ != (#[trigger] t[b]).order_id@ by {
        assert(rest[a].order_id == other[a + d].order_id);
        if b < j {
            assert(t[b] == own[b]);
        } else if b > j {
            assert(t[b] == own[b - 1]);
        }
    }
}

/// `j` is where an order of `side` at `price` joins the side `s`: behind every
/// order at the same or a better price, ahead of every worse one.
pub open spec fn joins_at(s: Seq<Order>, side: Side, price: u64, j: int) -> bool {
    &&& 0 <= j <= s.len()
    &&& forall|i: int| 0 <= i < j ==> !worse(side, #[trigger] s[i].price, price)
    &&& forall|i: int| j <= i < s.len() ==> worse(side, #[trigger] s[i].price, price)
}

/// For `side` orders, `p` is a strictly worse price than `q`.
pub open spec fn worse(side: Side, p: u64, q: u64) -> bool {
    match side {
        Side::Buy => p < q,
        Side::Sell => p > q,
    }
}

/// Puts a new resting order `o` into the side `s` at its priority position;
/// `o` is newer than every order there.
#[verifier::rlimit(40)]
fn insert_resting(s: &mut Vec<Order>, o: Order, side: Side, Ghost(next_seq): Ghost<u64>)
    requires
        side_wf(old(s)@, side, next_seq),
        o.side == side,
        o.filled < o.quantity,
        o.sequence < next_seq,
        forall|i: int| 0 <= i < old(s)@.len() ==> (#[trigger] old(s)@[i]).sequence < o.sequence,
    ensures
        side_wf(final(s)@, side, next_seq),
        exists|j: int| joins_at(old(s)@, side, o.price, j) && final(s)@ == old(s)@.insert(j, o),
{
    let ghost pre = s@;
    let mut j: usize = 0;
    while j < s.len() && !is_worse(side, s[j].price, o.price)
        invariant
            j <= s.len(),
            s@ == pre,
            forall|i: int| 0 <= i < j ==> !worse(side, #[trigger] pre[i].price, o.price),
        decreases s.len() - j,
    {
        j = j + 1;
    }
    proof {
        assert forall|i: int| j <= i < pre.len() implies worse(side, #[trigger] pre[i].price, o.price) by {
            if i > j {
                assert(ahead(side, pre[j as int], pre[i]));
            }
        }
        assert(joins_at(pre, side, o.price, j as int));
    }
    s.insert(j, o);
    proof {
        let t = s@;
        assert(t == pre.insert(j as int, o));
        assert forall|a: int, b: int| 0 <= a < b < t.len() implies ahead(side, #[trigger] t[a], #[trigger] t[b]) by {
            if b < j {
                assert(ahead(side, pre[a], pre[b]));
            } else if a > j {
                assert(ahead(side, pre[a - 1], pre[b - 1]));
            } else if a < j {
                assert(t[a] == pre[a]);
                assert(t[b] == o || t[b] == pre[b - 1]);
                if b > j {
                    assert(ahead(side, pre[a], pre[b - 1]));
                }
            }
        }
    }
}

fn is_worse(side: Side, p: u64, q: u64) -> (r: bool)
    ensures
        r == worse(side, p, q),
{
    match side {
        Side::Buy => p < q,
        Side::Sell => p > q,
    }
}

/// Removes the order with id `id` from `s`, if it is there.
#[verifier::rlimit(40)]
fn remove_by_id(s: &mut Vec<Order>, id: &String, side: Side, Ghost(next_seq): Ghost<u64>) -> (r: Option<Order>)
    requires
        side_wf(old(s)@, side, next_seq),
        ids_unique(old(s)@),
    ensures
        side_wf(final(s)@, side, next_seq),
        ids_unique(final(s)@),
        match r {
            Some(o) => exists|i: int| 0 <= i < old(s)@.len() && old(s)@[i].order_id@ == id@
                && o == old(s)@[i] && final(s)@ == old(s)@.remove(i),
            None => final(s)@ == old(s)@ && forall|i: int| 0 <= i < old(s)@.len() ==> (#[trigger] old(s)@[i]).order_id@ != id@,
        },
{
    let ghost pre = s@;
    let mut i: usize = 0;
    while i < s.len()
        invariant
            i <= s.len(),
            s@ == pre,
            pre == old(s)@,
            side_wf(pre, side, next_seq),
            ids_unique(pre),
            forall|k: int| 0 <= k < i ==> (#[trigger] pre[k]).order_id@ != id@,
        decreases s.len() - i,
    {
        if s[i].order_id == *id {
            let o = s.remove(i);
            proof {
                let t = s@;
                assert(t == pre.remove(i as int));
                assert forall|a: int, b: int| 0 <= a < b < t.len() implies ahead(side, #[trigger] t[a], #[trigger] t[b]) by {
                    if a >= i {
                        assert(ahead(side, pre[a + 1], pre[b + 1]));
                    } else if b >= i {
                        assert(ahead(side, pre[a], pre[b + 1]));
                    } else {
                        assert(ahead(side, pre[a], pre[b]));
                    }
                }
                assert forall|a: int, b: int| 0 <= a < b < t.len() implies (#[trigger] t[a]).order_id@ != (#[trigger] t[b]).order_id@ by {
                    if a >= i {
                        assert(t[a] == pre[a + 1] && t[b] == pre[b + 1]);
                    } else if b >= i {
                        assert(t[b] == pre[b + 1]);
                    }
                }
                assert forall|a: int| 0 <= a < t.len() implies {
                    &&& (#[trigger] t[a]).side == side
                    &&& t[a].filled < t[a].quantity
                    &&& t[a].sequence < next_seq
                } by {
                    if a >= i {
                        assert(t[a] == pre[a + 1]);
                    }
                }
            }
            assert(o == pre[i as int] && pre[i as int].order_id@ == id@);
            return Some(o);
        }
        i = i + 1;
    }
    None
}

impl Order {
    pub fn copy(&self) -> (r: Order)
        ensures
            r == *self,
    {
        Order {
            order_id: self.order_id.clone(),
            user_id: self.user_id.clone(),
            side: self.side,
            price: self.price,
            quantity: self.quantity,
            filled: self.filled,
            sequence: self.sequence,
        }
    }
}

/// The open quantity at one price on one side of the book.
#[derive(Clone, Copy)]
pub struct PriceLevel {
    pub price: u64,
    pub quantity: u128,
}

/// Price levels of both sides, each best first.
pub struct Depth {
    pub bids: Vec<PriceLevel>,
    pub asks: Vec<PriceLevel>,
}

pub open spec fn level_view(l: Seq<PriceLevel>) -> Seq<(u64, nat)> {
    l.map_values(|p: PriceLevel| (p.price, p.quantity as nat))
}

/// The price levels of a side kept in priority order: neighbouring orders at
/// one price are merged into one level holding the sum of their open quantities.
pub open spec fn levels(s: Seq<Order>) -> Seq<(u64, nat)>
    decreases s.len(),
{
    if s.len() == 0 {
        Seq::empty()
    } else {
        let prev = levels(s.drop_last());
        let o = s.last();
        if prev.len() > 0 && prev.last().0 == o.price {
            prev.update(prev.len() - 1, (o.price, (prev.last().1 + remaining(o)) as nat))
        } else {
            prev.push((o.price, remaining(o) as nat))
        }
    }
}

/// The first `n` entries of `s`, or all of them where it has fewer.
pub open spec fn first_n<T>(s: Seq<T>, n: nat) -> Seq<T> {
    if s.len() <= n {
        s
    } else {
        s.take(n as int)
    }
}

/// The orders in `s` that `u` owns, in the order of `s`.
pub open spec fn orders_of(s: Seq<Order>, u: Seq<char>) -> Seq<Order> {
    s.filter(|o: Order| o.user_id@ == u)
}

/// The price levels of one side, at most `max_levels` of them, best first.
fn side_levels(s: &Vec<Order>, max_levels: usize, Ghost(side): Ghost<Side>, Ghost(next_seq): Ghost<u64>) -> (r: Vec<PriceLevel>)
    requires
        side_wf(s@, side, next_seq),
    ensures
        level_view(r@) == first_n(levels(s@), max_levels as nat),
{
    let mut out: Vec<PriceLevel> = Vec::new();
    let mut i: usize = 0;
    while i < s.len()
        invariant
            i <= s.len(),
            side_wf(s@, side, next_seq),
            level_view(out@) == levels(s@.subrange(0, i as int)),
            forall|k: int| 0 <= k < out@.len() ==> (#[trigger] out@[k]).quantity <= i * 0xFFFF_FFFF_FFFF_FFFFu128,
        decreases s.len() - i,
    {
        let ghost prefix = s@.subrange(0, i as int + 1);
        proof {
            assert(prefix.drop_last() =~= s@.subrange(0, i as int));
            assert(prefix.last() == s@[i as int]);
        }
        let o = &s[i];
        let open_qty = o.quantity - o.filled;
        let n = out.len();
        if n > 0 && out[n - 1].price == o.price {
            let last = out.pop().unwrap();
            let merged = PriceLevel { price: last.price, quantity: last.quantity + open_qty as u128 };
            out.push(merged);
        } else {
            out.push(PriceLevel { price: o.price, quantity: open_qty as u128 });
        }
        i = i + 1;
        proof {
            assert(level_view(out@) =~= levels(prefix));
        }
    }
    proof {
        assert(s@.subrange(0, s@.len() as int) =~= s@);
    }
    if out.len() > max_levels {
        out.truncate(max_levels);
        proof {
            assert(level_view(out@) =~= levels(s@).take(max_levels as int));
        }
    }
    out
}

/// The orders of `s` that `user_id` owns, in the order of `s`.
fn owned_orders(s: &Vec<Order>, user_id: &String) -> (r: Vec<Order>)
    ensures
        r@ == orders_of(s@, user_id@),
{
    let mut out: Vec<Order> = Vec::new();
    let mut i: usize = 0;
    while i < s.len()
        invariant
            i <= s.len(),
            out@ == orders_of(s@.subrange(0, i as int), user_id@),
        decreases s.len() - i,
    {
        let ghost prefix = s@.subrange(0, i as int + 1);
        proof {
            assert(prefix.drop_last() =~= s@.subrange(0, i as int));
            reveal(Seq::filter);
        }
        if s[i].user_id == *user_id {
            out.push(s[i].copy());
        }
        i = i + 1;
    }
    proof {
        assert(s@.subrange(0, s@.len() as int) =~= s@);
    }
    out
}

/// Whether `p` occurs in `prices`.
fn has_price(prices: &Vec<u64>, p: u64) -> (r: bool)
    ensures
        r == prices@.contains(p),
{
    let mut i: usize = 0;
    while i < prices.len()
        invariant
            i <= prices.len(),
            forall|j: int| 0 <= j < i ==> prices@[j] != p,
        decreases prices.len() - i,
    {
        if prices[i] == p {
            return true;
        }
        i = i + 1;
    }
    false
}

/// The levels whose price occurs in `prices`, in their order.
pub fn levels_at(levels: &Vec<PriceLevel>, prices: &Vec<u64>) -> (r: Vec<PriceLevel>)
    ensures
        r@ == levels@.filter(|l: PriceLevel| prices@.contains(l.price)),
{
    let mut out: Vec<PriceLevel> = Vec::new();
    let mut i: usize = 0;
    while i < levels.len()
        invariant
            i <= levels.len(),
            out@ == levels@.subrange(0, i as int).filter(|l: PriceLevel| prices@.contains(l.price)),
        decreases levels.len() - i,
    {
        let ghost prefix = levels@.subrange(0, i as int + 1);
        proof {
            assert(prefix.drop_last() =~= levels@.subrange(0, i as int));
            reveal(Seq::filter);
        }
        if has_price(prices, levels[i].price) {
            out.push(levels[i]);
        }
        i = i + 1;
    }
    proof {
        assert(levels@.subrange(0, levels@.len() as int) =~= levels@);
    }
    out
}

/// A side has no more levels than orders.
pub proof fn lemma_levels_len(s: Seq<Order>)
    ensures
        levels(s).len() <= s.len(),
    decreases s.len(),
{
    if s.len() > 0 {
        lemma_levels_len(s.drop_last());
    }
}

/// A copy of the orders of `v`.
pub fn copy_orders(v: &Vec<Order>) -> (r: Vec<Order>)
    ensures
        r@ == v@,
{
    let mut out: Vec<Order> = Vec::new();
    let mut i: usize = 0;
    while i < v.len()
        invariant
            i <= v.len(),
            out@ == v@.subrange(0, i as int),
        decreases v.len() - i,
    {
        out.push(v[i].copy());
        i = i + 1;
        assert(out@ =~= v@.subrange(0, i as int));
    }
    assert(v@.subrange(0, v@.len() as int) =~= v@);
    out
}

pub struct OrderBook {
    pub config: MarketConfig,
    /// Resting buy orders, best (highest price, then oldest) first.
    pub bids: Vec<Order>,
    /// Resting sell orders, best (lowest price, then oldest) first.
    pub asks: Vec<Order>,
    pub last_trade_id: u64,
    pub next_sequence: u64,
}

/// The best bid is below the best ask: no resting orders could trade.
pub open spec fn uncrossed(bids: Seq<Order>, asks: Seq<Order>) -> bool {
    bids.len() > 0 && asks.len() > 0 ==> bids[0].price < asks[0].price
}

/// `after` is `before` once `order` was submitted to it, and `executed`
/// and `fills` are what the submission returned: the order was matched
/// against the other side as `match_plan` says, the fills are numbered on from
/// the book's last trade id, and an open remainder rests on the order's own
/// side at its priority position with the next sequence number.
pub open spec fn submitted(before: OrderBook, after: OrderBook, order: Order, executed: u64, fills: Seq<Fill>) -> bool {
    let want = (order.quantity - order.filled) as nat;
    let (rest, qs) = match_plan(before.side_of(opposite(order.side)), order.side, order.price, want);
    let resting = Order { filled: (order.filled + executed) as u64, sequence: before.next_sequence, ..order };
    &&& after.side_of(opposite(order.side)) == rest
    &&& executed == sum(qs)
    &&& fills.len() == qs.len()
    &&& forall|k: int| 0 <= k < qs.len() ==> fill_is(#[trigger] fills[k],
        before.side_of(opposite(order.side))[k], qs[k], before.last_trade_id + 1 + k, order.user_id@)
    &&& after.last_trade_id == before.last_trade_id + qs.len()
    &&& (executed == want ==> after.side_of(order.side) == before.side_of(order.side))
    &&& (executed < want ==> exists|j: int| joins_at(before.side_of(order.side), order.side, order.price, j)
        && after.side_of(order.side) == before.side_of(order.side).insert(j, resting))
    &&& after.next_sequence == before.next_sequence + 1
    &&& after.config == before.config
}

/// Submitting an order to an uncrossed book leaves it uncrossed: an order
/// rests only when nothing on the other side crosses its price.
proof fn lemma_uncrossed_after_submit(before: OrderBook, after: OrderBook, order: Order, executed: u64, fills: Seq<Fill>)
    requires
        before.wf(),
        submitted(before, after, order, executed, fills),
    ensures
        uncrossed(after.bids@, after.asks@),
{
    let other = before.side_of(opposite(order.side));
    let own = before.side_of(order.side);
    let want = (order.quantity - order.filled) as nat;
    lemma_match_plan(other, order.side, order.price, want, before.next_sequence);
    let (rest, qs) = match_plan(other, order.side, order.price, want);
    let d = other.len() - rest.len();
    let now = after.side_of(order.side);
    if rest.len() > 0 && now.len() > 0 {
        assert(same_but_filled(rest[0], other[0 + d]));
        if d > 0 {
            assert(ahead(opposite(order.side), other[0], other[d]));
        }
        if executed < want {
            let resting = Order { filled: (order.filled + executed) as u64, sequence: before.next_sequence, ..order };
            let j = choose|j: int| joins_at(own, order.side, order.price, j) && now == own.insert(j, resting);
            if j > 0 {
                assert(now[0] == own[0]);
            }
        }
    }
}

impl OrderBook {
    pub open spec fn wf(&self) -> bool {
        &&& side_wf(self.bids@, Side::Buy, self.next_sequence)
        &&& side_wf(self.asks@, Side::Sell, self.next_sequence)
        &&& ids_distinct(self.bids@, self.asks@)
        &&& uncrossed(self.bids@, self.asks@)
    }

    /// The resting orders of `side`.
    pub open spec fn side_of(&self, side: Side) -> Seq<Order> {
        match side {
            Side::Buy => self.bids@,
            Side::Sell => self.asks@,
        }
    }

    pub open spec fn holds_id(&self, id: Seq<char>) -> bool {
        ||| exists|i: int| 0 <= i < self.bids.len() && (#[trigger] self.bids@[i]).order_id@ == id
        ||| exists|i: int| 0 <= i < self.asks.len() && (#[trigger] self.asks@[i]).order_id@ == id
    }

    /// The counters can number one more order and all of its fills.
    pub open spec fn has_room(&self) -> bool {
        &&& self.next_sequence < u64::MAX
        &&& self.last_trade_id + self.bids.len() + self.asks.len() <= u64::MAX
    }

    pub fn new(config: MarketConfig) -> (r: OrderBook)
        ensures
            r.wf(),
            r.config == config,
            r.bids@.len() == 0,
            r.asks@.len() == 0,
            r.last_trade_id == 0,
            r.next_sequence == 0,
    {
        OrderBook { config, bids: Vec::new(), asks: Vec::new(), last_trade_id: 0, next_sequence: 0 }
    }

    pub fn copy(&self) -> (r: OrderBook)
        ensures
            r.config == self.config,
            r.bids@ == self.bids@,
            r.asks@ == self.asks@,
            r.last_trade_id == self.last_trade_id,
            r.next_sequence == self.next_sequence,
    {
        OrderBook {
            config: self.config.copy(),
            bids: copy_orders(&self.bids),
            asks: copy_orders(&self.asks),
            last_trade_id: self.last_trade_id,
            next_sequence: self.next_sequence,
        }
    }

    pub fn ticker(&self) -> (r: String)
        ensures
            r@ == self.config.symbol@,
    {
        self.config.symbol.clone()
    }

    /// Whether an order with this id rests in the book.
    pub fn contains(&self, order_id: &String) -> (r: bool)
        ensures
            r == self.holds_id(order_id@),
    {
        let mut i: usize = 0;
        while i < self.bids.len()
            invariant
                i <= self.bids.len(),
                forall|k: int| 0 <= k < i ==> (#[trigger] self.bids@[k]).order_id@ != order_id@,
            decreases self.bids.len() - i,
        {
            if self.bids[i].order_id == *order_id {
                return true;
            }
            i = i + 1;
        }
        let mut j: usize = 0;
        while j < self.asks.len()
            invariant
                j <= self.asks.len(),
                forall|k: int| 0 <= k < self.bids.len() ==> (#[trigger] self.bids@[k]).order_id@ != order_id@,
                forall|k: int| 0 <= k < j ==> (#[trigger] self.asks@[k]).order_id@ != order_id@,
            decreases self.asks.len() - j,
        {
            if self.asks[j].order_id == *order_id {
                return true;
            }
            j = j + 1;
        }
        false
    }

    /// Submits `order`: matches it against the other side of the book in
    /// price-time priority, then rests what is left of it on its own side with
    /// the next sequence number. Returns the quantity executed and the fills.
    #[verifier::rlimit(40)]
    pub fn addOrder(&mut self, order: Order) -> (r: (u64, Vec<Fill>))
        requires
            old(self).wf(),
            old(self).has_room(),
            !old(self).holds_id(order.order_id@),
            order.filled <= order.quantity,
        ensures
            final(self).wf(),
            submitted(*old(self), *final(self), order, r.0, r.1@),
    {
        let ghost pre = *self;
        let want = order.quantity - order.filled;
        let seq_no = self.next_sequence;
        let ghost other = pre.side_of(opposite(order.side));
        proof {
            lemma_match_plan(other, order.side, order.price, want as nat, seq_no);
        }
        let (executed, fills) = match order.side {
            Side::Buy => match_side(&mut self.asks, Side::Buy, &order.user_id, order.price, want, self.last_trade_id, Ghost(seq_no)),
            Side::Sell => match_side(&mut self.bids, Side::Sell, &order.user_id, order.price, want, self.last_trade_id, Ghost(seq_no)),
        };
        self.last_trade_id = self.last_trade_id + fills.len() as u64;
        self.next_sequence = seq_no + 1;
        let ghost mid = *self;
        let ghost rest = match_plan(other, order.side, order.price, want as nat).0;
        let ghost d = other.len() - rest.len();
        proof {
            assert(side_wf(mid.bids@, Side::Buy, mid.next_sequence));
            assert(side_wf(mid.asks@, Side::Sell, mid.next_sequence));
            assert forall|i: int| 0 <= i < rest.len() implies (#[trigger] rest[i]).order_id == other[i + d].order_id by {}
        }
        proof {
            if order.side == Side::Buy {
                lemma_ids_after_submit(pre.bids@, pre.asks@, rest, d, 0, order);
            } else {
                lemma_ids_after_submit(pre.asks@, pre.bids@, rest, d, 0, order);
            }
        }
        if executed < want {
            let side = order.side;
            let resting = Order { filled: order.filled + executed, sequence: seq_no, ..order };
            let ghost own = pre.side_of(side);
            match side {
                Side::Buy => insert_resting(&mut self.bids, resting, Side::Buy, Ghost(self.next_sequence)),
                Side::Sell => insert_resting(&mut self.asks, resting, Side::Sell, Ghost(self.next_sequence)),
            }
            proof {
                let j = choose|j: int| joins_at(own, side, resting.price, j) && self.side_of(side) == own.insert(j, resting);
                if side == Side::Buy {
                    lemma_ids_after_submit(pre.bids@, pre.asks@, rest, d, j, resting);
                } else {
                    lemma_ids_after_submit(pre.asks@, pre.bids@, rest, d, j, resting);
                }
            }
        }
        proof {
            lemma_uncrossed_after_submit(pre, *self, order, executed, fills@);
        }
        (executed, fills)
    }

    /// Matches a buy order against the asks, without resting any remainder.
    pub fn matchBid(&mut self, order: &Order) -> (r: (u64, Vec<Fill>))
        requires
            old(self).wf(),
            order.filled <= order.quantity,
            old(self).last_trade_id + old(self).asks.len() <= u64::MAX,
        ensures
            final(self).wf(),
            ({
                let (rest, qs) = match_plan(old(self).asks@, Side::Buy, order.price, (order.quantity - order.filled) as nat);
                &&& final(self).asks@ == rest
                &&& r.0 == sum(qs)
                &&& r.1@.len() == qs.len()
                &&& forall|k: int| 0 <= k < qs.len() ==> fill_is(#[trigger] r.1@[k], old(self).asks@[k], qs[k],
                    old(self).last_trade_id + 1 + k, order.user_id@)
                &&& final(self).last_trade_id == old(self).last_trade_id + qs.len()
            }),
            forall|k: int| 0 <= k < r.1@.len() ==> (#[trigger] r.1@[k]).price == old(self).asks@[k].price
                && r.1@[k].price <= order.price,
            forall|k: int| 0 <= k < r.1@.len() - 1 ==> (#[trigger] r.1@[k]).qty == remaining(old(self).asks@[k]),
            final(self).bids@ == old(self).bids@,
            final(self).next_sequence == old(self).next_sequence,
            final(self).config == old(self).config,
    {
        let ghost pre = *self;
        let want = order.quantity - order.filled;
        proof {
            lemma_match_plan(pre.asks@, Side::Buy, order.price, want as nat, pre.next_sequence);
        }
        let (executed, fills) = match_side(&mut self.asks, Side::Buy, &order.user_id, order.price, want,
            self.last_trade_id, Ghost(self.next_sequence));
        self.last_trade_id = self.last_trade_id + fills.len() as u64;
        proof {
            let rest = self.asks@;
            let d = pre.asks@.len() - rest.len();
            assert forall|i: int| 0 <= i < rest.len() implies (#[trigger] rest[i]).order_id == pre.asks@[i + d].order_id by {}
            lemma_ids_trim(pre.bids@, pre.asks@, rest, d);
        }
        (executed, fills)
    }

    /// Matches a sell order against the bids, without resting any remainder.
    pub fn matchAsk(&mut self, order: &Order) -> (r: (u64, Vec<Fill>))
        requires
            old(self).wf(),
            order.filled <= order.quantity,
            old(self).last_trade_id + old(self).bids.len() <= u64::MAX,
        ensures
            final(self).wf(),
            ({
                let (rest, qs) = match_plan(old(self).bids@, Side::Sell, order.price, (order.quantity - order.filled) as nat);
                &&& final(self).bids@ == rest
                &&& r.0 == sum(qs)
                &&& r.1@.len() == qs.len()
                &&& forall|k: int| 0 <= k < qs.len() ==> fill_is(#[trigger] r.1@[k], old(self).bids@[k], qs[k],
                    old(self).last_trade_id + 1 + k, order.user_id@)
                &&& final(self).last_trade_id == old(self).last_trade_id + qs.len()
            }),
            forall|k: int| 0 <= k < r.1@.len() ==> (#[trigger] r.1@[k]).price == old(self).bids@[k].price
                && r.1@[k].price >= order.price,
            forall|k: int| 0 <= k < r.1@.len() - 1 ==> (#[trigger] r.1@[k]).qty == remaining(old(self).bids@[k]),
            final(self).asks@ == old(self).asks@,
            final(self).next_sequence == old(self).next_sequence,
            final(self).config == old(self).config,
    {
        let ghost pre = *self;
        let want = order.quantity - order.filled;
        proof {
            lemma_match_plan(pre.bids@, Side::Sell, order.price, want as nat, pre.next_sequence);
        }
        let (executed, fills) = match_side(&mut self.bids, Side::Sell, &order.user_id, order.price, want,
            self.last_trade_id, Ghost(self.next_sequence));
        self.last_trade_id = self.last_trade_id + fills.len() as u64;
        proof {
            let rest = self.bids@;
            let d = pre.bids@.len() - rest.len();
            assert forall|i: int| 0 <= i < rest.len() implies (#[trigger] rest[i]).order_id == pre.bids@[i + d].order_id by {}
            lemma_ids_trim(pre.asks@, pre.bids@, rest, d);
        }
        (executed, fills)
    }

    /// Removes the resting buy order with this id; returns it, or `None`
    /// where no bid has that id.
    pub fn cancelBid(&mut self, order_id: &String) -> (r: Option<Order>)
        requires
            old(self).wf(),
        ensures
            final(self).wf(),
            final(self).asks@ == old(self).asks@,
            final(self).last_trade_id == old(self).last_trade_id,
            final(self).next_sequence == old(self).next_sequence,
            final(self).config == old(self).config,
            match r {
                Some(o) => exists|i: int| 0 <= i < old(self).bids@.len() && old(self).bids@[i].order_id@ == order_id@
                    && o == old(self).bids@[i] && final(self).bids@ == old(self).bids@.remove(i),
                None => final(self).bids@ == old(self).bids@
                    && forall|i: int| 0 <= i < old(self).bids@.len() ==> (#[trigger] old(self).bids@[i]).order_id@ != order_id@,
            },
    {
        let ghost pre = *self;
        let r = remove_by_id(&mut self.bids, order_id, Side::Buy, Ghost(self.next_sequence));
        proof {
            if r is Some {
                let i = choose|i: int| 0 <= i < pre.bids@.len() && pre.bids@[i].order_id@ == order_id@
                    && r == Some(pre.bids@[i]) && self.bids@ == pre.bids@.remove(i);
                assert forall|a: int, b: int| 0 <= a < self.bids.len() && 0 <= b < self.asks.len()
                    implies (#[trigger] self.bids@[a]).order_id@ != (#[trigger] self.asks@[b]).order_id@ by {
                    if a >= i {
                        assert(self.bids@[a] == pre.bids@[a + 1]);
                    }
                }
            }
        }
        r
    }

    /// Removes the resting sell order with this id; returns it, or `None`
    /// where no ask has that id.
    pub fn cancelAsk(&mut self, order_id: &String) -> (r: Option<Order>)
        requires
            old(self).wf(),
        ensures
            final(self).wf(),
            final(self).bids@ == old(self).bids@,
            final(self).last_trade_id == old(self).last_trade_id,
            final(self).next_sequence == old(self).next_sequence,
            final(self).config == old(self).config,
            match r {
                Some(o) => exists|i: int| 0 <= i < old(self).asks@.len() && old(self).asks@[i].order_id@ == order_id@
                    && o == old(self).asks@[i] && final(self).asks@ == old(self).asks@.remove(i),
                None => final(self).asks@ == old(self).asks@
                    && forall|i: int| 0 <= i < old(self).asks@.len() ==> (#[trigger] old(self).asks@[i]).order_id@ != order_id@,
            },
    {
        let ghost pre = *self;
        let r = remove_by_id(&mut self.asks, order_id, Side::Sell, Ghost(self.next_sequence));
        proof {
            if r is Some {
                let i = choose|i: int| 0 <= i < pre.asks@.len() && pre.asks@[i].order_id@ == order_id@
                    && r == Some(pre.asks@[i]) && self.asks@ == pre.asks@.remove(i);
                assert forall|a: int, b: int| 0 <= a < self.bids.len() && 0 <= b < self.asks.len()
                    implies (#[trigger] self.bids@[a]).order_id@ != (#[trigger] self.asks@[b]).order_id@ by {
                    if b >= i {
                        assert(self.asks@[b] == pre.asks@[b + 1]);
                    }
                }
            }
        }
        r
    }

    /// The book's price levels, at most `max_levels` per side.
    pub fn depth(&self, max_levels: usize) -> (r: Depth)
        requires
            self.wf(),
        ensures
            level_view(r.bids@) == first_n(levels(self.bids@), max_levels as nat),
            level_view(r.asks@) == first_n(levels(self.asks@), max_levels as nat),
    {
        let bids = side_levels(&self.bids, max_levels, Ghost(Side::Buy), Ghost(self.next_sequence));
        let asks = side_levels(&self.asks, max_levels, Ghost(Side::Sell), Ghost(self.next_sequence));
        Depth { bids, asks }
    }

    /// All of the book's price levels.
    pub fn getDepth(&self) -> (r: Depth)
        requires
            self.wf(),
        ensures
            level_view(r.bids@) == levels(self.bids@),
            level_view(r.asks@) == levels(self.asks@),
    {
        let most = if self.bids.len() > self.asks.len() { self.bids.len() } else { self.asks.len() };
        let r = self.depth(most);
        proof {
            lemma_levels_len(self.bids@);
            lemma_levels_len(self.asks@);
        }
        r
    }

    /// The resting orders of `user_id`: asks first, then bids, each in book order.
    pub fn getOpenOrders(&self, user_id: &String) -> (r: Vec<Order>)
        ensures
            r@ == orders_of(self.asks@, user_id@) + orders_of(self.bids@, user_id@),
    {
        let mut r = owned_orders(&self.asks, user_id);
        let mut b = owned_orders(&self.bids, user_id);
        r.append(&mut b);
        r
    }
}

} // verus!