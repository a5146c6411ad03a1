//! What resting orders hold locked in the ledger, and how matching, resting
//! and cancelling change it.
use vstd::prelude::*;
use crate::orderbook::{match_plan, opposite, remaining, side_wf, sum, Order, OrderBook, Side};

verus! {

/// What resting order `o`, in a market of `base` and `quote`, holds locked for
/// user `u` in asset `a`: `price * (quantity - filled)` of the quote for a
/// buy, `quantity - filled` of the base for a sell.
pub open spec fn holds_for(o: Order, u: Seq<char>, a: Seq<char>, base: Seq<char>, quote: Seq<char>) -> int {
    leg(o, remaining(o), u, a, base, quote)
}

/// What `q` of order `o` holds locked for `u` in `a`.
pub open spec fn leg(o: Order, q: int, u: Seq<char>, a: Seq<char>, base: Seq<char>, quote: Seq<char>) -> int {
    if o.user_id@ != u {
        0
    } else {
        match o.side {
            Side::Buy => if a == quote { o.price * q } else { 0 },
            Side::Sell => if a == base { q } else { 0 },
        }
    }
}

/// `holds_for` summed over the orders of a side.
pub open spec fn side_holds(s: Seq<Order>, u: Seq<char>, a: Seq<char>, base: Seq<char>, quote: Seq<char>) -> int
    decreases s.len(),
{
    if s.len() == 0 {
        0
    } else {
        holds_for(s[0], u, a, base, quote) + side_holds(s.drop_first(), u, a, base, quote)
    }
}

/// What the resting orders of book `b` hold locked for `u` in `a`.
pub open spec fn book_holds(b: OrderBook, u: Seq<char>, a: Seq<char>) -> int {
    side_holds(b.bids@, u, a, b.config.base_asset@, b.config.quote_asset@)
        + side_holds(b.asks@, u, a, b.config.base_asset@, b.config.quote_asset@)
}

/// `book_holds` summed over all books.
pub open spec fn books_hold(bs: Seq<OrderBook>, u: Seq<char>, a: Seq<char>) -> int
    decreases bs.len(),
{
    if bs.len() == 0 {
        0
    } else {
        book_holds(bs[0], u, a) + books_hold(bs.drop_first(), u, a)
    }
}

/// What matching releases from the resting orders it takes from: `qs[k]` of
/// `book[k]`, front first.
pub open spec fn plan_release(book: Seq<Order>, qs: Seq<nat>, u: Seq<char>, a: Seq<char>, base: Seq<char>, quote: Seq<char>) -> int
    decreases qs.len(),
{
    if qs.len() == 0 {
        0
    } else {
        plan_release(book, qs.drop_last(), u, a, base, quote) + leg(book[qs.len() - 1], qs.last() as int, u, a, base, quote)
    }
}

pub proof fn lemma_side_holds_nonneg(s: Seq<Order>, side: Side, next_seq: u64, u: Seq<char>, a: Seq<char>, base: Seq<char>, quote: Seq<char>, i: int)
    requires
        side_wf(s, side, next_seq),
        0 <= i < s.len(),
    ensures
        0 <= holds_for(s[i], u, a, base, quote) <= side_holds(s, u, a, base, quote),
    decreases s.len(),
{
    let t = s.drop_first();
    assert(side_wf(t, side, next_seq)) by {
        assert forall|x: int, y: int| 0 <= x < y < t.len() implies crate::orderbook::ahead(side, #[trigger] t[x], #[trigger] t[y]) by {
            assert(crate::orderbook::ahead(side, s[x + 1], s[y + 1]));
        }
    }
    assert(s[0].filled < s[0].quantity);
    let p = s[0].price;
    let r = remaining(s[0]);
    assert(p * r >= 0) by (nonlinear_arith)
        requires r > 0;
    assert(0 <= holds_for(s[0], u, a, base, quote));
    assert(side_holds(s, u, a, base, quote) == holds_for(s[0], u, a, base, quote) + side_holds(t, u, a, base, quote));
    if t.len() == 0 {
        assert(side_holds(t, u, a, base, quote) == 0);
    } else {
        lemma_side_holds_nonneg(t, side, next_seq, u, a, base, quote, 0);
        if i > 0 {
            lemma_side_holds_nonneg(t, side, next_seq, u, a, base, quote, i - 1);
            assert(t[i - 1] == s[i]);
        }
    }
}

/// A well-formed book holds nothing negative.
pub proof fn lemma_book_holds_nonneg(b: OrderBook, u: Seq<char>, a: Seq<char>)
    requires
        b.wf(),
    ensures
        book_holds(b, u, a) >= 0,
        side_holds(b.bids@, u, a, b.config.base_asset@, b.config.quote_asset@) >= 0,
        side_holds(b.asks@, u, a, b.config.base_asset@, b.config.quote_asset@) >= 0,
{
    if b.bids@.len() > 0 {
        lemma_side_holds_nonneg(b.bids@, Side::Buy, b.next_sequence, u, a, b.config.base_asset@, b.config.quote_asset@, 0);
    }
    if b.asks@.len() > 0 {
        lemma_side_holds_nonneg(b.asks@, Side::Sell, b.next_sequence, u, a, b.config.base_asset@, b.config.quote_asset@, 0);
    }
}

pub proof fn lemma_side_holds_remove(s: Seq<Order>, i: int, u: Seq<char>, a: Seq<char>, base: Seq<char>, quote: Seq<char>)
    requires
        0 <= i < s.len(),
    ensures
        side_holds(s.remove(i), u, a, base, quote) == side_holds(s, u, a, base, quote) - holds_for(s[i], u, a, base, quote),
    decreases s.len(),
{
    if i == 0 {
        assert(s.remove(0) =~= s.drop_first());
    } else {
        assert(s.remove(i).drop_first() =~= s.drop_first().remove(i - 1));
        assert(s.remove(i)[0] == s[0]);
        lemma_side_holds_remove(s.drop_first(), i - 1, u, a, base, quote);
    }
}

pub proof fn lemma_side_holds_insert(s: Seq<Order>, j: int, x: Order, u: Seq<char>, a: Seq<char>, base: Seq<char>, quote: Seq<char>)
    requires
        0 <= j <= s.len(),
    ensures
        side_holds(s.insert(j, x), u, a, base, quote) == side_holds(s, u, a, base, quote) + holds_for(x, u, a, base, quote),
    decreases s.len(),
{
    if j == 0 {
        assert(s.insert(0, x).drop_first() =~= s);
    } else {
        assert(s.insert(j, x).drop_first() =~= s.drop_first().insert(j - 1, x));
        assert(s.insert(j, x)[0] == s[0]);
        lemma_side_holds_insert(s.drop_first(), j - 1, x, u, a, base, quote);
    }
}

pub proof fn lemma_books_hold_update(bs: Seq<OrderBook>, i: int, nb: OrderBook, u: Seq<char>, a: Seq<char>)
    requires
        0 <= i < bs.len(),
    ensures
        books_hold(bs.update(i, nb), u, a) == books_hold(bs, u, a) - book_holds(bs[i], u, a) + book_holds(nb, u, a),
    decreases bs.len(),
{
    if i == 0 {
        assert(bs.update(0, nb).drop_first() =~= bs.drop_first());
    } else {
        assert(bs.update(i, nb).drop_first() =~= bs.drop_first().update(i - 1, nb));
        lemma_books_hold_update(bs.drop_first(), i - 1, nb, u, a);
    }
}

/// Every book holds no less than nothing, and no more than all books together.
pub proof fn lemma_book_holds_le(bs: Seq<OrderBook>, i: int, u: Seq<char>, a: Seq<char>)
    requires
        0 <= i < bs.len(),
        forall|k: int| 0 <= k < bs.len() ==> book_holds(#[trigger] bs[k], u, a) >= 0,
    ensures
        book_holds(bs[i], u, a) <= books_hold(bs, u, a),
        books_hold(bs, u, a) >= 0,
    decreases bs.len(),
{
    let t = bs.drop_first();
    assert forall|k: int| 0 <= k < t.len() implies book_holds(#[trigger] t[k], u, a) >= 0 by {
        assert(t[k] == bs[k + 1]);
    }
    assert(book_holds(bs[0], u, a) >= 0);
    assert(books_hold(bs, u, a) == book_holds(bs[0], u, a) + books_hold(t, u, a));
    if t.len() == 0 {
        assert(books_hold(t, u, a) == 0);
    } else {
        lemma_book_holds_le(t, 0, u, a);
        if i > 0 {
            lemma_book_holds_le(t, i - 1, u, a);
        }
    }
}

pub proof fn lemma_books_hold_empty(bs: Seq<OrderBook>, u: Seq<char>, a: Seq<char>)
    requires
        forall|k: int| 0 <= k < bs.len() ==> (#[trigger] bs[k]).bids@.len() == 0 && bs[k].asks@.len() == 0,
    ensures
        books_hold(bs, u, a) == 0,
    decreases bs.len(),
{
    if bs.len() > 0 {
        let t = bs.drop_first();
        assert forall|k: int| 0 <= k < t.len() implies (#[trigger] t[k]).bids@.len() == 0 && t[k].asks@.len() == 0 by {
            assert(t[k] == bs[k + 1]);
        }
        assert(bs[0].bids@.len() == 0 && bs[0].asks@.len() == 0);
        lemma_books_hold_empty(t, u, a);
    }
}

pub proof fn lemma_plan_release_nonneg(book: Seq<Order>, qs: Seq<nat>, u: Seq<char>, a: Seq<char>, base: Seq<char>, quote: Seq<char>)
    requires
        qs.len() <= book.len(),
    ensures
        plan_release(book, qs, u, a, base, quote) >= 0,
    decreases qs.len(),
{
    if qs.len() > 0 {
        lemma_plan_release_nonneg(book, qs.drop_last(), u, a, base, quote);
        let o = book[qs.len() - 1];
        let q = qs.last() as int;
        assert(o.price * q >= 0) by (nonlinear_arith)
            requires q >= 0;
    }
}

proof fn lemma_plan_release_prepend(book: Seq<Order>, x: nat, qs: Seq<nat>, u: Seq<char>, a: Seq<char>, base: Seq<char>, quote: Seq<char>)
    requires
        book.len() > qs.len(),
    ensures
        plan_release(book, seq![x] + qs, u, a, base, quote)
            == leg(book[0], x as int, u, a, base, quote) + plan_release(book.drop_first(), qs, u, a, base, quote),
    decreases qs.len(),
{
    let p = seq![x] + qs;
    if qs.len() == 0 {
        assert(p.drop_last() =~= Seq::<nat>::empty());
        assert(plan_release(book, Seq::<nat>::empty(), u, a, base, quote) == 0);
        assert(plan_release(book.drop_first(), qs, u, a, base, quote) == 0);
        assert(p.last() == x);
    } else {
        assert(p.drop_last() =~= seq![x] + qs.drop_last());
        assert(p.last() == qs.last());
        assert(book[p.len() - 1] == book.drop_first()[qs.len() - 1]);
        lemma_plan_release_prepend(book, x, qs.drop_last(), u, a, base, quote);
    }
}

/// Matching releases from the side exactly what `plan_release` says.
pub proof fn lemma_match_release(book: Seq<Order>, taker: Side, limit: u64, want: nat, next_seq: u64,
    u: Seq<char>, a: Seq<char>, base: Seq<char>, quote: Seq<char>)
    requires
        side_wf(book, opposite(taker), next_seq),
    ensures
        ({
            let (rest, qs) = match_plan(book, taker, limit, want);
            side_holds(rest, u, a, base, quote) == side_holds(book, u, a, base, quote) - plan_release(book, qs, u, a, base, quote)
        }),
    decreases book.len(),
{
    if want == 0 || book.len() == 0 || !crate::orderbook::crosses(taker, limit, book[0].price) {
    } else {
        let avail = remaining(book[0]);
        let o = book[0];
        if want < avail {
            let rest = book.update(0, Order { filled: (o.filled + want) as u64, ..o });
            let qs = seq![want];
            assert(qs.drop_last() =~= Seq::<nat>::empty());
            assert(plan_release(book, Seq::<nat>::empty(), u, a, base, quote) == 0);
            assert(plan_release(book, qs, u, a, base, quote) == leg(o, want as int, u, a, base, quote));
            assert(rest.drop_first() =~= book.drop_first());
            assert(side_holds(rest, u, a, base, quote) == holds_for(rest[0], u, a, base, quote) + side_holds(book.drop_first(), u, a, base, quote));
            assert(side_holds(book, u, a, base, quote) == holds_for(o, u, a, base, quote) + side_holds(book.drop_first(), u, a, base, quote));
            assert(remaining(rest[0]) == avail - want);
            assert(o.price * avail == o.price * (avail - want) + o.price * want) by (nonlinear_arith);
        } else {
            let tail = book.drop_first();
            assert(side_wf(tail, opposite(taker), next_seq)) by {
                assert forall|x: int, y: int| 0 <= x < y < tail.len() implies crate::orderbook::ahead(opposite(taker), #[trigger] tail[x], #[trigger] tail[y]) by {
                    assert(crate::orderbook::ahead(opposite(taker), book[x + 1], book[y + 1]));
                }
            }
            lemma_match_release(tail, taker, limit, (want - avail) as nat, next_seq, u, a, base, quote);
            crate::orderbook::lemma_match_plan(tail, taker, limit, (want - avail) as nat, next_seq);
            let qs1 = match_plan(tail, taker, limit, (want - avail) as nat).1;
            lemma_plan_release_prepend(book, avail as nat, qs1, u, a, base, quote);
            assert(side_holds(book, u, a, base, quote) == holds_for(o, u, a, base, quote) + side_holds(tail, u, a, base, quote));
        }
    }
}

} // verus!
