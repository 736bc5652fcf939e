use crate::book_laws::{
    law_fill_follows_queue, lemma_fill_front_not_better, lemma_fill_keeps_positive,
    lemma_fill_stops, lemma_fill_traced, lemma_queue_members, lemma_rest_best, lemma_rest_holds,
    lemma_rest_keeps_positive, lemma_traded_notional_concat,
};
use crate::book_model::{
    book_holds, book_wf, empty_book, fill, left_of, lemma_fill_keeps_wf, lemma_fill_traded,
    lemma_rest_keeps_wf, lemma_traded_qty_concat, level_wf, match_book, opposite, positive_book,
    queue_of, rest_in_side, side_holds, side_levels, side_wf, traded_notional, traded_qty,
    uncrossed, BookState,
};
use crate::engine::{
    book_after_order, engine_wf, limit_of, next_id, order_error, submitted, vwap_of, with_market,
    EngineState, MarketKey,
};
use crate::errors::EngineResult;
use crate::types::{
    BookOrder, ExecutionReport, OrderId, OrderRequest, OrderType, Price, Side, Timestamp, Trade,
};
use vstd::prelude::*;

verus! {

broadcast use crate::types::group_value_views;

/// Taking a valid order keeps a well-formed book well formed, and a book whose best bid is
/// below its best ask stays so: matching removes every crossing level, and what rests of a
/// limit order does not cross the other side.
pub proof fn law_order_keeps_book_uncrossed(
    b: BookState,
    r: OrderRequest,
    id: OrderId,
    ts: Timestamp,
)
    requires
        book_wf(b),
        uncrossed(b),
        order_error(r) is None,
    ensures
        book_wf(book_after_order(b, r, id, ts).0),
        uncrossed(book_after_order(b, r, id, ts).0),
{
    let side = r.side;
    let ms = opposite(side);
    let levels = side_levels(b, ms);
    let q = r.qty@ as nat;
    let limit = limit_of(r);
    let f = fill(side, levels, q, limit, id, ts);
    let m = match_book(b, side, q, limit, id, ts);
    lemma_fill_keeps_wf(ms, side, levels, q, limit, id, ts);
    lemma_fill_front_not_better(side, levels, q, limit, id, ts);
    lemma_fill_stops(side, levels, q, limit, id, ts);
    lemma_fill_traded(side, levels, q, limit, id, ts);
    assert(book_wf(m.0));
    let after = book_after_order(b, r, id, ts).0;
    let remaining = r.qty@ - traded_qty(m.1);
    if r.order_type == OrderType::Limit && remaining > 0 {
        let p = r.price.unwrap();
        let o = crate::types::BookOrder {
            id,
            user_id: r.user_id,
            side: r.side,
            price: p,
            qty: crate::types::Quantity::spec_from(remaining as u64),
            ts,
        };
        lemma_rest_keeps_wf(side, side_levels(m.0, side), o);
        lemma_rest_best(side, side_levels(m.0, side), o);
        match side {
            Side::Bid => {
                assert(side_levels(m.0, side) == b.bids);
                assert(after.asks == f.0);
            },
            Side::Ask => {
                assert(side_levels(m.0, side) == b.asks);
                assert(after.bids == f.0);
            },
        }
    } else {
        match side {
            Side::Bid => {
                assert(after.bids == b.bids);
                assert(after.asks == f.0);
            },
            Side::Ask => {
                assert(after.asks == b.asks);
                assert(after.bids == f.0);
            },
        }
    }
}

/// Submitting an order keeps every book of the engine uncrossed.
pub proof fn law_submit_keeps_books_uncrossed(
    pre: EngineState,
    post: EngineState,
    r: OrderRequest,
    ts: Timestamp,
    res: EngineResult<ExecutionReport>,
)
    requires
        engine_wf(pre),
        forall|k: MarketKey| #[trigger] pre.markets.contains_key(k) ==> uncrossed(pre.markets[k]),
        submitted(pre, post, r, ts, res),
    ensures
        engine_wf(post),
        forall|k: MarketKey| #[trigger] post.markets.contains_key(k) ==> uncrossed(post.markets[k]),
{
    if order_error(r) is None && pre.markets.contains_key(r.market@) {
        law_order_keeps_book_uncrossed(pre.markets[r.market@], r, pre.next_order_id, ts);
    }
}

/// Markets are isolated: submitting an order to one market leaves every other market as it
/// was.
pub proof fn law_markets_isolated(
    pre: EngineState,
    post: EngineState,
    r: OrderRequest,
    ts: Timestamp,
    res: EngineResult<ExecutionReport>,
    other: MarketKey,
)
    requires
        submitted(pre, post, r, ts, res),
        other != r.market@,
    ensures
        post.markets.contains_key(other) == pre.markets.contains_key(other),
        pre.markets.contains_key(other) ==> post.markets[other] == pre.markets[other],
{
}

/// Each order that passes validation takes the next id, and every trade it makes names it as
/// the taker; a refused order takes no id.
pub proof fn law_order_ids(
    pre: EngineState,
    post: EngineState,
    r: OrderRequest,
    ts: Timestamp,
    res: EngineResult<ExecutionReport>,
)
    requires
        engine_wf(pre),
        submitted(pre, post, r, ts, res),
    ensures
        order_error(r) is Some ==> post.next_order_id == pre.next_order_id,
        order_error(r) is None ==> post.next_order_id == next_id(pre.next_order_id),
        res matches Ok(rep) ==> forall|i: int|
            0 <= i < rep.trades@.len() ==> (#[trigger] rep.trades@[i]).taker_order_id
                == pre.next_order_id && rep.trades@[i].ts == ts,
{
    if order_error(r) is None && pre.markets.contains_key(r.market@) {
        let b = pre.markets[r.market@];
        crate::book_laws::law_fill_follows_queue(
            r.side,
            side_levels(b, opposite(r.side)),
            r.qty@ as nat,
            limit_of(r),
            pre.next_order_id,
            ts,
        );
    }
}

/// A report accounts for the whole order: what was filled and what was left add up to the
/// requested quantity, and the order is reported filled exactly when nothing is left.
pub proof fn law_report_accounts_for_order(
    pre: EngineState,
    post: EngineState,
    r: OrderRequest,
    ts: Timestamp,
    res: EngineResult<ExecutionReport>,
)
    requires
        submitted(pre, post, r, ts, res),
    ensures
        res matches Ok(rep) ==> {
            &&& rep.filled_qty@ + rep.remaining_qty@ == r.qty@
            &&& (rep.status == crate::types::ExecutionStatus::Filled) <==> rep.remaining_qty@ == 0
            &&& rep.status == crate::types::ExecutionStatus::Rejected ==> rep.filled_qty@ == 0
                && r.order_type == OrderType::Market
        },
{
}

/// The notional of trades whose quantity is positive only at prices within `[lo, hi]` lies
/// between `lo` and `hi` times their quantity.
proof fn lemma_notional_bounds(trades: Seq<Trade>, lo: nat, hi: nat)
    requires
        forall|i: int|
            0 <= i < trades.len() && (#[trigger] trades[i]).qty@ > 0 ==> lo <= trades[i].price@ <= hi,
    ensures
        lo * traded_qty(trades) <= traded_notional(trades) <= hi * traded_qty(trades),
    decreases trades.len(),
{
    if trades.len() > 0 {
        let init = trades.drop_last();
        assert forall|i: int|
            0 <= i < init.len() && (#[trigger] init[i]).qty@ > 0 implies lo <= init[i].price@ <= hi by {
            assert(init[i] == trades[i]);
        }
        lemma_notional_bounds(init, lo, hi);
        let t = trades.last();
        let p = t.price@ as nat;
        let q = t.qty@ as nat;
        let qi = traded_qty(init);
        let ni = traded_notional(init);
        assert(traded_qty(trades) == qi + q);
        assert(traded_notional(trades) == ni + p * q);
        if q > 0 {
            assert(lo <= p <= hi);
            assert(lo * (qi + q) <= ni + p * q <= hi * (qi + q)) by (nonlinear_arith)
                requires
                    lo * qi <= ni <= hi * qi,
                    lo <= p <= hi,
            ;
        } else {
            assert(p * q == 0) by (nonlinear_arith)
                requires
                    q == 0,
            ;
        }
    } else {
        assert(lo * 0 == 0 && hi * 0 == 0) by (nonlinear_arith);
    }
}

/// The volume-weighted average price of some trades lies between the lowest and the highest
/// price of those of them with a positive quantity.
pub proof fn law_vwap_within_trade_prices(trades: Seq<Trade>, lo: u64, hi: u64)
    requires
        forall|i: int|
            0 <= i < trades.len() && (#[trigger] trades[i]).qty@ > 0 ==> lo <= trades[i].price@ <= hi,
    ensures
        vwap_of(trades) matches Ok(Some(p)) ==> lo <= p@ <= hi,
{
    if trades.len() > 0 && traded_notional(trades) <= u128::MAX && traded_qty(trades) > 0 {
        lemma_notional_bounds(trades, lo as nat, hi as nat);
        let n = traded_notional(trades);
        let q = traded_qty(trades);
        assert(lo <= n / q <= hi) by (nonlinear_arith)
            requires
                lo * q <= n <= hi * q,
                q > 0,
        ;
        assert(Price::spec_from((n / q) as u64)@ == n / q);
    }
}

/// Taking one trade out of a run of trades takes away its quantity and its notional.
proof fn lemma_traded_remove(trades: Seq<Trade>, i: int)
    requires
        0 <= i < trades.len(),
    ensures
        traded_qty(trades) == traded_qty(trades.remove(i)) + trades[i].qty@,
        traded_notional(trades) == traded_notional(trades.remove(i)) + (trades[i].price@ as nat) * (
        trades[i].qty@ as nat),
{
    let a = trades.take(i);
    let one = seq![trades[i]];
    let b = trades.skip(i + 1);
    assert(trades =~= (a + one) + b);
    assert(trades.remove(i) =~= a + b);
    lemma_traded_qty_concat(a + one, b);
    lemma_traded_qty_concat(a, one);
    lemma_traded_qty_concat(a, b);
    lemma_traded_notional_concat(a + one, b);
    lemma_traded_notional_concat(a, one);
    lemma_traded_notional_concat(a, b);
    assert(one.drop_last() =~= Seq::<Trade>::empty());
    assert(traded_qty(one.drop_last()) == 0);
    assert(traded_notional(one.drop_last()) == 0);
}

/// Runs of trades with the same trades, in any order, have the same quantity and notional.
proof fn lemma_traded_permutation(a: Seq<Trade>, b: Seq<Trade>)
    requires
        a.to_multiset() == b.to_multiset(),
    ensures
        traded_qty(a) == traded_qty(b),
        traded_notional(a) == traded_notional(b),
    decreases a.len(),
{
    broadcast use vstd::seq_lib::group_to_multiset_ensures;

    if a.len() == 0 {
        assert(b.to_multiset().len() == 0);
        assert(b =~= Seq::<Trade>::empty());
    } else {
        let x = a.last();
        let init = a.drop_last();
        assert(a =~= init.push(x));
        assert(a.to_multiset() =~= init.to_multiset().insert(x));
        assert(b.to_multiset().count(x) > 0);
        assert(b.contains(x));
        let j = choose|j: int| 0 <= j < b.len() && b[j] == x;
        assert(b.remove(j).to_multiset() =~= b.to_multiset().remove(x));
        assert(init.to_multiset() =~= a.to_multiset().remove(x));
        lemma_traded_permutation(init, b.remove(j));
        lemma_traded_remove(b, j);
        lemma_traded_remove(a, a.len() - 1);
        assert(a.remove(a.len() - 1) =~= init);
    }
}

/// The volume-weighted average price does not depend on the order of the trades.
pub proof fn law_vwap_order_independent(a: Seq<Trade>, b: Seq<Trade>)
    requires
        a.to_multiset() == b.to_multiset(),
    ensures
        vwap_of(a) == vwap_of(b),
{
    broadcast use vstd::seq_lib::group_to_multiset_ensures;

    lemma_traded_permutation(a, b);
    assert(a.len() == a.to_multiset().len());
    assert(b.len() == b.to_multiset().len());
}

/// Opening a market is idempotent, keeps the books of all markets that were open, and leaves
/// a newly opened market with an empty book.
pub proof fn law_open_market_idempotent(markets: Map<MarketKey, BookState>, key: MarketKey)
    ensures
        with_market(with_market(markets, key), key) == with_market(markets, key),
        with_market(markets, key).contains_key(key),
        forall|k: MarketKey| #[trigger] markets.contains_key(k) ==> with_market(markets, key)[k] == markets[k],
        !markets.contains_key(key) ==> with_market(markets, key)[key] == empty_book(),
{
}

/// A market order never rests: the side it was entered on is left as it was.
pub proof fn law_market_order_never_rests(b: BookState, r: OrderRequest, id: OrderId, ts: Timestamp)
    requires
        r.order_type == OrderType::Market,
    ensures
        side_levels(book_after_order(b, r, id, ts).0, r.side) == side_levels(b, r.side),
{
}

/// Taking any order keeps every resting quantity of a well-formed book positive: fills only
/// shrink or remove makers, and only a positive remainder rests.
pub proof fn law_order_keeps_quantities_positive(
    b: BookState,
    r: OrderRequest,
    id: OrderId,
    ts: Timestamp,
)
    requires
        book_wf(b),
        positive_book(b),
    ensures
        positive_book(book_after_order(b, r, id, ts).0),
{
    let side = r.side;
    let ms = opposite(side);
    let levels = side_levels(b, ms);
    let q = r.qty@ as nat;
    let limit = limit_of(r);
    let m = match_book(b, side, q, limit, id, ts);
    lemma_fill_keeps_positive(side, levels, q, limit, id, ts);
    lemma_fill_traded(side, levels, q, limit, id, ts);
    assert(positive_book(m.0));
    let remaining = r.qty@ - traded_qty(m.1);
    if r.order_type == OrderType::Limit && remaining > 0 {
        let o = crate::types::BookOrder {
            id,
            user_id: r.user_id,
            side: r.side,
            price: r.price.unwrap(),
            qty: crate::types::Quantity::spec_from(remaining as u64),
            ts,
        };
        lemma_rest_keeps_positive(side, side_levels(m.0, side), o);
    }
}

/// Submitting an order keeps well formed, uncrossed books with positive resting quantities so,
/// whatever the engine answers.
pub proof fn law_submit_keeps_quantities_positive(
    pre: EngineState,
    post: EngineState,
    r: OrderRequest,
    ts: Timestamp,
    res: EngineResult<ExecutionReport>,
)
    requires
        engine_wf(pre),
        forall|k: MarketKey| #[trigger] pre.markets.contains_key(k) ==> positive_book(pre.markets[k]),
        submitted(pre, post, r, ts, res),
    ensures
        forall|k: MarketKey| #[trigger] post.markets.contains_key(k) ==> positive_book(post.markets[k]),
{
    if order_error(r) is None && pre.markets.contains_key(r.market@) {
        law_order_keeps_quantities_positive(pre.markets[r.market@], r, pre.next_order_id, ts);
    }
}

/// `x` is what rests of request `r` itself, entered with id `id` at time `ts`.
pub open spec fn entered_as(x: BookOrder, r: OrderRequest, id: OrderId, ts: Timestamp) -> bool {
    &&& x.id == id
    &&& x.user_id == r.user_id
    &&& x.side == r.side
    &&& r.price == Some(x.price)
    &&& x.ts == ts
    &&& x.qty@ <= r.qty@
}

/// Every resting order of every book has an id below the next one the engine hands out.
pub open spec fn ids_below(s: EngineState) -> bool {
    forall|k: MarketKey, x: BookOrder|
        s.markets.contains_key(k) && #[trigger] book_holds(s.markets[k], x) ==> x.id
            < s.next_order_id
}

/// After a valid order, a book holds only what is left of the orders it held before, and what
/// rests of the order itself.
pub proof fn law_order_rests_only_known_orders(
    b: BookState,
    r: OrderRequest,
    id: OrderId,
    ts: Timestamp,
)
    requires
        order_error(r) is None,
    ensures
        forall|x: BookOrder| #[trigger]
            book_holds(book_after_order(b, r, id, ts).0, x) ==> (exists|p: BookOrder|
                #[trigger] book_holds(b, p) && left_of(x, p)) || entered_as(x, r, id, ts),
{
    let side = r.side;
    let ms = opposite(side);
    let levels = side_levels(b, ms);
    let q = r.qty@ as nat;
    let limit = limit_of(r);
    let f = fill(side, levels, q, limit, id, ts);
    let m = match_book(b, side, q, limit, id, ts);
    lemma_fill_traced(side, levels, q, limit, id, ts);
    let after = book_after_order(b, r, id, ts).0;
    let remaining = r.qty@ - traded_qty(m.1);
    let rests = r.order_type == OrderType::Limit && remaining > 0;
    let o = BookOrder {
        id,
        user_id: r.user_id,
        side: r.side,
        price: r.price.unwrap(),
        qty: crate::types::Quantity::spec_from(remaining as u64),
        ts,
    };
    lemma_fill_traded(side, levels, q, limit, id, ts);
    // the side the order was entered on, afterwards
    let own = side_levels(b, side);
    let own_after = if rests {
        rest_in_side(side, own, o)
    } else {
        own
    };
    match side {
        Side::Bid => {
            assert(after.bids == own_after && after.asks == f.0);
        },
        Side::Ask => {
            assert(after.asks == own_after && after.bids == f.0);
        },
    }
    assert forall|x: BookOrder| #[trigger] book_holds(after, x) implies (exists|p: BookOrder|
        #[trigger] book_holds(b, p) && left_of(x, p)) || entered_as(x, r, id, ts) by {
        if side_holds(f.0, x) {
            let p = choose|p: BookOrder| #[trigger] side_holds(levels, p) && left_of(x, p);
            assert(book_holds(b, p));
        } else {
            assert(side_holds(own_after, x));
            if rests {
                lemma_rest_holds(side, own, o, x);
                if x != o {
                    assert(book_holds(b, x));
                    assert(left_of(x, x));
                } else {
                    assert(o.qty@ == remaining);
                }
            } else {
                assert(book_holds(b, x));
                assert(left_of(x, x));
            }
        }
    }
}

/// Submitting an order opens no market, and afterwards every book holds only what is left of
/// the orders it held before, and what rests of the order itself under the id it was given.
pub proof fn law_submit_rests_only_known_orders(
    pre: EngineState,
    post: EngineState,
    r: OrderRequest,
    ts: Timestamp,
    res: EngineResult<ExecutionReport>,
)
    requires
        submitted(pre, post, r, ts, res),
    ensures
        forall|k: MarketKey| #[trigger] post.markets.contains_key(k) <==> pre.markets.contains_key(k),
        forall|k: MarketKey, x: BookOrder|
            post.markets.contains_key(k) && #[trigger] book_holds(post.markets[k], x) ==> (exists|
                p: BookOrder,
            | #[trigger] book_holds(pre.markets[k], p) && left_of(x, p)) || (k == r.market@
                && res is Ok && entered_as(x, r, pre.next_order_id, ts)),
{
    if order_error(r) is None && pre.markets.contains_key(r.market@) {
        let b = pre.markets[r.market@];
        law_order_rests_only_known_orders(b, r, pre.next_order_id, ts);
    }
    assert forall|k: MarketKey, x: BookOrder|
        post.markets.contains_key(k) && #[trigger] book_holds(post.markets[k], x) implies (exists|
            p: BookOrder,
        | #[trigger] book_holds(pre.markets[k], p) && left_of(x, p)) || (k == r.market@ && res is Ok
            && entered_as(x, r, pre.next_order_id, ts)) by {
        if order_error(r) is Some || !pre.markets.contains_key(r.market@) || k != r.market@ {
            assert(post.markets[k] == pre.markets[k]);
            assert(left_of(x, x));
        }
    }
}

/// Every trade of an accepted order takes from an order that rested, on the other side and at
/// the trade's price, in that market's book before the order came; when every resting id was
/// below the next id, each maker is an earlier order than the taker.
pub proof fn law_submit_makers_were_resting(
    pre: EngineState,
    post: EngineState,
    r: OrderRequest,
    ts: Timestamp,
    res: EngineResult<ExecutionReport>,
)
    requires
        engine_wf(pre),
        submitted(pre, post, r, ts, res),
    ensures
        res matches Ok(rep) ==> forall|i: int|
            0 <= i < rep.trades@.len() ==> exists|p: BookOrder|
                #[trigger] book_holds(pre.markets[r.market@], p) && p.id == (#[trigger] rep.trades@[i]).maker_order_id
                    && p.side == opposite(r.side) && p.price == rep.trades@[i].price,
        ids_below(pre) ==> (res matches Ok(rep) ==> forall|i: int|
            0 <= i < rep.trades@.len() ==> (#[trigger] rep.trades@[i]).maker_order_id
                < rep.trades@[i].taker_order_id),
{
    if order_error(r) is None && pre.markets.contains_key(r.market@) {
        let b = pre.markets[r.market@];
        let ms = opposite(r.side);
        let levels = side_levels(b, ms);
        let id = pre.next_order_id;
        law_fill_follows_queue(r.side, levels, r.qty@ as nat, limit_of(r), id, ts);
        lemma_queue_members(levels);
        let trades = fill(r.side, levels, r.qty@ as nat, limit_of(r), id, ts).1;
        let qu = queue_of(levels);
        assert(book_wf(b));
        assert(side_wf(ms, levels));
        assert forall|i: int| 0 <= i < trades.len() implies exists|p: BookOrder|
            #[trigger] book_holds(b, p) && p.id == (#[trigger] trades[i]).maker_order_id && p.side == ms
                && p.price == trades[i].price by {
            let p = qu[i];
            assert(side_holds(levels, p));
            let (k, j) = choose|k: int, j: int|
                0 <= k < levels.len() && 0 <= j < levels[k].orders.len() && #[trigger] levels[k].orders[j]
                    == p;
            assert(level_wf(ms, levels[k]));
            assert(book_holds(b, p));
        }
        if ids_below(pre) {
            assert forall|i: int| 0 <= i < trades.len() implies (#[trigger] trades[i]).maker_order_id
                < trades[i].taker_order_id by {
                let p = qu[i];
                assert(side_holds(levels, p));
                assert(book_holds(b, p));
            }
        }
    }
}

/// Every resting id stays below the next id the engine hands out, as long as ids do not run
/// out.
pub proof fn law_submit_keeps_ids_below(
    pre: EngineState,
    post: EngineState,
    r: OrderRequest,
    ts: Timestamp,
    res: EngineResult<ExecutionReport>,
)
    requires
        ids_below(pre),
        pre.next_order_id < u64::MAX,
        submitted(pre, post, r, ts, res),
    ensures
        ids_below(post),
{
    law_submit_rests_only_known_orders(pre, post, r, ts, res);
    assert forall|k: MarketKey, x: BookOrder|
        post.markets.contains_key(k) && #[trigger] book_holds(post.markets[k], x) implies x.id
        < post.next_order_id by {
        if !(k == r.market@ && res is Ok && entered_as(x, r, pre.next_order_id, ts)) {
            let p = choose|p: BookOrder| #[trigger] book_holds(pre.markets[k], p) && left_of(x, p);
            assert(pre.markets.contains_key(k));
        }
    }
}

/// A fresh engine has no resting orders, and opening a market adds none: every resting id stays
/// below the next id.
pub proof fn law_open_market_keeps_ids_below(s: EngineState, key: MarketKey)
    requires
        ids_below(s),
    ensures
        ids_below(EngineState { markets: Map::empty(), next_order_id: 1 }),
        ids_below(EngineState { markets: with_market(s.markets, key), next_order_id: s.next_order_id }),
{
    let t = EngineState { markets: with_market(s.markets, key), next_order_id: s.next_order_id };
    assert forall|k: MarketKey, x: BookOrder|
        t.markets.contains_key(k) && #[trigger] book_holds(t.markets[k], x) implies x.id
        < t.next_order_id by {
        if !s.markets.contains_key(k) {
            assert(t.markets[k] == empty_book());
            assert(!side_holds(empty_book().bids, x));
            assert(!side_holds(empty_book().asks, x));
        }
    }
}

/// `states` and `results` are what the engine went through and answered when it was handed
/// `reqs` one after the other, at the times `tss`.
pub open spec fn engine_run(
    states: Seq<EngineState>,
    reqs: Seq<OrderRequest>,
    tss: Seq<Timestamp>,
    results: Seq<EngineResult<ExecutionReport>>,
) -> bool {
    &&& states.len() == reqs.len() + 1
    &&& tss.len() == reqs.len()
    &&& results.len() == reqs.len()
    &&& forall|i: int|
        #![trigger reqs[i]]
        0 <= i < reqs.len() ==> submitted(states[i], states[i + 1], reqs[i], tss[i], results[i])
}

/// The run starts with ids at one and every open market empty, and every request is taken.
pub open spec fn fresh_accepted_run(
    states: Seq<EngineState>,
    reqs: Seq<OrderRequest>,
    tss: Seq<Timestamp>,
    results: Seq<EngineResult<ExecutionReport>>,
) -> bool {
    &&& engine_run(states, reqs, tss, results)
    &&& states[0].next_order_id == 1
    &&& forall|k: MarketKey| #[trigger] states[0].markets.contains_key(k) ==> states[0].markets[k]
        == empty_book()
    &&& forall|i: int| 0 <= i < results.len() ==> #[trigger] results[i] is Ok
}

/// Every order resting in `s` was entered by one of the first `i` requests of the run, under
/// the id that request was numbered with, in its market.
pub open spec fn rested_by_earlier(
    s: EngineState,
    reqs: Seq<OrderRequest>,
    tss: Seq<Timestamp>,
    i: int,
) -> bool {
    forall|k: MarketKey, x: BookOrder|
        s.markets.contains_key(k) && #[trigger] book_holds(s.markets[k], x) ==> exists|j: int|
            0 <= j < i && reqs[j].market@ == k && #[trigger] entered_as(x, reqs[j], (j + 1) as u64, tss[j])
}

proof fn lemma_run_prefix(
    states: Seq<EngineState>,
    reqs: Seq<OrderRequest>,
    tss: Seq<Timestamp>,
    results: Seq<EngineResult<ExecutionReport>>,
    i: int,
)
    requires
        fresh_accepted_run(states, reqs, tss, results),
        reqs.len() < u64::MAX,
        0 <= i <= reqs.len(),
    ensures
        states[i].next_order_id == i + 1,
        engine_wf(states[i]),
        forall|k: MarketKey| #[trigger] states[i].markets.contains_key(k) ==> uncrossed(states[i].markets[k]),
        rested_by_earlier(states[i], reqs, tss, i),
    decreases i,
{
    if i == 0 {
        let s = states[0];
        assert forall|k: MarketKey| #[trigger] s.markets.contains_key(k) implies book_wf(s.markets[k]) by {
            assert(s.markets[k] == empty_book());
        }
        assert forall|k: MarketKey, x: BookOrder|
            s.markets.contains_key(k) && #[trigger] book_holds(s.markets[k], x) implies exists|j: int|
            0 <= j < 0 && reqs[j].market@ == k && #[trigger] entered_as(x, reqs[j], (j + 1) as u64, tss[j]) by {
            assert(s.markets[k] == empty_book());
            assert(!side_holds(empty_book().bids, x));
            assert(!side_holds(empty_book().asks, x));
        }
    } else {
        let h = i - 1;
        lemma_run_prefix(states, reqs, tss, results, h);
        let pre = states[h];
        let post = states[i];
        let r = reqs[h];
        assert(submitted(pre, post, r, tss[h], results[h]));
        assert(results[h] is Ok);
        law_submit_keeps_books_uncrossed(pre, post, r, tss[h], results[h]);
        law_submit_rests_only_known_orders(pre, post, r, tss[h], results[h]);
        assert(order_error(r) is None);
        assert forall|k: MarketKey, x: BookOrder|
            post.markets.contains_key(k) && #[trigger] book_holds(post.markets[k], x) implies exists|
            j: int,
        | 0 <= j < i && reqs[j].market@ == k && #[trigger] entered_as(x, reqs[j], (j + 1) as u64, tss[j]) by {
            if k == r.market@ && results[h] is Ok && entered_as(x, r, pre.next_order_id, tss[h]) {
                assert(entered_as(x, reqs[h], (h + 1) as u64, tss[h]));
            } else {
                let p = choose|p: BookOrder| #[trigger] book_holds(pre.markets[k], p) && left_of(x, p);
                assert(pre.markets.contains_key(k));
                let j = choose|j: int|
                    0 <= j < h && reqs[j].market@ == k && #[trigger] entered_as(p, reqs[j], (j + 1) as u64, tss[j]);
                assert(entered_as(x, reqs[j], (j + 1) as u64, tss[j]));
            }
        }
    }
}

/// Over a run that starts with ids at one and every market empty, and in which every request
/// is taken, the requests are numbered 1, 2, 3, ... in the order they came: the `i`-th (from
/// zero) is the taker `i + 1` of every trade it makes, all at its time, and every maker of
/// those trades is an earlier request `j + 1` of the same market, on the other side, whose
/// limit price is the trade's price; and every order resting after any number of requests was
/// entered by one of them, under its number.
pub proof fn law_run_numbers_orders(
    states: Seq<EngineState>,
    reqs: Seq<OrderRequest>,
    tss: Seq<Timestamp>,
    results: Seq<EngineResult<ExecutionReport>>,
)
    requires
        fresh_accepted_run(states, reqs, tss, results),
        reqs.len() < u64::MAX,
    ensures
        forall|i: int| 0 <= i <= reqs.len() ==> (#[trigger] states[i]).next_order_id == i + 1,
        forall|i: int| 0 <= i <= reqs.len() ==> rested_by_earlier(#[trigger] states[i], reqs, tss, i),
        forall|i: int, t: int|
            #![trigger results[i]->Ok_0.trades@[t]]
            0 <= i < reqs.len() && 0 <= t < results[i]->Ok_0.trades@.len() ==> {
                let tr = results[i]->Ok_0.trades@[t];
                &&& tr.taker_order_id == i + 1
                &&& tr.ts == tss[i]
                &&& exists|j: int|
                    0 <= j < i && tr.maker_order_id == j + 1 && #[trigger] reqs[j].market@
                        == reqs[i].market@ && reqs[j].side == opposite(reqs[i].side) && reqs[j].price
                        == Some(tr.price)
            },
{
    assert forall|i: int| 0 <= i <= reqs.len() implies (#[trigger] states[i]).next_order_id == i + 1
        && rested_by_earlier(states[i], reqs, tss, i) by {
        lemma_run_prefix(states, reqs, tss, results, i);
    }
    assert forall|i: int, t: int|
        #![trigger results[i]->Ok_0.trades@[t]]
        0 <= i < reqs.len() && 0 <= t < results[i]->Ok_0.trades@.len() implies {
        let tr = results[i]->Ok_0.trades@[t];
        &&& tr.taker_order_id == i + 1
        &&& tr.ts == tss[i]
        &&& exists|j: int|
            0 <= j < i && tr.maker_order_id == j + 1 && #[trigger] reqs[j].market@ == reqs[i].market@
                && reqs[j].side == opposite(reqs[i].side) && reqs[j].price == Some(tr.price)
    } by {
        lemma_run_prefix(states, reqs, tss, results, i);
        let pre = states[i];
        let post = states[i + 1];
        let r = reqs[i];
        assert(submitted(pre, post, r, tss[i], results[i]));
        assert(results[i] is Ok);
        let rep = results[i]->Ok_0;
        let tr = rep.trades@[t];
        law_order_ids(pre, post, r, tss[i], results[i]);
        law_submit_makers_were_resting(pre, post, r, tss[i], results[i]);
        assert(order_error(r) is None);
        assert(pre.markets.contains_key(r.market@));
        let p = choose|p: BookOrder|
            #[trigger] book_holds(pre.markets[r.market@], p) && p.id == rep.trades@[t].maker_order_id
                && p.side == opposite(r.side) && p.price == rep.trades@[t].price;
        let j = choose|j: int|
            0 <= j < i && reqs[j].market@ == r.market@ && #[trigger] entered_as(p, reqs[j], (j + 1) as u64, tss[j]);
        assert(tr.maker_order_id == j + 1);
    }
}

/// An accepted order that made trades leaves its market's last price at the price of its last
/// trade, and reports that price; one that made none leaves the last price as it was.
pub proof fn law_submit_reports_last_trade_price(
    pre: EngineState,
    post: EngineState,
    r: OrderRequest,
    ts: Timestamp,
    res: EngineResult<ExecutionReport>,
)
    requires
        submitted(pre, post, r, ts, res),
    ensures
        res matches Ok(rep) ==> {
            &&& post.markets.contains_key(r.market@)
            &&& rep.trades@.len() > 0 ==> {
                &&& post.markets[r.market@].last_price == Some(
                    rep.trades@[rep.trades@.len() - 1].price,
                )
                &&& rep.last_price_after == Some(rep.trades@[rep.trades@.len() - 1].price)
            }
            &&& rep.trades@.len() == 0 ==> post.markets[r.market@].last_price
                == pre.markets[r.market@].last_price && rep.last_price_after
                == pre.markets[r.market@].last_price
        },
{
    if order_error(r) is None && pre.markets.contains_key(r.market@) {
        let b = pre.markets[r.market@];
        crate::book_laws::law_match_sets_last_trade_price(
            b,
            r.side,
            r.qty@ as nat,
            limit_of(r),
            pre.next_order_id,
            ts,
        );
    }
}

} // verus!
