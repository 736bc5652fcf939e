use crate::errors::{error_text, EngineError};
use crate::text::{
    ascii_lower_seq, begins_with, contains_seq, eq_lowercase, first_index_of, index_of_char,
    lemma_first_index_of, matches_at, occurs_in, same_text, starts_with,
};
use crate::types::{MarketId, OrderRequest, OrderType, Price, Quantity, Side, TimeInForce};
use vstd::prelude::*;
use vstd::string::StrSliceExecFns;

verus! {

broadcast use crate::types::group_value_views;

/// The HTTP methods the API tells apart.
#[derive(Debug, Clone, Copy, PartialEq, Eq)]
pub enum HttpMethod {
    Get,
    Post,
    Other,
}

/// What a request asks for.
#[derive(Debug, Clone, Copy, PartialEq, Eq)]
pub enum Route {
    Health,
    CreateMarket,
    CreateOrder,
    Snapshot,
    LastPrice,
    NotFound,
}

/// The route of a request, by method and URL.
pub open spec fn route_of(method: HttpMethod, url: Seq<char>) -> Route {
    match method {
        HttpMethod::Get => if url == "/health"@ {
            Route::Health
        } else if starts_with(url, "/markets/"@) && contains_seq(url, "/snapshot"@) {
            Route::Snapshot
        } else if starts_with(url, "/markets/"@) && contains_seq(url, "/last-price"@) {
            Route::LastPrice
        } else {
            Route::NotFound
        },
        HttpMethod::Post => if url == "/markets"@ {
            Route::CreateMarket
        } else if url == "/orders"@ {
            Route::CreateOrder
        } else {
            Route::NotFound
        },
        HttpMethod::Other => Route::NotFound,
    }
}

/// Dispatches a request: health, market creation, order entry, snapshots and last prices.
pub fn route(method: HttpMethod, url: &str) -> (r: Route)
    ensures
        r == route_of(method, url@),
{
    match method {
        HttpMethod::Get => {
            if same_text(url, "/health") {
                Route::Health
            } else if begins_with(url, "/markets/") && occurs_in(url, "/snapshot") {
                Route::Snapshot
            } else if begins_with(url, "/markets/") && occurs_in(url, "/last-price") {
                Route::LastPrice
            } else {
                Route::NotFound
            }
        },
        HttpMethod::Post => {
            if same_text(url, "/markets") {
                Route::CreateMarket
            } else if same_text(url, "/orders") {
                Route::CreateOrder
            } else {
                Route::NotFound
            }
        },
        HttpMethod::Other => Route::NotFound,
    }
}

/// The side named by `s`, in any ASCII case: `bid` or `buy`, `ask` or `sell`.
pub open spec fn side_named(s: Seq<char>) -> Option<Side> {
    let l = ascii_lower_seq(s);
    if l == "bid"@ || l == "buy"@ {
        Some(Side::Bid)
    } else if l == "ask"@ || l == "sell"@ {
        Some(Side::Ask)
    } else {
        None
    }
}

pub fn parse_side(s: &str) -> (r: Option<Side>)
    ensures
        r == side_named(s@),
{
    if eq_lowercase(s, "bid") || eq_lowercase(s, "buy") {
        Some(Side::Bid)
    } else if eq_lowercase(s, "ask") || eq_lowercase(s, "sell") {
        Some(Side::Ask)
    } else {
        None
    }
}

/// The order type named by `s`, in any ASCII case: `limit` or `market`.
pub open spec fn order_type_named(s: Seq<char>) -> Option<OrderType> {
    let l = ascii_lower_seq(s);
    if l == "limit"@ {
        Some(OrderType::Limit)
    } else if l == "market"@ {
        Some(OrderType::Market)
    } else {
        None
    }
}

pub fn parse_order_type(s: &str) -> (r: Option<OrderType>)
    ensures
        r == order_type_named(s@),
{
    if eq_lowercase(s, "limit") {
        Some(OrderType::Limit)
    } else if eq_lowercase(s, "market") {
        Some(OrderType::Market)
    } else {
        None
    }
}

/// The HTTP status of an engine error: not found for an unknown market, bad request for a
/// refused order, internal error for an overflow.
pub open spec fn error_status(e: EngineError) -> u16 {
    match e {
        EngineError::UnknownMarket => 404,
        EngineError::InvalidQuantity => 400,
        EngineError::InvalidPriceForLimit => 400,
        EngineError::PriceNotAllowedForMarket => 400,
        EngineError::ArithmeticOverflow => 500,
    }
}

/// The HTTP status and the message of an engine error.
pub fn map_engine_error(err: EngineError) -> (r: (u16, &'static str))
    ensures
        r.0 == error_status(err),
        r.1@ == error_text(err),
{
    let status: u16 = match err {
        EngineError::UnknownMarket => 404,
        EngineError::InvalidQuantity | EngineError::InvalidPriceForLimit
        | EngineError::PriceNotAllowedForMarket => 400,
        EngineError::ArithmeticOverflow => 500,
    };
    (status, err.message())
}

/// The order request of the API: a market order is immediate-or-cancel, a limit order good
/// till cancelled.
pub fn order_request(
    market: MarketId,
    user_id: u64,
    side: Side,
    order_type: OrderType,
    price: Option<u64>,
    qty: u64,
) -> (r: OrderRequest)
    ensures
        r.market == market,
        r.user_id == user_id,
        r.side == side,
        r.order_type == order_type,
        r.price == match price {
            Some(p) => Some(Price::spec_from(p)),
            None => None::<Price>,
        },
        r.qty == Quantity::spec_from(qty),
        r.time_in_force == Some(
            match order_type {
                OrderType::Market => TimeInForce::Ioc,
                OrderType::Limit => TimeInForce::Gtc,
            },
        ),
{
    let price = match price {
        Some(p) => Some(Price::from_raw(p)),
        None => None,
    };
    let time_in_force = match order_type {
        OrderType::Market => TimeInForce::Ioc,
        OrderType::Limit => TimeInForce::Gtc,
    };
    OrderRequest {
        market,
        user_id,
        side,
        order_type,
        price,
        qty: Quantity::from_raw(qty),
        time_in_force: Some(time_in_force),
    }
}

/// `s` with every leading repetition of `p` removed.
pub open spec fn strip_repeated(s: Seq<char>, p: Seq<char>) -> Seq<char>
    decreases s.len(),
{
    if p.len() > 0 && p.len() <= s.len() && s.take(p.len() as int) == p {
        strip_repeated(s.skip(p.len() as int), p)
    } else {
        s
    }
}

/// The base, the quote and the query of a path `/markets/{base}/{quote}{suffix}[?{query}]`:
/// the query is what follows the first `?`; from what precedes it, leading `/markets/` are
/// removed and `suffix` must end it; what is left must be two non-empty names around one `/`.
pub open spec fn market_path_parts(path: Seq<char>, suffix: Seq<char>) -> Option<
    (Seq<char>, Seq<char>, Option<Seq<char>>),
> {
    let q = first_index_of(path, '?');
    let query = if q < path.len() {
        Some(path.subrange(q + 1, path.len() as int))
    } else {
        None
    };
    let trimmed = strip_repeated(path.take(q), "/markets/"@);
    if suffix.len() <= trimmed.len() && trimmed.subrange(
        trimmed.len() - suffix.len(),
        trimmed.len() as int,
    ) == suffix {
        let inner = trimmed.take(trimmed.len() - suffix.len());
        let k = first_index_of(inner, '/');
        let quote = inner.subrange(k + 1, inner.len() as int);
        if k < inner.len() && first_index_of(quote, '/') == quote.len() && k > 0 && quote.len()
            > 0 {
            Some((inner.take(k), quote, query))
        } else {
            None
        }
    } else {
        None
    }
}

/// Splits a market path (see `market_path_parts`) into slices of `path`.
pub fn parse_market_path<'a>(path: &'a str, suffix: &'a str) -> (r: Option<
    (&'a str, &'a str, Option<&'a str>),
>)
    ensures
        match market_path_parts(path@, suffix@) {
            None => r is None,
            Some(parts) => r matches Some(got) && got.0@ == parts.0 && got.1@ == parts.1 && match got.2 {
                None => parts.2 is None,
                Some(qs) => parts.2 == Some(qs@),
            },
        },
{
    let n = path.unicode_len();
    let q = index_of_char(path, 0, n, '?');
    assert(path@.subrange(0, n as int) =~= path@);
    let query = if q < n {
        Some(path.substring_char(q + 1, n))
    } else {
        None
    };
    let prefix = "/markets/";
    let pl = prefix.unicode_len();
    let ghost route = path@.take(q as int);
    let mut start: usize = 0;
    assert(route.subrange(0, q as int) =~= route);
    while pl > 0 && pl <= q - start && matches_at(path, start, prefix)
        invariant
            n == path@.len(),
            q <= n,
            route == path@.take(q as int),
            pl == prefix@.len(),
            start <= q,
            strip_repeated(route, prefix@) == strip_repeated(
                path@.subrange(start as int, q as int),
                prefix@,
            ),
        decreases q - start,
    {
        proof {
            let sub = path@.subrange(start as int, q as int);
            assert(sub.take(pl as int) =~= path@.subrange(start as int, start + pl));
            assert(sub.skip(pl as int) =~= path@.subrange(start + pl, q as int));
        }
        start = start + pl;
    }
    let ghost trimmed = path@.subrange(start as int, q as int);
    proof {
        if pl > 0 && pl <= q - start {
            assert(trimmed.take(pl as int) =~= path@.subrange(start as int, start + pl));
        }
        assert(strip_repeated(route, prefix@) == trimmed);
    }
    let sl = suffix.unicode_len();
    if sl > q - start {
        return None;
    }
    let inner_end = q - sl;
    if !matches_at(path, inner_end, suffix) {
        proof {
            assert(trimmed.subrange(trimmed.len() - sl, trimmed.len() as int) =~= path@.subrange(
                inner_end as int,
                q as int,
            ));
        }
        return None;
    }
    proof {
        assert(trimmed.subrange(trimmed.len() - sl, trimmed.len() as int) =~= path@.subrange(
            inner_end as int,
            q as int,
        ));
    }
    let ghost inner = trimmed.take(trimmed.len() - sl);
    assert(inner =~= path@.subrange(start as int, inner_end as int));
    let k = index_of_char(path, start, inner_end, '/');
    if k == inner_end {
        return None;
    }
    let ghost quote = inner.subrange(k - start + 1, inner.len() as int);
    assert(quote =~= path@.subrange(k + 1, inner_end as int));
    let m = index_of_char(path, k + 1, inner_end, '/');
    if m < inner_end || k == start || k + 1 == inner_end {
        return None;
    }
    let base = path.substring_char(start, k);
    let quote_str = path.substring_char(k + 1, inner_end);
    assert(base@ =~= inner.take(k - start));
    Some((base, quote_str, query))
}

/// The key-value pairs of a query string: its `&`-separated pieces, each split at its
/// first `=`; pieces without `=` are left out.
pub open spec fn query_pairs(q: Seq<char>) -> Seq<(Seq<char>, Seq<char>)>
    decreases q.len(),
{
    let i = first_index_of(q, '&');
    let piece = q.take(i);
    let e = first_index_of(piece, '=');
    let here = if 0 <= e < piece.len() {
        seq![(piece.take(e), piece.subrange(e + 1, piece.len() as int))]
    } else {
        Seq::empty()
    };
    if 0 <= i < q.len() {
        here + query_pairs(q.subrange(i + 1, q.len() as int))
    } else {
        here
    }
}

pub open spec fn pair_views(v: Seq<(String, String)>) -> Seq<(Seq<char>, Seq<char>)> {
    v.map_values(|p: (String, String)| (p.0@, p.1@))
}

/// The key-value pairs of a query string, in order (see `query_pairs`).
pub fn parse_query(query: &str) -> (r: Vec<(String, String)>)
    ensures
        pair_views(r@) == query_pairs(query@),
{
    let n = query.unicode_len();
    let mut out: Vec<(String, String)> = Vec::new();
    let mut pos: usize = 0;
    let mut done = false;
    assert(query@.subrange(0, n as int) =~= query@);
    while !done
        invariant
            n == query@.len(),
            pos <= n,
            done ==> pair_views(out@) == query_pairs(query@),
            !done ==> pair_views(out@) + query_pairs(query@.subrange(pos as int, n as int))
                == query_pairs(query@),
        decreases n - pos, if done { 0int } else { 1int },
    {
        let ghost rest = query@.subrange(pos as int, n as int);
        let i = index_of_char(query, pos, n, '&');
        let e = index_of_char(query, pos, i, '=');
        let ghost piece = rest.take(i - pos);
        proof {
            lemma_first_index_of(rest, '&');
            assert(piece =~= query@.subrange(pos as int, i as int));
        }
        let ghost before = pair_views(out@);
        if e < i {
            let k = query.substring_char(pos, e).to_owned();
            let v = query.substring_char(e + 1, i).to_owned();
            out.push((k, v));
            proof {
                assert(piece.take(e - pos) =~= query@.subrange(pos as int, e as int));
                assert(piece.subrange(e - pos + 1, piece.len() as int) =~= query@.subrange(
                    e + 1,
                    i as int,
                ));
                assert(pair_views(out@) =~= before + seq![
                    (piece.take(e - pos), piece.subrange(e - pos + 1, piece.len() as int)),
                ]);
            }
        } else {
            assert(pair_views(out@) =~= before);
        }
        if i == n {
            done = true;
            proof {
                let here = query_pairs(rest);
                assert(pair_views(out@) =~= before + here);
            }
        } else {
            proof {
                assert(rest.subrange(i - pos + 1, rest.len() as int) =~= query@.subrange(
                    i + 1,
                    n as int,
                ));
                assert(pair_views(out@) + query_pairs(query@.subrange(i + 1, n as int)) =~= before
                    + query_pairs(rest));
            }
            pos = i + 1;
        }
    }
    out
}

/// The value of the last pair with key `key`, as a map built from the pairs in order holds it.
pub open spec fn last_value(pairs: Seq<(Seq<char>, Seq<char>)>, key: Seq<char>) -> Option<Seq<char>>
    decreases pairs.len(),
{
    if pairs.len() == 0 {
        None
    } else if pairs.last().0 == key {
        Some(pairs.last().1)
    } else {
        last_value(pairs.drop_last(), key)
    }
}

/// The value of `key` among query pairs; a later pair overrides an earlier one.
pub fn query_value<'a>(pairs: &'a Vec<(String, String)>, key: &str) -> (r: Option<&'a String>)
    ensures
        match last_value(pair_views(pairs@), key@) {
            None => r is None,
            Some(v) => r matches Some(s) && s@ == v,
        },
{
    let mut i = pairs.len();
    assert(pairs@.take(i as int) =~= pairs@);
    while i > 0
        invariant
            i <= pairs@.len(),
            last_value(pair_views(pairs@), key@) == last_value(
                pair_views(pairs@.take(i as int)),
                key@,
            ),
        decreases i,
    {
        let ghost pv = pair_views(pairs@.take(i as int));
        proof {
            assert(pv.drop_last() =~= pair_views(pairs@.take(i - 1)));
        }
        if same_text(pairs[i - 1].0.as_str(), key) {
            return Some(&pairs[i - 1].1);
        }
        i = i - 1;
    }
    proof {
        assert(pair_views(pairs@.take(0)) =~= Seq::<(Seq<char>, Seq<char>)>::empty());
    }
    None
}

/// The number that a string of decimal digits denotes.
pub open spec fn digits_value(d: Seq<char>) -> nat
    decreases d.len(),
{
    if d.len() == 0 {
        0
    } else {
        digits_value(d.drop_last()) * 10 + ((d.last() as u32) - ('0' as u32)) as nat
    }
}

pub open spec fn all_digits(d: Seq<char>) -> bool {
    forall|i: int| 0 <= i < d.len() ==> '0' <= #[trigger] d[i] && d[i] <= '9'
}

/// A `usize` written in decimal: an optional `+` and at least one digit, not above the
/// maximum.
pub open spec fn usize_written(s: Seq<char>) -> Option<usize> {
    let d = if s.len() > 0 && s[0] == '+' {
        s.drop_first()
    } else {
        s
    };
    if d.len() > 0 && all_digits(d) && digits_value(d) <= usize::MAX {
        Some(digits_value(d) as usize)
    } else {
        None
    }
}

proof fn lemma_digits_value_grows(d: Seq<char>, i: int)
    requires
        0 <= i <= d.len(),
        all_digits(d),
    ensures
        digits_value(d.take(i)) <= digits_value(d),
    decreases d.len(),
{
    if i < d.len() {
        let shorter = d.drop_last();
        assert(shorter.take(i) =~= d.take(i));
        assert(all_digits(shorter)) by {
            assert forall|j: int| 0 <= j < shorter.len() implies '0' <= #[trigger] shorter[j]
                && shorter[j] <= '9' by {
                assert(shorter[j] == d[j]);
            }
        }
        lemma_digits_value_grows(shorter, i);
        assert('0' <= d[d.len() - 1]);
    } else {
        assert(d.take(i) =~= d);
    }
}

/// Reads a `usize` written in decimal (see `usize_written`).
pub fn parse_usize(s: &str) -> (r: Option<usize>)
    ensures
        r == usize_written(s@),
{
    let n = s.unicode_len();
    let start: usize = if n > 0 && s.get_char(0) == '+' {
        1
    } else {
        0
    };
    let ghost d = s@.subrange(start as int, n as int);
    assert(d =~= if s@.len() > 0 && s@[0] == '+' {
        s@.drop_first()
    } else {
        s@
    });
    if start == n {
        return None;
    }
    let mut value: usize = 0;
    let mut i = start;
    assert(d.take(0) =~= Seq::<char>::empty());
    while i < n
        invariant
            n == s@.len(),
            start <= i <= n,
            d == s@.subrange(start as int, n as int),
            d == if s@.len() > 0 && s@[0] == '+' {
                s@.drop_first()
            } else {
                s@
            },
            d.len() > 0,
            forall|j: int| 0 <= j < i - start ==> '0' <= #[trigger] d[j] && d[j] <= '9',
            value == digits_value(d.take(i - start)),
        decreases n - i,
    {
        let c = s.get_char(i);
        if c < '0' || c > '9' {
            proof {
                assert(d[i - start] == c);
            }
            return None;
        }
        let digit = (c as u32) - ('0' as u32);
        proof {
            assert(d.take(i - start + 1).drop_last() =~= d.take(i - start));
            assert(d.take(i - start + 1).last() == c);
        }
        match value.checked_mul(10) {
            Some(t) => match t.checked_add(digit as usize) {
                Some(v) => {
                    value = v;
                },
                None => {
                    proof {
                        if all_digits(d) {
                            lemma_digits_value_grows(d, i - start + 1);
                        }
                    }
                    return None;
                },
            },
            None => {
                proof {
                    if all_digits(d) {
                        lemma_digits_value_grows(d, i - start + 1);
                    }
                }
                return None;
            },
        }
        i = i + 1;
    }
    assert(d.take(n - start) =~= d);
    Some(value)
}

/// The depth of a snapshot request: the `depth` query parameter when it reads as a
/// `usize`, else five.
pub open spec fn depth_requested(query: Option<Seq<char>>) -> usize {
    match query {
        None => 5,
        Some(q) => match last_value(query_pairs(q), "depth"@) {
            None => 5,
            Some(v) => match usize_written(v) {
                Some(d) => d,
                None => 5,
            },
        },
    }
}

pub fn snapshot_depth(query: Option<&str>) -> (r: usize)
    ensures
        r == depth_requested(
            match query {
                Some(q) => Some(q@),
                None => None,
            },
        ),
{
    match query {
        None => 5,
        Some(q) => {
            let pairs = parse_query(q);
            match query_value(&pairs, "depth") {
                None => 5,
                Some(v) => match parse_usize(v.as_str()) {
                    Some(d) => d,
                    None => 5,
                },
            }
        },
    }
}

} // verus!
