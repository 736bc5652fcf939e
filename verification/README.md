# exchange-engine

An in-memory matching engine for many markets (for example `BTC/USDT`), verified with Verus:
limit and market orders, price-time priority, partial fills, order book snapshots, the last
trade price and market slippage estimates.

## Layout

- `src/types.rs`, `src/errors.rs`, `src/bid_price.rs`: prices, quantities, requests, reports
  and errors.
- `src/book_model.rs`: the mathematical model of a book (levels best first, orders oldest
  first) and of matching, resting, snapshots and estimates.
- `src/order_book.rs`: the order book, proved against that model.
- `src/engine.rs`: the multi-market engine; `submit_order_at` is exact for a given time,
  `submit_order` reads the clock (`src/clock.rs`).
- `src/book_laws.rs`, `src/engine_laws.rs`: the laws of the library (price-time priority, an
  uncrossed book stays uncrossed, estimates agree with execution, markets are isolated, ...).
- `src/domain/trading.rs`, `src/ports.rs`, `src/adapters/`, `src/application/`: the
  single-market engine of string-identified limit orders, the catalog port, its in-memory
  adapter and the order-admission use case.
- `src/api.rs`, `src/text.rs`: routing and parsing of the REST API (paths, query strings,
  sides, order types, numbers).
- `app/`: the HTTP server (tiny_http, serde) and the service binaries.
- `tests/`: the scenarios of the library.

## Collections

The books and the market table are held in `Vec`s rather than in the maps a plain Rust
engine would use, because the map operations that matching needs have no specification in
vstd, and Verus refuses a call of a std function that has none ("... is not supported"):

- `BTreeMap::first_key_value`, `BTreeMap::get_mut`, `BTreeMap::entry` (and its `Entry` type):
  finding the best price, updating the level at it in place, and opening a level on first use.
  vstd specifies `new`, `insert`, `get`, `remove`, `contains_key`, `len` and the iterators,
  which would force a level to be taken out, changed and put back at every fill, and the best
  price to be found by walking the keys; this holds for a map keyed by the raw `u64` price
  too.
- `VecDeque::front_mut`: shrinking the oldest order of a level in place. vstd specifies
  `push_back`, `pop_front`, indexing and `len`, which the levels do use.
- `HashMap` and `HashSet` are specified only for keys that satisfy vstd's `obeys_key_model`,
  which vstd grants to the integer types (and boxes of them) alone; a `MarketId` or `String`
  key gets no specification of what `get` or `insert` returns.

So each side of a book is a `Vec` of price levels kept sorted best first, each level a
`VecDeque` of orders oldest first, and the invariants `side_wf`/`book_wf` state what the
sorted map gave for free: one level per price, in price order, none of them empty. The
engine's markets are a `Vec` whose entries are kept distinct by its invariant
(`distinct_markets`), and the catalog's enabled names a `Vec` whose view is the set of its
names, so that a name given twice counts once, as in a set.
