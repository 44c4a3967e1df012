# matching_engine

A limit-order matching engine for a trading game, written in Verus: the order
books, the accounts, the request checks, the game controls and the market-data
relay are proved against their contracts; a small actix server around them
handles the network.

## Layout

- `src/` — the verified library.
  - `config.rs` — symbols, traders, passwords and starting balances, built from
    the configuration file's contents.
  - `orderbook.rs` — one book per symbol: sorted price levels of first-in
    first-out queues, matching with price-time priority, cancelling, volumes.
  - `accounts.rs` — trader accounts.
  - `exchange.rs` — placing and cancelling orders across books and accounts,
    keeping every trader's cash and shares equal to its free balance plus what its
    resting orders set aside.
  - `ledger.rs`, `sums.rs` — weighted sums over book sides and the lemmas that
    track them through matching, resting and cancelling.
  - `feed.rs` — the public market-data messages reproduce the book volumes.
  - `active.rs` — every trader's active orders are exactly its orders resting on
    the books, through every placement, trade and cancel.
  - `game.rs` — starting and ending the game, final scores and standings.
  - `session.rs` — connection credentials, the per-connection rate limit, and
    the answer to each trader message.
  - `relay.rs` — batching of market data for all connections.
  - `messages.rs` — requests, answers and pushed messages.
- `tests/` — tests of the library on concrete values.
- `app/` — the server: configuration file, HTTP routes, WebSocket actors and the
  JSON wire format.

The server reads its configuration from the file named by `CONFIG_PATH`
(`config.json` by default) and listens on port 8080.
