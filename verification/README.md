# exchange

A spot-exchange matching engine written in Verus.

- `src/` is the verified library: decimal amounts (`dec`), order books with
  price-time priority (`orderbook`), balances with fund locking and
  settlement (`engine`), the laws the engine keeps (`laws`), the websocket
  subscription registry (`ws`), request validation and API-key checks
  (`router`), database records (`records`), market-data events (`stream`),
  request handling (`service`) and restoring saved state (`restore`).
- `tests/` runs the library on concrete values.
- `app/` holds the services around it: Redis queues, Postgres, the HTTP
  router and the websocket server.
