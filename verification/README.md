# cex

The verified core of a small centralized exchange, written in Verus.

- `src/domain.rs`: identifiers, prices, orders, trades, the OHLCV candle and
  its volume-weighted average price, and the error type shown to clients.
- `src/orderbook.rs`: the order book, bids and asks kept by price with a
  first-come-first-served queue at each price, and the matching of incoming
  orders by price-time priority with partial fills.
- `src/market_data.rs`: the candle engine, one candle per symbol and minute.
- `src/intake.rs`: what happens to an incoming order: the time stamp, the
  funds to lock, and the next step after each outcome.
- `src/settlement.rs`: the balance changes that lock funds for an order and
  that settle a trade.
- `app/`: the HTTP server, the PostgreSQL access and the channels between
  the tasks, around the library.
