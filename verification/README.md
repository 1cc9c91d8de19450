# cpptrader

A limit order book and matching engine: symbols, order books with bid, ask, stop and
trailing-stop price levels, and a market manager that accepts, reduces, modifies,
replaces, executes and deletes orders and, when matching is enabled, trades crossing
orders and activates stop orders.

The library is written in Verus; Verus verifies every function in `src/` against its
contract, and that its own code neither panics nor overflows. The market handler's
methods are implemented by the library's users and are not verified here.

- `matching/order.rs`: orders, their factories and their validation rules.
- `matching/order_book.rs`: the book and its model (`BookState`): levels keyed by price,
  each with its volumes and its FIFO queue of order ids; market and trailing-stop prices.
  Every book keeps each level keyed by its price and typed by its collection: that is the
  type invariant of `OrderBook`.
- `matching/consistency.rs`: what it means for a book to agree with the orders it queues.
- `matching/market_manager.rs`: the manager and its model (`MarketState`), the log of the
  notifications handed to the handler (`notices`), and the matching engine. Every step of
  matching is stated as the exact state it leaves: an execution (`executed_at`: the order
  trades at a price, its level gives up the volume, the last and matching price of its side
  become that price), a crossing round (`crossed_at`), a resting order (`rested_at`), a
  reduction (`reduced_at`), a removal (`removed_at`). An incoming order takes from the
  opposing side front by front, each fill from the state the previous one left, in
  price-time order (`fill_run`), until it is filled, the opposing side is empty or beyond
  its limit (`incoming_done`); a limit order's remainder rests unless its id is already
  held, a stop order rests or trades as a market or limit order once triggered. The book
  matching that follows (`settled_run`) alternates crossing rounds with stop activations
  until no crossing round applies, then runs rounds of stop activation (`rounds`, with
  `activation` and trailing-stop recalculation) until one activates nothing. With matching
  off, every operation's state and notifications are stated exactly. Laws that span
  operations: books end uncrossed after matching when no order is all-or-none; matching
  never gives quantity back and always terminates; an incoming fill-or-kill or all-or-none
  order trades its whole quantity or nothing; level volumes split into hidden and visible
  parts.
- `matching/depth.rs`: the volume that the opposing levels within a limit price hold.
- `matching/external.rs`: the calls into `hashbrown`, `BTreeMap` and `String` whose
  contracts are trusted.
- `matching/text.rs`: decimal text of numbers and the UTF-8 text of bytes, used by the
  display texts.

`tests/` runs the library on concrete values.
