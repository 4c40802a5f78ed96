# Deterministic Exchange Core

A single-threaded matching engine core, written and proved in Verus.

- `src/model.rs`, `src/errors.rs`: orders, trades and errors.
- `src/arena.rs`, `src/levels.rs`, `src/order_map.rs`: the slot arena, the price levels and the
  index by order ID.
- `src/view.rs`: the mathematical model of a book, over which every contract is stated.
- `src/book.rs`, `src/census.rs`: the book itself (adding, cancelling, matching, totals).
- `src/compliance.rs`: the wash-trading check.
- `src/bytes.rs`, `src/fix.rs`: byte order, and the FIX parser.
- `src/rebuild.rs`, `src/snapshot.rs`: binary snapshots, and indexes rebuilt from them.
- `src/sums.rs`: sums that the proofs use.
- `src/laws.rs`: what holds across operations (price-time priority, conservation of volume,
  recovery from snapshots and others).
- `app/`: snapshot files, and errors that can be displayed.

The library trusts nothing beyond Verus and its standard library.
