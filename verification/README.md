# nasdaq

Nasdaq market-structure toolkit, verified with Verus.

- `src/itch.rs`: TotalView-ITCH 5.0 message parser (`parse`), the 2-byte
  length framing (`Reader`), and `BookBuilder`, which replays a session into
  per-symbol orderbooks and statistics. The wire format, the framing and the
  effect of each message on the books are stated as specifications, and the
  code is proved against them.
- `src/orderbook.rs`: a price-level orderbook (price -> total quantity per
  side) that also tracks orders by id. Order operations keep every level
  equal to the total of the orders resting at it; `orderbook/analytics.rs`
  gives the top of book.
- `src/directory.rs`: the Nasdaq Trader symbol-directory files, their
  pipe-delimited tables (`Table::parse`, `column`, `records`), and the fetch
  decisions: which transport to try first, and after each attempt whether to
  parse, fall back or give up (`Client::after_attempt`).
- `src/text.rs`, `src/keyed.rs`: string helpers and a name-indexed table used
  by the builder.
- `app/main.rs`: the command-line program: the FTP/HTTPS transfers, CSV/JSON
  output, reading session files, and the floating-point figures of the top of
  book.
- `tests/`: tests of the library.
