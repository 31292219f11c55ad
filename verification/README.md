# mimi

An agent that compares a sharp bookmaker line (the TxLINE odds stream) with
prediction-market prices on Jupiter Predict and broadcasts the divergence as
a signal feed over HTTP.

## Layout

`src/` is the verified library (Verus):

- `text.rs` — character runs, decimal rendering and integer parsing.
- `venue.rs` — the venue's event/market records, the de-duplicated union of
  its filtered listings, and the priced read of one market side.
- `mapping.rs` — team-name normalization and the catalog matcher: exact
  matches win, partial matches must be unambiguous.
- `feed.rs` — SSE framing of the odds stream, screening of odds records into
  usable books, fixture indexing and the reconnect schedule.
- `detection.rs` — which books are comparable, which team an outcome names,
  and how a tracked comparison is keyed.
- `divergence.rs` — the trade side of a signal.
- `api.rs` — the bounded, de-duplicated signal log and per-match rows.
- `wallet.rs` — the local signer made from a keypair file's text.

`app/` is the program around it: HTTP clients and the SSE stream, JSON
decoding, the axum routes, the clock, environment and files, and the
floating-point pricing (de-vig and edge detection).

`tests/` exercises the library from outside.
