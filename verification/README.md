# flop_server

The game logic of `flop`, a party poker server, as a verified Verus library,
with the HTTP server around it.

- `src/cards.rs`, `src/cards/`: cards, decks, and the evaluation and ordering
  of poker hands, stated over how many cards of each suit and value a hand
  holds.
- `src/state.rs`, `src/state/`: a room's state: players, seats and those who
  left, the ticker, room codes and the registry of rooms, identifiers, tokens,
  settings and time.
- `src/game.rs`, `src/game/`: the betting rules (`rules.rs` states them as
  functions on plain values, with what each move needs to run), the showdown
  and side pots (`payout.rs`), run-time checks of working limits
  (`checks.rs`) and the proof that every move runs within them (`limits.rs`),
  and what holds across whole moves (`laws.rs`, `pot_laws.rs`).
- `src/models.rs`, `src/app_metrics/`, `src/layer.rs`: what clients and metrics
  see.
- `app/`: the axum server: routes, the background worker of each room, request
  layers and metrics recording.
- `tests/`: the scenarios, run against the compiled library.

Two choices of representation: the room registry keeps its player-to-room
entries and its room codes in vectors whose entries are kept distinct by the
registry's well-formedness invariant, and the seated players are a vector in
seating order; hash maps, hash sets and a double-ended queue would serve the
same purpose, but vectors keep every operation's contract a plain statement
over sequences.

The server does not offer pairing a big screen with a room, nor a transfer of
chips between players: the code those routes called is not part of this
project's sources.
