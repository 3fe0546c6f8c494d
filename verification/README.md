# siroco

A UCI chess engine whose library is written in Verus: the board, move
generation, FEN reading and writing, evaluation, transposition table, move
ordering tables and tablebase stub carry exact contracts that Verus proves.
For the alpha-beta search the proved contracts cover what it keeps (the
position, the tables, score bounds, a legal move, one report per depth) and
its terminal scores (draws, mates, stalemates), not the value it settles on.

## Layout

- `src/` — the verified library.
  - `bits.rs` — facts about single bits of a `u64`.
  - `text.rs` — characters, whitespace tokens, decimal numbers.
  - `types.rs` — colours, pieces, squares, moves, move lists.
  - `position.rs` — the position, Zobrist hashing, `make_move` / `unmake_move`, draws.
  - `movegen.rs` — attacks, pseudo-legal and legal move generation.
  - `playable.rs` — which positions the generator accepts and what legal moves keep.
  - `perft.rs` — leaf counts of the legal move tree.
  - `fen.rs`, `fen_roundtrip.rs` — FEN reading and writing, and that writing then reading gives the position back.
  - `history.rs`, `tt.rs` — killer and history tables, the transposition table.
  - `syzygy.rs` — the win/draw/loss probe.
  - `eval.rs` — the tapered hand-crafted evaluation.
  - `search.rs` — quiescence, negamax, iterative deepening, time budget.
  - `uci.rs` — what the UCI commands decide.
  - `trace.rs` — board report, tree dump and line trace texts.
- `tests/` — tests of the library.
- `app/` — the UCI command loop, file output for the debugging aids, and the
  threaded search, around the library.
