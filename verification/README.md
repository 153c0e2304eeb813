# chess

A chess engine library verified with Verus, and a UCI front end.

- `src/` — the library: board representation (`chess`, `square`, `color`, `castling_rights`),
  bitboard helpers (`bits`, `utils`, `moves/*`), FEN reading and writing (`fen`, with the
  round-trip proof in `fen_roundtrip`), playing and taking back moves (`apply_undo_move`),
  check detection (`checks`), move generation (`movegeneration`, `movelist`), perft, Zobrist
  hashing, the opening book, UCI notation (`uci`, `uci_roundtrip`) and protocol (`uci_engine`),
  the search (`engine/*`), and the state of a game against the engine (`game`, `display`).
- `app/main.rs` — reads UCI commands from standard input and prints the engine's answers.
- `tests/` — scenario tests.
