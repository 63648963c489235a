# mnk_games

Verified *m,n,k*-games: two players take turns placing stones on an *m*-by-*n* board until one
has *k* in a row. The library is written in Verus; every function carries a contract that the
verifier checks.

- `src/lines.rs` — what it means to have *k* in a row, along a run of spaces and on a whole
  board, and the proof that the search over rows, columns and diagonals finds a winner exactly
  when some player has *k* in a row.
- `src/board.rs` — `MnkBoard<R, C>`, a grid of `Option<Player>` with placement, lookup and the
  runs of the board.
- `src/games.rs` — `MnkGame<R, C, K>`, the turn-taking game and its status.
- `src/gravity.rs` — `GravityGame`, where stones drop to the bottom of a column.
- `src/mnk.rs` — a board of `Space`s whose win length is part of its type.
- `src/input.rs` — reading a typed move (`row column`).
- `src/variants.rs` — tic-tac-toe, gomoku and Connect Four.
- `app/main.rs` — the command line game.
