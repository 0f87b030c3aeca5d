# puzzle_games

Verified game logic for a collection of browser puzzle games: sudoku,
three linked sudoku boards, sudoku on a configurable layout of boards
(with its layout editor), water sort, number match, the 2048 sliding
tiles, a merge game, and a hexagonal sliding puzzle.

- `src/` is the library, verified with Verus: boards, solvers and
  generators, the rules of each game, the state machines behind each
  game's screen (`session`, `play` and `look` modules), saved statistics
  and their texts. Each public function states its result in its
  `ensures`; the laws that relate several functions are public proof
  functions (`lemma_*`).
- `app/` is the browser side: local storage, JSON, the clock, and the
  glue that stores what the sessions report.
- `tests/` runs the library on concrete cases.
