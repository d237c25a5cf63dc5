# chess_brute

Brute-force search for chess positions on a double-width (16 x 8) board:
the pieces that the board lacks are placed on its empty cells in every way
that makes the material of each side, summed per rank and per file, meet
given targets, with white not in check. The positions found are then checked
with a chess engine for a mate in two on each half of the board.

The library in `src/` is verified with Verus:

- `piece`, `board`, `piece_set`: pieces as flag bytes, the board and its
  FEN, the list of pieces to place; `render` shows boards and pieces.
- `attack`: which pieces a piece attacks; `search`: the search itself;
  `walk`: the order in which it visits the cells and what each branch
  finds, with the proof that it finds every solution and keeps each once;
  `puzzle`: its entry point and the checks on its inputs; `balance`: a
  condition on the material under which the search runs to its end.
- `reply`: reading the engine's analysis (mate length and moves).
- `laws`: properties of the library as a whole (FEN round trips, sorting,
  taking pieces off a list, attacks).
- `text`, `colors`, `placement`: characters and numbers, terminal colours,
  and the facts about placing pieces that the proofs use.

`app/` holds the program: it loads the puzzle, prints it, runs the search,
and talks to the engine.
