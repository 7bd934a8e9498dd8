# sudoku

A sudoku solver and puzzle generator whose logic is verified with Verus.

A grid holds, for each of the 81 cells, the set of digits still possible there (a bit mask).
The elimination strategies remove candidates; the search branches on the digits of a cell;
the generator solves a random grid and opens cells while the solution stays unique.

## Layout

- `src/bits.rs`, `src/cell.rs`: candidate masks and the facts about their bits.
- `src/grid.rs`: the grid, its units (boxes, columns, rows) and the checks on it.
- `src/model.rs`: completed sudokus, and what it means for a step to keep all of them.
- `src/strategies/`: one file per elimination strategy. Each is proved to keep every
  completed sudoku that fits the grid, to report exactly whether it changed a cell, and to
  change one exactly when its rule applies. Each contract also says exactly what the pass
  makes of the grid: `pass.rs` gives the grid as a function of row and column, and the
  naked single, pair and triple, the pointing line and the box line are each stated as a
  fold over the units and cells in the order the pass visits them; the hidden single, pair,
  triple and quad and the x-wing say what each cell keeps. The y-wing tries the wings of a
  pivot in an order the strategy does not fix; its contract is the fold over the pivots for
  some order that lists each pivot's wings once.
- `src/reduce.rs`: applying the strategies until none changes the grid. Its contract is the
  run: each step is one pass of the first strategy, in the fixed order, that can change the
  grid, and the strategies recorded are exactly those that ran. What it makes of a grid is
  proved to be determined by the grid.
- `src/reduce.rs`: applying the strategies until none changes the grid.
- `src/search.rs`: the search. `Grid::search`, started empty on a well-formed grid, finds no
  grid, one grid or two exactly when no completed sudoku, exactly one, or several fit it.
- `src/unique.rs`: a solved grid stands for exactly one completed sudoku.
- `src/parse.rs`, `src/text.rs`: reading a puzzle line, and the text of cells.
- `src/generate.rs`: puzzle generation: one round, the judging of a drawn puzzle, and the
  rounds up to the allowed number of attempts.
- `src/rng.rs`: the random choices, from the `rand` crate.
- `app/main.rs`: the command line, file reading and printing.
