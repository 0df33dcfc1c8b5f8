# sudoku

A sudoku solver in three designs, with its logic verified by Verus.

- `src/utils.rs`: `Matrix`, an N x N grid with its rows, columns and boxes.
- `src/sudoku.rs`: `Digits` (the candidates of a cell) and `Puzzle` (the board), with the
  rules of the game as spec functions.
- `src/sequential.rs`: the backtracking solver; it succeeds exactly when the board can be
  completed, and on failure leaves the board as it was.
- `src/parallel.rs`: the choice of the cell to branch on and the work of one branch.
- `src/concurrent/`: cells that find their digit by exchanging messages: the layout of their
  inboxes (`network`), the rivals and suspects of each digit, and the step each cell takes on
  a message.
- `app/`: the program: logging, threads and channels around the library.
