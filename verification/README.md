# rubiks_trainer

A Rubik's cube trainer for cubes of size 2 to 5: the cubie-level cube
model, move notation, sticker views and their validation, scramble
generation, solvers (a 2×2 distance-table solver, a two-phase 3×3 solver,
and reduction-aware 4×4 and 5×5 solvers on top of it), the learning goals
and algorithm library, and the speedcubing trainer (timer, statistics,
drills).

`src/` is the library, written in Verus: every function carries a
contract, and the laws the library keeps (notation round trips, moves
undone by their inverses, a move repeated four times being the identity,
sticker arrays rebuilt into cubes showing the same stickers, coordinate
encodings read back, the cache format read back, averages lying between
the extremes, the solvers' solutions putting every piece of the cube
back home, the 2×2 table giving the least number of moves, IDA*
finding a shortest path under an admissible estimate, ...) are proof functions checked with the code.

`tests/` holds the tests run against the compiled library.

`app/` is a small text-mode front end: it reads key presses, drags and
clock ticks from standard input, keeps the pruning-table cache on disk,
loads lessons from RON files and prints the trainer's state.
