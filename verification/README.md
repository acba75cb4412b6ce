# astar_grid

An A* search on a 50 x 20 grid, advanced one node at a time, with its
behaviour proved by Verus.

- `src/coordinate.rs`: grid cells, the grid's size, the default endpoints, and
  the list of all cells.
- `src/astar.rs`: the Manhattan heuristic, the neighbours of a cell, the stable
  ordering of the frontier by descending score, and `astar_engine`, which
  expands one node; with the laws these obey.
- `src/state.rs`: `SearchState`, the search as a program keeps it between
  steps (seeding, pace, random endpoints drawn with `rand`, one step).
- `app/main.rs`: the bevy program that draws the grid and runs the search on a
  timer.
