# wildfire

A wildfire cellular automaton. `src/` is the verified discrete layer:

- `grid.rs` — the grid of land and water cells, which of them burn, the embers
  of the last step; row-major indexing, bounds, starting and dousing fires.
- `neighborhood.rs` — the cells within a radius of a cell, in scan order, and
  how many of them burn.
- `step.rs` — the per-cell fire rule, one step of the whole grid, where embers
  land.
- `noise.rs` — the integer lattice hash behind the terrain noise.
- `seed.rs` — configured or random seeds.

`app/` is the program around it: window, input and drawing, and the
floating-point layers (oxygen, fuel, moisture, wind, elevation, colours,
noise) with the random rolls that feed the library's step.
