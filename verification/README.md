# automaton_engine

Conway's Game of Life on a toroidal grid, double-buffered: each generation
is computed from the front buffer into the back one, which then becomes the
front. The library is written in Verus; every function of `src/` carries a
contract and is verified.

- `src/life.rs` — what a generation is: ring-wrapped neighbours, the rule,
  the order in which cells are written; the laws that a square grid evolves
  by Conway's rule on the torus.
- `src/universe.rs` — the universe whose cells are bits of a `FixedBitSet`.
- `src/universe_v2.rs` — the universe with one `CellState` per cell.
- `src/double_buffer.rs`, `src/geometry.rs`, `src/timer.rs` — the pieces
  both universes are built from.
- `src/singleuni.rs` — seeding and clearing a whole universe.
- `src/bitset.rs`, `src/random.rs` — the calls into `fixedbitset` and
  `getrandom`, with the contracts they are trusted to meet.
- `app/` — the global universe that a web page drives, and the raw pointers
  handed to JavaScript.
