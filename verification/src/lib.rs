//! A cellular automaton engine: Conway's Game of Life on a toroidal grid,
//! double-buffered so that each generation is computed from the previous
//! one without disturbing it.
use vstd::prelude::*;

pub mod bitset;
pub mod double_buffer;
pub mod geometry;
pub mod laws;
pub mod life;
pub mod random;
pub mod singleuni;
pub mod timer;
pub mod universe;
pub mod universe_v2;

pub use crate::double_buffer::{BufferState, DoubleBuffer};
pub use crate::geometry::{coordinate_shift_to, reflect_x, reflect_xy, reflect_y, wrap_coordinates};
pub use crate::random::RandomSourceError;
pub use crate::timer::Timer;
pub use crate::universe::Universe;
pub use crate::universe_v2::{CellState, Universe_v2};

verus! {

} // verus!
