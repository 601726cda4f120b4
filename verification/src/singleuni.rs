//! Whole-generation resets of a universe: seeding it and clearing it. Each
//! writes the back buffer and swaps it to the front, as a computed
//! generation is.
use vstd::prelude::*;
use crate::life::seed_pattern;
use crate::universe_v2::{CellState, Universe_v2};

verus! {

/// Makes the next generation the seed pattern: alive at every index
/// divisible by two or by seven.
pub fn init(u: &mut Universe_v2)
    requires
        old(u).width_spec() * old(u).height_spec() <= old(u).back().len(),
        old(u).width_spec() * old(u).height_spec() <= u32::MAX,
    ensures
        final(u).loaded_from(
            old(u),
            seed_pattern((old(u).width_spec() * old(u).height_spec()) as nat, CellState::Alive, CellState::Dead),
        ),
{
    let size = (u.get_width() * u.get_height()) as usize;
    let mut states: Vec<CellState> = Vec::with_capacity(size);
    let mut i: usize = 0;
    while i < size
        invariant
            0 <= i <= size,
            states@ == seed_pattern(i as nat, CellState::Alive, CellState::Dead),
        decreases size - i,
    {
        let state = if i % 2 == 0 || i % 7 == 0 {
            CellState::Alive
        } else {
            CellState::Dead
        };
        states.push(state);
        i = i + 1;
        assert(states@ =~= seed_pattern(i as nat, CellState::Alive, CellState::Dead));
    }
    u.load_generation(&states);
}

/// Makes the next generation all dead.
pub fn kill_all(u: &mut Universe_v2)
    requires
        old(u).width_spec() * old(u).height_spec() <= old(u).back().len(),
        old(u).width_spec() * old(u).height_spec() <= u32::MAX,
    ensures
        final(u).loaded_from(
            old(u),
            Seq::new((old(u).width_spec() * old(u).height_spec()) as nat, |k: int| CellState::Dead),
        ),
{
    let size = (u.get_width() * u.get_height()) as usize;
    let mut states: Vec<CellState> = Vec::with_capacity(size);
    let mut i: usize = 0;
    while i < size
        invariant
            0 <= i <= size,
            states@ == Seq::new(i as nat, |k: int| CellState::Dead),
        decreases size - i,
    {
        states.push(CellState::Dead);
        i = i + 1;
        assert(states@ =~= Seq::new(i as nat, |k: int| CellState::Dead));
    }
    u.load_generation(&states);
}

} // verus!
