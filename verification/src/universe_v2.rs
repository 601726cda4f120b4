//! The universe with one `CellState` per cell.
use vstd::prelude::*;
use crate::double_buffer::{BufferState, DoubleBuffer, flipped};
use crate::geometry::{coordinate_shift_to, point, reflect_x, reflect_xy, reflect_y, wrap_coordinates};
use crate::random::{RandomSourceError, draw_random_bytes};
use crate::timer::Timer;
use crate::life::{
    bit, byte_bit_of, byte_count, byte_count_of, cell_index, glider_fits, glider_marks, lemma_mark_none,
    lemma_mark_push, life_rule, listed_marks, lit, live_neighbours, mark_all, neighbour_positions,
    neighbours_fit, neighbours_within, next_state, pulsar_base, pulsar_marks, pulsar_offset, pulsar_point_ok,
    pulsar_target, random_fill, ring_next_u32, ring_prev_u32, seed_pattern, tick_row, tick_rows, ticked,
    visit_writable, zero_bytes, lemma_square_visit, is_torus_neighbour, lemma_index_in_grid,
    lemma_toggle_neighbour_count,
};

verus! {

/// Whether a cell is alive.
#[derive(Clone, Copy, Debug, PartialEq, Eq, Structural)]
pub enum CellState {
    Dead,
    Alive,
}

/// Whether the state is `Alive`.
pub open spec fn is_alive(c: CellState) -> bool {
    c == CellState::Alive
}

/// The cells as live/dead flags.
pub open spec fn alive_flags(cells: Seq<CellState>) -> Seq<bool> {
    cells.map_values(|c: CellState| is_alive(c))
}

/// Two cell sequences with the same flags are the same.
pub proof fn lemma_alive_flags_injective(a: Seq<CellState>, b: Seq<CellState>)
    requires
        alive_flags(a) == alive_flags(b),
    ensures
        a == b,
{
    assert(a.len() == alive_flags(a).len());
    assert(b.len() == alive_flags(b).len());
    assert forall|k: int| 0 <= k < a.len() implies a[k] == b[k] by {
        assert(alive_flags(a)[k] == is_alive(a[k]));
        assert(alive_flags(b)[k] == is_alive(b[k]));
        if a[k] is Alive {
            assert(b[k] is Alive);
        } else {
            assert(b[k] is Dead);
        }
    }
    assert(a =~= b);
}

/// Setting one cell sets its flag.
pub proof fn lemma_alive_flags_update(cells: Seq<CellState>, k: int, c: CellState)
    requires
        0 <= k < cells.len(),
    ensures
        alive_flags(cells.update(k, c)) == alive_flags(cells).update(k, is_alive(c)),
{
    assert(alive_flags(cells.update(k, c)) =~= alive_flags(cells).update(k, is_alive(c)));
}

/// A grid of `width` by `height` cells on a torus, with a front buffer that is
/// read and a back buffer into which the next generation is written.
#[allow(non_camel_case_types)]
pub struct Universe_v2 {
    width: u32,
    height: u32,
    cells: DoubleBuffer<Vec<CellState>>,
    byte_store: Vec<u8>,
}

impl Universe_v2 {
    /// The number of columns.
    pub closed spec fn width_spec(&self) -> int {
        self.width as int
    }

    /// The number of rows.
    pub closed spec fn height_spec(&self) -> int {
        self.height as int
    }

    /// The cells that are read: the current generation.
    pub closed spec fn front(&self) -> Seq<CellState> {
        self.cells.front()@
    }

    /// The cells into which the next generation is written.
    pub closed spec fn back(&self) -> Seq<CellState> {
        self.cells.back()@
    }

    /// Which buffer is the front.
    pub closed spec fn active(&self) -> BufferState {
        self.cells.active()
    }

    /// The scratch bytes that random states are drawn into.
    pub closed spec fn bytes(&self) -> Seq<u8> {
        self.byte_store@
    }

    /// The grid's size fits a `u32`, and there is one scratch byte for every
    /// eight cells.
    pub open spec fn wf(&self) -> bool {
        &&& self.width_spec() * self.height_spec() <= u32::MAX
        &&& self.bytes().len() == byte_count(self.width_spec() * self.height_spec())
    }

    /// A 128 by 128 universe whose cells are alive at every index divisible
    /// by two or by seven, in both buffers, with zeroed scratch bytes.
    pub fn new() -> (u: Universe_v2)
        ensures
            u.width_spec() == 128,
            u.height_spec() == 128,
            u.front() == seed_pattern(16384, CellState::Alive, CellState::Dead),
            u.back() == seed_pattern(16384, CellState::Alive, CellState::Dead),
            u.active() == BufferState::Primary,
            u.bytes() == Seq::new(2048, |k: int| 0u8),
            u.wf(),
    {
        let width: u32 = 128;
        let height: u32 = 128;
        let size = (width * height) as usize;
        let mut cells_primary: Vec<CellState> = Vec::with_capacity(size);
        let mut cells_secondary: Vec<CellState> = Vec::with_capacity(size);
        let mut i: usize = 0;
        while i < size
            invariant
                0 <= i <= size,
                size == 16384,
                cells_primary@ == seed_pattern(i as nat, CellState::Alive, CellState::Dead),
                cells_secondary@ == seed_pattern(i as nat, CellState::Alive, CellState::Dead),
            decreases size - i,
        {
            let tpm = if i % 2 == 0 || i % 7 == 0 {
                CellState::Alive
            } else {
                CellState::Dead
            };
            cells_primary.push(tpm);
            cells_secondary.push(tpm);
            i = i + 1;
            assert(cells_primary@ =~= seed_pattern(i as nat, CellState::Alive, CellState::Dead));
            assert(cells_secondary@ =~= seed_pattern(i as nat, CellState::Alive, CellState::Dead));
        }
        let szb = byte_count_of(size);
        let byte_store = zero_bytes(szb);
        Universe_v2 { width, height, cells: DoubleBuffer::new(cells_primary, cells_secondary), byte_store }
    }

    /// Gives the universe new dimensions: both buffers become empty vectors,
    /// with room reserved for `width * height` cells, and the scratch bytes
    /// are zeroed.
    pub fn set_dimensions(&mut self, width: u32, height: u32)
        requires
            width * height <= u32::MAX,
        ensures
            final(self).width_spec() == width,
            final(self).height_spec() == height,
            final(self).front() == Seq::<CellState>::empty(),
            final(self).back() == Seq::<CellState>::empty(),
            final(self).active() == BufferState::Primary,
            final(self).bytes() == Seq::new(byte_count(width * height) as nat, |k: int| 0u8),
            final(self).wf(),
    {
        self.width = width;
        self.height = height;
        let size = (width * height) as usize;
        let szb = byte_count_of(size);
        self.byte_store = zero_bytes(szb);
        self.cells = DoubleBuffer::new(Vec::with_capacity(size), Vec::with_capacity(size));
    }

    /// This universe after its scratch bytes became `bytes` and were spread
    /// over the first `width * height` cells of the back buffer, from `old`:
    /// when that count is a multiple of eight the filled buffer is swapped
    /// to the front; otherwise the buffers are swapped twice and the filled
    /// one stays at the back.
    pub open spec fn randomized_from(&self, old: &Self, bytes: Seq<u8>) -> bool {
        let size = old.width_spec() * old.height_spec();
        let filled = random_fill(old.back(), bytes, size, CellState::Alive, CellState::Dead);
        &&& self.width_spec() == old.width_spec()
        &&& self.height_spec() == old.height_spec()
        &&& self.bytes() == bytes
        &&& if size % 8 == 0 {
            &&& self.front() == filled
            &&& self.back() == old.front()
            &&& self.active() == flipped(old.active())
        } else {
            &&& self.front() == old.front()
            &&& self.back() == filled
            &&& self.active() == old.active()
        }
    }

    /// Takes `bytes` as the scratch bytes and spreads their bits over the
    /// cells, cell `k` alive when bit `k % 8` of byte `k / 8` is set.
    pub fn apply_random_bytes(&mut self, bytes: Vec<u8>)
        requires
            old(self).wf(),
            bytes.len() == old(self).bytes().len(),
            old(self).width_spec() * old(self).height_spec() <= old(self).back().len(),
        ensures
            final(self).randomized_from(old(self), bytes@),
            final(self).wf(),
    {
        self.byte_store = bytes;
        let size = (self.width * self.height) as usize;
        let n = self.byte_store.len();
        let ghost filled = random_fill(old(self).back(), bytes@, size as int, CellState::Alive, CellState::Dead);
        let ghost swapped: bool = false;
        let mut i: usize = 0;
        while i < n
            invariant
                0 <= i <= n,
                n == byte_count(size as int),
                size == old(self).width_spec() * old(self).height_spec(),
                size <= old(self).back().len(),
                size <= u32::MAX,
                self.width_spec() == old(self).width_spec(),
                self.height_spec() == old(self).height_spec(),
                self.bytes() == bytes@,
                self.bytes().len() == n,
                filled == random_fill(old(self).back(), bytes@, size as int, CellState::Alive, CellState::Dead),
                swapped == (8 * i > size),
                !swapped ==> {
                    &&& self.front() == old(self).front()
                    &&& self.active() == old(self).active()
                    &&& self.back().len() == old(self).back().len()
                    &&& forall|k: int|
                        0 <= k < old(self).back().len() ==> #[trigger] self.back()[k] == if k < 8 * i {
                            filled[k]
                        } else {
                            old(self).back()[k]
                        }
                },
                swapped ==> {
                    &&& self.back() == old(self).front()
                    &&& self.front() == filled
                    &&& self.active() == flipped(old(self).active())
                },
            decreases n - i,
        {
            let mut j: usize = 0;
            while j < 8
                invariant_except_break
                    self.front() == old(self).front(),
                    self.active() == old(self).active(),
                    self.back().len() == old(self).back().len(),
                    forall|k: int|
                        0 <= k < old(self).back().len() ==> #[trigger] self.back()[k] == if k < 8 * i + j {
                            filled[k]
                        } else {
                            old(self).back()[k]
                        },
                invariant
                    0 <= i < n,
                    0 <= j <= 8,
                    8 * i + j <= size,
                    n == byte_count(size as int),
                    size == old(self).width_spec() * old(self).height_spec(),
                    size <= old(self).back().len(),
                    size <= u32::MAX,
                    self.width_spec() == old(self).width_spec(),
                    self.height_spec() == old(self).height_spec(),
                    self.bytes() == bytes@,
                    self.bytes().len() == n,
                    filled == random_fill(old(self).back(), bytes@, size as int, CellState::Alive, CellState::Dead),
                ensures
                    8 * i + 8 <= size ==> {
                        &&& self.front() == old(self).front()
                        &&& self.active() == old(self).active()
                        &&& self.back().len() == old(self).back().len()
                        &&& forall|k: int|
                            0 <= k < old(self).back().len() ==> #[trigger] self.back()[k] == if k < 8 * i + 8 {
                                filled[k]
                            } else {
                                old(self).back()[k]
                            }
                    },
                    8 * i + 8 > size ==> {
                        &&& self.back() == old(self).front()
                        &&& self.front() == filled
                        &&& self.active() == flipped(old(self).active())
                    },
                    self.width_spec() == old(self).width_spec(),
                    self.height_spec() == old(self).height_spec(),
                    self.bytes() == bytes@,
                decreases 8 - j,
            {
                let k = i * 8 + j;
                if k >= size {
                    proof {
                        assert(self.back() =~= filled);
                    }
                    self.cells.finish_write();
                    break;
                }
                let bit_set = byte_bit_of(self.byte_store[i], j as u32);
                let state = if bit_set {
                    CellState::Alive
                } else {
                    CellState::Dead
                };
                proof {
                    assert(k as int / 8 == i as int);
                    assert(k as int % 8 == j as int);
                    assert(filled[k as int] == state);
                }
                self.cells.write().set(k, state);
                j = j + 1;
            }
            proof {
                swapped = 8 * (i + 1) > size;
            }
            i = i + 1;
        }
        proof {
            if !swapped {
                assert(8 * n >= size);
                assert(self.back() =~= filled);
            }
        }
        self.cells.finish_write();
    }

    /// Draws random scratch bytes from the operating system and spreads them
    /// over the cells as `apply_random_bytes` does. When the source fails the
    /// universe is left as it was and the failure is returned.
    pub fn randomize_state(&mut self) -> (r: Result<(), RandomSourceError>)
        requires
            old(self).wf(),
            old(self).width_spec() * old(self).height_spec() <= old(self).back().len(),
        ensures
            r is Ok ==> final(self).randomized_from(old(self), final(self).bytes()) && final(self).bytes().len()
                == old(self).bytes().len(),
            r is Err ==> *final(self) == *old(self),
            old(self).bytes().len() == 0 ==> r is Ok,
            final(self).wf(),
    {
        let mut bytes = self.byte_store.clone();
        match draw_random_bytes(&mut bytes) {
            Ok(()) => {
                self.apply_random_bytes(bytes);
                Ok(())
            },
            Err(e) => Err(e),
        }
    }

    /// This universe after `states` were written over the first
    /// `width * height` cells of the back buffer of `old` and the buffers
    /// were swapped.
    pub open spec fn loaded_from(&self, old: &Self, states: Seq<CellState>) -> bool {
        &&& self.front() == overwritten(old.back(), states, old.width_spec() * old.height_spec())
        &&& self.back() == old.front()
        &&& self.active() == flipped(old.active())
        &&& self.width_spec() == old.width_spec()
        &&& self.height_spec() == old.height_spec()
        &&& self.bytes() == old.bytes()
    }

    /// Writes `states` over the first `width * height` cells of the back
    /// buffer and swaps it to the front: the next generation is given rather
    /// than computed.
    pub fn load_generation(&mut self, states: &Vec<CellState>)
        requires
            states.len() == old(self).width_spec() * old(self).height_spec(),
            states.len() <= old(self).back().len(),
            old(self).width_spec() * old(self).height_spec() <= u32::MAX,
        ensures
            final(self).loaded_from(old(self), states@),
    {
        let size = (self.width * self.height) as usize;
        let mut i: usize = 0;
        while i < size
            invariant
                0 <= i <= size,
                size == old(self).width_spec() * old(self).height_spec(),
                size <= old(self).back().len(),
                states.len() == size,
                self.front() == old(self).front(),
                self.active() == old(self).active(),
                self.width_spec() == old(self).width_spec(),
                self.height_spec() == old(self).height_spec(),
                self.bytes() == old(self).bytes(),
                self.back() == overwritten(old(self).back(), states@, i as int),
            decreases size - i,
        {
            self.cells.write().set(i, states[i]);
            i = i + 1;
            assert(self.back() =~= overwritten(old(self).back(), states@, i as int));
        }
        self.cells.finish_write();
    }

    /// The row-major index of (`row`, `column`).
    pub fn get_index(&self, row: u32, column: u32) -> (r: usize)
        requires
            cell_index(self.width_spec(), row as int, column as int) <= u32::MAX,
        ensures
            r == cell_index(self.width_spec(), row as int, column as int),
    {
        (row * self.width + column) as usize
    }

    /// The index of the point (x, y) = (`coords.0`, `coords.1`): column x of
    /// row y.
    pub fn get_index_tu(&self, coords: (u32, u32)) -> (r: usize)
        requires
            cell_index(self.width_spec(), coords.1 as int, coords.0 as int) <= u32::MAX,
        ensures
            r == cell_index(self.width_spec(), coords.1 as int, coords.0 as int),
    {
        self.get_index(coords.1, coords.0)
    }

    /// The state of the cell at (`row`, `column`).
    pub fn get_enabled(&self, row: u32, column: u32) -> (r: CellState)
        requires
            cell_index(self.width_spec(), row as int, column as int) <= u32::MAX,
            cell_index(self.width_spec(), row as int, column as int) < self.front().len(),
        ensures
            r == self.front()[cell_index(self.width_spec(), row as int, column as int)],
    {
        let idx = self.get_index(row, column);
        self.cells.read()[idx]
    }

    /// The number of live cells among the eight neighbours of (`row`,
    /// `column`), the edges of the grid wrapping around.
    pub fn get_live_neighbour_count(&self, row: u32, column: u32) -> (r: u8)
        requires
            neighbours_fit(self.width_spec(), self.height_spec(), row as int, column as int),
            neighbours_within(
                self.width_spec(),
                self.height_spec(),
                row as int,
                column as int,
                self.front().len() as int,
            ),
        ensures
            r == live_neighbours(
                alive_flags(self.front()),
                self.width_spec(),
                self.height_spec(),
                row as int,
                column as int,
            ),
    {
        let ghost w = self.width_spec();
        let ghost h = self.height_spec();
        let ghost p = neighbour_positions(w, h, row as int, column as int);
        let ghost flags = alive_flags(self.front());
        let old_cell = self.cells.read();
        let minus_one_row = ring_prev_u32(row, self.height);
        let minus_one_column = ring_prev_u32(column, self.width);
        let plus_one_row = ring_next_u32(row, self.height);
        let plus_one_column = ring_next_u32(column, self.width);
        assert(p[0] == (minus_one_row as int, column as int));
        assert(p[1] == (minus_one_row as int, minus_one_column as int));
        assert(p[2] == (minus_one_row as int, plus_one_column as int));
        assert(p[3] == (plus_one_row as int, column as int));
        assert(p[4] == (plus_one_row as int, minus_one_column as int));
        assert(p[5] == (plus_one_row as int, plus_one_column as int));
        assert(p[6] == (row as int, minus_one_column as int));
        assert(p[7] == (row as int, plus_one_column as int));
        assert(cell_index(w, p[0].0, p[0].1) <= u32::MAX);
        assert(cell_index(w, p[1].0, p[1].1) <= u32::MAX);
        assert(cell_index(w, p[2].0, p[2].1) <= u32::MAX);
        assert(cell_index(w, p[3].0, p[3].1) <= u32::MAX);
        assert(cell_index(w, p[4].0, p[4].1) <= u32::MAX);
        assert(cell_index(w, p[5].0, p[5].1) <= u32::MAX);
        assert(cell_index(w, p[6].0, p[6].1) <= u32::MAX);
        assert(cell_index(w, p[7].0, p[7].1) <= u32::MAX);

        let mut count: u8 = 0;
        // upper checks
        count = count + count_at(old_cell, self.get_index(minus_one_row, column));
        count = count + count_at(old_cell, self.get_index(minus_one_row, minus_one_column));
        count = count + count_at(old_cell, self.get_index(minus_one_row, plus_one_column));
        // bottom checks
        count = count + count_at(old_cell, self.get_index(plus_one_row, column));
        count = count + count_at(old_cell, self.get_index(plus_one_row, minus_one_column));
        count = count + count_at(old_cell, self.get_index(plus_one_row, plus_one_column));
        // side checks
        count = count + count_at(old_cell, self.get_index(row, minus_one_column));
        count = count + count_at(old_cell, self.get_index(row, plus_one_column));
        count
    }

    /// Computing a generation reads and writes only within the buffers, and
    /// computes only indices that fit in a `u32`.
    pub open spec fn can_tick(&self) -> bool {
        let w = self.width_spec();
        let h = self.height_spec();
        forall|i: int, j: int|
            0 <= i < w && 0 <= j < h ==> {
                &&& #[trigger] visit_writable(w, h, i, j, self.back().len() as int)
                &&& neighbours_within(w, h, i, j, self.front().len() as int)
                &&& cell_index(w, i, j) < self.front().len()
            }
    }

    /// A square grid whose buffers both hold every cell can always compute
    /// a generation.
    pub proof fn lemma_square_can_tick(&self)
        requires
            self.width_spec() == self.height_spec(),
            self.front().len() == self.width_spec() * self.height_spec(),
            self.back().len() == self.width_spec() * self.height_spec(),
            self.width_spec() * self.height_spec() <= u32::MAX,
        ensures
            self.can_tick(),
    {
        let n = self.width_spec();
        assert forall|i: int, j: int| 0 <= i < n && 0 <= j < n implies {
            &&& #[trigger] visit_writable(n, n, i, j, self.back().len() as int)
            &&& neighbours_within(n, n, i, j, self.front().len() as int)
            &&& cell_index(n, i, j) < self.front().len()
        } by {
            lemma_square_visit(n, i, j);
        }
    }

    /// Computes the next generation into the back buffer and makes it the
    /// front: for each `i` below the width and `j` below the height, in that
    /// order, the cell at index `i * width + j` is given the next state of
    /// the cell (`i`, `j`), the first coordinate counting rows.
    pub fn tick_life(&mut self)
        requires
            old(self).can_tick(),
        ensures
            alive_flags(final(self).front()) == ticked(
                alive_flags(old(self).front()),
                alive_flags(old(self).back()),
                old(self).width_spec(),
                old(self).height_spec(),
            ),
            final(self).back() == old(self).front(),
            final(self).active() == flipped(old(self).active()),
            final(self).width_spec() == old(self).width_spec(),
            final(self).height_spec() == old(self).height_spec(),
            final(self).bytes() == old(self).bytes(),
    {
        let _timer = Timer::new("Universe::tick_life");
        let w = self.width;
        let h = self.height;
        let ghost front = alive_flags(self.front());
        let ghost back0 = alive_flags(self.back());
        let mut i: u32 = 0;
        while i < w
            invariant
                0 <= i <= w,
                w == self.width_spec(),
                h == self.height_spec(),
                w == old(self).width_spec(),
                h == old(self).height_spec(),
                self.front() == old(self).front(),
                front == alive_flags(old(self).front()),
                back0 == alive_flags(old(self).back()),
                self.active() == old(self).active(),
                self.bytes() == old(self).bytes(),
                self.back().len() == old(self).back().len(),
                alive_flags(self.back()) == tick_rows(front, back0, w as int, h as int, i as nat),
                old(self).can_tick(),
            decreases w - i,
        {
            let ghost row_start = alive_flags(self.back());
            let mut j: u32 = 0;
            while j < h
                invariant
                    0 <= i < w,
                    0 <= j <= h,
                    w == self.width_spec(),
                    h == self.height_spec(),
                    w == old(self).width_spec(),
                    h == old(self).height_spec(),
                    self.front() == old(self).front(),
                    front == alive_flags(old(self).front()),
                    back0 == alive_flags(old(self).back()),
                    self.active() == old(self).active(),
                    self.bytes() == old(self).bytes(),
                    self.back().len() == old(self).back().len(),
                    row_start == tick_rows(front, back0, w as int, h as int, i as nat),
                    alive_flags(self.back()) == tick_row(front, row_start, w as int, h as int, i as int, j as nat),
                old(self).can_tick(),
                decreases h - j,
            {
                assert(visit_writable(w as int, h as int, i as int, j as int, old(self).back().len() as int));
                let live_neighbour = self.get_live_neighbour_count(i, j);
                let enabled = self.get_enabled(i, j);
                let current_index = self.get_index(i, j);
                let next = next_cell(enabled, live_neighbour);
                proof {
                    assert(front[current_index as int] == is_alive(enabled));
                    assert(next_state(front, w as int, h as int, i as int, j as int) == is_alive(next));
                    lemma_alive_flags_update(self.back(), current_index as int, next);
                }
                self.cells.write().set(current_index, next);
                j = j + 1;
            }
            i = i + 1;
        }
        self.cells.finish_write();
    }

    /// Everything but the front buffer is as in `other`.
    pub open spec fn same_but_front(&self, other: &Self) -> bool {
        &&& self.width_spec() == other.width_spec()
        &&& self.height_spec() == other.height_spec()
        &&& self.back() == other.back()
        &&& self.active() == other.active()
        &&& self.bytes() == other.bytes()
    }

    fn set_front_cell(&mut self, idx: usize, state: CellState)
        requires
            idx < old(self).front().len(),
        ensures
            final(self).front() == old(self).front().update(idx as int, state),
            final(self).same_but_front(old(self)),
    {
        self.cells.read_mut().set(idx, state);
    }

    /// Flips the cell at (`row`, `column`) between alive and dead.
    pub fn toggle(&mut self, row: u32, column: u32)
        requires
            cell_index(old(self).width_spec(), row as int, column as int) <= u32::MAX,
            cell_index(old(self).width_spec(), row as int, column as int) < old(self).front().len(),
        ensures
            ({
                let k = cell_index(old(self).width_spec(), row as int, column as int);
                final(self).front() == old(self).front().update(k, toggled(old(self).front()[k]))
            }),
            final(self).same_but_front(old(self)),
    {
        let idx = self.get_index(row, column);
        let old_state = self.cells.read()[idx];
        let new_state = match old_state {
            CellState::Alive => CellState::Dead,
            CellState::Dead => CellState::Alive,
        };
        self.set_front_cell(idx, new_state);
    }

    /// Brings each listed (row, column) cell to life.
    pub fn set_cells(&mut self, cells: &[(u32, u32)])
        requires
            forall|m: int|
                0 <= m < cells.len() ==> {
                    &&& cell_index(old(self).width_spec(), #[trigger] cells[m].0 as int, cells[m].1 as int) <= u32::MAX
                    &&& cell_index(old(self).width_spec(), cells[m].0 as int, cells[m].1 as int) < old(self).front().len()
                },
        ensures
            final(self).front() == mark_all(
                old(self).front(),
                listed_marks(old(self).width_spec(), cells@),
                CellState::Alive,
            ),
            final(self).same_but_front(old(self)),
    {
        let ghost marks = listed_marks(self.width_spec(), cells@);
        proof {
            lemma_mark_none(self.front(), CellState::Alive);
            assert(marks.take(0) =~= Seq::<int>::empty());
        }
        let mut m: usize = 0;
        while m < cells.len()
            invariant
                0 <= m <= cells.len(),
                marks == listed_marks(old(self).width_spec(), cells@),
                self.same_but_front(old(self)),
                self.front() == mark_all(old(self).front(), marks.take(m as int), CellState::Alive),
                forall|m: int|
                    0 <= m < cells.len() ==> {
                        &&& cell_index(old(self).width_spec(), #[trigger] cells[m].0 as int, cells[m].1 as int) <= u32::MAX
                        &&& cell_index(old(self).width_spec(), cells[m].0 as int, cells[m].1 as int) < old(self).front().len()
                    },
            decreases cells.len() - m,
        {
            let (row, col) = cells[m];
            assert(cell_index(old(self).width_spec(), cells[m as int].0 as int, cells[m as int].1 as int) <= u32::MAX);
            let idx = self.get_index(row, col);
            proof {
                lemma_mark_push(old(self).front(), marks.take(m as int), CellState::Alive, idx as int);
                assert(marks.take(m as int).push(idx as int) =~= marks.take(m + 1));
            }
            self.set_front_cell(idx, CellState::Alive);
            m = m + 1;
        }
        proof {
            assert(marks.take(cells.len() as int) =~= marks);
        }
    }

    /// Brings to life the five cells of a glider around (`row`, `col`), the
    /// edges wrapping.
    pub fn insert_glider(&mut self, row: u32, col: u32)
        requires
            glider_fits(old(self).width_spec(), old(self).height_spec(), row as int, col as int),
            forall|m: int|
                0 <= m < 5 ==> {
                    &&& #[trigger] glider_marks(old(self).width_spec(), old(self).height_spec(), row as int, col as int)[m]
                        <= u32::MAX
                    &&& glider_marks(old(self).width_spec(), old(self).height_spec(), row as int, col as int)[m]
                        < old(self).front().len()
                },
        ensures
            final(self).front() == mark_all(
                old(self).front(),
                glider_marks(old(self).width_spec(), old(self).height_spec(), row as int, col as int),
                CellState::Alive,
            ),
            final(self).same_but_front(old(self)),
    {
        let ghost marks = glider_marks(self.width_spec(), self.height_spec(), row as int, col as int);
        let ghost f0 = self.front();
        let minus_one_row = ring_prev_u32(row, self.height);
        let minus_one_column = ring_prev_u32(col, self.width);
        let plus_one_row = ring_next_u32(row, self.height);
        let plus_one_column = ring_next_u32(col, self.width);
        assert(marks[0] <= u32::MAX && marks[1] <= u32::MAX && marks[2] <= u32::MAX);
        assert(marks[3] <= u32::MAX && marks[4] <= u32::MAX);

        let left_index = self.get_index(row, minus_one_column);
        let bottom_index = self.get_index(plus_one_row, col);
        let right_up_index = self.get_index(row, plus_one_column);
        let right_middle_index = self.get_index(plus_one_row, plus_one_column);
        let right_bottom_index = self.get_index(minus_one_row, plus_one_column);
        proof {
            lemma_mark_none(f0, CellState::Alive);
            assert(marks =~= seq![].push(marks[0]).push(marks[1]).push(marks[2]).push(marks[3]).push(marks[4]));
            lemma_mark_push(f0, seq![], CellState::Alive, marks[0]);
            lemma_mark_push(f0, seq![].push(marks[0]), CellState::Alive, marks[1]);
            lemma_mark_push(f0, seq![].push(marks[0]).push(marks[1]), CellState::Alive, marks[2]);
            lemma_mark_push(f0, seq![].push(marks[0]).push(marks[1]).push(marks[2]), CellState::Alive, marks[3]);
            lemma_mark_push(
                f0,
                seq![].push(marks[0]).push(marks[1]).push(marks[2]).push(marks[3]),
                CellState::Alive,
                marks[4],
            );
        }
        // left
        self.set_front_cell(left_index, CellState::Alive);
        // bottom
        self.set_front_cell(bottom_index, CellState::Alive);
        // right
        self.set_front_cell(right_up_index, CellState::Alive);
        self.set_front_cell(right_middle_index, CellState::Alive);
        self.set_front_cell(right_bottom_index, CellState::Alive);
    }

    /// Every point of a pulsar centred at (`row`, `col`) can be marked, and
    /// its cell lies within the front buffer.
    pub open spec fn can_insert_pulsar(&self, row: u32, col: u32) -> bool {
        let w = self.width_spec() as u32;
        let h = self.height_spec() as u32;
        forall|k: int|
            0 <= k < 48 ==> {
                &&& #[trigger] pulsar_point_ok(pulsar_offset(k), row, col, w, h)
                &&& pulsar_target(pulsar_offset(k), row, col, w, h) < self.front().len()
            }
    }

    /// Brings to life the forty-eight cells of a pulsar centred at (`row`,
    /// `col`): a quarter of twelve cells, as (x, y) offsets, and its mirror
    /// images across each axis and through the centre, each moved to the
    /// centre and wrapped onto the torus.
    pub fn insert_pulsar(&mut self, row: u32, col: u32)
        requires
            old(self).can_insert_pulsar(row, col),
        ensures
            final(self).front() == mark_all(
                old(self).front(),
                pulsar_marks(row, col, old(self).width_spec() as u32, old(self).height_spec() as u32),
                CellState::Alive,
            ),
            final(self).same_but_front(old(self)),
    {
        let coords: [(i32, i32); 12] = [
            (1, 2), (1, 3), (1, 4),
            (2, 6), (3, 6), (4, 6),
            (6, 4), (6, 3), (6, 2),
            (2, 1), (3, 1), (4, 1),
        ];
        assert(coords@ =~= pulsar_base());
        let w = self.width;
        let h = self.height;
        let ghost marks = pulsar_marks(row, col, w, h);
        proof {
            lemma_mark_none(self.front(), CellState::Alive);
            assert(marks.take(0) =~= Seq::<int>::empty());
        }
        let mut k: usize = 0;
        while k < 48
            invariant
                0 <= k <= 48,
                coords@ == pulsar_base(),
                w == old(self).width_spec(),
                h == old(self).height_spec(),
                marks == pulsar_marks(row, col, w, h),
                self.same_but_front(old(self)),
                self.front() == mark_all(old(self).front(), marks.take(k as int), CellState::Alive),
                old(self).can_insert_pulsar(row, col),
            decreases 48 - k,
        {
            assert(pulsar_point_ok(
                pulsar_offset(k as int),
                row,
                col,
                old(self).width_spec() as u32,
                old(self).height_spec() as u32,
            ));
            let t = if k < 12 {
                coords[k]
            } else if k < 24 {
                reflect_x(coords[k - 12])
            } else if k < 36 {
                reflect_y(coords[k - 24])
            } else {
                reflect_xy(coords[k - 36])
            };
            assert(point(t) == pulsar_offset(k as int));
            let shifted = coordinate_shift_to(t, (col, row));
            let wrapped = wrap_coordinates(shifted, (w, h));
            let r = self.get_index_tu(wrapped);
            proof {
                lemma_mark_push(old(self).front(), marks.take(k as int), CellState::Alive, r as int);
                assert(marks.take(k as int).push(r as int) =~= marks.take(k + 1));
            }
            self.set_front_cell(r, CellState::Alive);
            k = k + 1;
        }
        proof {
            assert(marks.take(48) =~= marks);
        }
    }

    /// The number of columns.
    pub fn get_width(&self) -> (r: u32)
        ensures
            r == self.width_spec(),
    {
        self.width
    }

    /// The number of rows.
    pub fn get_height(&self) -> (r: u32)
        ensures
            r == self.height_spec(),
    {
        self.height
    }

    /// The current generation, row by row.
    pub fn get_cells(&self) -> (r: &[CellState])
        ensures
            r@ == self.front(),
    {
        self.cells.read().as_slice()
    }
}

/// Flipping one cell of a grid of at least three by three changes the live
/// neighbour count of (`row`, `col`) by one when the flipped cell is one of
/// its eight neighbours on the torus (down when it was alive, up when it was
/// dead), and leaves the count as it was otherwise.
pub proof fn lemma_toggle_neighbour_count_v2(
    cells: Seq<CellState>,
    w: int,
    h: int,
    row: int,
    col: int,
    r2: int,
    c2: int,
)
    requires
        3 <= w,
        3 <= h,
        cells.len() == w * h,
        0 <= row < h,
        0 <= col < w,
        0 <= r2 < h,
        0 <= c2 < w,
    ensures
        ({
            let k = cell_index(w, r2, c2);
            live_neighbours(alive_flags(cells.update(k, toggled(cells[k]))), w, h, row, col) == live_neighbours(
                alive_flags(cells),
                w,
                h,
                row,
                col,
            ) + if is_torus_neighbour(w, h, row, col, r2, c2) {
                if is_alive(cells[k]) {
                    -1int
                } else {
                    1int
                }
            } else {
                0int
            }
        }),
{
    let k = cell_index(w, r2, c2);
    lemma_index_in_grid(w, h, r2, c2);
    lemma_alive_flags_update(cells, k, toggled(cells[k]));
    assert(alive_flags(cells)[k] == is_alive(cells[k]));
    lemma_toggle_neighbour_count(alive_flags(cells), w, h, row, col, r2, c2);
}

/// Toggling a cell twice leaves the cells as they were.
pub proof fn lemma_toggle_twice(cells: Seq<CellState>, k: int)
    requires
        0 <= k < cells.len(),
    ensures
        ({
            let once = cells.update(k, toggled(cells[k]));
            once.update(k, toggled(once[k])) == cells
        }),
{
    let once = cells.update(k, toggled(cells[k]));
    assert(once.update(k, toggled(once[k])) =~= cells);
}

/// `back` with its first `size` cells replaced by `states`.
pub open spec fn overwritten(back: Seq<CellState>, states: Seq<CellState>, size: int) -> Seq<CellState> {
    Seq::new(back.len(), |k: int| if k < size { states[k] } else { back[k] })
}

/// The other state.
pub open spec fn toggled(c: CellState) -> CellState {
    match c {
        CellState::Alive => CellState::Dead,
        CellState::Dead => CellState::Alive,
    }
}

/// Conway's rule applied to one cell.
fn next_cell(enabled: CellState, live_neighbour: u8) -> (r: CellState)
    ensures
        is_alive(r) == life_rule(is_alive(enabled), live_neighbour as int),
{
    match (enabled, live_neighbour) {
        (CellState::Alive, x) if x < 2 || x > 3 => CellState::Dead,
        (CellState::Dead, 3) => CellState::Alive,
        (same_state, _) => same_state,
    }
}

/// One if the cell at `idx` is alive, zero if it is dead.
fn count_at(cells: &Vec<CellState>, idx: usize) -> (r: u8)
    requires
        idx < cells.len(),
    ensures
        r == bit(lit(alive_flags(cells@), idx as int)),
{
    match cells[idx] {
        CellState::Alive => 1,
        CellState::Dead => 0,
    }
}

} // verus!
