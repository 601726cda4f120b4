//! The universe whose cells are bits of a `FixedBitSet`.
use vstd::prelude::*;
use fixedbitset::FixedBitSet;
use crate::bitset::{
    bitset_bits, bitset_blocks, bitset_get, bitset_len, bitset_set, bitset_with_capacity, block_bit, blocks_for,
};
use crate::double_buffer::{BufferState, DoubleBuffer, flipped};
use crate::geometry::{coordinate_shift_to, point, reflect_x, reflect_xy, reflect_y, wrap_coordinates};
use crate::life::{
    bit, byte_bit_of, byte_count, byte_count_of, cell_index, glider_fits, glider_marks, lemma_mark_none,
    lemma_mark_push, life_rule, listed_marks, lit, live_neighbours, mark_all, neighbour_positions,
    neighbours_fit, next_state, pulsar_base, pulsar_marks, pulsar_offset, pulsar_point_ok, pulsar_target,
    random_fill, ring_next_u32, ring_prev_u32, seed_pattern, tick_row, tick_rows, ticked, visit_writable,
    zero_bytes, lemma_square_visit,
};
use crate::random::{RandomSourceError, draw_random_bytes};
use crate::timer::Timer;
use crate::universe_v2::{CellState, Universe_v2, alive_flags, is_alive, lemma_alive_flags_update, toggled};

verus! {

/// The bits below the set's length: its cells.
pub open spec fn cells_of(s: FixedBitSet) -> Seq<bool> {
    bitset_bits(s).take(bitset_len(s) as int)
}

/// The set has `n` cells, its blocks hold exactly those, and every bit past
/// the cells is clear.
pub open spec fn clean(s: FixedBitSet, n: int) -> bool {
    &&& bitset_len(s) == n
    &&& bitset_bits(s).len() == blocks_for(n) * 32
    &&& forall|k: int| n <= k < bitset_bits(s).len() ==> !#[trigger] bitset_bits(s)[k]
}

proof fn lemma_blocks_cover(n: int)
    requires
        0 <= n,
    ensures
        n <= blocks_for(n) * 32,
{
}

/// In a clean set, reading any bit reads the cells, past them dead.
proof fn lemma_clean_read(s: FixedBitSet, n: int, idx: int)
    requires
        clean(s, n),
        0 <= n,
        0 <= idx,
    ensures
        (idx < bitset_bits(s).len() && bitset_bits(s)[idx]) == lit(cells_of(s), idx),
{
    lemma_blocks_cover(n);
}

/// A universe whose cells are bits: a grid of `width` by `height` cells on a
/// torus, with a front set of bits that is read and a back one into which
/// the next generation is written.
pub struct Universe {
    width: u32,
    height: u32,
    cells: DoubleBuffer<FixedBitSet>,
    byte_store: Vec<u8>,
}

impl Universe {
    /// The number of columns.
    pub closed spec fn width_spec(&self) -> int {
        self.width as int
    }

    /// The number of rows.
    pub closed spec fn height_spec(&self) -> int {
        self.height as int
    }

    /// The cells that are read: the current generation.
    pub closed spec fn front(&self) -> Seq<bool> {
        cells_of(self.cells.front())
    }

    /// The cells into which the next generation is written.
    pub closed spec fn back(&self) -> Seq<bool> {
        cells_of(self.cells.back())
    }

    /// Which buffer is the front.
    pub closed spec fn active(&self) -> BufferState {
        self.cells.active()
    }

    /// The scratch bytes that random states are drawn into.
    pub closed spec fn bytes(&self) -> Seq<u8> {
        self.byte_store@
    }

    /// The grid's size fits a `u32`, both buffers hold one bit per cell and
    /// nothing past them, and there is one scratch byte for every eight
    /// cells.
    pub closed spec fn wf(&self) -> bool {
        let n = self.width * self.height;
        &&& n <= u32::MAX
        &&& clean(self.cells.front(), n)
        &&& clean(self.cells.back(), n)
        &&& self.byte_store@.len() == byte_count(n)
    }

    /// Each buffer of a well-formed universe has one cell per grid position.
    pub proof fn lemma_wf_sizes(&self)
        requires
            self.wf(),
        ensures
            self.front().len() == self.width_spec() * self.height_spec(),
            self.back().len() == self.width_spec() * self.height_spec(),
            self.width_spec() * self.height_spec() <= u32::MAX,
            self.bytes().len() == byte_count(self.width_spec() * self.height_spec()),
    {
        lemma_blocks_cover(self.width * self.height);
    }

    /// Everything but the front buffer is as in `other`.
    pub open spec fn same_but_front(&self, other: &Self) -> bool {
        &&& self.width_spec() == other.width_spec()
        &&& self.height_spec() == other.height_spec()
        &&& self.back() == other.back()
        &&& self.active() == other.active()
        &&& self.bytes() == other.bytes()
    }

    /// A 128 by 128 universe whose cells are alive at every index divisible
    /// by two or by seven, in both buffers, with zeroed scratch bytes.
    pub fn new() -> (u: Universe)
        ensures
            u.wf(),
            u.width_spec() == 128,
            u.height_spec() == 128,
            u.front() == seed_pattern(16384, true, false),
            u.back() == seed_pattern(16384, true, false),
            u.active() == BufferState::Primary,
            u.bytes() == Seq::new(2048, |k: int| 0u8),
    {
        let width: u32 = 128;
        let height: u32 = 128;
        let size = (width * height) as usize;
        let mut cells_primary = bitset_with_capacity(size);
        let mut cells_secondary = bitset_with_capacity(size);
        proof {
            lemma_blocks_cover(size as int);
            assert(cells_of(cells_primary) =~= Seq::new(size as nat, |k: int| false));
        }
        let ghost blank = Seq::new(size as nat, |k: int| false);
        let mut i: usize = 0;
        while i < size
            invariant
                0 <= i <= size,
                size == 16384,
                blank == Seq::new(size as nat, |k: int| false),
                clean(cells_primary, size as int),
                clean(cells_secondary, size as int),
                cells_of(cells_primary) == cells_of(cells_secondary),
                forall|k: int|
                    0 <= k < size ==> #[trigger] cells_of(cells_primary)[k] == if k < i {
                        seed_pattern(size as nat, true, false)[k]
                    } else {
                        false
                    },
            decreases size - i,
        {
            let alive = i % 2 == 0 || i % 7 == 0;
            let ghost p0 = cells_primary;
            let ghost s0 = cells_secondary;
            bitset_set(&mut cells_primary, i, alive);
            bitset_set(&mut cells_secondary, i, alive);
            proof {
                lemma_clean_update(p0, cells_primary, size as int, i as int, alive);
                lemma_clean_update(s0, cells_secondary, size as int, i as int, alive);
            }
            i = i + 1;
        }
        proof {
            assert(cells_of(cells_primary) =~= seed_pattern(16384, true, false));
        }
        let szb = byte_count_of(size);
        let byte_store = zero_bytes(szb);
        Universe { width, height, cells: DoubleBuffer::new(cells_primary, cells_secondary), byte_store }
    }

    /// Gives the universe new dimensions, every cell of both buffers dead,
    /// and zeroed scratch bytes.
    pub fn set_dimensions(&mut self, width: u32, height: u32)
        requires
            width * height <= u32::MAX,
        ensures
            final(self).wf(),
            final(self).width_spec() == width,
            final(self).height_spec() == height,
            final(self).front() == Seq::new((width * height) as nat, |k: int| false),
            final(self).back() == Seq::new((width * height) as nat, |k: int| false),
            final(self).active() == BufferState::Primary,
            final(self).bytes() == Seq::new(byte_count(width * height) as nat, |k: int| 0u8),
    {
        self.width = width;
        self.height = height;
        let size = (width * height) as usize;
        let szb = byte_count_of(size);
        self.byte_store = zero_bytes(szb);
        let primary = bitset_with_capacity(size);
        let secondary = bitset_with_capacity(size);
        proof {
            lemma_blocks_cover(size as int);
            assert(cells_of(primary) =~= Seq::new(size as nat, |k: int| false));
            assert(cells_of(secondary) =~= Seq::new(size as nat, |k: int| false));
        }
        self.cells = DoubleBuffer::new(primary, secondary);
    }

    /// This universe after its scratch bytes became `bytes` and were spread
    /// over the first `width * height` cells of the back buffer, from `old`:
    /// when that count is a multiple of eight the filled buffer is swapped
    /// to the front; otherwise the buffers are swapped twice and the filled
    /// one stays at the back.
    pub open spec fn randomized_from(&self, old: &Self, bytes: Seq<u8>) -> bool {
        let size = old.width_spec() * old.height_spec();
        let filled = random_fill(old.back(), bytes, size, true, false);
        &&& self.width_spec() == old.width_spec()
        &&& self.height_spec() == old.height_spec()
        &&& self.bytes() == bytes
        &&& if size % 8 == 0 {
            &&& self.front() == filled
            &&& self.back() == old.front()
            &&& self.active() == flipped(old.active())
        } else {
            &&& self.front() == old.front()
            &&& self.back() == filled
            &&& self.active() == old.active()
        }
    }

    /// Takes `bytes` as the scratch bytes and spreads their bits over the
    /// cells, cell `k` alive when bit `k % 8` of byte `k / 8` is set.
    pub fn apply_random_bytes(&mut self, bytes: Vec<u8>)
        requires
            old(self).wf(),
            bytes.len() == old(self).bytes().len(),
        ensures
            final(self).wf(),
            final(self).randomized_from(old(self), bytes@),
    {
        proof {
            old(self).lemma_wf_sizes();
        }
        self.byte_store = bytes;
        let size = (self.width * self.height) as usize;
        let n = self.byte_store.len();
        let ghost filled = random_fill(old(self).back(), bytes@, size as int, true, false);
        let ghost swapped: bool = false;
        let mut i: usize = 0;
        while i < n
            invariant
                0 <= i <= n,
                self.wf(),
                n == byte_count(size as int),
                size == old(self).width_spec() * old(self).height_spec(),
                size == old(self).back().len(),
                size == self.back().len(),
                size == self.front().len(),
                size <= u32::MAX,
                self.width_spec() == old(self).width_spec(),
                self.height_spec() == old(self).height_spec(),
                self.bytes() == bytes@,
                self.bytes().len() == n,
                filled == random_fill(old(self).back(), bytes@, size as int, true, false),
                swapped == (8 * i > size),
                !swapped ==> {
                    &&& self.front() == old(self).front()
                    &&& self.active() == old(self).active()
                    &&& forall|k: int|
                        0 <= k < size ==> #[trigger] self.back()[k] == if k < 8 * i {
                            filled[k]
                        } else {
                            old(self).back()[k]
                        }
                },
                swapped ==> {
                    &&& self.back() == old(self).front()
                    &&& self.front() == filled
                    &&& self.active() == flipped(old(self).active())
                },
            decreases n - i,
        {
            let mut j: usize = 0;
            while j < 8
                invariant_except_break
                    self.front() == old(self).front(),
                    self.active() == old(self).active(),
                    size == self.back().len(),
                    size == self.front().len(),
                    forall|k: int|
                        0 <= k < size ==> #[trigger] self.back()[k] == if k < 8 * i + j {
                            filled[k]
                        } else {
                            old(self).back()[k]
                        },
                invariant
                    0 <= i < n,
                    0 <= j <= 8,
                    8 * i + j <= size,
                    self.wf(),
                    n == byte_count(size as int),
                    size == old(self).width_spec() * old(self).height_spec(),
                    size == old(self).back().len(),
                    size <= u32::MAX,
                    self.width_spec() == old(self).width_spec(),
                    self.height_spec() == old(self).height_spec(),
                    self.bytes() == bytes@,
                    self.bytes().len() == n,
                    filled == random_fill(old(self).back(), bytes@, size as int, true, false),
                ensures
                    8 * i + 8 <= size ==> {
                        &&& self.front() == old(self).front()
                        &&& self.active() == old(self).active()
                        &&& size == self.back().len()
                        &&& size == self.front().len()
                        &&& forall|k: int|
                            0 <= k < size ==> #[trigger] self.back()[k] == if k < 8 * i + 8 {
                                filled[k]
                            } else {
                                old(self).back()[k]
                            }
                    },
                    8 * i + 8 > size ==> {
                        &&& self.back() == old(self).front()
                        &&& self.front() == filled
                        &&& self.active() == flipped(old(self).active())
                    },
                    self.wf(),
                    self.width_spec() == old(self).width_spec(),
                    self.height_spec() == old(self).height_spec(),
                    self.bytes() == bytes@,
                decreases 8 - j,
            {
                let k = i * 8 + j;
                if k >= size {
                    proof {
                        assert(self.back() =~= filled);
                    }
                    self.cells.finish_write();
                    break;
                }
                let state = byte_bit_of(self.byte_store[i], j as u32);
                proof {
                    assert(k as int / 8 == i as int);
                    assert(k as int % 8 == j as int);
                    assert(filled[k as int] == state);
                }
                let ghost b0 = self.cells.back();
                bitset_set(self.cells.write(), k, state);
                proof {
                    lemma_clean_update(b0, self.cells.back(), size as int, k as int, state);
                }
                j = j + 1;
            }
            proof {
                swapped = 8 * (i + 1) > size;
            }
            i = i + 1;
        }
        proof {
            if !swapped {
                assert(8 * n >= size);
                assert(self.back() =~= filled);
            }
        }
        self.cells.finish_write();
    }

    /// Draws random scratch bytes from the operating system and spreads them
    /// over the cells as `apply_random_bytes` does. When the source fails the
    /// universe is left as it was and the failure is returned.
    pub fn randomize_state(&mut self) -> (r: Result<(), RandomSourceError>)
        requires
            old(self).wf(),
        ensures
            final(self).wf(),
            r is Ok ==> final(self).randomized_from(old(self), final(self).bytes()) && final(self).bytes().len()
                == old(self).bytes().len(),
            r is Err ==> *final(self) == *old(self),
            old(self).bytes().len() == 0 ==> r is Ok,
    {
        let mut bytes = self.byte_store.clone();
        match draw_random_bytes(&mut bytes) {
            Ok(()) => {
                self.apply_random_bytes(bytes);
                Ok(())
            },
            Err(e) => Err(e),
        }
    }

    /// The row-major index of (`row`, `column`).
    pub fn get_index(&self, row: u32, column: u32) -> (r: usize)
        requires
            cell_index(self.width_spec(), row as int, column as int) <= u32::MAX,
        ensures
            r == cell_index(self.width_spec(), row as int, column as int),
    {
        (row * self.width + column) as usize
    }

    /// The index of the point (x, y) = (`coords.0`, `coords.1`): column x of
    /// row y.
    pub fn get_index_tu(&self, coords: (u32, u32)) -> (r: usize)
        requires
            cell_index(self.width_spec(), coords.1 as int, coords.0 as int) <= u32::MAX,
        ensures
            r == cell_index(self.width_spec(), coords.1 as int, coords.0 as int),
    {
        self.get_index(coords.1, coords.0)
    }

    /// Whether the cell at (`row`, `column`) is alive; a position past the
    /// last cell reads as dead.
    pub fn get_enabled(&self, row: u32, column: u32) -> (r: bool)
        requires
            self.wf(),
            cell_index(self.width_spec(), row as int, column as int) <= u32::MAX,
        ensures
            r == lit(self.front(), cell_index(self.width_spec(), row as int, column as int)),
    {
        let idx = self.get_index(row, column);
        read_cell(self.cells.read(), idx, Ghost((self.width * self.height) as int))
    }

    /// The number of live cells among the eight neighbours of (`row`,
    /// `column`), the edges of the grid wrapping around; a position past the
    /// last cell counts as dead.
    pub fn get_live_neighbour_count(&self, row: u32, column: u32) -> (r: u8)
        requires
            self.wf(),
            neighbours_fit(self.width_spec(), self.height_spec(), row as int, column as int),
        ensures
            r == live_neighbours(self.front(), self.width_spec(), self.height_spec(), row as int, column as int),
    {
        let ghost w = self.width_spec();
        let ghost h = self.height_spec();
        let ghost n = (self.width * self.height) as int;
        let ghost p = neighbour_positions(w, h, row as int, column as int);
        let old_cell = self.cells.read();
        let minus_one_row = ring_prev_u32(row, self.height);
        let minus_one_column = ring_prev_u32(column, self.width);
        let plus_one_row = ring_next_u32(row, self.height);
        let plus_one_column = ring_next_u32(column, self.width);
        assert(p[0] == (minus_one_row as int, column as int));
        assert(p[1] == (minus_one_row as int, minus_one_column as int));
        assert(p[2] == (minus_one_row as int, plus_one_column as int));
        assert(p[3] == (plus_one_row as int, column as int));
        assert(p[4] == (plus_one_row as int, minus_one_column as int));
        assert(p[5] == (plus_one_row as int, plus_one_column as int));
        assert(p[6] == (row as int, minus_one_column as int));
        assert(p[7] == (row as int, plus_one_column as int));
        assert(cell_index(w, p[0].0, p[0].1) <= u32::MAX);
        assert(cell_index(w, p[1].0, p[1].1) <= u32::MAX);
        assert(cell_index(w, p[2].0, p[2].1) <= u32::MAX);
        assert(cell_index(w, p[3].0, p[3].1) <= u32::MAX);
        assert(cell_index(w, p[4].0, p[4].1) <= u32::MAX);
        assert(cell_index(w, p[5].0, p[5].1) <= u32::MAX);
        assert(cell_index(w, p[6].0, p[6].1) <= u32::MAX);
        assert(cell_index(w, p[7].0, p[7].1) <= u32::MAX);

        let mut count: u8 = 0;
        // upper checks
        count = count + count_cell(old_cell, self.get_index(minus_one_row, column), Ghost(n));
        count = count + count_cell(old_cell, self.get_index(minus_one_row, minus_one_column), Ghost(n));
        count = count + count_cell(old_cell, self.get_index(minus_one_row, plus_one_column), Ghost(n));
        // bottom checks
        count = count + count_cell(old_cell, self.get_index(plus_one_row, column), Ghost(n));
        count = count + count_cell(old_cell, self.get_index(plus_one_row, minus_one_column), Ghost(n));
        count = count + count_cell(old_cell, self.get_index(plus_one_row, plus_one_column), Ghost(n));
        // side checks
        count = count + count_cell(old_cell, self.get_index(row, minus_one_column), Ghost(n));
        count = count + count_cell(old_cell, self.get_index(row, plus_one_column), Ghost(n));
        count
    }

    /// Computing a generation writes only within the back buffer, and
    /// computes only indices that fit in a `u32`.
    pub open spec fn can_tick(&self) -> bool {
        let w = self.width_spec();
        let h = self.height_spec();
        forall|i: int, j: int|
            0 <= i < w && 0 <= j < h ==> #[trigger] visit_writable(w, h, i, j, self.back().len() as int)
    }

    /// A well-formed square grid can always compute a generation.
    pub proof fn lemma_square_can_tick(&self)
        requires
            self.wf(),
            self.width_spec() == self.height_spec(),
        ensures
            self.can_tick(),
    {
        self.lemma_wf_sizes();
        let n = self.width_spec();
        assert forall|i: int, j: int| 0 <= i < n && 0 <= j < n implies #[trigger] visit_writable(
            n,
            n,
            i,
            j,
            self.back().len() as int,
        ) by {
            lemma_square_visit(n, i, j);
        }
    }

    /// Computes the next generation into the back buffer and makes it the
    /// front: for each `i` below the width and `j` below the height, in that
    /// order, the cell at index `i * width + j` is given the next state of
    /// the cell (`i`, `j`), the first coordinate counting rows.
    pub fn tick_life(&mut self)
        requires
            old(self).wf(),
            old(self).can_tick(),
        ensures
            final(self).wf(),
            final(self).front() == ticked(
                old(self).front(),
                old(self).back(),
                old(self).width_spec(),
                old(self).height_spec(),
            ),
            final(self).back() == old(self).front(),
            final(self).active() == flipped(old(self).active()),
            final(self).width_spec() == old(self).width_spec(),
            final(self).height_spec() == old(self).height_spec(),
            final(self).bytes() == old(self).bytes(),
    {
        let _timer = Timer::new("Universe::tick_life");
        let w = self.width;
        let h = self.height;
        let ghost front = self.front();
        let ghost back0 = self.back();
        let mut i: u32 = 0;
        while i < w
            invariant
                0 <= i <= w,
                self.wf(),
                w == self.width_spec(),
                h == self.height_spec(),
                w == old(self).width_spec(),
                h == old(self).height_spec(),
                self.front() == old(self).front(),
                front == old(self).front(),
                back0 == old(self).back(),
                self.active() == old(self).active(),
                self.bytes() == old(self).bytes(),
                self.back().len() == old(self).back().len(),
                self.back() == tick_rows(front, back0, w as int, h as int, i as nat),
                old(self).can_tick(),
            decreases w - i,
        {
            let ghost row_start = self.back();
            let mut j: u32 = 0;
            while j < h
                invariant
                    0 <= i < w,
                    0 <= j <= h,
                    self.wf(),
                    w == self.width_spec(),
                    h == self.height_spec(),
                    w == old(self).width_spec(),
                    h == old(self).height_spec(),
                    self.front() == old(self).front(),
                    front == old(self).front(),
                    back0 == old(self).back(),
                    self.active() == old(self).active(),
                    self.bytes() == old(self).bytes(),
                    self.back().len() == old(self).back().len(),
                    row_start == tick_rows(front, back0, w as int, h as int, i as nat),
                    self.back() == tick_row(front, row_start, w as int, h as int, i as int, j as nat),
                    old(self).can_tick(),
                decreases h - j,
            {
                assert(visit_writable(
                    old(self).width_spec(),
                    old(self).height_spec(),
                    i as int,
                    j as int,
                    old(self).back().len() as int,
                ));
                let live_neighbour = self.get_live_neighbour_count(i, j);
                let enabled = self.get_enabled(i, j);
                let current_index = self.get_index(i, j);
                let next = next_alive(enabled, live_neighbour);
                assert(next == next_state(front, w as int, h as int, i as int, j as int));
                let ghost b0 = self.cells.back();
                let ghost n = (self.width * self.height) as int;
                bitset_set(self.cells.write(), current_index, next);
                proof {
                    lemma_clean_update(b0, self.cells.back(), n, current_index as int, next);
                }
                j = j + 1;
            }
            i = i + 1;
        }
        self.cells.finish_write();
    }

    fn set_front_cell(&mut self, idx: usize, state: bool)
        requires
            old(self).wf(),
            idx < old(self).front().len(),
        ensures
            final(self).wf(),
            final(self).front() == old(self).front().update(idx as int, state),
            final(self).same_but_front(old(self)),
    {
        let ghost f0 = self.cells.front();
        let ghost n = (self.width * self.height) as int;
        proof {
            lemma_blocks_cover(n);
        }
        bitset_set(self.cells.read_mut(), idx, state);
        proof {
            lemma_clean_update(f0, self.cells.front(), n, idx as int, state);
        }
    }

    /// Flips the cell at (`row`, `column`) between alive and dead.
    pub fn toggle(&mut self, row: u32, column: u32)
        requires
            old(self).wf(),
            cell_index(old(self).width_spec(), row as int, column as int) <= u32::MAX,
            cell_index(old(self).width_spec(), row as int, column as int) < old(self).front().len(),
        ensures
            final(self).wf(),
            ({
                let k = cell_index(old(self).width_spec(), row as int, column as int);
                final(self).front() == old(self).front().update(k, !old(self).front()[k])
            }),
            final(self).same_but_front(old(self)),
    {
        let idx = self.get_index(row, column);
        let old_state = read_cell(self.cells.read(), idx, Ghost((self.width * self.height) as int));
        self.set_front_cell(idx, !old_state);
    }

    /// Brings each listed (row, column) cell to life.
    pub fn set_cells(&mut self, cells: &[(u32, u32)])
        requires
            old(self).wf(),
            forall|m: int|
                0 <= m < cells.len() ==> {
                    &&& cell_index(old(self).width_spec(), #[trigger] cells[m].0 as int, cells[m].1 as int) <= u32::MAX
                    &&& cell_index(old(self).width_spec(), cells[m].0 as int, cells[m].1 as int) < old(self).front().len()
                },
        ensures
            final(self).wf(),
            final(self).front() == mark_all(old(self).front(), listed_marks(old(self).width_spec(), cells@), true),
            final(self).same_but_front(old(self)),
    {
        let ghost marks = listed_marks(self.width_spec(), cells@);
        proof {
            lemma_mark_none(self.front(), true);
            assert(marks.take(0) =~= Seq::<int>::empty());
        }
        let mut m: usize = 0;
        while m < cells.len()
            invariant
                0 <= m <= cells.len(),
                self.wf(),
                marks == listed_marks(old(self).width_spec(), cells@),
                self.same_but_front(old(self)),
                self.front().len() == old(self).front().len(),
                self.front() == mark_all(old(self).front(), marks.take(m as int), true),
                forall|m: int|
                    0 <= m < cells.len() ==> {
                        &&& cell_index(old(self).width_spec(), #[trigger] cells[m].0 as int, cells[m].1 as int) <= u32::MAX
                        &&& cell_index(old(self).width_spec(), cells[m].0 as int, cells[m].1 as int) < old(self).front().len()
                    },
            decreases cells.len() - m,
        {
            let (row, col) = cells[m];
            assert(cell_index(old(self).width_spec(), cells[m as int].0 as int, cells[m as int].1 as int) <= u32::MAX);
            let idx = self.get_index(row, col);
            proof {
                lemma_mark_push(old(self).front(), marks.take(m as int), true, idx as int);
                assert(marks.take(m as int).push(idx as int) =~= marks.take(m + 1));
            }
            self.set_front_cell(idx, true);
            m = m + 1;
        }
        proof {
            assert(marks.take(cells.len() as int) =~= marks);
        }
    }

    /// Brings to life the five cells of a glider around (`row`, `col`), the
    /// edges wrapping.
    pub fn insert_glider(&mut self, row: u32, col: u32)
        requires
            old(self).wf(),
            glider_fits(old(self).width_spec(), old(self).height_spec(), row as int, col as int),
            forall|m: int|
                0 <= m < 5 ==> {
                    &&& #[trigger] glider_marks(old(self).width_spec(), old(self).height_spec(), row as int, col as int)[m]
                        <= u32::MAX
                    &&& glider_marks(old(self).width_spec(), old(self).height_spec(), row as int, col as int)[m]
                        < old(self).front().len()
                },
        ensures
            final(self).wf(),
            final(self).front() == mark_all(
                old(self).front(),
                glider_marks(old(self).width_spec(), old(self).height_spec(), row as int, col as int),
                true,
            ),
            final(self).same_but_front(old(self)),
    {
        let ghost marks = glider_marks(self.width_spec(), self.height_spec(), row as int, col as int);
        let ghost f0 = self.front();
        let minus_one_row = ring_prev_u32(row, self.height);
        let minus_one_column = ring_prev_u32(col, self.width);
        let plus_one_row = ring_next_u32(row, self.height);
        let plus_one_column = ring_next_u32(col, self.width);
        assert(marks[0] <= u32::MAX && marks[1] <= u32::MAX && marks[2] <= u32::MAX);
        assert(marks[3] <= u32::MAX && marks[4] <= u32::MAX);

        let left_index = self.get_index(row, minus_one_column);
        let bottom_index = self.get_index(plus_one_row, col);
        let right_up_index = self.get_index(row, plus_one_column);
        let right_middle_index = self.get_index(plus_one_row, plus_one_column);
        let right_bottom_index = self.get_index(minus_one_row, plus_one_column);
        proof {
            lemma_mark_none(f0, true);
            assert(marks =~= seq![].push(marks[0]).push(marks[1]).push(marks[2]).push(marks[3]).push(marks[4]));
            lemma_mark_push(f0, seq![], true, marks[0]);
            lemma_mark_push(f0, seq![].push(marks[0]), true, marks[1]);
            lemma_mark_push(f0, seq![].push(marks[0]).push(marks[1]), true, marks[2]);
            lemma_mark_push(f0, seq![].push(marks[0]).push(marks[1]).push(marks[2]), true, marks[3]);
            lemma_mark_push(f0, seq![].push(marks[0]).push(marks[1]).push(marks[2]).push(marks[3]), true, marks[4]);
        }
        // left
        self.set_front_cell(left_index, true);
        // bottom
        self.set_front_cell(bottom_index, true);
        // right
        self.set_front_cell(right_up_index, true);
        self.set_front_cell(right_middle_index, true);
        self.set_front_cell(right_bottom_index, true);
    }

    /// Every point of a pulsar centred at (`row`, `col`) can be marked, and
    /// its cell lies within the front buffer.
    pub open spec fn can_insert_pulsar(&self, row: u32, col: u32) -> bool {
        let w = self.width_spec() as u32;
        let h = self.height_spec() as u32;
        forall|k: int|
            0 <= k < 48 ==> {
                &&& #[trigger] pulsar_point_ok(pulsar_offset(k), row, col, w, h)
                &&& pulsar_target(pulsar_offset(k), row, col, w, h) < self.front().len()
            }
    }

    /// Brings to life the forty-eight cells of a pulsar centred at (`row`,
    /// `col`): a quarter of twelve cells, as (x, y) offsets, and its mirror
    /// images across each axis and through the centre, each moved to the
    /// centre and wrapped onto the torus.
    pub fn insert_pulsar(&mut self, row: u32, col: u32)
        requires
            old(self).wf(),
            old(self).can_insert_pulsar(row, col),
        ensures
            final(self).wf(),
            final(self).front() == mark_all(
                old(self).front(),
                pulsar_marks(row, col, old(self).width_spec() as u32, old(self).height_spec() as u32),
                true,
            ),
            final(self).same_but_front(old(self)),
    {
        let coords: [(i32, i32); 12] = [
            (1, 2), (1, 3), (1, 4),
            (2, 6), (3, 6), (4, 6),
            (6, 4), (6, 3), (6, 2),
            (2, 1), (3, 1), (4, 1),
        ];
        assert(coords@ =~= pulsar_base());
        let w = self.width;
        let h = self.height;
        let ghost marks = pulsar_marks(row, col, w, h);
        proof {
            lemma_mark_none(self.front(), true);
            assert(marks.take(0) =~= Seq::<int>::empty());
        }
        let mut k: usize = 0;
        while k < 48
            invariant
                0 <= k <= 48,
                self.wf(),
                coords@ == pulsar_base(),
                w == old(self).width_spec(),
                h == old(self).height_spec(),
                marks == pulsar_marks(row, col, w, h),
                self.same_but_front(old(self)),
                self.front().len() == old(self).front().len(),
                self.front() == mark_all(old(self).front(), marks.take(k as int), true),
                old(self).can_insert_pulsar(row, col),
            decreases 48 - k,
        {
            assert(pulsar_point_ok(
                pulsar_offset(k as int),
                row,
                col,
                old(self).width_spec() as u32,
                old(self).height_spec() as u32,
            ));
            let t = if k < 12 {
                coords[k]
            } else if k < 24 {
                reflect_x(coords[k - 12])
            } else if k < 36 {
                reflect_y(coords[k - 24])
            } else {
                reflect_xy(coords[k - 36])
            };
            assert(point(t) == pulsar_offset(k as int));
            let shifted = coordinate_shift_to(t, (col, row));
            let wrapped = wrap_coordinates(shifted, (w, h));
            let r = self.get_index_tu(wrapped);
            proof {
                lemma_mark_push(old(self).front(), marks.take(k as int), true, r as int);
                assert(marks.take(k as int).push(r as int) =~= marks.take(k + 1));
            }
            self.set_front_cell(r, true);
            k = k + 1;
        }
        proof {
            assert(marks.take(48) =~= marks);
        }
    }

    /// The number of columns.
    pub fn get_width(&self) -> (r: u32)
        ensures
            r == self.width_spec(),
    {
        self.width
    }

    /// The number of rows.
    pub fn get_height(&self) -> (r: u32)
        ensures
            r == self.height_spec(),
    {
        self.height
    }

    /// The current generation as blocks of 32 bits: cell `k` is bit `k % 32`
    /// of block `k / 32`, and the bits past the last cell are clear.
    pub fn get_cells(&self) -> (r: &[u32])
        requires
            self.wf(),
        ensures
            r@.len() == blocks_for(self.front().len() as int),
            forall|k: int| 0 <= k < r@.len() * 32 ==> #[trigger] block_bit(r@, k) == lit(self.front(), k),
    {
        let r = bitset_blocks(self.cells.read());
        proof {
            let n = (self.width * self.height) as int;
            lemma_blocks_cover(n);
            assert forall|k: int| 0 <= k < r@.len() * 32 implies #[trigger] block_bit(r@, k) == lit(self.front(), k) by {
                lemma_clean_read(self.cells.front(), n, k);
            }
        }
        r
    }
}

/// Toggling a cell twice leaves the cells as they were.
pub proof fn lemma_toggle_twice(cells: Seq<bool>, k: int)
    requires
        0 <= k < cells.len(),
    ensures
        ({
            let once = cells.update(k, !cells[k]);
            once.update(k, !once[k]) == cells
        }),
{
    let once = cells.update(k, !cells[k]);
    assert(once.update(k, !once[k]) =~= cells);
}

impl Universe {
    /// This universe and `v` have the same dimensions, and their buffers
    /// hold the same live cells.
    pub open spec fn agrees_with(&self, v: &Universe_v2) -> bool {
        &&& self.width_spec() == v.width_spec()
        &&& self.height_spec() == v.height_spec()
        &&& self.front() == alive_flags(v.front())
        &&& self.back() == alive_flags(v.back())
    }
}

/// Marking the same indices alive in state cells and in flags keeps them in
/// step.
pub proof fn lemma_mark_flags(cells: Seq<CellState>, marks: Seq<int>)
    ensures
        alive_flags(mark_all(cells, marks, CellState::Alive)) == mark_all(alive_flags(cells), marks, true),
{
    assert(alive_flags(mark_all(cells, marks, CellState::Alive)) =~= mark_all(alive_flags(cells), marks, true));
}

/// Filling from the same bytes keeps state cells and flags in step.
pub proof fn lemma_random_fill_flags(cells: Seq<CellState>, bytes: Seq<u8>, size: int)
    ensures
        alive_flags(random_fill(cells, bytes, size, CellState::Alive, CellState::Dead)) == random_fill(
            alive_flags(cells),
            bytes,
            size,
            true,
            false,
        ),
{
    assert(alive_flags(random_fill(cells, bytes, size, CellState::Alive, CellState::Dead)) =~= random_fill(
        alive_flags(cells),
        bytes,
        size,
        true,
        false,
    ));
}

/// The two new universes agree: both are seeded with the same live cells.
pub proof fn lemma_new_agrees(u: &Universe, v: &Universe_v2)
    requires
        u.width_spec() == 128,
        u.height_spec() == 128,
        u.front() == seed_pattern(16384, true, false),
        u.back() == seed_pattern(16384, true, false),
        v.width_spec() == 128,
        v.height_spec() == 128,
        v.front() == seed_pattern(16384, CellState::Alive, CellState::Dead),
        v.back() == seed_pattern(16384, CellState::Alive, CellState::Dead),
    ensures
        u.agrees_with(v),
{
    assert(alive_flags(seed_pattern(16384, CellState::Alive, CellState::Dead)) =~= seed_pattern(16384, true, false));
}

/// Universes that agree still agree after each computes a generation.
pub proof fn lemma_tick_agrees(u0: &Universe, u1: &Universe, v0: &Universe_v2, v1: &Universe_v2)
    requires
        u0.agrees_with(v0),
        u1.front() == ticked(u0.front(), u0.back(), u0.width_spec(), u0.height_spec()),
        u1.back() == u0.front(),
        u1.width_spec() == u0.width_spec(),
        u1.height_spec() == u0.height_spec(),
        alive_flags(v1.front()) == ticked(
            alive_flags(v0.front()),
            alive_flags(v0.back()),
            v0.width_spec(),
            v0.height_spec(),
        ),
        v1.back() == v0.front(),
        v1.width_spec() == v0.width_spec(),
        v1.height_spec() == v0.height_spec(),
    ensures
        u1.agrees_with(v1),
{
}

/// Universes that agree still agree after each toggles the same cell.
pub proof fn lemma_toggle_agrees(u0: &Universe, u1: &Universe, v0: &Universe_v2, v1: &Universe_v2, k: int)
    requires
        u0.agrees_with(v0),
        0 <= k < u0.front().len(),
        u1.front() == u0.front().update(k, !u0.front()[k]),
        u1.same_but_front(u0),
        v1.front() == v0.front().update(k, toggled(v0.front()[k])),
        v1.same_but_front(v0),
    ensures
        u1.agrees_with(v1),
{
    assert(alive_flags(v0.front())[k] == is_alive(v0.front()[k]));
    lemma_alive_flags_update(v0.front(), k, toggled(v0.front()[k]));
}

/// Universes that agree still agree after each brings the same cells to
/// life, as `set_cells`, `insert_glider` and `insert_pulsar` do.
pub proof fn lemma_mark_agrees(
    u0: &Universe,
    u1: &Universe,
    v0: &Universe_v2,
    v1: &Universe_v2,
    marks: Seq<int>,
)
    requires
        u0.agrees_with(v0),
        u1.front() == mark_all(u0.front(), marks, true),
        u1.same_but_front(u0),
        v1.front() == mark_all(v0.front(), marks, CellState::Alive),
        v1.same_but_front(v0),
    ensures
        u1.agrees_with(v1),
{
    lemma_mark_flags(v0.front(), marks);
}

/// Universes that agree still agree after each spreads the same bytes over
/// its cells.
pub proof fn lemma_random_agrees(
    u0: &Universe,
    u1: &Universe,
    v0: &Universe_v2,
    v1: &Universe_v2,
    bytes: Seq<u8>,
)
    requires
        u0.agrees_with(v0),
        u1.randomized_from(u0, bytes),
        v1.randomized_from(v0, bytes),
    ensures
        u1.agrees_with(v1),
{
    lemma_random_fill_flags(v0.back(), bytes, v0.width_spec() * v0.height_spec());
}

/// Agreeing universes read alike: a cell is alive in one exactly when it is
/// `Alive` in the other.
pub proof fn lemma_agreeing_reads(u: &Universe, v: &Universe_v2, idx: int)
    requires
        u.agrees_with(v),
        0 <= idx < v.front().len(),
    ensures
        lit(u.front(), idx) == is_alive(v.front()[idx]),
{
    assert(alive_flags(v.front())[idx] == is_alive(v.front()[idx]));
}

/// Whether the cell at `idx` of a clean set of `n` cells is alive.
fn read_cell(s: &FixedBitSet, idx: usize, Ghost(n): Ghost<int>) -> (r: bool)
    requires
        clean(*s, n),
        0 <= n,
    ensures
        r == lit(cells_of(*s), idx as int),
{
    proof {
        lemma_clean_read(*s, n, idx as int);
    }
    bitset_get(s, idx)
}

/// One if the cell at `idx` of a clean set of `n` cells is alive, zero if it
/// is dead.
fn count_cell(s: &FixedBitSet, idx: usize, Ghost(n): Ghost<int>) -> (r: u8)
    requires
        clean(*s, n),
        0 <= n,
    ensures
        r == bit(lit(cells_of(*s), idx as int)),
{
    if read_cell(s, idx, Ghost(n)) {
        1
    } else {
        0
    }
}

/// Conway's rule applied to one cell.
fn next_alive(enabled: bool, live_neighbour: u8) -> (r: bool)
    ensures
        r == life_rule(enabled, live_neighbour as int),
{
    match (enabled, live_neighbour) {
        (true, x) if x < 2 || x > 3 => false,
        (false, 3) => true,
        (same_state, _) => same_state,
    }
}

/// Setting a cell of a clean set keeps it clean and sets that cell.
proof fn lemma_clean_update(before: FixedBitSet, after: FixedBitSet, n: int, i: int, v: bool)
    requires
        clean(before, n),
        0 <= i < n,
        bitset_len(after) == n,
        bitset_bits(after) == bitset_bits(before).update(i, v),
    ensures
        clean(after, n),
        cells_of(after) == cells_of(before).update(i, v),
{
    lemma_blocks_cover(n);
    assert(cells_of(after) =~= cells_of(before).update(i, v));
}

} // verus!
