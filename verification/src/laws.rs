//! What the operations of a universe do, stated directly in terms of their
//! inputs: the rule each cell follows, where a glider, a pulsar and a list of
//! cells are placed, and how random bytes become cells.
use vstd::prelude::*;
use vstd::arithmetic::div_mod::lemma_fundamental_div_mod_converse;
use vstd::arithmetic::power2::{lemma2_to64, pow2};
use crate::universe::Universe;
use crate::universe_v2::{CellState, Universe_v2, is_alive, toggled};
use crate::life::{
    byte_bit, byte_count, random_fill, seed_pattern, glider_marks, pulsar_base, pulsar_marks, pulsar_offset, pulsar_point_ok, is_torus_neighbour, lemma_generation_on_torus, lemma_ring_steps, listed_marks, mark_all, lemma_index_in_grid, lemma_ticked_square,
    lemma_toggle_neighbour_count, live_neighbours, ticked, torus_live_neighbours, cell_index, lit,
};

verus! {

/// Conway's rule, cell by cell, on an `n` by `n` torus: a live cell with fewer
/// than two or more than three live neighbours dies, one with two or three
/// lives on, a dead cell with exactly three comes alive, and any other dead
/// cell stays dead.
pub proof fn lemma_generation_rules(front: Seq<bool>, back: Seq<bool>, n: int, row: int, col: int)
    requires
        front.len() == n * n,
        back.len() == n * n,
        0 <= row < n,
        0 <= col < n,
    ensures
        ({
            let c = torus_live_neighbours(front, n, n, row, col);
            let before = front[row * n + col];
            let after = ticked(front, back, n, n)[row * n + col];
            &&& before && (c < 2 || c > 3) ==> !after
            &&& before && (c == 2 || c == 3) ==> after
            &&& !before && c == 3 ==> after
            &&& !before && c != 3 ==> !after
        }),
{
    lemma_generation_on_torus(front, back, n, row, col);
}

/// On a torus of at least three by three, a single live cell has no one to
/// keep it alive and bears no one: the next generation is all dead.
pub proof fn lemma_lone_cell_dies(front: Seq<bool>, back: Seq<bool>, n: int, k0: int)
    requires
        3 <= n,
        front.len() == n * n,
        back.len() == n * n,
        0 <= k0 < n * n,
        front[k0],
        forall|k: int| 0 <= k < n * n && k != k0 ==> !#[trigger] front[k],
    ensures
        forall|k: int| 0 <= k < n * n ==> !#[trigger] ticked(front, back, n, n)[k],
{
    let blank = Seq::new((n * n) as nat, |k: int| false);
    let r2 = k0 / n;
    let c2 = k0 % n;
    lemma_div_bounds(k0, n);
    assert(cell_index(n, r2, c2) == k0);
    assert(blank.update(k0, !blank[k0]) =~= front);
    lemma_ticked_square(front, back, n);
    assert forall|k: int| 0 <= k < n * n implies !#[trigger] ticked(front, back, n, n)[k] by {
        let row = k / n;
        let col = k % n;
        lemma_div_bounds(k, n);
        lemma_toggle_neighbour_count(blank, n, n, row, col, r2, c2);
        assert(live_neighbours(blank, n, n, row, col) == 0);
        if k == k0 {
            assert(!is_torus_neighbour(n, n, row, col, r2, c2));
        } else {
            assert(!lit(front, cell_index(n, row, col)));
        }
    }
}

/// A glider placed at (`row`, `col`) of a `w` by `h` torus brings to life the
/// cell to its left, the one below it, and the three cells of the column to
/// its right from the row above to the row below, rows counted modulo `h` and
/// columns modulo `w`.
pub proof fn lemma_glider_cells(w: int, h: int, row: int, col: int)
    requires
        0 <= row < h,
        0 <= col < w,
    ensures
        glider_marks(w, h, row, col) == seq![
            row * w + (col - 1) % w,
            ((row + 1) % h) * w + col,
            row * w + (col + 1) % w,
            ((row + 1) % h) * w + (col + 1) % w,
            ((row - 1) % h) * w + (col + 1) % w,
        ],
{
    lemma_ring_steps(row, h);
    lemma_ring_steps(col, w);
    assert(glider_marks(w, h, row, col) =~= seq![
        row * w + (col - 1) % w,
        ((row + 1) % h) * w + col,
        row * w + (col + 1) % w,
        ((row + 1) % h) * w + (col + 1) % w,
        ((row - 1) % h) * w + (col + 1) % w,
    ]);
}

/// Bringing the listed (row, column) cells of a grid `w` cells wide to life
/// makes every listed cell that lies in the grid alive, the one at
/// `row * w + column`, and leaves every cell that is not listed as it was.
pub proof fn lemma_listed_cells<T>(front: Seq<T>, w: int, cells: Seq<(u32, u32)>, alive: T)
    ensures
        listed_marks(w, cells).len() == cells.len(),
        forall|m: int|
            0 <= m < cells.len() && 0 <= #[trigger] (cells[m].0 * w + cells[m].1) < front.len() ==> mark_all(
                front,
                listed_marks(w, cells),
                alive,
            )[cells[m].0 * w + cells[m].1] == alive,
        forall|k: int|
            0 <= k < front.len() && (forall|m: int| 0 <= m < cells.len() ==> cells[m].0 * w + cells[m].1 != k)
                ==> #[trigger] mark_all(front, listed_marks(w, cells), alive)[k] == front[k],
{
    let marks = listed_marks(w, cells);
    assert forall|m: int|
        0 <= m < cells.len() && 0 <= #[trigger] (cells[m].0 * w + cells[m].1) < front.len() implies mark_all(
            front,
            marks,
            alive,
        )[cells[m].0 * w + cells[m].1] == alive by {
        assert(marks[m] == cells[m].0 * w + cells[m].1);
        assert(marks.contains(cells[m].0 * w + cells[m].1));
    }
    assert forall|k: int|
        0 <= k < front.len() && (forall|m: int| 0 <= m < cells.len() ==> cells[m].0 * w + cells[m].1 != k) implies
        #[trigger] mark_all(front, marks, alive)[k] == front[k] by {
        if marks.contains(k) {
            let m = choose|m: int| 0 <= m < marks.len() && marks[m] == k;
            assert(cells[m].0 * w + cells[m].1 != k);
        }
    }
}

/// The magnitude of an offset.
pub open spec fn magnitude(d: int) -> int {
    if d < 0 {
        -d
    } else {
        d
    }
}

/// Whether (`dx`, `dy`) is one of the forty-eight cells of a pulsar around
/// its centre: one coordinate is 1 or 6 away and the other 2, 3 or 4 away,
/// in any of the four quadrants.
pub open spec fn in_pulsar(dx: int, dy: int) -> bool {
    let ax = magnitude(dx);
    let ay = magnitude(dy);
    ||| (ax == 1 || ax == 6) && (2 <= ay <= 4)
    ||| (ay == 1 || ay == 6) && (2 <= ax <= 4)
}

/// The twelve cells of the first quadrant lie in it, with both offsets
/// positive, and are all different.
proof fn lemma_pulsar_base_facts()
    ensures
        pulsar_base().len() == 12,
        forall|i: int|
            0 <= i < 12 ==> {
                &&& 1 <= #[trigger] pulsar_base()[i].0 <= 6
                &&& 1 <= pulsar_base()[i].1 <= 6
                &&& in_pulsar(pulsar_base()[i].0 as int, pulsar_base()[i].1 as int)
            },
        forall|i: int, j: int|
            0 <= i < 12 && 0 <= j < 12 && i != j ==> #[trigger] pulsar_base()[i] != #[trigger] pulsar_base()[j],
{
    let b = pulsar_base();
    assert(b[0] == (1i32, 2i32));
    assert(b[1] == (1i32, 3i32));
    assert(b[2] == (1i32, 4i32));
    assert(b[3] == (2i32, 6i32));
    assert(b[4] == (3i32, 6i32));
    assert(b[5] == (4i32, 6i32));
    assert(b[6] == (6i32, 4i32));
    assert(b[7] == (6i32, 3i32));
    assert(b[8] == (6i32, 2i32));
    assert(b[9] == (2i32, 1i32));
    assert(b[10] == (3i32, 1i32));
    assert(b[11] == (4i32, 1i32));
    assert forall|i: int| 0 <= i < 12 implies {
        &&& 1 <= #[trigger] b[i].0 <= 6
        &&& 1 <= b[i].1 <= 6
        &&& in_pulsar(b[i].0 as int, b[i].1 as int)
    } by {
        assert(i == 0 || i == 1 || i == 2 || i == 3 || i == 4 || i == 5 || i == 6 || i == 7 || i == 8 || i == 9
            || i == 10 || i == 11);
    }
    assert forall|i: int, j: int| 0 <= i < 12 && 0 <= j < 12 && i != j implies #[trigger] b[i] != #[trigger] b[j] by {
        assert(i == 0 || i == 1 || i == 2 || i == 3 || i == 4 || i == 5 || i == 6 || i == 7 || i == 8 || i == 9
            || i == 10 || i == 11);
        assert(j == 0 || j == 1 || j == 2 || j == 3 || j == 4 || j == 5 || j == 6 || j == 7 || j == 8 || j == 9
            || j == 10 || j == 11);
    }
}

/// The forty-eight offsets of a pulsar are the forty-eight cells of its
/// shape, each once: every offset lies in the shape, and no two are the same.
pub proof fn lemma_pulsar_shape()
    ensures
        forall|k: int| 0 <= k < 48 ==> in_pulsar(#[trigger] pulsar_offset(k).0, pulsar_offset(k).1),
        forall|j: int, k: int|
            0 <= j < 48 && 0 <= k < 48 && j != k ==> #[trigger] pulsar_offset(j) != #[trigger] pulsar_offset(k),
{
    lemma_pulsar_base_facts();
    let b = pulsar_base();
    assert forall|k: int| 0 <= k < 48 implies in_pulsar(#[trigger] pulsar_offset(k).0, pulsar_offset(k).1) by {
        if k < 12 {
            assert(1 <= b[k].0);
        } else if k < 24 {
            assert(1 <= b[k - 12].0);
        } else if k < 36 {
            assert(1 <= b[k - 24].0);
        } else {
            assert(1 <= b[k - 36].0);
        }
    }
    assert forall|j: int, k: int| 0 <= j < 48 && 0 <= k < 48 && j != k implies #[trigger] pulsar_offset(j)
        != #[trigger] pulsar_offset(k) by {
        let qj = if j < 12 {
            0int
        } else if j < 24 {
            1int
        } else if j < 36 {
            2int
        } else {
            3int
        };
        let qk = if k < 12 {
            0int
        } else if k < 24 {
            1int
        } else if k < 36 {
            2int
        } else {
            3int
        };
        let ij = j - 12 * qj;
        let ik = k - 12 * qk;
        assert(1 <= b[ij].0 && 1 <= b[ij].1);
        assert(1 <= b[ik].0 && 1 <= b[ik].1);
        if qj == qk {
            assert(ij != ik);
            assert(b[ij] != b[ik]);
        }
    }
}

/// A pulsar centred at (`row`, `col`) of a `w` by `h` torus brings to life,
/// for each of its offsets (`dx`, `dy`), the cell in row `(row + dy) % h` and
/// column `(col + dx) % w`: `dx` moves along a row and `dy` down a column.
pub proof fn lemma_pulsar_cells(row: u32, col: u32, w: u32, h: u32)
    requires
        row <= i32::MAX,
        col <= i32::MAX,
        forall|k: int| 0 <= k < 48 ==> #[trigger] pulsar_point_ok(pulsar_offset(k), row, col, w, h),
    ensures
        forall|k: int|
            0 <= k < 48 ==> #[trigger] pulsar_marks(row, col, w, h)[k] == ((row + pulsar_offset(k).1) % (h as int))
                * w + (col + pulsar_offset(k).0) % (w as int),
{
    assert forall|k: int| 0 <= k < 48 implies #[trigger] pulsar_marks(row, col, w, h)[k] == ((row + pulsar_offset(
        k,
    ).1) % (h as int)) * w + (col + pulsar_offset(k).0) % (w as int) by {
        assert(pulsar_point_ok(pulsar_offset(k), row, col, w, h));
        let o = pulsar_offset(k);
        let x = o.0 + col;
        let y = o.1 + row;
        assert((col as i32) as int == col as int);
        assert((row as i32) as int == row as int);
        if x < 0 {
            lemma_fundamental_div_mod_converse(x, w as int, -1, x + w);
        }
        if y < 0 {
            lemma_fundamental_div_mod_converse(y, h as int, -1, y + h);
        }
    }
}

/// Whether bit `j` of the byte `b` is set, counting from the least
/// significant: the `j`-th binary digit of its value.
pub open spec fn digit(b: u8, j: int) -> bool {
    ((b as int) / (pow2(j as nat) as int)) % 2 == 1
}

/// Testing bit `j` of a byte by shifting and masking reads its `j`-th binary
/// digit.
pub proof fn lemma_byte_bit_digit(b: u8, j: u32)
    requires
        j < 8,
    ensures
        byte_bit(b, j) == digit(b, j as int),
{
    lemma2_to64();
    if j == 0 {
        assert(((b >> 0u32) & 1u8 == 1u8) == ((b / 1u8) % 2u8 == 1u8)) by (bit_vector);
    } else if j == 1 {
        assert(((b >> 1u32) & 1u8 == 1u8) == ((b / 2u8) % 2u8 == 1u8)) by (bit_vector);
    } else if j == 2 {
        assert(((b >> 2u32) & 1u8 == 1u8) == ((b / 4u8) % 2u8 == 1u8)) by (bit_vector);
    } else if j == 3 {
        assert(((b >> 3u32) & 1u8 == 1u8) == ((b / 8u8) % 2u8 == 1u8)) by (bit_vector);
    } else if j == 4 {
        assert(((b >> 4u32) & 1u8 == 1u8) == ((b / 16u8) % 2u8 == 1u8)) by (bit_vector);
    } else if j == 5 {
        assert(((b >> 5u32) & 1u8 == 1u8) == ((b / 32u8) % 2u8 == 1u8)) by (bit_vector);
    } else if j == 6 {
        assert(((b >> 6u32) & 1u8 == 1u8) == ((b / 64u8) % 2u8 == 1u8)) by (bit_vector);
    } else {
        assert(((b >> 7u32) & 1u8 == 1u8) == ((b / 128u8) % 2u8 == 1u8)) by (bit_vector);
    }
}

/// Filling cells from bytes decides each of the first `size` cells by its
/// bit alone, whatever the cell held before: cell `k` becomes `on` when
/// binary digit `k % 8` of byte `k / 8` is set and `off` when it is clear.
pub proof fn lemma_random_cells<T>(cells: Seq<T>, bytes: Seq<u8>, size: int, on: T, off: T)
    ensures
        random_fill(cells, bytes, size, on, off).len() == cells.len(),
        forall|k: int|
            0 <= k < size && k < cells.len() ==> #[trigger] random_fill(cells, bytes, size, on, off)[k] == if digit(
                bytes[k / 8],
                k % 8,
            ) {
                on
            } else {
                off
            },
{
    assert forall|k: int| 0 <= k < size && k < cells.len() implies #[trigger] random_fill(
        cells,
        bytes,
        size,
        on,
        off,
    )[k] == if digit(bytes[k / 8], k % 8) {
        on
    } else {
        off
    } by {
        lemma_byte_bit_digit(bytes[k / 8], (k % 8) as u32);
    }
}

/// Randomizing a bit universe whose size is a multiple of eight shows, at
/// every cell `k`, binary digit `k % 8` of byte `k / 8`, whatever was there.
pub proof fn lemma_randomized_universe(u1: &Universe, u0: &Universe, bytes: Seq<u8>, k: int)
    requires
        u1.randomized_from(u0, bytes),
        (u0.width_spec() * u0.height_spec()) % 8 == 0,
        0 <= k < u0.width_spec() * u0.height_spec(),
        k < u0.back().len(),
    ensures
        u1.front()[k] == digit(bytes[k / 8], k % 8),
{
    lemma_random_cells(u0.back(), bytes, u0.width_spec() * u0.height_spec(), true, false);
}

/// Randomizing a universe of cell states whose size is a multiple of eight
/// makes cell `k` alive exactly when binary digit `k % 8` of byte `k / 8` is
/// set, whatever was there.
pub proof fn lemma_randomized_universe_v2(u1: &Universe_v2, u0: &Universe_v2, bytes: Seq<u8>, k: int)
    requires
        u1.randomized_from(u0, bytes),
        (u0.width_spec() * u0.height_spec()) % 8 == 0,
        0 <= k < u0.width_spec() * u0.height_spec(),
        k < u0.back().len(),
    ensures
        is_alive(u1.front()[k]) == digit(bytes[k / 8], k % 8),
{
    lemma_random_cells(u0.back(), bytes, u0.width_spec() * u0.height_spec(), CellState::Alive, CellState::Dead);
}

/// A new universe's cells: alive at every index divisible by two or by
/// seven, dead elsewhere.
pub proof fn lemma_seed_cells<T>(size: nat, on: T, off: T)
    ensures
        seed_pattern(size, on, off).len() == size,
        forall|k: int|
            0 <= k < size ==> #[trigger] seed_pattern(size, on, off)[k] == if k % 2 == 0 || k % 7 == 0 {
                on
            } else {
                off
            },
{
}

/// The scratch bytes hold one bit per cell with fewer than eight to spare.
pub proof fn lemma_byte_count_bounds(size: int)
    requires
        0 <= size,
    ensures
        size <= 8 * byte_count(size) < size + 8,
{
}

/// Toggling a cell state turns a live cell dead and a dead one alive.
pub proof fn lemma_toggled_flips(c: CellState)
    ensures
        is_alive(toggled(c)) == !is_alive(c),
        toggled(c) != c,
{
}

/// For `k` in a grid of width `n`, its row `k / n` and column `k % n` lie in
/// the grid and give `k` back.
proof fn lemma_div_bounds(k: int, n: int)
    requires
        1 <= n,
        0 <= k < n * n,
    ensures
        0 <= k / n < n,
        0 <= k % n < n,
        k == (k / n) * n + k % n,
{
    assert(0 <= k / n < n && 0 <= k % n < n && k == (k / n) * n + k % n) by (nonlinear_arith)
        requires
            1 <= n,
            0 <= k < n * n,
    ;
}

} // verus!
