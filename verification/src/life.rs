//! What one generation of the automaton is: the neighbourhood of a cell on a
//! ring-wrapped grid, the rule of Conway's Game of Life, and the order in
//! which a generation is written out.
use vstd::prelude::*;
use crate::geometry::{mirror_x, mirror_xy, mirror_y, point, wrappable, wrapped};
use vstd::arithmetic::div_mod::lemma_fundamental_div_mod_converse;

verus! {

/// The row (or column) before `r` on a ring of `n`.
pub open spec fn ring_prev(r: int, n: int) -> int {
    if r == 0 {
        n - 1
    } else {
        r - 1
    }
}

/// The row (or column) after `r` on a ring of `n`.
pub open spec fn ring_next(r: int, n: int) -> int {
    if r == n - 1 {
        0
    } else {
        r + 1
    }
}

/// The position of the cell at (`row`, `col`) in row-major order, `w` cells
/// to a row.
pub open spec fn cell_index(w: int, row: int, col: int) -> int {
    row * w + col
}

/// The eight neighbours of (`row`, `col`), as (row, column) pairs, on a grid
/// of `w` columns and `h` rows whose edges wrap around.
pub open spec fn neighbour_positions(w: int, h: int, row: int, col: int) -> Seq<(int, int)> {
    let mr = ring_prev(row, h);
    let pr = ring_next(row, h);
    let mc = ring_prev(col, w);
    let pc = ring_next(col, w);
    seq![(mr, col), (mr, mc), (mr, pc), (pr, col), (pr, mc), (pr, pc), (row, mc), (row, pc)]
}

/// Whether the cell at `idx` is alive; a position past the end is dead.
pub open spec fn lit(cells: Seq<bool>, idx: int) -> bool {
    0 <= idx < cells.len() && cells[idx]
}

/// One for a live cell, zero for a dead one.
pub open spec fn bit(b: bool) -> int {
    if b {
        1
    } else {
        0
    }
}

/// How many of the eight neighbours of (`row`, `col`) are alive.
pub open spec fn live_neighbours(cells: Seq<bool>, w: int, h: int, row: int, col: int) -> int {
    let p = neighbour_positions(w, h, row, col);
    bit(lit(cells, cell_index(w, p[0].0, p[0].1))) + bit(lit(cells, cell_index(w, p[1].0, p[1].1)))
        + bit(lit(cells, cell_index(w, p[2].0, p[2].1))) + bit(lit(cells, cell_index(w, p[3].0, p[3].1)))
        + bit(lit(cells, cell_index(w, p[4].0, p[4].1))) + bit(lit(cells, cell_index(w, p[5].0, p[5].1)))
        + bit(lit(cells, cell_index(w, p[6].0, p[6].1))) + bit(lit(cells, cell_index(w, p[7].0, p[7].1)))
}

/// A cell has between zero and eight live neighbours.
pub proof fn lemma_live_neighbours_bounded(cells: Seq<bool>, w: int, h: int, row: int, col: int)
    ensures
        0 <= live_neighbours(cells, w, h, row, col) <= 8,
{
}

/// Conway's rule: a live cell survives with two or three live neighbours, a
/// dead cell comes alive with exactly three.
pub open spec fn life_rule(alive: bool, n: int) -> bool {
    if alive {
        n == 2 || n == 3
    } else {
        n == 3
    }
}

/// The next state of the cell at (`row`, `col`).
pub open spec fn next_state(cells: Seq<bool>, w: int, h: int, row: int, col: int) -> bool {
    life_rule(lit(cells, cell_index(w, row, col)), live_neighbours(cells, w, h, row, col))
}

/// Every index that counting the neighbours of (`row`, `col`) computes fits
/// in a `u32`: the grid is not empty, the next row and column can be formed,
/// and each neighbour's index is small enough.
pub open spec fn neighbours_fit(w: int, h: int, row: int, col: int) -> bool {
    let p = neighbour_positions(w, h, row, col);
    &&& 1 <= w
    &&& 1 <= h
    &&& row < u32::MAX
    &&& col < u32::MAX
    &&& forall|k: int| 0 <= k < 8 ==> cell_index(w, #[trigger] p[k].0, p[k].1) <= u32::MAX
}

/// Each neighbour of (`row`, `col`) lies within `len` cells.
pub open spec fn neighbours_within(w: int, h: int, row: int, col: int, len: int) -> bool {
    let p = neighbour_positions(w, h, row, col);
    forall|k: int| 0 <= k < 8 ==> cell_index(w, #[trigger] p[k].0, p[k].1) < len
}

/// Visiting (`row`, `col`) while computing a generation computes only indices
/// that fit in a `u32`, and the cell's own index lies within `len` cells of
/// the buffer it is written to.
pub open spec fn visit_writable(w: int, h: int, row: int, col: int, len: int) -> bool {
    &&& neighbours_fit(w, h, row, col)
    &&& cell_index(w, row, col) <= u32::MAX
    &&& cell_index(w, row, col) < len
}

/// The back buffer after the cells (`i`, 0) .. (`i`, `j` - 1) of row `i` have
/// been written, in that order, over `acc`.
pub open spec fn tick_row(front: Seq<bool>, acc: Seq<bool>, w: int, h: int, i: int, j: nat) -> Seq<bool>
    decreases j,
{
    if j == 0 {
        acc
    } else {
        let jj = j - 1;
        tick_row(front, acc, w, h, i, (j - 1) as nat).update(
            cell_index(w, i, jj),
            next_state(front, w, h, i, jj),
        )
    }
}

/// The back buffer after rows 0 .. `i` - 1 have been written over `back`.
pub open spec fn tick_rows(front: Seq<bool>, back: Seq<bool>, w: int, h: int, i: nat) -> Seq<bool>
    decreases i,
{
    if i == 0 {
        back
    } else {
        tick_row(front, tick_rows(front, back, w, h, (i - 1) as nat), w, h, i - 1, h as nat)
    }
}

/// A generation computed from `front` into `back`: for `i` below `w` and `j`
/// below `h`, in that order, the next state of the cell (`i`, `j`) is written
/// at index `i * w + j`.
pub open spec fn ticked(front: Seq<bool>, back: Seq<bool>, w: int, h: int) -> Seq<bool> {
    tick_rows(front, back, w, h, w as nat)
}

/// Writing the first `j` cells of row `i` of an `n` by `n` grid sets exactly
/// the indices `i * n` .. `i * n + j - 1`.
proof fn lemma_tick_row_square(front: Seq<bool>, acc: Seq<bool>, n: int, i: int, j: nat)
    requires
        1 <= n,
        0 <= i < n,
        j <= n,
        acc.len() == n * n,
    ensures
        tick_row(front, acc, n, n, i, j).len() == acc.len(),
        forall|k: int|
            0 <= k < acc.len() ==> #[trigger] tick_row(front, acc, n, n, i, j)[k] == if i * n <= k < i * n + j {
                next_state(front, n, n, i, k - i * n)
            } else {
                acc[k]
            },
    decreases j,
{
    if j > 0 {
        lemma_tick_row_square(front, acc, n, i, (j - 1) as nat);
        assert(i * n + n <= n * n) by (nonlinear_arith)
            requires
                0 <= i < n,
        ;
        assert(0 <= i * n) by (nonlinear_arith)
            requires
                0 <= i,
                1 <= n,
        ;
    }
}

/// After the first `i` rows of an `n` by `n` grid are written, the cells
/// before index `i * n` hold the next generation and the others are as they
/// were.
proof fn lemma_tick_rows_square(front: Seq<bool>, back: Seq<bool>, n: int, i: nat)
    requires
        1 <= n,
        i <= n,
        back.len() == n * n,
    ensures
        tick_rows(front, back, n, n, i).len() == back.len(),
        forall|k: int|
            0 <= k < back.len() ==> #[trigger] tick_rows(front, back, n, n, i)[k] == if k < i * n {
                next_state(front, n, n, k / n, k % n)
            } else {
                back[k]
            },
    decreases i,
{
    if i > 0 {
        let ii = i - 1;
        lemma_tick_rows_square(front, back, n, (i - 1) as nat);
        let acc = tick_rows(front, back, n, n, (i - 1) as nat);
        lemma_tick_row_square(front, acc, n, ii, n as nat);
        assert(ii * n + n == i * n) by (nonlinear_arith)
            requires
                ii == i - 1,
        ;
        assert forall|k: int| 0 <= k < back.len() implies #[trigger] tick_rows(front, back, n, n, i)[k]
            == if k < i * n {
            next_state(front, n, n, k / n, k % n)
        } else {
            back[k]
        } by {
            if ii * n <= k < i * n {
                lemma_fundamental_div_mod_converse(k, n, ii, k - ii * n);
            }
        }
    }
}

/// On an `n` by `n` grid a generation gives every cell, at index `k`, the
/// next state of the cell in row `k / n` and column `k % n`.
pub proof fn lemma_ticked_square(front: Seq<bool>, back: Seq<bool>, n: int)
    requires
        1 <= n,
        back.len() == n * n,
    ensures
        ticked(front, back, n, n) == Seq::new((n * n) as nat, |k: int| next_state(front, n, n, k / n, k % n)),
{
    lemma_tick_rows_square(front, back, n, n as nat);
    assert(ticked(front, back, n, n) =~= Seq::new((n * n) as nat, |k: int| next_state(front, n, n, k / n, k % n)));
}

/// The cell at row `r` and column `c` of a `w` by `h` torus: both coordinates
/// are taken modulo the grid's size.
pub open spec fn torus_cell(cells: Seq<bool>, w: int, h: int, r: int, c: int) -> bool {
    cells[(r % h) * w + (c % w)]
}

/// How many of the eight cells around (`row`, `col`) on a `w` by `h` torus
/// are alive.
pub open spec fn torus_live_neighbours(cells: Seq<bool>, w: int, h: int, row: int, col: int) -> int {
    bit(torus_cell(cells, w, h, row - 1, col - 1)) + bit(torus_cell(cells, w, h, row - 1, col))
        + bit(torus_cell(cells, w, h, row - 1, col + 1)) + bit(torus_cell(cells, w, h, row, col - 1))
        + bit(torus_cell(cells, w, h, row, col + 1)) + bit(torus_cell(cells, w, h, row + 1, col - 1))
        + bit(torus_cell(cells, w, h, row + 1, col)) + bit(torus_cell(cells, w, h, row + 1, col + 1))
}

/// On a ring of `n`, the steps back and forward are subtraction and addition
/// of one modulo `n`.
pub proof fn lemma_ring_steps(r: int, n: int)
    requires
        0 <= r < n,
    ensures
        ring_prev(r, n) == (r - 1) % n,
        ring_next(r, n) == (r + 1) % n,
        0 <= ring_prev(r, n) < n,
        0 <= ring_next(r, n) < n,
        r % n == r,
{
    if r == 0 {
        lemma_fundamental_div_mod_converse(-1, n, -1, n - 1);
    } else {
        lemma_fundamental_div_mod_converse(r - 1, n, 0, r - 1);
    }
    if r == n - 1 {
        lemma_fundamental_div_mod_converse(r + 1, n, 1, 0);
    } else {
        lemma_fundamental_div_mod_converse(r + 1, n, 0, r + 1);
    }
    lemma_fundamental_div_mod_converse(r, n, 0, r);
}

/// A position on the grid has an index within it.
pub proof fn lemma_index_in_grid(w: int, h: int, r: int, c: int)
    requires
        0 <= r < h,
        0 <= c < w,
    ensures
        0 <= cell_index(w, r, c) < w * h,
{
    assert(0 <= r * w + c < w * h) by (nonlinear_arith)
        requires
            0 <= r < h,
            0 <= c < w,
    ;
}

/// On a full `n` by `n` grid whose size fits a `u32`, visiting any cell
/// computes only indices that fit and reads and writes only within the grid.
pub proof fn lemma_square_visit(n: int, row: int, col: int)
    requires
        0 <= row < n,
        0 <= col < n,
        n * n <= u32::MAX,
    ensures
        neighbours_fit(n, n, row, col),
        neighbours_within(n, n, row, col, n * n),
        visit_writable(n, n, row, col, n * n),
{
    lemma_ring_steps(row, n);
    lemma_ring_steps(col, n);
    let p = neighbour_positions(n, n, row, col);
    lemma_index_in_grid(n, n, row, col);
    lemma_index_in_grid(n, n, p[0].0, p[0].1);
    lemma_index_in_grid(n, n, p[1].0, p[1].1);
    lemma_index_in_grid(n, n, p[2].0, p[2].1);
    lemma_index_in_grid(n, n, p[3].0, p[3].1);
    lemma_index_in_grid(n, n, p[4].0, p[4].1);
    lemma_index_in_grid(n, n, p[5].0, p[5].1);
    lemma_index_in_grid(n, n, p[6].0, p[6].1);
    lemma_index_in_grid(n, n, p[7].0, p[7].1);
    assert(n <= n * n) by (nonlinear_arith)
        requires
            1 <= n,
    ;
    assert forall|k: int| 0 <= k < 8 implies cell_index(n, #[trigger] p[k].0, p[k].1) < n * n by {
        assert(0 <= k < 8);
    }
}

/// On a grid whose cells all exist, the neighbours that are counted are the
/// eight cells around (`row`, `col`) on the torus, and the cell itself is the
/// one at its index.
pub proof fn lemma_neighbours_on_torus(cells: Seq<bool>, w: int, h: int, row: int, col: int)
    requires
        0 <= row < h,
        0 <= col < w,
        cells.len() == w * h,
    ensures
        live_neighbours(cells, w, h, row, col) == torus_live_neighbours(cells, w, h, row, col),
        lit(cells, cell_index(w, row, col)) == torus_cell(cells, w, h, row, col),
{
    lemma_ring_steps(row, h);
    lemma_ring_steps(col, w);
    let mr = ring_prev(row, h);
    let pr = ring_next(row, h);
    let mc = ring_prev(col, w);
    let pc = ring_next(col, w);
    lemma_index_in_grid(w, h, row, col);
    lemma_index_in_grid(w, h, mr, col);
    lemma_index_in_grid(w, h, mr, mc);
    lemma_index_in_grid(w, h, mr, pc);
    lemma_index_in_grid(w, h, pr, col);
    lemma_index_in_grid(w, h, pr, mc);
    lemma_index_in_grid(w, h, pr, pc);
    lemma_index_in_grid(w, h, row, mc);
    lemma_index_in_grid(w, h, row, pc);
}

/// Whether (`r2`, `c2`) is one of the eight cells around (`row`, `col`) on a
/// `w` by `h` torus: another cell whose row and column each differ by at
/// most one, modulo the grid's size.
pub open spec fn is_torus_neighbour(w: int, h: int, row: int, col: int, r2: int, c2: int) -> bool {
    &&& (r2, c2) != (row, col)
    &&& ((r2 - row) % h == 0 || (r2 - row) % h == 1 || (r2 - row) % h == h - 1)
    &&& ((c2 - col) % w == 0 || (c2 - col) % w == 1 || (c2 - col) % w == w - 1)
}

/// On a ring of at least three, a position is the one before `a`, `a`
/// itself, or the one after, exactly as its distance from `a` is `n - 1`,
/// zero or one modulo `n`; and those three are distinct.
proof fn lemma_ring_match(a: int, b: int, n: int)
    requires
        3 <= n,
        0 <= a < n,
        0 <= b < n,
    ensures
        (b == a) <==> ((b - a) % n == 0),
        (b == ring_next(a, n)) <==> ((b - a) % n == 1),
        (b == ring_prev(a, n)) <==> ((b - a) % n == n - 1),
        ring_prev(a, n) != a,
        ring_next(a, n) != a,
        ring_prev(a, n) != ring_next(a, n),
{
    if b >= a {
        lemma_fundamental_div_mod_converse(b - a, n, 0, b - a);
    } else {
        lemma_fundamental_div_mod_converse(b - a, n, -1, b - a + n);
    }
}

/// Within a grid row of `w` cells, the index determines row and column.
proof fn lemma_index_injective(w: int, r: int, c: int, r2: int, c2: int)
    requires
        0 <= c < w,
        0 <= c2 < w,
        cell_index(w, r, c) == cell_index(w, r2, c2),
    ensures
        r == r2,
        c == c2,
{
    lemma_fundamental_div_mod_converse(cell_index(w, r, c), w, r, c);
    lemma_fundamental_div_mod_converse(cell_index(w, r2, c2), w, r2, c2);
}

/// Flipping one cell of a grid of at least three by three changes the live
/// neighbour count of (`row`, `col`) by one when the flipped cell is one of
/// its eight neighbours on the torus (down when it was alive, up when it was
/// dead), and leaves the count as it was otherwise.
pub proof fn lemma_toggle_neighbour_count(cells: Seq<bool>, w: int, h: int, row: int, col: int, r2: int, c2: int)
    requires
        3 <= w,
        3 <= h,
        cells.len() == w * h,
        0 <= row < h,
        0 <= col < w,
        0 <= r2 < h,
        0 <= c2 < w,
    ensures
        ({
            let k = cell_index(w, r2, c2);
            live_neighbours(cells.update(k, !cells[k]), w, h, row, col) == live_neighbours(cells, w, h, row, col)
                + if is_torus_neighbour(w, h, row, col, r2, c2) {
                if cells[k] {
                    -1int
                } else {
                    1int
                }
            } else {
                0int
            }
        }),
{
    let k = cell_index(w, r2, c2);
    let flipped_cells = cells.update(k, !cells[k]);
    let p = neighbour_positions(w, h, row, col);
    lemma_index_in_grid(w, h, r2, c2);
    lemma_ring_steps(row, h);
    lemma_ring_steps(col, w);
    lemma_ring_match(row, r2, h);
    lemma_ring_match(col, c2, w);
    assert forall|m: int| 0 <= m < 8 implies {
        &&& 0 <= #[trigger] cell_index(w, p[m].0, p[m].1) < w * h
        &&& (cell_index(w, p[m].0, p[m].1) == k <==> p[m] == (r2, c2))
        &&& lit(flipped_cells, cell_index(w, p[m].0, p[m].1)) == if p[m] == (r2, c2) {
            !cells[k]
        } else {
            lit(cells, cell_index(w, p[m].0, p[m].1))
        }
    } by {
        lemma_index_in_grid(w, h, p[m].0, p[m].1);
        if cell_index(w, p[m].0, p[m].1) == k {
            lemma_index_injective(w, p[m].0, p[m].1, r2, c2);
        }
    }
    assert(cell_index(w, p[0].0, p[0].1) >= 0);
    assert(cell_index(w, p[1].0, p[1].1) >= 0);
    assert(cell_index(w, p[2].0, p[2].1) >= 0);
    assert(cell_index(w, p[3].0, p[3].1) >= 0);
    assert(cell_index(w, p[4].0, p[4].1) >= 0);
    assert(cell_index(w, p[5].0, p[5].1) >= 0);
    assert(cell_index(w, p[6].0, p[6].1) >= 0);
    assert(cell_index(w, p[7].0, p[7].1) >= 0);
}

/// One generation on an `n` by `n` grid is Conway's Game of Life on the
/// torus: the cell in row `row` and column `col` lives on if it has two or
/// three live neighbours among the eight around it, edges wrapping, and a
/// dead one comes alive with exactly three.
pub proof fn lemma_generation_on_torus(front: Seq<bool>, back: Seq<bool>, n: int, row: int, col: int)
    requires
        front.len() == n * n,
        back.len() == n * n,
        0 <= row < n,
        0 <= col < n,
    ensures
        ticked(front, back, n, n)[row * n + col] == life_rule(
            front[row * n + col],
            torus_live_neighbours(front, n, n, row, col),
        ),
{
    lemma_ticked_square(front, back, n);
    lemma_index_in_grid(n, n, row, col);
    lemma_fundamental_div_mod_converse(row * n + col, n, row, col);
    lemma_neighbours_on_torus(front, n, n, row, col);
    lemma_ring_steps(row, n);
    lemma_ring_steps(col, n);
}

/// `cells` with every index that `marks` lists set to `alive`.
pub open spec fn mark_all<T>(cells: Seq<T>, marks: Seq<int>, alive: T) -> Seq<T> {
    Seq::new(cells.len(), |k: int| if marks.contains(k) { alive } else { cells[k] })
}

/// Marking one more index is setting that cell.
pub proof fn lemma_mark_push<T>(cells: Seq<T>, marks: Seq<int>, alive: T, idx: int)
    requires
        0 <= idx < cells.len(),
    ensures
        mark_all(cells, marks.push(idx), alive) == mark_all(cells, marks, alive).update(idx, alive),
{
    assert forall|k: int| 0 <= k < cells.len() implies #[trigger] mark_all(cells, marks.push(idx), alive)[k]
        == mark_all(cells, marks, alive).update(idx, alive)[k] by {
        if k == idx {
            assert(marks.push(idx)[marks.len() as int] == idx);
        } else {
            if marks.push(idx).contains(k) {
                let m = choose|m: int| 0 <= m < marks.push(idx).len() && marks.push(idx)[m] == k;
                assert(marks[m] == k);
            }
            if marks.contains(k) {
                let m = choose|m: int| 0 <= m < marks.len() && marks[m] == k;
                assert(marks.push(idx)[m] == k);
            }
        }
    }
    assert(mark_all(cells, marks.push(idx), alive) =~= mark_all(cells, marks, alive).update(idx, alive));
}

/// Marking the same cells again changes nothing.
pub proof fn lemma_mark_twice<T>(cells: Seq<T>, marks: Seq<int>, alive: T)
    ensures
        mark_all(mark_all(cells, marks, alive), marks, alive) == mark_all(cells, marks, alive),
{
    assert(mark_all(mark_all(cells, marks, alive), marks, alive) =~= mark_all(cells, marks, alive));
}

/// Marking nothing changes nothing.
pub proof fn lemma_mark_none<T>(cells: Seq<T>, alive: T)
    ensures
        mark_all(cells, Seq::<int>::empty(), alive) == cells,
{
    assert(mark_all(cells, Seq::<int>::empty(), alive) =~= cells);
}

/// `cells` with its first `size` cells drawn from the bits of `bytes`: cell
/// `k` is `on` when bit `k % 8` of byte `k / 8` is set, and `off` otherwise.
pub open spec fn random_fill<T>(cells: Seq<T>, bytes: Seq<u8>, size: int, on: T, off: T) -> Seq<T> {
    Seq::new(
        cells.len(),
        |k: int|
            if k < size {
                if byte_bit(bytes[k / 8], (k % 8) as u32) {
                    on
                } else {
                    off
                }
            } else {
                cells[k]
            },
    )
}

/// Whether cell `k` starts out alive in a new universe: every second cell and
/// every seventh.
pub open spec fn seeded(k: int) -> bool {
    k % 2 == 0 || k % 7 == 0
}

/// The cells that a new universe starts with: `on` where `seeded` holds.
pub open spec fn seed_pattern<T>(size: nat, on: T, off: T) -> Seq<T> {
    Seq::new(size, |k: int| if seeded(k) { on } else { off })
}

/// Placing a glider at (`row`, `col`) computes only indices that fit in a
/// `u32`: the grid is not empty, and the next row and column can be formed.
pub open spec fn glider_fits(w: int, h: int, row: int, col: int) -> bool {
    &&& 1 <= w
    &&& 1 <= h
    &&& row < u32::MAX
    &&& col < u32::MAX
}

/// The five cells of a glider placed at (`row`, `col`), edges wrapping: the
/// cell to the left, the one below, and the column to the right from the row
/// above to the row below.
pub open spec fn glider_marks(w: int, h: int, row: int, col: int) -> Seq<int> {
    let mr = ring_prev(row, h);
    let pr = ring_next(row, h);
    let mc = ring_prev(col, w);
    let pc = ring_next(col, w);
    seq![
        cell_index(w, row, mc),
        cell_index(w, pr, col),
        cell_index(w, row, pc),
        cell_index(w, pr, pc),
        cell_index(w, mr, pc),
    ]
}

/// The twelve cells, as (x, y) offsets from the centre, of one quarter of a
/// pulsar.
pub open spec fn pulsar_base() -> Seq<(i32, i32)> {
    seq![
        (1i32, 2i32),
        (1i32, 3i32),
        (1i32, 4i32),
        (2i32, 6i32),
        (3i32, 6i32),
        (4i32, 6i32),
        (6i32, 4i32),
        (6i32, 3i32),
        (6i32, 2i32),
        (2i32, 1i32),
        (3i32, 1i32),
        (4i32, 1i32),
    ]
}

/// The `k`-th of the forty-eight offsets of a pulsar: the quarter as it is,
/// then mirrored across the x axis, across the y axis, and through the
/// centre.
pub open spec fn pulsar_offset(k: int) -> (int, int) {
    if k < 12 {
        point(pulsar_base()[k])
    } else if k < 24 {
        mirror_x(point(pulsar_base()[k - 12]))
    } else if k < 36 {
        mirror_y(point(pulsar_base()[k - 24]))
    } else {
        mirror_xy(point(pulsar_base()[k - 36]))
    }
}

/// The offset `o` moved to the centre (`col`, `row`), the centre's bits read
/// as `i32`s.
pub open spec fn pulsar_point(o: (int, int), row: u32, col: u32) -> (int, int) {
    (o.0 + (col as i32), o.1 + (row as i32))
}

/// The index of the cell that the offset `o` marks around (`row`, `col`),
/// the point wrapped onto a `w` by `h` torus.
pub open spec fn pulsar_target(o: (int, int), row: u32, col: u32, w: u32, h: u32) -> int {
    let p = pulsar_point(o, row, col);
    cell_index(w as int, wrapped(p.1 as i32, h), wrapped(p.0 as i32, w))
}

/// Marking the offset `o` around (`row`, `col`) can be done: the moved point
/// fits in an `i32`, it can be wrapped, and its index fits in a `u32`.
pub open spec fn pulsar_point_ok(o: (int, int), row: u32, col: u32, w: u32, h: u32) -> bool {
    let p = pulsar_point(o, row, col);
    &&& i32::MIN <= p.0 <= i32::MAX
    &&& i32::MIN <= p.1 <= i32::MAX
    &&& wrappable(p.0 as i32, w)
    &&& wrappable(p.1 as i32, h)
    &&& pulsar_target(o, row, col, w, h) <= u32::MAX
}

/// The forty-eight cells of a pulsar centred at (`row`, `col`).
pub open spec fn pulsar_marks(row: u32, col: u32, w: u32, h: u32) -> Seq<int> {
    Seq::new(48, |k: int| pulsar_target(pulsar_offset(k), row, col, w, h))
}

/// How many bytes hold `size` bits, one bit each.
pub open spec fn byte_count(size: int) -> int {
    size / 8 + if size % 8 != 0 {
        1int
    } else {
        0int
    }
}

/// Bit `j` of the byte `b`, counting from the least significant.
pub open spec fn byte_bit(b: u8, j: u32) -> bool {
    (b >> j) & 1u8 == 1u8
}

/// The indices of the listed (row, column) cells, `w` cells to a row.
pub open spec fn listed_marks(w: int, cells: Seq<(u32, u32)>) -> Seq<int> {
    cells.map_values(|p: (u32, u32)| cell_index(w, p.0 as int, p.1 as int))
}

/// The row (or column) before `r` on a ring of `n`.
pub fn ring_prev_u32(r: u32, n: u32) -> (p: u32)
    requires
        1 <= n,
    ensures
        p == ring_prev(r as int, n as int),
{
    if r == 0 {
        n - 1
    } else {
        r - 1
    }
}

/// The row (or column) after `r` on a ring of `n`.
pub fn ring_next_u32(r: u32, n: u32) -> (p: u32)
    requires
        1 <= n,
        r < u32::MAX,
    ensures
        p == ring_next(r as int, n as int),
{
    if r == n - 1 {
        0
    } else {
        r + 1
    }
}

/// The number of bytes that hold `size` bits.
pub fn byte_count_of(size: usize) -> (n: usize)
    ensures
        n == byte_count(size as int),
{
    size / 8 + if size % 8 != 0 {
        1
    } else {
        0
    }
}

/// `n` zero bytes.
pub fn zero_bytes(n: usize) -> (v: Vec<u8>)
    ensures
        v@ == Seq::new(n as nat, |k: int| 0u8),
{
    let mut v: Vec<u8> = Vec::with_capacity(n);
    let mut i: usize = 0;
    while i < n
        invariant
            0 <= i <= n,
            v@ == Seq::new(i as nat, |k: int| 0u8),
        decreases n - i,
    {
        v.push(0);
        i = i + 1;
        assert(v@ =~= Seq::new(i as nat, |k: int| 0u8));
    }
    v
}

/// Bit `j` of the byte `b`, tested as a mask.
pub fn byte_bit_of(b: u8, j: u32) -> (r: bool)
    requires
        j < 8,
    ensures
        r == byte_bit(b, j),
{
    let mask: u8 = 1u8 << j;
    let r = (b & mask) == mask;
    assert(((b & (1u8 << j)) == (1u8 << j)) == ((b >> j) & 1u8 == 1u8)) by (bit_vector)
        requires
            j < 8,
    ;
    r
}

} // verus!
