//! The cellular automaton: Conway's rule (birth on three neighbours, survival
//! on two or three) on a grid whose edges wrap around.
//!
//! A grid is a row-major sequence of booleans of length `width * height`; the
//! cell in column `x` of row `y` sits at index `y * width + x`.

use vstd::prelude::*;
use vstd::arithmetic::div_mod::lemma_fundamental_div_mod;
use vstd::arithmetic::div_mod::lemma_fundamental_div_mod_converse;
use crate::grid::lemma_index_in_grid;

verus! {

/// The coordinate `i` brought into `[0, n)`. The remainder is never negative,
/// so `-1` lands on `n - 1` and `n` lands on `0`.
pub open spec fn wrap(i: int, n: int) -> int {
    i % n
}

/// Whether the cell in column `x`, row `y` is alive, where a coordinate that
/// leaves the grid on one side comes back in on the opposite side.
pub open spec fn alive_at(state: Seq<bool>, width: int, height: int, x: int, y: int) -> bool {
    state[wrap(y, height) * width + wrap(x, width)]
}

/// One for `true`, zero for `false`.
pub open spec fn as_count(b: bool) -> int {
    if b {
        1
    } else {
        0
    }
}

/// One if the cell at `(x, y)` is alive, zero otherwise.
pub open spec fn live(state: Seq<bool>, width: int, height: int, x: int, y: int) -> int {
    as_count(alive_at(state, width, height, x, y))
}

/// The number of live cells among the eight cells around `(x, y)`.
pub open spec fn neighbor_count(state: Seq<bool>, width: int, height: int, x: int, y: int) -> int {
    live(state, width, height, x - 1, y - 1) + live(state, width, height, x - 1, y) + live(
        state,
        width,
        height,
        x - 1,
        y + 1,
    ) + live(state, width, height, x, y - 1) + live(state, width, height, x, y + 1) + live(
        state,
        width,
        height,
        x + 1,
        y - 1,
    ) + live(state, width, height, x + 1, y) + live(state, width, height, x + 1, y + 1)
}

/// The rule: a cell lives in the next generation if it has exactly three live
/// neighbours, or if it is alive now and has exactly two.
pub open spec fn next_cell(alive: bool, neighbors: int) -> bool {
    (alive && neighbors == 2) || neighbors == 3
}

/// The generation that follows `state`.
pub open spec fn next_generation(state: Seq<bool>, width: int, height: int) -> Seq<bool> {
    Seq::new(
        (width * height) as nat,
        |i: int| next_cell(state[i], neighbor_count(state, width, height, i % width, i / width)),
    )
}

/// Column offset of the `k`-th cell of the neighbourhood table.
spec fn offset_dx(k: int) -> int {
    if k < 3 {
        -1
    } else if k < 5 {
        0
    } else {
        1
    }
}

/// Row offset of the `k`-th cell of the neighbourhood table.
spec fn offset_dy(k: int) -> int {
    if k == 0 || k == 3 || k == 5 {
        -1
    } else if k == 1 || k == 6 {
        0
    } else {
        1
    }
}

/// Live cells among the first `k` entries of the neighbourhood table.
spec fn neighbors_before(
    state: Seq<bool>,
    width: int,
    height: int,
    x: int,
    y: int,
    k: int,
) -> int
    decreases k,
{
    if k <= 0 {
        0
    } else {
        neighbors_before(state, width, height, x, y, k - 1) + live(
            state,
            width,
            height,
            x + offset_dx(k - 1),
            y + offset_dy(k - 1),
        )
    }
}

/// The whole table counts exactly the eight surrounding cells.
proof fn lemma_table_covers_neighbors(state: Seq<bool>, width: int, height: int, x: int, y: int)
    ensures
        neighbors_before(state, width, height, x, y, 8) == neighbor_count(
            state,
            width,
            height,
            x,
            y,
        ),
{
    reveal_with_fuel(neighbors_before, 9);
}

/// Stepping one cell back or forth on a ring of `n` cells.
proof fn lemma_wrap_step(v: int, n: int)
    requires
        n > 0,
        v >= 0,
    ensures
        wrap(v - 1, n) == if v % n == 0 {
            n - 1
        } else {
            v % n - 1
        },
        wrap(v + 1, n) == if v % n == n - 1 {
            0
        } else {
            v % n + 1
        },
        0 <= v % n < n,
{
    let q = v / n;
    let m = v % n;
    lemma_fundamental_div_mod(v, n);
    assert(v == q * n + m) by (nonlinear_arith)
        requires
            v == n * q + m,
    ;
    if m == 0 {
        assert(v - 1 == (q - 1) * n + (n - 1)) by (nonlinear_arith)
            requires
                v == q * n + m,
                m == 0,
        ;
        lemma_fundamental_div_mod_converse(v - 1, n, q - 1, n - 1);
    } else {
        lemma_fundamental_div_mod_converse(v - 1, n, q, m - 1);
    }
    if m == n - 1 {
        assert(v + 1 == (q + 1) * n + 0) by (nonlinear_arith)
            requires
                v == q * n + m,
                m == n - 1,
        ;
        lemma_fundamental_div_mod_converse(v + 1, n, q + 1, 0);
    } else {
        lemma_fundamental_div_mod_converse(v + 1, n, q, m + 1);
    }
}

/// The coordinate before `i` on a ring of `n` cells: the last one before the first.
pub open spec fn ring_before(i: int, n: int) -> int {
    if i == 0 {
        n - 1
    } else {
        i - 1
    }
}

/// The coordinate after `i` on a ring of `n` cells: the first one after the last.
pub open spec fn ring_after(i: int, n: int) -> int {
    if i == n - 1 {
        0
    } else {
        i + 1
    }
}

/// Wrapping leaves a coordinate inside the grid alone, sends the step below
/// `0` to `n - 1` and the step above `n - 1` to `0`.
pub proof fn lemma_wrap_at_edges(i: int, n: int)
    requires
        0 <= i < n,
    ensures
        wrap(i, n) == i,
        wrap(i - 1, n) == ring_before(i, n),
        wrap(i + 1, n) == ring_after(i, n),
        wrap(-1, n) == n - 1,
        wrap(n, n) == 0,
{
    lemma_fundamental_div_mod_converse(i, n, 0, i);
    lemma_wrap_step(i, n);
    lemma_fundamental_div_mod_converse(0, n, 0, 0);
    lemma_wrap_step(0, n);
    lemma_fundamental_div_mod_converse(n - 1, n, 0, n - 1);
    lemma_wrap_step(n - 1, n);
}

/// The neighbours of a cell are the eight cells in the columns before and
/// after it and the rows before and after it, taken around the edges: a cell
/// in column `0` has the cells of column `width - 1` as its left neighbours, a
/// cell in column `width - 1` has those of column `0` as its right neighbours,
/// and the same holds of rows.
pub proof fn lemma_neighbors_wrap_around(
    state: Seq<bool>,
    width: int,
    height: int,
    x: int,
    y: int,
)
    requires
        0 <= x < width,
        0 <= y < height,
    ensures
        ({
            let left = ring_before(x, width);
            let right = ring_after(x, width);
            let up = ring_before(y, height);
            let down = ring_after(y, height);
            neighbor_count(state, width, height, x, y) == as_count(state[up * width + left])
                + as_count(state[y * width + left]) + as_count(state[down * width + left])
                + as_count(state[up * width + x]) + as_count(state[down * width + x]) + as_count(
                state[up * width + right],
            ) + as_count(state[y * width + right]) + as_count(state[down * width + right])
        }),
{
    lemma_wrap_at_edges(x, width);
    lemma_wrap_at_edges(y, height);
}

/// The rule spelled out: a live cell with two or three live neighbours
/// survives, a live cell with fewer than two or more than three dies, a dead
/// cell with exactly three is born, and every other dead cell stays dead.
pub proof fn lemma_rule_outcomes(alive: bool, neighbors: int)
    ensures
        alive && (neighbors == 2 || neighbors == 3) ==> next_cell(alive, neighbors),
        alive && (neighbors < 2 || neighbors > 3) ==> !next_cell(alive, neighbors),
        !alive && neighbors == 3 ==> next_cell(alive, neighbors),
        !alive && neighbors != 3 ==> !next_cell(alive, neighbors),
{
}

/// The next generation has the dimensions of the current one, and each of its
/// cells follows the rule from the cell's own state and its neighbour count.
pub proof fn lemma_next_generation_at(state: Seq<bool>, width: int, height: int, x: int, y: int)
    requires
        0 <= x < width,
        0 <= y < height,
    ensures
        next_generation(state, width, height).len() == width * height,
        0 <= y * width + x < width * height,
        next_generation(state, width, height)[y * width + x] == next_cell(
            state[y * width + x],
            neighbor_count(state, width, height, x, y),
        ),
{
    lemma_index_in_grid(width, height, x, y);
}

/// The `k`-th entry of the neighbourhood table.
fn neighbor_offset(k: usize) -> (d: (i8, i8))
    requires
        k < 8,
    ensures
        d.0 == offset_dx(k as int),
        d.1 == offset_dy(k as int),
{
    match k {
        0 => (-1, -1),
        1 => (-1, 0),
        2 => (-1, 1),
        3 => (0, -1),
        4 => (0, 1),
        5 => (1, -1),
        6 => (1, 0),
        _ => (1, 1),
    }
}

/// The coordinate `v + d` on a ring of `n` cells, for a step `d` of at most one.
fn wrapped_step(v: usize, d: i8, n: usize) -> (r: usize)
    requires
        n > 0,
        -1 <= d <= 1,
    ensures
        r == wrap(v + d, n as int),
        r < n,
{
    proof {
        lemma_wrap_step(v as int, n as int);
    }
    let m: usize = v % n;
    if d < 0 {
        if m == 0 {
            n - 1
        } else {
            m - 1
        }
    } else if d > 0 {
        if m == n - 1 {
            0
        } else {
            m + 1
        }
    } else {
        m
    }
}

/// Counts the live cells among the eight neighbours of `(x, y)` on the torus.
pub fn count_neighbors(state: &[bool], width: usize, height: usize, x: usize, y: usize) -> (count:
    usize)
    requires
        width > 0,
        height > 0,
        state@.len() == width * height,
    ensures
        count == neighbor_count(state@, width as int, height as int, x as int, y as int),
        count <= 8,
{
    assert(state.len() == width * height);
    let mut count: usize = 0;
    let mut k: usize = 0;
    while k < 8
        invariant
            k <= 8,
            width > 0,
            height > 0,
            state@.len() == width * height,
            width * height <= usize::MAX,
            count <= k,
            count == neighbors_before(
                state@,
                width as int,
                height as int,
                x as int,
                y as int,
                k as int,
            ),
        decreases 8 - k,
    {
        let d: (i8, i8) = neighbor_offset(k);
        let nx: usize = wrapped_step(x, d.0, width);
        let ny: usize = wrapped_step(y, d.1, height);
        proof {
            lemma_index_in_grid(width as int, height as int, nx as int, ny as int);
        }
        if state[ny * width + nx] {
            count += 1;
        }
        k += 1;
    }
    proof {
        lemma_table_covers_neighbors(state@, width as int, height as int, x as int, y as int);
    }
    count
}

/// Computes the next generation into a fresh grid of the same dimensions.
pub fn update_state(state: &[bool], width: usize, height: usize) -> (next: Vec<bool>)
    requires
        state@.len() == width * height,
    ensures
        next@ == next_generation(state@, width as int, height as int),
        next@.len() == state@.len(),
{
    let ghost target = next_generation(state@, width as int, height as int);
    let mut new_state: Vec<bool> = vec![false; state.len()];
    let mut y: usize = 0;
    while y < height
        invariant
            y <= height,
            state@.len() == width * height,
            width * height <= usize::MAX,
            new_state@.len() == width * height,
            target == next_generation(state@, width as int, height as int),
            forall|i: int| 0 <= i < y * width ==> #[trigger] new_state@[i] == target[i],
        decreases height - y,
    {
        let mut x: usize = 0;
        while x < width
            invariant
                x <= width,
                y < height,
                state@.len() == width * height,
                width * height <= usize::MAX,
                new_state@.len() == width * height,
                target == next_generation(state@, width as int, height as int),
                forall|i: int| 0 <= i < y * width + x ==> #[trigger] new_state@[i] == target[i],
            decreases width - x,
        {
            proof {
                lemma_index_in_grid(width as int, height as int, x as int, y as int);
            }
            let idx: usize = y * width + x;
            let alive: bool = state[idx];
            let neighbors: usize = count_neighbors(state, width, height, x, y);
            new_state[idx] = match (alive, neighbors) {
                (true, 2) | (_, 3) => true,
                _ => false,
            };
            x += 1;
        }
        assert((y + 1) * width == y * width + width) by (nonlinear_arith);
        y += 1;
    }
    assert(height * width == width * height) by (nonlinear_arith);
    assert(new_state@ =~= target);
    new_state
}

} // verus!
