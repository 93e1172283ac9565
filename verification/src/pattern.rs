//! Seeding: stamping patterns of live cells onto a grid.
//!
//! A pattern is a sequence of `(x, y)` offsets of live cells relative to the
//! place where the pattern is put. A cell of a pattern that falls outside the
//! grid is skipped: it neither fails nor comes back in on another row.

use vstd::prelude::*;
use vstd::arithmetic::div_mod::lemma_fundamental_div_mod;
use vstd::arithmetic::div_mod::lemma_fundamental_div_mod_converse;
use crate::grid::lemma_index_in_grid;

verus! {

/// The grid index of the cell in column `offset_x + cell.0` of row
/// `offset_y + cell.1`, on a grid with rows of `width` cells.
pub open spec fn target_index(cell: (usize, usize), width: int, offset_x: int, offset_y: int) -> int {
    (offset_y + cell.1) * width + (offset_x + cell.0)
}

/// Whether some cell of the pattern, placed at `(offset_x, offset_y)`, lands
/// on index `i`. A pattern cell whose column is at or beyond `width` lands
/// nowhere.
pub open spec fn stamped(
    pattern: Seq<(usize, usize)>,
    width: int,
    offset_x: int,
    offset_y: int,
    i: int,
) -> bool {
    exists|k: int|
        0 <= k < pattern.len() && offset_x + pattern[k].0 < width && #[trigger] target_index(
            pattern[k],
            width,
            offset_x,
            offset_y,
        ) == i
}

/// The grid after the pattern has been placed: a cell is alive if it was
/// alive before or a cell of the pattern lands on it. Pattern cells that fall
/// outside the grid, to the right of its last column or below its last row,
/// leave no trace.
pub open spec fn placed(
    state: Seq<bool>,
    pattern: Seq<(usize, usize)>,
    width: int,
    offset_x: int,
    offset_y: int,
) -> Seq<bool> {
    Seq::new(state.len(), |i: int| state[i] || stamped(pattern, width, offset_x, offset_y, i))
}

/// What placing a pattern does to each cell: the grid keeps its length; a
/// cell that was alive stays alive; a cell that no cell of the pattern lands
/// on is as it was; a cell that one lands on is alive; and a pattern cell
/// whose column is at or beyond the width, or whose index is beyond the grid,
/// changes nothing.
pub proof fn lemma_placed(
    state: Seq<bool>,
    pattern: Seq<(usize, usize)>,
    width: int,
    offset_x: int,
    offset_y: int,
    i: int,
    k: int,
)
    requires
        0 <= i < state.len(),
        0 <= k < pattern.len(),
    ensures
        placed(state, pattern, width, offset_x, offset_y).len() == state.len(),
        state[i] ==> placed(state, pattern, width, offset_x, offset_y)[i],
        !stamped(pattern, width, offset_x, offset_y, i) ==> placed(
            state,
            pattern,
            width,
            offset_x,
            offset_y,
        )[i] == state[i],
        stamped(pattern, width, offset_x, offset_y, i) ==> placed(
            state,
            pattern,
            width,
            offset_x,
            offset_y,
        )[i],
        offset_x + pattern[k].0 < width && target_index(pattern[k], width, offset_x, offset_y)
            == i ==> placed(state, pattern, width, offset_x, offset_y)[i],
        offset_x + pattern[k].0 >= width || !(0 <= target_index(
            pattern[k],
            width,
            offset_x,
            offset_y,
        ) < state.len()) ==> placed(state, seq![pattern[k]], width, offset_x, offset_y) == state,
{
    let alone = seq![pattern[k]];
    if offset_x + pattern[k].0 >= width || !(0 <= target_index(
        pattern[k],
        width,
        offset_x,
        offset_y,
    ) < state.len()) {
        assert forall|j: int| 0 <= j < state.len() implies !stamped(
            alone,
            width,
            offset_x,
            offset_y,
            j,
        ) by {
            if stamped(alone, width, offset_x, offset_y, j) {
                let n = choose|n: int|
                    0 <= n < alone.len() && offset_x + alone[n].0 < width && #[trigger] target_index(
                        alone[n],
                        width,
                        offset_x,
                        offset_y,
                    ) == j;
                assert(alone[n] == pattern[k]);
            }
        }
        assert(placed(state, alone, width, offset_x, offset_y) =~= state);
    }
}

/// On a grid of `width` by `height` cells, a pattern cell lands on a cell of
/// the grid exactly if its column is below the width and its row below the
/// height.
pub proof fn lemma_lands_inside_grid(
    cell: (usize, usize),
    width: int,
    height: int,
    offset_x: int,
    offset_y: int,
)
    requires
        0 <= width,
        0 <= height,
        0 <= offset_x,
        0 <= offset_y,
    ensures
        (offset_x + cell.0 < width && target_index(cell, width, offset_x, offset_y) < width
            * height) <==> (offset_x + cell.0 < width && offset_y + cell.1 < height),
        offset_x + cell.0 < width && offset_y + cell.1 < height ==> 0 <= target_index(
            cell,
            width,
            offset_x,
            offset_y,
        ) < width * height,
{
    let column = offset_x + cell.0;
    let row = offset_y + cell.1;
    if column < width && row < height {
        lemma_index_in_grid(width, height, column, row);
    }
    if column < width && row >= height {
        assert(row * width + column >= width * height) by (nonlinear_arith)
            requires
                row >= height,
                width >= 0,
                column >= 0,
                height >= 0,
        ;
    }
}

/// The index of the grid cell that `cell` lands on, if it lands on one: its
/// column is below `width` and its index below `len`.
fn landing_index(
    cell: (usize, usize),
    width: usize,
    offset_x: usize,
    offset_y: usize,
    len: usize,
) -> (r: Option<usize>)
    ensures
        match r {
            Some(i) => offset_x + cell.0 < width && i == target_index(
                cell,
                width as int,
                offset_x as int,
                offset_y as int,
            ) && i < len,
            None => offset_x + cell.0 >= width || target_index(
                cell,
                width as int,
                offset_x as int,
                offset_y as int,
            ) >= len,
        },
{
    let column: usize = match cell.0.checked_add(offset_x) {
        Some(c) => c,
        None => { return None; },
    };
    if column >= width {
        return None;
    }
    let ghost row = offset_y + cell.1;
    assert(row * width >= row) by (nonlinear_arith)
        requires
            row >= 0,
            width >= 1,
    ;
    let r: usize = match cell.1.checked_add(offset_y) {
        Some(r) => r,
        None => { return None; },
    };
    let base: usize = match r.checked_mul(width) {
        Some(b) => b,
        None => { return None; },
    };
    match base.checked_add(column) {
        Some(i) => if i < len {
            Some(i)
        } else {
            None
        },
        None => None,
    }
}

/// Sets alive every grid cell that a cell of `pattern` lands on when the
/// pattern is placed at `(offset_x, offset_y)`. Pattern cells that fall
/// outside the grid are skipped: those whose column is at or beyond `width`,
/// and those whose index is beyond the end of the grid.
pub fn place_pattern(
    state: &mut [bool],
    width: usize,
    pattern: &[(usize, usize)],
    offset_x: usize,
    offset_y: usize,
)
    ensures
        final(state)@ == placed(
            old(state)@,
            pattern@,
            width as int,
            offset_x as int,
            offset_y as int,
        ),
        final(state)@.len() == old(state)@.len(),
{
    let ghost before = state@;
    let len: usize = state.len();
    let mut k: usize = 0;
    while k < pattern.len()
        invariant
            k <= pattern@.len(),
            len == before.len(),
            state@ == placed(
                before,
                pattern@.take(k as int),
                width as int,
                offset_x as int,
                offset_y as int,
            ),
        decreases pattern@.len() - k,
    {
        let cell: (usize, usize) = pattern[k];
        let landing: Option<usize> = landing_index(cell, width, offset_x, offset_y, len);
        if let Some(idx) = landing {
            state[idx] = true;
        }
        proof {
            let w = width as int;
            let ox = offset_x as int;
            let oy = offset_y as int;
            let shorter = pattern@.take(k as int);
            let longer = pattern@.take(k + 1);
            assert forall|i: int| 0 <= i < before.len() implies state@[i] == (before[i] || stamped(
                longer,
                w,
                ox,
                oy,
                i,
            )) by {
                if stamped(shorter, w, ox, oy, i) {
                    let j = choose|j: int|
                        0 <= j < shorter.len() && ox + shorter[j].0 < w && #[trigger] target_index(
                            shorter[j],
                            w,
                            ox,
                            oy,
                        ) == i;
                    assert(ox + longer[j].0 < w && target_index(longer[j], w, ox, oy) == i);
                }
                if ox + cell.0 < w && target_index(cell, w, ox, oy) == i {
                    assert(ox + longer[k as int].0 < w && target_index(longer[k as int], w, ox, oy)
                        == i);
                }
                if stamped(longer, w, ox, oy, i) {
                    let j = choose|j: int|
                        0 <= j < longer.len() && ox + longer[j].0 < w && #[trigger] target_index(
                            longer[j],
                            w,
                            ox,
                            oy,
                        ) == i;
                    if j < k {
                        assert(ox + shorter[j].0 < w && target_index(shorter[j], w, ox, oy) == i);
                    }
                }
            }
            assert(state@ =~= placed(before, longer, w, ox, oy));
        }
        k += 1;
    }
    assert(pattern@.take(k as int) =~= pattern@);
}

/// The largest of the values, and zero if there are none.
pub open spec fn largest(values: Seq<int>) -> int
    decreases values.len(),
{
    if values.len() == 0 {
        0
    } else if values.last() > largest(values.drop_last()) {
        values.last()
    } else {
        largest(values.drop_last())
    }
}

/// The column offsets of the cells of a pattern.
pub open spec fn columns_of(pattern: Seq<(usize, usize)>) -> Seq<int> {
    Seq::new(pattern.len(), |k: int| pattern[k].0 as int)
}

/// The row offsets of the cells of a pattern.
pub open spec fn rows_of(pattern: Seq<(usize, usize)>) -> Seq<int> {
    Seq::new(pattern.len(), |k: int| pattern[k].1 as int)
}

/// The width of the smallest box that holds every pattern: one more than the
/// largest column offset of any cell.
pub open spec fn extent_width(patterns: Seq<Vec<(usize, usize)>>) -> int {
    largest(Seq::new(patterns.len(), |p: int| largest(columns_of(patterns[p]@)))) + 1
}

/// The height of the smallest box that holds every pattern: one more than the
/// largest row offset of any cell.
pub open spec fn extent_height(patterns: Seq<Vec<(usize, usize)>>) -> int {
    largest(Seq::new(patterns.len(), |p: int| largest(rows_of(patterns[p]@)))) + 1
}

/// The number of tiles of size `tile` needed to cover `board` cells: the
/// quotient rounded up.
pub open spec fn tiles_across(board: int, tile: int) -> int {
    (board + tile - 1) / tile
}

/// Whether the pattern of tile `t` has a cell that lands on index `i`. Tiles
/// are counted row by row, `columns` to a row; tile `t` holds the pattern
/// `t mod` the number of patterns, placed at the tile's top left corner.
/// Cells of the pattern that fall outside the board land nowhere.
pub open spec fn tile_stamped(
    patterns: Seq<Vec<(usize, usize)>>,
    board_width: int,
    columns: int,
    tile_width: int,
    tile_height: int,
    t: int,
    i: int,
) -> bool {
    stamped(
        patterns[t % (patterns.len() as int)]@,
        board_width,
        (t % columns) * tile_width,
        (t / columns) * tile_height,
        i,
    )
}

/// Whether the pattern of one of the first `count` tiles has a cell that
/// lands on index `i`.
pub open spec fn stamped_by_tiles(
    patterns: Seq<Vec<(usize, usize)>>,
    board_width: int,
    columns: int,
    tile_width: int,
    tile_height: int,
    count: int,
    i: int,
) -> bool {
    exists|t: int|
        0 <= t < count && #[trigger] tile_stamped(
            patterns,
            board_width,
            columns,
            tile_width,
            tile_height,
            t,
            i,
        )
}

/// The grid after the board has been tiled with the patterns in rotation: a
/// cell is alive if it was alive before or the pattern of some tile has a
/// cell that lands on it.
pub open spec fn tiled(
    state: Seq<bool>,
    patterns: Seq<Vec<(usize, usize)>>,
    board_width: int,
    board_height: int,
    tile_width: int,
    tile_height: int,
) -> Seq<bool> {
    let columns = tiles_across(board_width, tile_width);
    let rows = tiles_across(board_height, tile_height);
    Seq::new(
        state.len(),
        |i: int|
            state[i] || stamped_by_tiles(
                patterns,
                board_width,
                columns,
                tile_width,
                tile_height,
                columns * rows,
                i,
            ),
    )
}

/// One more tile stamps what the tiles before it stamp and what it stamps
/// itself.
proof fn lemma_one_more_tile(
    patterns: Seq<Vec<(usize, usize)>>,
    board_width: int,
    columns: int,
    tile_width: int,
    tile_height: int,
    count: int,
    i: int,
)
    requires
        0 <= count,
    ensures
        stamped_by_tiles(patterns, board_width, columns, tile_width, tile_height, count + 1, i)
            == (stamped_by_tiles(patterns, board_width, columns, tile_width, tile_height, count, i)
            || tile_stamped(patterns, board_width, columns, tile_width, tile_height, count, i)),
        !stamped_by_tiles(patterns, board_width, columns, tile_width, tile_height, 0, i),
{
    if stamped_by_tiles(patterns, board_width, columns, tile_width, tile_height, count + 1, i) {
        let t = choose|t: int|
            0 <= t < count + 1 && #[trigger] tile_stamped(
                patterns,
                board_width,
                columns,
                tile_width,
                tile_height,
                t,
                i,
            );
        if t < count {
            assert(stamped_by_tiles(
                patterns,
                board_width,
                columns,
                tile_width,
                tile_height,
                count,
                i,
            ));
        }
    }
    if stamped_by_tiles(patterns, board_width, columns, tile_width, tile_height, count, i) {
        let t = choose|t: int|
            0 <= t < count && #[trigger] tile_stamped(
                patterns,
                board_width,
                columns,
                tile_width,
                tile_height,
                t,
                i,
            );
        assert(0 <= t < count + 1 && tile_stamped(
            patterns,
            board_width,
            columns,
            tile_width,
            tile_height,
            t,
            i,
        ));
    }
    if tile_stamped(patterns, board_width, columns, tile_width, tile_height, count, i) {
        assert(0 <= count < count + 1 && tile_stamped(
            patterns,
            board_width,
            columns,
            tile_width,
            tile_height,
            count,
            i,
        ));
    }
}

/// No value exceeds the largest, and the largest is zero or one of the
/// values.
pub proof fn lemma_largest(values: Seq<int>, k: int)
    requires
        0 <= k < values.len(),
    ensures
        values[k] <= largest(values),
        largest(values) == 0 || exists|j: int| 0 <= j < values.len() && values[j] == largest(values),
    decreases values.len(),
{
    let rest = values.drop_last();
    if k < rest.len() {
        lemma_largest(rest, k);
    }
    if values.last() > largest(rest) {
        assert(values[values.len() - 1] == largest(values));
    } else if rest.len() > 0 {
        lemma_largest(rest, 0);
        if largest(rest) != 0 {
            let j = choose|j: int| 0 <= j < rest.len() && rest[j] == largest(rest);
            assert(values[j] == largest(values));
        }
    }
}

/// Every cell of every pattern lies inside the box of the two extents.
pub proof fn lemma_extent_holds_cell(patterns: Seq<Vec<(usize, usize)>>, p: int, k: int)
    requires
        0 <= p < patterns.len(),
        0 <= k < patterns[p]@.len(),
    ensures
        patterns[p]@[k].0 < extent_width(patterns),
        patterns[p]@[k].1 < extent_height(patterns),
        extent_width(patterns) >= 1,
        extent_height(patterns) >= 1,
{
    lemma_largest(columns_of(patterns[p]@), k);
    lemma_largest(Seq::new(patterns.len(), |q: int| largest(columns_of(patterns[q]@))), p);
    lemma_largest(rows_of(patterns[p]@), k);
    lemma_largest(Seq::new(patterns.len(), |q: int| largest(rows_of(patterns[q]@))), p);
}

/// Taking one more value into account.
proof fn lemma_largest_step(values: Seq<int>, k: int)
    requires
        0 <= k < values.len(),
    ensures
        largest(values.take(k + 1)) == if values[k] > largest(values.take(k)) {
            values[k]
        } else {
            largest(values.take(k))
        },
{
    assert(values.take(k + 1).drop_last() =~= values.take(k));
}

/// The tiles cover the board and none is wasted: there are as many as the
/// quotient of board and tile rounded up, so that they reach the far edge of
/// the board while the last one still starts inside it.
pub proof fn lemma_tiles_cover(board: int, tile: int)
    requires
        0 <= board,
        0 < tile,
    ensures
        tiles_across(board, tile) == board / tile + if board % tile == 0 {
            0int
        } else {
            1int
        },
        0 <= tiles_across(board, tile) <= board,
        tiles_across(board, tile) * tile >= board,
        (tiles_across(board, tile) - 1) * tile < board || board == 0,
{
    let q = board / tile;
    let r = board % tile;
    lemma_fundamental_div_mod(board, tile);
    assert(board == q * tile + r && q >= 0 && q * tile <= board && (board > 0 && r == 0 ==> q >= 1)
        && q <= board) by (nonlinear_arith)
        requires
            board == tile * q + r,
            0 <= r < tile,
            0 <= board,
    ;
    if r == 0 {
        lemma_fundamental_div_mod_converse(board + tile - 1, tile, q, tile - 1);
    } else {
        assert(board + tile - 1 == (q + 1) * tile + (r - 1)) by (nonlinear_arith)
            requires
                board == q * tile + r,
        ;
        lemma_fundamental_div_mod_converse(board + tile - 1, tile, q + 1, r - 1);
        assert(q + 1 <= board) by (nonlinear_arith)
            requires
                board == q * tile + r,
                1 <= r < tile,
                q >= 0,
        ;
    }
    assert(((tiles_across(board, tile) - 1) * tile < board || board == 0) && tiles_across(
        board,
        tile,
    ) * tile >= board) by (nonlinear_arith)
        requires
            board == q * tile + r,
            0 <= r < tile,
            tiles_across(board, tile) == q + if r == 0 {
                0int
            } else {
                1int
            },
            0 <= board,
    ;
}

/// The largest column offset (`by_row` false) or row offset (`by_row` true)
/// of the cells of one pattern, zero for a pattern without cells.
fn largest_offset(pattern: &[(usize, usize)], by_row: bool) -> (best: usize)
    ensures
        best == largest(
            if by_row {
                rows_of(pattern@)
            } else {
                columns_of(pattern@)
            },
        ),
{
    let ghost values = if by_row {
        rows_of(pattern@)
    } else {
        columns_of(pattern@)
    };
    let mut best: usize = 0;
    let mut k: usize = 0;
    while k < pattern.len()
        invariant
            k <= pattern@.len(),
            values == (if by_row {
                rows_of(pattern@)
            } else {
                columns_of(pattern@)
            }),
            best == largest(values.take(k as int)),
        decreases pattern@.len() - k,
    {
        let cell: (usize, usize) = pattern[k];
        let v: usize = if by_row {
            cell.1
        } else {
            cell.0
        };
        proof {
            lemma_largest_step(values, k as int);
        }
        if v > best {
            best = v;
        }
        k += 1;
    }
    assert(values.take(k as int) =~= values);
    best
}

/// The size of the smallest box that holds every pattern, `(width, height)`.
pub fn pattern_extent(patterns: &[Vec<(usize, usize)>]) -> (extent: (usize, usize))
    requires
        extent_width(patterns@) <= usize::MAX,
        extent_height(patterns@) <= usize::MAX,
    ensures
        extent.0 == extent_width(patterns@),
        extent.1 == extent_height(patterns@),
        extent.0 >= 1,
        extent.1 >= 1,
{
    let ghost widths = Seq::new(patterns@.len(), |p: int| largest(columns_of(patterns@[p]@)));
    let ghost heights = Seq::new(patterns@.len(), |p: int| largest(rows_of(patterns@[p]@)));
    let mut widest: usize = 0;
    let mut tallest: usize = 0;
    let mut p: usize = 0;
    while p < patterns.len()
        invariant
            p <= patterns@.len(),
            widths == Seq::new(patterns@.len(), |p: int| largest(columns_of(patterns@[p]@))),
            heights == Seq::new(patterns@.len(), |p: int| largest(rows_of(patterns@[p]@))),
            widest == largest(widths.take(p as int)),
            tallest == largest(heights.take(p as int)),
        decreases patterns@.len() - p,
    {
        let w: usize = largest_offset(patterns[p].as_slice(), false);
        let h: usize = largest_offset(patterns[p].as_slice(), true);
        proof {
            lemma_largest_step(widths, p as int);
            lemma_largest_step(heights, p as int);
        }
        if w > widest {
            widest = w;
        }
        if h > tallest {
            tallest = h;
        }
        p += 1;
    }
    assert(widths.take(p as int) =~= widths);
    assert(heights.take(p as int) =~= heights);
    (widest + 1, tallest + 1)
}

/// The number of tiles of size `tile` needed to cover `board` cells.
fn count_tiles(board: usize, tile: usize) -> (n: usize)
    requires
        tile > 0,
    ensures
        n == tiles_across(board as int, tile as int),
        n <= board,
        (n - 1) * tile < board || board == 0,
{
    proof {
        lemma_tiles_cover(board as int, tile as int);
    }
    if board % tile == 0 {
        board / tile
    } else {
        board / tile + 1
    }
}

/// Tiles the board with boxes of `tile_width` by `tile_height` cells, row by
/// row from the top left, and places in tile `t` the pattern `t mod` the
/// number of patterns. A tile at the right or bottom edge may be larger than
/// what is left of the board: the cells of its pattern that fall outside the
/// board are skipped.
pub fn tile_patterns(
    state: &mut [bool],
    board_width: usize,
    board_height: usize,
    patterns: &[Vec<(usize, usize)>],
    tile_width: usize,
    tile_height: usize,
)
    requires
        old(state)@.len() == board_width * board_height,
        patterns@.len() > 0,
        tile_width > 0,
        tile_height > 0,
    ensures
        final(state)@ == tiled(
            old(state)@,
            patterns@,
            board_width as int,
            board_height as int,
            tile_width as int,
            tile_height as int,
        ),
        final(state)@.len() == old(state)@.len(),
{
    let ghost before = state@;
    let ghost bw = board_width as int;
    let ghost tw = tile_width as int;
    let ghost th = tile_height as int;
    assert(state.len() == board_width * board_height);
    let columns: usize = count_tiles(board_width, tile_width);
    let rows: usize = count_tiles(board_height, tile_height);
    let ghost c = columns as int;
    assert(0 <= columns * rows <= board_width * board_height) by (nonlinear_arith)
        requires
            0 <= columns <= board_width,
            0 <= rows <= board_height,
    ;
    proof {
        assert forall|i: int| 0 <= i < before.len() implies !stamped_by_tiles(
            patterns@,
            bw,
            c,
            tw,
            th,
            0,
            i,
        ) by {
            lemma_one_more_tile(patterns@, bw, c, tw, th, 0, i);
        }
        assert(0 * columns == 0) by (nonlinear_arith);
    }
    let mut ty: usize = 0;
    while ty < rows
        invariant
            ty <= rows,
            bw == board_width,
            tw == tile_width,
            th == tile_height,
            c == columns,
            tile_width > 0,
            tile_height > 0,
            patterns@.len() > 0,
            columns <= board_width,
            rows <= board_height,
            (columns - 1) * tile_width < board_width || board_width == 0,
            (rows - 1) * tile_height < board_height || board_height == 0,
            columns * rows <= usize::MAX,
            state@.len() == before.len(),
            forall|i: int|
                0 <= i < before.len() ==> #[trigger] state@[i] == (before[i] || stamped_by_tiles(
                    patterns@,
                    bw,
                    c,
                    tw,
                    th,
                    ty * columns,
                    i,
                )),
        decreases rows - ty,
    {
        let mut tx: usize = 0;
        while tx < columns
            invariant
                tx <= columns,
                ty < rows,
                bw == board_width,
                tw == tile_width,
                th == tile_height,
                c == columns,
                tile_width > 0,
                tile_height > 0,
                patterns@.len() > 0,
                columns <= board_width,
                rows <= board_height,
                (columns - 1) * tile_width < board_width || board_width == 0,
                (rows - 1) * tile_height < board_height || board_height == 0,
                columns * rows <= usize::MAX,
                state@.len() == before.len(),
                forall|i: int|
                    0 <= i < before.len() ==> #[trigger] state@[i] == (before[i] || stamped_by_tiles(
                        patterns@,
                        bw,
                        c,
                        tw,
                        th,
                        ty * columns + tx,
                        i,
                    )),
            decreases columns - tx,
        {
            proof {
                lemma_index_in_grid(c, rows as int, tx as int, ty as int);
                assert(0 <= tx * tile_width <= (columns - 1) * tile_width && 0 <= ty * tile_height
                    <= (rows - 1) * tile_height && columns * rows == rows * columns)
                    by (nonlinear_arith)
                    requires
                        0 <= tx < columns,
                        0 <= ty < rows,
                        tile_width > 0,
                        tile_height > 0,
                ;
            }
            let t: usize = ty * columns + tx;
            let ghost done = state@;
            let pattern: &Vec<(usize, usize)> = &patterns[t % patterns.len()];
            place_pattern(
                state,
                board_width,
                pattern.as_slice(),
                tx * tile_width,
                ty * tile_height,
            );
            proof {
                assert forall|i: int| 0 <= i < before.len() implies state@[i] == (before[i]
                    || stamped_by_tiles(patterns@, bw, c, tw, th, t + 1, i)) by {
                    lemma_one_more_tile(patterns@, bw, c, tw, th, t as int, i);
                    assert(state@[i] == (done[i] || tile_stamped(
                        patterns@,
                        bw,
                        c,
                        tw,
                        th,
                        t as int,
                        i,
                    )));
                }
            }
            tx += 1;
        }
        assert((ty + 1) * columns == ty * columns + columns) by (nonlinear_arith);
        ty += 1;
    }
    assert(rows * columns == columns * rows) by (nonlinear_arith);
    assert(state@ =~= tiled(before, patterns@, bw, board_height as int, tw, th));
}

/// Seeds the board: tiles it with boxes of the size of the largest pattern
/// and places the patterns in them in rotation.
pub fn seed_board(
    state: &mut [bool],
    board_width: usize,
    board_height: usize,
    patterns: &[Vec<(usize, usize)>],
)
    requires
        old(state)@.len() == board_width * board_height,
        patterns@.len() > 0,
        extent_width(patterns@) <= usize::MAX,
        extent_height(patterns@) <= usize::MAX,
    ensures
        final(state)@ == tiled(
            old(state)@,
            patterns@,
            board_width as int,
            board_height as int,
            extent_width(patterns@),
            extent_height(patterns@),
        ),
        final(state)@.len() == old(state)@.len(),
{
    let extent: (usize, usize) = pattern_extent(patterns);
    tile_patterns(state, board_width, board_height, patterns, extent.0, extent.1);
}

} // verus!
