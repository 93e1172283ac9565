use game_of_life::pattern::pattern_extent;
use game_of_life::pattern::place_pattern;
use game_of_life::pattern::seed_board;
use game_of_life::pattern::tile_patterns;

fn alive_indices(grid: &[bool]) -> Vec<usize> {
    let mut indices = Vec::new();
    for (i, &alive) in grid.iter().enumerate() {
        if alive {
            indices.push(i);
        }
    }
    indices
}

#[test]
fn pattern_lands_at_its_offset() {
    let mut grid = vec![false; 5 * 4];
    place_pattern(&mut grid, 5, &[(0, 0), (1, 0), (1, 1)], 2, 1);
    // (2,1) -> 7, (3,1) -> 8, (3,2) -> 13
    assert_eq!(alive_indices(&grid), vec![7, 8, 13]);
}

#[test]
fn placement_keeps_cells_that_were_alive() {
    let mut grid = vec![false; 9];
    grid[0] = true;
    grid[4] = true;
    place_pattern(&mut grid, 3, &[(1, 1), (2, 2)], 0, 0);
    assert_eq!(alive_indices(&grid), vec![0, 4, 8]);
}

#[test]
fn cells_past_the_end_of_the_grid_are_skipped() {
    let blinker = [(1, 0), (1, 1), (1, 2)];
    let mut grid = vec![false; 4 * 4];
    // Rows 2 and 3 are inside, row 4 is not.
    place_pattern(&mut grid, 4, &blinker, 1, 2);
    assert_eq!(alive_indices(&grid), vec![2 * 4 + 2, 3 * 4 + 2]);
}

#[test]
fn pattern_entirely_outside_changes_nothing() {
    let mut grid = vec![false; 16];
    grid[5] = true;
    place_pattern(&mut grid, 4, &[(0, 0), (1, 1)], 0, 4);
    assert_eq!(alive_indices(&grid), vec![5]);
    place_pattern(&mut grid, 4, &[(0, 0), (1, 1)], 100, 100);
    assert_eq!(alive_indices(&grid), vec![5]);
}

#[test]
fn offsets_that_overflow_are_skipped() {
    let mut grid = vec![false; 16];
    place_pattern(&mut grid, 4, &[(1, 1), (0, 0)], usize::MAX, 0);
    assert_eq!(alive_indices(&grid), Vec::<usize>::new());
    place_pattern(&mut grid, 4, &[(1, 1), (0, 0)], 0, usize::MAX);
    assert_eq!(alive_indices(&grid), Vec::<usize>::new());
    place_pattern(&mut grid, 4, &[(0, 2)], 1, usize::MAX / 2);
    assert_eq!(alive_indices(&grid), Vec::<usize>::new());
    place_pattern(&mut grid, usize::MAX, &[(3, 0), (3, 1)], 0, 0);
    assert_eq!(alive_indices(&grid), vec![3]);
}

#[test]
fn cells_past_the_right_edge_are_skipped() {
    let mut grid = vec![false; 4 * 4];
    place_pattern(&mut grid, 4, &[(0, 0), (1, 0)], 3, 0);
    // (3,0) is the last cell of row 0; (4,0) is outside and does not come
    // back in at the start of row 1.
    assert_eq!(alive_indices(&grid), vec![3]);
    let mut small = vec![false; 3 * 3];
    place_pattern(&mut small, 3, &[(0, 0)], 4, 0);
    assert_eq!(alive_indices(&small), Vec::<usize>::new());
    place_pattern(&mut small, 3, &[(0, 1), (1, 1), (2, 1), (3, 1)], 1, 0);
    assert_eq!(alive_indices(&small), vec![4, 5]);
}

#[test]
fn cells_outside_on_two_sides_are_skipped() {
    let block = [(0, 0), (1, 0), (0, 1), (1, 1)];
    let mut grid = vec![false; 3 * 3];
    // Only the top left cell of the block is on the grid.
    place_pattern(&mut grid, 3, &block, 2, 2);
    assert_eq!(alive_indices(&grid), vec![8]);
    let mut other = vec![false; 3 * 3];
    place_pattern(&mut other, 3, &block, 2, 1);
    assert_eq!(alive_indices(&other), vec![5, 8]);
    place_pattern(&mut other, 3, &block, 3, 3);
    assert_eq!(alive_indices(&other), vec![5, 8]);
}

#[test]
fn rows_of_no_cells_hold_no_pattern() {
    let mut line = vec![false; 4];
    place_pattern(&mut line, 0, &[(0, 0), (1, 7), (2, usize::MAX)], 1, 1);
    assert_eq!(alive_indices(&line), Vec::<usize>::new());
    place_pattern(&mut line, 0, &[(0, 0)], 0, 0);
    assert_eq!(alive_indices(&line), Vec::<usize>::new());
}

#[test]
fn index_is_row_times_width_plus_column() {
    let mut grid = vec![false; 5 * 3];
    place_pattern(&mut grid, 5, &[(0, 0), (4, 0), (0, 2), (4, 2), (2, 1)], 0, 0);
    assert_eq!(alive_indices(&grid), vec![0, 4, 7, 10, 14]);
    // A grid longer than its rows say: the index still has to be inside it.
    let mut long = vec![false; 7];
    place_pattern(&mut long, 3, &[(0, 0), (0, 1), (0, 2), (1, 2)], 0, 0);
    assert_eq!(alive_indices(&long), vec![0, 3, 6]);
}

#[test]
fn empty_pattern_and_empty_grid() {
    let mut grid = vec![false; 6];
    place_pattern(&mut grid, 3, &[], 1, 1);
    assert_eq!(grid, vec![false; 6]);
    let mut none: Vec<bool> = Vec::new();
    place_pattern(&mut none, 3, &[(0, 0)], 0, 0);
    assert_eq!(none.len(), 0);
}

#[test]
fn extent_is_one_more_than_the_largest_offsets() {
    let block = vec![(1, 1), (1, 2), (2, 1), (2, 2)];
    let blinker = vec![(1, 0), (1, 1), (1, 2)];
    let glider = vec![(1, 0), (2, 1), (0, 2), (1, 2), (2, 2)];
    let wide = vec![(35, 2), (0, 8)];
    assert_eq!(pattern_extent(&[block.clone()]), (3, 3));
    assert_eq!(pattern_extent(&[blinker.clone()]), (2, 3));
    assert_eq!(pattern_extent(&[block, blinker, glider, wide]), (36, 9));
}

#[test]
fn extent_without_cells_is_one_by_one() {
    assert_eq!(pattern_extent(&[]), (1, 1));
    assert_eq!(pattern_extent(&[Vec::new(), Vec::new()]), (1, 1));
    assert_eq!(pattern_extent(&[vec![(0, 0)]]), (1, 1));
}

#[test]
fn tiles_rotate_through_the_patterns_row_by_row() {
    let dot = vec![(0, 0)];
    let bar = vec![(0, 0), (1, 0)];
    let patterns = vec![dot, bar];
    let (width, height) = (6, 4);
    let mut grid = vec![false; width * height];
    // Three tiles to a row, two rows of tiles: patterns 0 1 0 / 1 0 1.
    tile_patterns(&mut grid, width, height, &patterns, 2, 2);
    assert_eq!(alive_indices(&grid), vec![0, 2, 3, 4, 12, 13, 14, 16, 17]);
}

#[test]
fn partial_tiles_at_the_edges_are_used_too() {
    let dot = vec![(0, 0)];
    let corner = vec![(1, 1)];
    let patterns = vec![dot, corner];
    let (width, height) = (3, 3);
    let mut grid = vec![false; width * height];
    // Tiles of 2x2 on a 3x3 board: two to a row, two rows; patterns 0 1 / 0 1.
    tile_patterns(&mut grid, width, height, &patterns, 2, 2);
    // Tile 0 puts (0,0). Tile 1 at (2,0) puts (3,1): outside, to the right.
    // Tile 2 at (0,2) puts (0,2), index 6. Tile 3 at (2,2) puts (3,3): outside.
    assert_eq!(alive_indices(&grid), vec![0, 6]);
}

#[test]
fn tiling_an_empty_board_does_nothing() {
    let patterns = vec![vec![(0, 0)]];
    let mut none: Vec<bool> = Vec::new();
    tile_patterns(&mut none, 0, 0, &patterns, 1, 1);
    assert_eq!(none.len(), 0);
    tile_patterns(&mut none, 0, 5, &patterns, 2, 2);
    assert_eq!(none.len(), 0);
}

#[test]
fn tiles_at_the_right_edge_are_cut_off() {
    let bar = vec![(0, 0), (1, 0), (2, 0)];
    let patterns = vec![bar];
    let (width, height) = (5, 2);
    let mut grid = vec![false; width * height];
    // Two tiles of 3x1 to a row; the second has only two columns left.
    tile_patterns(&mut grid, width, height, &patterns, 3, 1);
    assert_eq!(alive_indices(&grid), vec![0, 1, 2, 3, 4, 5, 6, 7, 8, 9]);
    let far = vec![vec![(2, 0)]];
    let mut other = vec![false; width * height];
    // The only cell of the second tile of each row is in column 5: outside.
    tile_patterns(&mut other, width, height, &far, 3, 1);
    assert_eq!(alive_indices(&other), vec![2, 7]);
}

#[test]
fn seeding_uses_the_extent_of_the_largest_pattern() {
    let block = vec![(1, 1), (1, 2), (2, 1), (2, 2)];
    let blinker = vec![(1, 0), (1, 1), (1, 2)];
    let patterns = vec![block.clone(), blinker.clone()];
    let (width, height) = (7, 6);
    let mut seeded = vec![false; width * height];
    seed_board(&mut seeded, width, height, &patterns);

    // The extent is 3x3, so there are three tiles to a row and two rows. The
    // third tile of each row starts in the last column, and its pattern has
    // no cell in its own first column: nothing of it is on the board.
    let mut expected = vec![false; width * height];
    for &(x, y) in &[(1, 1), (1, 2), (2, 1), (2, 2)] {
        expected[y * width + x] = true;
    }
    for &(x, y) in &[(4, 0), (4, 1), (4, 2)] {
        expected[y * width + x] = true;
    }
    for &(x, y) in &[(1, 3), (1, 4), (1, 5)] {
        expected[y * width + x] = true;
    }
    for &(x, y) in &[(4, 4), (4, 5), (5, 4), (5, 5)] {
        expected[y * width + x] = true;
    }
    assert_eq!(seeded, expected);

    let mut tiled = vec![false; width * height];
    tile_patterns(&mut tiled, width, height, &patterns, 3, 3);
    assert_eq!(seeded, tiled);
}
