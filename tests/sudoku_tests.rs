use rand::rngs::StdRng;
use rand::SeedableRng;
use sudoku::digger::{anakin, generate_unique};
use sudoku::grid::{block_side, Grid, GridError};
use sudoku::rules::{find_available_positions, get_next, is_valid};
use sudoku::solver::{collect_sudoku_solutions, fill_random, solve, sudoku_solver, sudoku_unique};
use sudoku::text::{render_board, sudoku_string};

fn fixture() -> Grid {
    Grid::from_rows(vec![
        vec![1, 2, 3, 4],
        vec![3, 4, 1, 2],
        vec![2, 1, 4, 3],
        vec![4, 3, 2, 1],
    ])
    .unwrap()
}

fn count_empty(grid: &Grid) -> usize {
    grid.cells.iter().flatten().filter(|v| **v == 0).count()
}

fn is_permutation(values: &[usize], n: usize) -> bool {
    let mut seen = vec![false; n + 1];
    for &v in values {
        if v == 0 || v > n || seen[v] {
            return false;
        }
        seen[v] = true;
    }
    values.len() == n
}

fn every_unit_is_permutation(grid: &Grid) -> bool {
    let n = grid.size;
    let s = grid.side;
    for r in 0..n {
        if !is_permutation(&grid.cells[r], n) {
            return false;
        }
    }
    for c in 0..n {
        let col: Vec<usize> = (0..n).map(|r| grid.cells[r][c]).collect();
        if !is_permutation(&col, n) {
            return false;
        }
    }
    for br in 0..s {
        for bc in 0..s {
            let block: Vec<usize> = (0..n).map(|k| grid.cells[br * s + k / s][bc * s + k % s]).collect();
            if !is_permutation(&block, n) {
                return false;
            }
        }
    }
    true
}

fn count(grid: &mut Grid) -> usize {
    let mut solutions: usize = 0;
    collect_sudoku_solutions(grid, 0, 0, &mut solutions);
    solutions
}

#[test]
fn block_side_of_perfect_squares() {
    assert_eq!(block_side(1), Some(1));
    assert_eq!(block_side(4), Some(2));
    assert_eq!(block_side(9), Some(3));
    assert_eq!(block_side(16), Some(4));
    assert_eq!(block_side(25), Some(5));
    assert_eq!(block_side(0), None);
    assert_eq!(block_side(10), None);
    assert_eq!(block_side(8), None);
}

#[test]
fn size_ten_is_rejected() {
    assert_eq!(Grid::new(10).err(), Some(GridError::InvalidSize));
    let mut rng = StdRng::seed_from_u64(7);
    assert_eq!(fill_random(10, &mut rng).err(), Some(GridError::InvalidSize));
}

#[test]
fn size_zero_is_rejected() {
    assert_eq!(Grid::new(0).err(), Some(GridError::InvalidSize));
    let mut rng = StdRng::seed_from_u64(7);
    assert_eq!(fill_random(0, &mut rng).err(), Some(GridError::InvalidSize));
}

#[test]
fn new_grid_is_empty() {
    let g = Grid::new(9).unwrap();
    assert_eq!(g.size, 9);
    assert_eq!(g.side, 3);
    assert_eq!(count_empty(&g), 81);
}

#[test]
fn from_rows_rejects_bad_input() {
    let three = vec![vec![1, 2, 3], vec![2, 3, 1], vec![3, 1, 2]];
    assert_eq!(Grid::from_rows(three).err(), Some(GridError::InvalidSize));
    let ragged = vec![vec![1, 2, 3, 4], vec![3, 4, 1], vec![2, 1, 4, 3], vec![4, 3, 2, 1]];
    assert_eq!(Grid::from_rows(ragged).err(), Some(GridError::InvalidCells));
    let too_big = vec![vec![1, 2, 3, 5], vec![3, 4, 1, 2], vec![2, 1, 4, 3], vec![4, 3, 2, 1]];
    assert_eq!(Grid::from_rows(too_big).err(), Some(GridError::InvalidCells));
}

#[test]
fn get_and_set_cells() {
    let mut g = fixture();
    assert_eq!(g.get(2, 3), 3);
    g.set(2, 3, 0);
    assert_eq!(g.get(2, 3), 0);
    assert_eq!(g.cells[2], vec![2, 1, 4, 0]);
}

#[test]
fn is_valid_checks_row_column_and_block() {
    let mut g = fixture();
    g.set(0, 0, 0);
    assert!(is_valid(&g, 0, 0, 1));
    assert!(!is_valid(&g, 0, 0, 2)); // row
    assert!(!is_valid(&g, 0, 0, 3)); // row and column
    assert!(!is_valid(&g, 0, 0, 4)); // row, column and block
    let mut e = Grid::new(4).unwrap();
    e.set(1, 1, 3);
    assert!(!is_valid(&e, 0, 0, 3)); // block only
    assert!(is_valid(&e, 0, 2, 3));
    assert!(!is_valid(&e, 3, 1, 3)); // column only
}

#[test]
fn candidates_are_ascending_legal_values() {
    let mut g = Grid::new(4).unwrap();
    assert_eq!(find_available_positions(&g, 0, 0), vec![1, 2, 3, 4]);
    g.set(0, 3, 2);
    g.set(3, 0, 4);
    g.set(1, 1, 1);
    assert_eq!(find_available_positions(&g, 0, 0), vec![3]);
    let mut f = fixture();
    f.set(0, 0, 0);
    assert_eq!(find_available_positions(&f, 0, 0), vec![1]);
}

#[test]
fn get_next_picks_fewest_candidates() {
    let mut g = Grid::new(4).unwrap();
    g.set(0, 3, 2);
    g.set(3, 0, 4);
    g.set(1, 1, 1);
    let (x, y, values) = get_next(&g);
    assert_eq!((x, y), (0, 0));
    assert_eq!(values, vec![3]);
    let f = fixture();
    let (x, y, values) = get_next(&f);
    assert_eq!((x, y), (0, 0));
    assert!(values.is_empty());
    let mut h = fixture();
    h.set(2, 2, 0);
    h.set(3, 3, 0);
    h.set(3, 2, 0);
    let (x, y, values) = get_next(&h);
    assert_eq!((x, y), (2, 2));
    assert_eq!(values, vec![4]);
}

#[test]
fn fixture_with_one_cleared_cell_is_unique() {
    let mut g = fixture();
    g.set(0, 0, 0);
    assert!(sudoku_unique(&mut g));
    assert_eq!(g.get(0, 0), 0);
}

#[test]
fn fixture_with_two_cleared_cells_is_unique() {
    let mut g = fixture();
    g.set(0, 0, 0);
    g.set(1, 1, 0);
    assert!(sudoku_unique(&mut g));
    assert_eq!(count(&mut g), 1);
    let mut rng = StdRng::seed_from_u64(11);
    assert!(solve(&mut g, &mut rng));
    assert_eq!(g.cells, fixture().cells);
}

#[test]
fn counting_zero_one_and_many() {
    let mut full = fixture();
    assert_eq!(count(&mut full), 1);
    let mut empty = Grid::new(4).unwrap();
    assert_eq!(count(&mut empty), 2);
    assert!(!sudoku_unique(&mut empty));
    // (0, 3) has no legal value: 1, 2, 3 in its row, 4 in its column.
    let mut dead = Grid::from_rows(vec![
        vec![1, 2, 3, 0],
        vec![0, 0, 0, 4],
        vec![0, 0, 0, 0],
        vec![0, 0, 0, 0],
    ])
    .unwrap();
    assert_eq!(count(&mut dead), 0);
    assert!(!sudoku_unique(&mut dead));
}

#[test]
fn count_starting_at_two_stays_two() {
    let mut g = fixture();
    let mut solutions: usize = 2;
    collect_sudoku_solutions(&mut g, 0, 0, &mut solutions);
    assert_eq!(solutions, 2);
    let mut one: usize = 1;
    collect_sudoku_solutions(&mut g, 0, 0, &mut one);
    assert_eq!(one, 2);
}

#[test]
fn clashing_clues_are_not_unique_nor_solvable() {
    let mut g = Grid::from_rows(vec![
        vec![1, 1, 0, 0],
        vec![0, 0, 0, 0],
        vec![0, 0, 0, 0],
        vec![0, 0, 0, 0],
    ])
    .unwrap();
    assert!(!sudoku_unique(&mut g));
    let before = g.cells.clone();
    let mut rng = StdRng::seed_from_u64(3);
    assert!(!solve(&mut g, &mut rng));
    assert_eq!(g.cells, before);
}

#[test]
fn unsolvable_grid_is_left_unchanged() {
    let mut g = Grid::from_rows(vec![
        vec![1, 2, 3, 0],
        vec![0, 0, 0, 4],
        vec![0, 0, 0, 0],
        vec![0, 0, 0, 0],
    ])
    .unwrap();
    let before = g.cells.clone();
    let mut rng = StdRng::seed_from_u64(5);
    assert!(!solve(&mut g, &mut rng));
    assert_eq!(g.cells, before);
    assert!(!sudoku_solver(&mut g, 0, 0, &mut rng));
    assert_eq!(g.cells, before);
}

#[test]
fn solve_completes_partial_grid() {
    let mut g = Grid::from_rows(vec![
        vec![0, 0, 0, 4],
        vec![0, 4, 0, 0],
        vec![2, 0, 0, 0],
        vec![0, 0, 2, 0],
    ])
    .unwrap();
    let clues = g.cells.clone();
    let mut rng = StdRng::seed_from_u64(9);
    assert!(solve(&mut g, &mut rng));
    assert!(every_unit_is_permutation(&g));
    for r in 0..4 {
        for c in 0..4 {
            if clues[r][c] != 0 {
                assert_eq!(g.cells[r][c], clues[r][c]);
            }
        }
    }
}

#[test]
fn fill_random_gives_permutations() {
    for (size, seed) in [(1usize, 1u64), (4, 2), (9, 3), (9, 4), (16, 5)] {
        let mut rng = StdRng::seed_from_u64(seed);
        let g = fill_random(size, &mut rng).unwrap();
        assert_eq!(g.size, size);
        assert_eq!(count_empty(&g), 0);
        assert!(every_unit_is_permutation(&g));
    }
}

#[test]
fn solve_leaves_complete_grid_unchanged() {
    let mut g = fixture();
    let mut rng = StdRng::seed_from_u64(1);
    assert!(solve(&mut g, &mut rng));
    assert_eq!(g.cells, fixture().cells);
    let mut rng = StdRng::seed_from_u64(21);
    let mut f = fill_random(9, &mut rng).unwrap();
    let before = f.cells.clone();
    assert!(solve(&mut f, &mut rng));
    assert_eq!(f.cells, before);
}

#[test]
fn filled_grid_is_unique() {
    for seed in 0..5u64 {
        let mut rng = StdRng::seed_from_u64(seed);
        let mut g = fill_random(9, &mut rng).unwrap();
        assert!(sudoku_unique(&mut g));
    }
}

#[test]
fn dig_then_solve_round_trip() {
    for (seed, difficulty) in [(1u64, 1usize), (2, 3), (3, 5), (4, 9), (5, 100)] {
        let mut rng = StdRng::seed_from_u64(seed);
        let full = fill_random(9, &mut rng).unwrap();
        let mut g = Grid::from_rows(full.cells.clone()).unwrap();
        generate_unique(&mut g, difficulty, &mut rng);
        assert!(sudoku_unique(&mut g));
        assert!(solve(&mut g, &mut rng));
        assert_eq!(g.cells, full.cells);
    }
}

#[test]
fn dig_with_zero_difficulty_removes_nothing() {
    let mut g = fixture();
    let mut rng = StdRng::seed_from_u64(8);
    generate_unique(&mut g, 0, &mut rng);
    assert_eq!(g.cells, fixture().cells);
}

#[test]
fn dig_removes_difficulty_times_size_when_possible() {
    let mut rng = StdRng::seed_from_u64(12);
    let full = fill_random(9, &mut rng).unwrap();
    let mut g = Grid::from_rows(full.cells.clone()).unwrap();
    generate_unique(&mut g, 2, &mut rng);
    assert_eq!(count_empty(&g), 18);
    for r in 0..9 {
        for c in 0..9 {
            assert!(g.cells[r][c] == 0 || g.cells[r][c] == full.cells[r][c]);
        }
    }
}

#[test]
fn dig_with_huge_difficulty_stays_unique() {
    let mut rng = StdRng::seed_from_u64(13);
    let full = fill_random(4, &mut rng).unwrap();
    let mut g = Grid::from_rows(full.cells.clone()).unwrap();
    generate_unique(&mut g, usize::MAX, &mut rng);
    let empty = count_empty(&g);
    assert!(empty <= 16);
    assert!(sudoku_unique(&mut g));
    // Every remaining clue is needed: clearing it allows a second completion.
    if empty < 16 {
        for r in 0..4 {
            for c in 0..4 {
                if g.cells[r][c] != 0 {
                    let v = g.cells[r][c];
                    g.set(r, c, 0);
                    assert!(!sudoku_unique(&mut g));
                    g.set(r, c, v);
                }
            }
        }
    }
}

#[test]
fn anakin_clears_exactly_the_target() {
    let mut rng = StdRng::seed_from_u64(14);
    let full = fill_random(16, &mut rng).unwrap();
    let mut g = Grid::from_rows(full.cells.clone()).unwrap();
    anakin(&mut g, 3, &mut rng);
    assert_eq!(count_empty(&g), 48);
    let mut h = Grid::from_rows(full.cells.clone()).unwrap();
    anakin(&mut h, 1000, &mut rng);
    assert_eq!(count_empty(&h), 256);
    let mut k = Grid::from_rows(full.cells.clone()).unwrap();
    anakin(&mut k, 0, &mut rng);
    assert_eq!(k.cells, full.cells);
}

#[test]
fn seeded_fill_is_reproducible() {
    let mut a = StdRng::seed_from_u64(42);
    let mut b = StdRng::seed_from_u64(42);
    let g = fill_random(9, &mut a).unwrap();
    let h = fill_random(9, &mut b).unwrap();
    assert_eq!(g.cells, h.cells);
}

#[test]
fn grid_text_uses_dots_and_decimals() {
    let mut g = fixture();
    assert_eq!(sudoku_string(&g), "1234341221434321");
    g.set(0, 0, 0);
    g.set(3, 3, 0);
    assert_eq!(sudoku_string(&g), ".23434122143432.");
    let mut big = Grid::new(16).unwrap();
    big.set(0, 0, 16);
    big.set(0, 1, 9);
    big.set(0, 2, 10);
    let text = sudoku_string(&big);
    assert!(text.starts_with("16910."));
    assert_eq!(text.len(), 256 - 3 + 5);
}

#[test]
fn different_seeds_give_different_grids() {
    let grids: Vec<Vec<Vec<usize>>> = (0..4u64)
        .map(|seed| {
            let mut rng = StdRng::seed_from_u64(seed);
            fill_random(9, &mut rng).unwrap().cells
        })
        .collect();
    assert!(grids.iter().any(|g| *g != grids[0]));
}

#[test]
fn board_rendering_small() {
    let g = fixture();
    let rule = format!(" {}\n", "-".repeat(13));
    let expected = format!(
        "  1  2 | 3  4\n  3  4 | 1  2\n{}  2  1 | 4  3\n  4  3 | 2  1\n",
        rule
    );
    assert_eq!(render_board(&g), expected);
    let mut e = fixture();
    e.set(0, 0, 0);
    assert!(render_board(&e).starts_with("  0  2 | 3  4\n"));
}

#[test]
fn board_rendering_pads_small_values_on_large_grids() {
    let mut g = Grid::new(16).unwrap();
    g.set(0, 0, 5);
    g.set(0, 1, 12);
    let text = render_board(&g);
    let first = text.lines().next().unwrap();
    assert!(first.starts_with("  5   12  0   0  | 0 "));
    let rule_line = text.lines().nth(4).unwrap();
    assert_eq!(rule_line, format!(" {}", "-".repeat(16 * 4 + 3)));
    assert_eq!(text.lines().count(), 16 + 3);
}
