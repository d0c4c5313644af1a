use sudoku_annealing::sa_solver::SimulatedAnnealingProblem;
use sudoku_annealing::sudoku::Sudoku;

fn solved_board() -> [[u8; 9]; 9] {
    [
        [5, 3, 4, 6, 7, 8, 9, 1, 2],
        [6, 7, 2, 1, 9, 5, 3, 4, 8],
        [1, 9, 8, 3, 4, 2, 5, 6, 7],
        [8, 5, 9, 7, 6, 1, 4, 2, 3],
        [4, 2, 6, 8, 5, 3, 7, 9, 1],
        [7, 1, 3, 9, 2, 4, 8, 5, 6],
        [9, 6, 1, 5, 3, 7, 2, 8, 4],
        [2, 8, 7, 4, 1, 9, 6, 3, 5],
        [3, 4, 5, 2, 8, 6, 1, 7, 9],
    ]
}

fn changed_cells(before: &Sudoku, after: &Sudoku) -> Vec<(usize, usize)> {
    let mut cells = Vec::new();
    for r in 0..9 {
        for c in 0..9 {
            if before.value_at(r, c) != after.value_at(r, c) {
                cells.push((r, c));
            }
        }
    }
    cells
}

fn block_values(grid: &Sudoku, block: usize) -> Vec<u8> {
    let mut values = Vec::new();
    for k in 0..9 {
        values.push(grid.value_at((block / 3) * 3 + k / 3, (block % 3) * 3 + k % 3));
    }
    values.sort();
    values
}

#[test]
fn fully_fixed_grid_has_itself_as_neighbor() {
    let mut grid = Sudoku::new(solved_board(), [[true; 9]; 9]);
    for _ in 0..200 {
        let next = grid.generate_neighbor();
        assert!(changed_cells(&grid, &next).is_empty());
        for r in 0..9 {
            for c in 0..9 {
                assert!(next.fixed_at(r, c));
            }
        }
        assert_eq!(next.calculate_energy(), 0);
        grid = next;
    }
}

#[test]
fn a_move_in_a_free_grid_exchanges_two_cells_of_one_block() {
    let mut grid = Sudoku::new(solved_board(), [[false; 9]; 9]);
    for _ in 0..300 {
        let next = grid.generate_neighbor();
        let changed = changed_cells(&grid, &next);
        assert_eq!(changed.len(), 2);
        let (r1, c1) = changed[0];
        let (r2, c2) = changed[1];
        assert_eq!((r1 / 3, c1 / 3), (r2 / 3, c2 / 3));
        assert_eq!(next.value_at(r1, c1), grid.value_at(r2, c2));
        assert_eq!(next.value_at(r2, c2), grid.value_at(r1, c1));
        for block in 0..9 {
            assert_eq!(block_values(&next, block), vec![1, 2, 3, 4, 5, 6, 7, 8, 9]);
        }
        grid = next;
    }
}

#[test]
fn a_move_never_touches_a_given() {
    let mut fixed = [[false; 9]; 9];
    for r in 0..9 {
        for c in 0..9 {
            fixed[r][c] = (r + c) % 2 == 0;
        }
    }
    let first = Sudoku::new(solved_board(), fixed);
    let mut grid = first.clone();
    for _ in 0..300 {
        grid = grid.generate_neighbor();
        for r in 0..9 {
            for c in 0..9 {
                assert_eq!(grid.fixed_at(r, c), fixed[r][c]);
                if fixed[r][c] {
                    assert_eq!(grid.value_at(r, c), first.value_at(r, c));
                }
            }
        }
    }
}

#[test]
fn a_block_with_one_free_cell_falls_back_to_a_new_value() {
    let mut fixed = [[true; 9]; 9];
    fixed[4][4] = false;
    let grid = Sudoku::new(solved_board(), fixed);
    let mut seen = Vec::new();
    for _ in 0..200 {
        let next = grid.generate_neighbor();
        assert_eq!(changed_cells(&grid, &next), vec![(4, 4)]);
        let value = next.value_at(4, 4);
        assert!((1..=9).contains(&value));
        assert_ne!(value, grid.value_at(4, 4));
        if !seen.contains(&value) {
            seen.push(value);
        }
    }
    assert!(seen.len() > 1);
}

#[test]
fn the_fallback_picks_among_all_free_cells() {
    let mut fixed = [[true; 9]; 9];
    fixed[0][0] = false;
    fixed[8][8] = false;
    let grid = Sudoku::new(solved_board(), fixed);
    let mut picked = Vec::new();
    for _ in 0..200 {
        let next = grid.generate_neighbor();
        let changed = changed_cells(&grid, &next);
        assert_eq!(changed.len(), 1);
        assert!(changed[0] == (0, 0) || changed[0] == (8, 8));
        if !picked.contains(&changed[0]) {
            picked.push(changed[0]);
        }
    }
    assert_eq!(picked.len(), 2);
}

#[test]
fn the_fallback_fills_an_empty_cell() {
    let mut board = solved_board();
    board[2][2] = 0;
    let mut fixed = [[true; 9]; 9];
    fixed[2][2] = false;
    let grid = Sudoku::new(board, fixed);
    let next = grid.generate_neighbor();
    assert!((1..=9).contains(&next.value_at(2, 2)));
}

#[test]
fn moves_reach_every_block_and_more_than_one_pair() {
    let grid = Sudoku::new(solved_board(), [[false; 9]; 9]);
    let mut blocks = Vec::new();
    let mut pairs = Vec::new();
    for _ in 0..600 {
        let next = grid.generate_neighbor();
        let changed = changed_cells(&grid, &next);
        let block = (changed[0].0 / 3) * 3 + changed[0].1 / 3;
        if !blocks.contains(&block) {
            blocks.push(block);
        }
        if block == 0 && !pairs.contains(&changed) {
            pairs.push(changed);
        }
    }
    assert_eq!(blocks.len(), 9);
    assert!(pairs.len() > 1);
}

#[test]
fn free_cells_are_listed_row_by_row() {
    let mut fixed = [[true; 9]; 9];
    fixed[3][8] = false;
    fixed[5][6] = false;
    fixed[4][7] = false;
    fixed[0][0] = false;
    let grid = Sudoku::new(solved_board(), fixed);
    assert_eq!(grid.free_cells_in_block(1, 2), vec![(3, 8), (4, 7), (5, 6)]);
    assert_eq!(grid.free_cells_in_block(0, 0), vec![(0, 0)]);
    assert_eq!(grid.free_cells_in_block(2, 1), vec![]);
    assert_eq!(grid.all_free_cells(), vec![(0, 0), (3, 8), (4, 7), (5, 6)]);
}

#[test]
fn a_free_block_lists_its_nine_cells() {
    let grid = Sudoku::new(solved_board(), [[false; 9]; 9]);
    assert_eq!(
        grid.free_cells_in_block(2, 0),
        vec![(6, 0), (6, 1), (6, 2), (7, 0), (7, 1), (7, 2), (8, 0), (8, 1), (8, 2)]
    );
    assert_eq!(grid.all_free_cells().len(), 81);
}

#[test]
fn swapped_exchanges_two_values() {
    let grid = Sudoku::new(solved_board(), [[false; 9]; 9]);
    let next = grid.swapped((0, 0), (2, 1));
    assert_eq!(next.value_at(0, 0), 9);
    assert_eq!(next.value_at(2, 1), 5);
    assert_eq!(changed_cells(&grid, &next), vec![(0, 0), (2, 1)]);
    let same = grid.swapped((4, 4), (4, 4));
    assert!(changed_cells(&grid, &same).is_empty());
}

#[test]
fn with_value_sets_one_cell() {
    let mut fixed = [[false; 9]; 9];
    fixed[1][1] = true;
    let grid = Sudoku::new(solved_board(), fixed);
    let next = grid.with_value((8, 0), 7);
    assert_eq!(next.value_at(8, 0), 7);
    assert_eq!(changed_cells(&grid, &next), vec![(8, 0)]);
    assert!(next.fixed_at(1, 1));
    assert!(!next.fixed_at(8, 0));
}

#[test]
fn the_new_value_is_any_but_the_present_one() {
    for current in 0..=9u8 {
        let mut board = solved_board();
        board[4][4] = current;
        let mut fixed = [[true; 9]; 9];
        fixed[4][4] = false;
        let grid = Sudoku::new(board, fixed);
        let mut seen = Vec::new();
        for _ in 0..400 {
            let value = grid.generate_neighbor().value_at(4, 4);
            assert!((1..=9).contains(&value));
            assert_ne!(value, current);
            if !seen.contains(&value) {
                seen.push(value);
            }
        }
        let expected = if current == 0 { 9 } else { 8 };
        assert_eq!(seen.len(), expected);
    }
}

#[test]
fn the_fallback_may_repeat_a_value_in_its_block() {
    let mut fixed = [[true; 9]; 9];
    fixed[4][4] = false;
    let grid = Sudoku::new(solved_board(), fixed);
    assert_eq!(grid.calculate_energy(), 0);
    let next = grid.generate_neighbor();
    let mut block = block_values(&next, 4);
    block.dedup();
    assert_eq!(block.len(), 8);
    // the new value repeats one in its row, its column and its block
    assert_eq!(next.calculate_energy(), 3);
}
