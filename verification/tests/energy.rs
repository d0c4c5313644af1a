use sudoku_annealing::groups::count_duplicates;
use sudoku_annealing::sa_solver::SimulatedAnnealingProblem;
use sudoku_annealing::sudoku::Sudoku;

fn solved_board() -> [[u8; 9]; 9] {
    [
        [5, 3, 4, 6, 7, 8, 9, 1, 2],
        [6, 7, 2, 1, 9, 5, 3, 4, 8],
        [1, 9, 8, 3, 4, 2, 5, 6, 7],
        [8, 5, 9, 7, 6, 1, 4, 2, 3],
        [4, 2, 6, 8, 5, 3, 7, 9, 1],
        [7, 1, 3, 9, 2, 4, 8, 5, 6],
        [9, 6, 1, 5, 3, 7, 2, 8, 4],
        [2, 8, 7, 4, 1, 9, 6, 3, 5],
        [3, 4, 5, 2, 8, 6, 1, 7, 9],
    ]
}

#[test]
fn empty_grid_has_no_energy() {
    let grid = Sudoku::new([[0u8; 9]; 9], [[false; 9]; 9]);
    assert_eq!(grid.calculate_energy(), 0);
}

#[test]
fn solved_grid_has_no_energy() {
    let grid = Sudoku::new(solved_board(), [[true; 9]; 9]);
    assert_eq!(grid.calculate_energy(), 0);
}

#[test]
fn a_value_counts_once_for_each_occurrence_beyond_the_first() {
    assert_eq!(count_duplicates(&[1, 1, 2, 0, 0, 2, 2, 3, 4]), 3);
    assert_eq!(count_duplicates(&[7, 7, 7, 7, 7, 7, 7, 7, 7]), 8);
    assert_eq!(count_duplicates(&[1, 2, 3, 4, 5, 6, 7, 8, 9]), 0);
}

#[test]
fn empty_cells_are_no_duplicates() {
    assert_eq!(count_duplicates(&[0, 0, 0, 0, 0, 0, 0, 0, 0]), 0);
    assert_eq!(count_duplicates(&[0, 4, 0, 0, 4, 0, 0, 0, 0]), 1);
    assert_eq!(count_duplicates(&[]), 0);
}

#[test]
fn a_row_of_ones_counts_in_its_row_and_its_blocks() {
    let mut board = [[0u8; 9]; 9];
    board[0] = [1; 9];
    let grid = Sudoku::new(board, [[false; 9]; 9]);
    // 8 in the row, 2 in each of the three blocks, none in the columns
    assert_eq!(grid.calculate_energy(), 14);
}

#[test]
fn a_column_of_ones_counts_in_its_column_and_its_blocks() {
    let mut board = [[0u8; 9]; 9];
    for r in 0..9 {
        board[r][4] = 1;
    }
    let grid = Sudoku::new(board, [[false; 9]; 9]);
    assert_eq!(grid.calculate_energy(), 14);
}

#[test]
fn one_exchange_in_a_solved_grid_costs_four() {
    let mut board = solved_board();
    // exchange two cells of the first block that share no row and no column
    board[0][0] = 7;
    board[1][1] = 5;
    let grid = Sudoku::new(board, [[false; 9]; 9]);
    // rows 0 and 1 and columns 0 and 1 hold one duplicate each
    assert_eq!(grid.calculate_energy(), 4);
}

#[test]
fn a_duplicate_in_a_block_alone_counts_once() {
    let mut board = [[0u8; 9]; 9];
    board[3][3] = 6;
    board[4][4] = 6;
    let grid = Sudoku::new(board, [[false; 9]; 9]);
    assert_eq!(grid.calculate_energy(), 1);
}

#[test]
fn energy_is_zero_exactly_when_no_group_repeats_a_value() {
    let mut board = solved_board();
    assert_eq!(Sudoku::new(board, [[false; 9]; 9]).calculate_energy(), 0);
    board[8][8] = 0;
    assert_eq!(Sudoku::new(board, [[false; 9]; 9]).calculate_energy(), 0);
    board[8][8] = 1;
    assert!(Sudoku::new(board, [[false; 9]; 9]).calculate_energy() > 0);
}

#[test]
fn new_keeps_cells_and_givens() {
    let mut fixed = [[false; 9]; 9];
    fixed[2][7] = true;
    let grid = Sudoku::new(solved_board(), fixed);
    for r in 0..9 {
        for c in 0..9 {
            assert_eq!(grid.value_at(r, c), solved_board()[r][c]);
            assert_eq!(grid.fixed_at(r, c), r == 2 && c == 7);
        }
    }
}

#[test]
fn a_clone_is_the_same_grid() {
    let mut fixed = [[false; 9]; 9];
    fixed[0][0] = true;
    let grid = Sudoku::new(solved_board(), fixed);
    let copy = grid.clone();
    for r in 0..9 {
        for c in 0..9 {
            assert_eq!(copy.value_at(r, c), grid.value_at(r, c));
            assert_eq!(copy.fixed_at(r, c), grid.fixed_at(r, c));
        }
    }
}
