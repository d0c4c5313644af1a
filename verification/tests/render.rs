use sudoku_annealing::render::digit_str;
use sudoku_annealing::sudoku::Sudoku;

#[test]
fn display_sets_the_blocks_apart() {
    let board = [
        [5, 3, 0, 0, 7, 0, 0, 0, 0],
        [6, 0, 0, 1, 9, 5, 0, 0, 0],
        [0, 9, 8, 0, 0, 0, 0, 6, 0],
        [8, 0, 0, 0, 6, 0, 0, 0, 3],
        [4, 0, 0, 8, 0, 3, 0, 0, 1],
        [7, 0, 0, 0, 2, 0, 0, 0, 6],
        [0, 6, 0, 0, 0, 0, 2, 8, 0],
        [0, 0, 0, 4, 1, 9, 0, 0, 5],
        [0, 0, 0, 0, 8, 0, 0, 7, 9],
    ];
    let grid = Sudoku::new(board, [[false; 9]; 9]);
    let expected = "5 3 . | . 7 . | . . . \n\
                    6 . . | 1 9 5 | . . . \n\
                    . 9 8 | . . . | . 6 . \n\
                    ------+-------+------\n\
                    8 . . | . 6 . | . . 3 \n\
                    4 . . | 8 . 3 | . . 1 \n\
                    7 . . | . 2 . | . . 6 \n\
                    ------+-------+------\n\
                    . 6 . | . . . | 2 8 . \n\
                    . . . | 4 1 9 | . . 5 \n\
                    . . . | . 8 . | . 7 9 \n";
    assert_eq!(grid.display(), expected);
}

#[test]
fn display_of_an_empty_grid_is_all_dots() {
    let grid = Sudoku::new([[0u8; 9]; 9], [[false; 9]; 9]);
    let line = ". . . | . . . | . . . \n";
    let rule = "------+-------+------\n";
    let expected = format!("{0}{0}{0}{1}{0}{0}{0}{1}{0}{0}{0}", line, rule);
    assert_eq!(grid.display(), expected);
}

#[test]
fn display_writes_a_value_in_decimal() {
    let mut board = [[0u8; 9]; 9];
    board[0][0] = 12;
    board[0][8] = 255;
    board[0][4] = 100;
    let grid = Sudoku::new(board, [[false; 9]; 9]);
    let text = grid.display();
    let first = text.lines().next().unwrap();
    assert_eq!(first, "12 . . | . 100 . | . . 255 ");
}

#[test]
fn digit_str_is_the_digit() {
    let all: Vec<&str> = (0..=9u8).map(digit_str).collect();
    assert_eq!(all, vec!["0", "1", "2", "3", "4", "5", "6", "7", "8", "9"]);
}

#[test]
fn append_cell_adds_the_value_and_a_space() {
    let mut text = String::from("x");
    sudoku_annealing::render::append_cell(&mut text, 0);
    sudoku_annealing::render::append_cell(&mut text, 7);
    sudoku_annealing::render::append_cell(&mut text, 40);
    sudoku_annealing::render::append_cell(&mut text, 209);
    assert_eq!(text, "x. 7 40 209 ");
}
