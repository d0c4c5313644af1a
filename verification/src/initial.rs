//! The first state: the givens read from a puzzle description, and each
//! block filled with the values it lacks.

use crate::groups::group_duplicates;
use crate::groups::lemma_no_duplicates_iff_distinct;
use crate::groups::occurrences;
use crate::seq_facts::lemma_filter_keeps_all;
use crate::seq_facts::lemma_filter_keeps_distinct;
use crate::seq_facts::lemma_filter_narrowed;
use crate::seq_facts::lemma_same_entries;
use crate::sudoku::block_of;
use crate::sudoku::cell_column;
use crate::sudoku::cell_row;
use crate::sudoku::in_grid;
use crate::sudoku::lemma_block_of_cell;
use crate::sudoku::lemma_cell_of_block;
use crate::sudoku::place_in_block;
use crate::sudoku::Sudoku;
use vstd::prelude::*;
use vstd::seq_lib::*;

verus! {

/// Whether `ch` stands for a cell: a digit, or the dot. Every other
/// character of a puzzle description is passed over.
pub open spec fn is_cell_char(ch: char) -> bool {
    ('0' <= ch && ch <= '9') || ch == '.'
}

/// The test [`is_cell_char`] as a function value.
pub open spec fn cell_test() -> spec_fn(char) -> bool {
    |ch: char| is_cell_char(ch)
}

/// The given that `ch` stands for: its value for one of `'1'..='9'`, and 0,
/// an empty cell, for any other character.
pub open spec fn digit_of(ch: char) -> u8 {
    if '1' <= ch && ch <= '9' {
        (ch as u8 - '0' as u8) as u8
    } else {
        0
    }
}

/// The characters of `puzzle` that stand for cells, in their order.
pub open spec fn cell_chars(puzzle: Seq<char>) -> Seq<char> {
    puzzle.filter(cell_test())
}

/// The given of the `k`-th cell, the cells taken row by row: what the
/// `k`-th cell character stands for, and 0 where `puzzle` has no such
/// character.
pub open spec fn given_value(puzzle: Seq<char>, k: int) -> u8 {
    if 0 <= k < cell_chars(puzzle).len() {
        digit_of(cell_chars(puzzle)[k])
    } else {
        0
    }
}

/// The given of the cell at row `r`, column `c`.
pub open spec fn given_at(puzzle: Seq<char>, r: int, c: int) -> u8 {
    given_value(puzzle, r * 9 + c)
}

/// Whether `board` holds the givens of `puzzle` and nothing else, and
/// `fixed_cells` marks them.
pub open spec fn is_parse_of(
    puzzle: Seq<char>,
    board: [[u8; 9]; 9],
    fixed_cells: [[bool; 9]; 9],
) -> bool {
    forall|r: int, c: int|
        in_grid(r, c) ==> board[r][c] == #[trigger] given_at(puzzle, r, c) && fixed_cells[r][c]
            == (given_at(puzzle, r, c) != 0)
}

/// The value of a character that stands for a given, and 0 for any other.
pub fn digit_value(ch: char) -> (value: u8)
    ensures
        value == digit_of(ch),
        value <= 9,
{
    if ch >= '1' && ch <= '9' {
        ch as u8 - '0' as u8
    } else {
        0
    }
}

/// Reads the givens of `puzzle_input`: the first 81 cell characters stand
/// for the cells, row by row; a cell without a character is empty.
pub fn parse_givens(puzzle_input: &str) -> (parsed: ([[u8; 9]; 9], [[bool; 9]; 9]))
    ensures
        is_parse_of(puzzle_input@, parsed.0, parsed.1),
{
    let mut board = [[0u8;9];9];
    let mut fixed_cells = [[false;9];9];
    let mut placed: usize = 0;
    let ghost puzzle = puzzle_input@;
    assert(cell_chars(puzzle.take(0)) =~= Seq::empty());
    for ch in it: puzzle_input.chars()
        invariant
            it.seq() == puzzle,
            puzzle == puzzle_input@,
            placed <= 81,
            placed == if cell_chars(puzzle.take(it.index())).len() < 81 {
                cell_chars(puzzle.take(it.index())).len()
            } else {
                81
            },
            is_parse_of(puzzle.take(it.index()), board, fixed_cells),
    {
        let ghost before = puzzle.take(it.index());
        let ghost after = puzzle.take(it.index() + 1);
        let ghost old_board = board;
        let ghost old_fixed = fixed_cells;
        let ghost old_placed = placed;
        proof {
            assert(before.push(ch) =~= after);
            before.lemma_filter_push(ch, cell_test());
        }
        let is_cell = (ch >= '0' && ch <= '9') || ch == '.';
        if is_cell && placed < 81 {
            let r = placed / 9;
            let c = placed % 9;
            let value = digit_value(ch);
            if value != 0 {
                board[r][c] = value;
                fixed_cells[r][c] = true;
            }
            placed += 1;
        }
        proof {
            assert forall|r: int, c: int| in_grid(r, c) implies board[r][c] == #[trigger] given_at(
                after,
                r,
                c,
            ) && fixed_cells[r][c] == (given_at(after, r, c) != 0) by {
                assert(old_board[r][c] == given_at(before, r, c));
                assert(old_fixed[r][c] == (given_at(before, r, c) != 0));
                if is_cell && old_placed < 81 && r * 9 + c == old_placed {
                    assert(r == old_placed / 9 && c == old_placed % 9);
                    assert(cell_chars(after)[old_placed as int] == ch);
                } else {
                    assert(!(is_cell && old_placed < 81 && r == old_placed / 9 && c == old_placed
                        % 9));
                    assert(board[r][c] == old_board[r][c]);
                    assert(fixed_cells[r][c] == old_fixed[r][c]);
                }
            }
        }
    }
    proof {
        assert(puzzle.take(puzzle.len() as int) =~= puzzle);
    }
    (board, fixed_cells)
}

/// The values that a block is to hold: `1..=9`, in rising order.
pub open spec fn digits() -> Seq<u8> {
    Seq::new(9, |i: int| (i + 1) as u8)
}

/// The values of block `block` of `board`, row by row.
pub open spec fn block_values(board: [[u8; 9]; 9], block: int) -> Seq<u8> {
    Seq::new(9, |k: int| board[cell_row(block, k)][cell_column(block, k)])
}

/// The test for a value that does not occur in `values`.
pub open spec fn absent_from(values: Seq<u8>) -> spec_fn(u8) -> bool {
    |value: u8| !values.contains(value)
}

/// The values of `1..=9` that do not occur in `values`, in rising order.
pub open spec fn missing_from(values: Seq<u8>) -> Seq<u8> {
    digits().filter(absent_from(values))
}

/// The test for an empty cell.
pub open spec fn blank_test() -> spec_fn(u8) -> bool {
    |value: u8| value == 0
}

/// The number of empty cells among the first `k` of `values`.
pub open spec fn blanks_before(values: Seq<u8>, k: int) -> nat {
    values.take(k).filter(blank_test()).len()
}

/// The number of empty cells in `values`.
pub open spec fn blanks(values: Seq<u8>) -> nat {
    values.filter(blank_test()).len()
}

/// What the cell at row `r`, column `c` holds once the empty cells of
/// block `block` of `board` have taken the entries of `values` in turn,
/// row by row.
pub open spec fn fill_at(board: [[u8; 9]; 9], block: int, values: Seq<u8>, r: int, c: int) -> u8 {
    if block_of(r, c) == block && board[r][c] == 0 {
        values[blanks_before(block_values(board, block), place_in_block(r, c)) as int]
    } else {
        board[r][c]
    }
}

/// What the cell at row `r`, column `c` holds once the empty cells
/// among the first `count` of block `block` have been filled.
pub open spec fn fill_before(
    board: [[u8; 9]; 9],
    block: int,
    values: Seq<u8>,
    count: int,
    r: int,
    c: int,
) -> u8 {
    if block_of(r, c) == block && place_in_block(r, c) < count {
        fill_at(board, block, values, r, c)
    } else {
        board[r][c]
    }
}

/// Whether `filled` is `board` with the empty cells of block `block`
/// filled from `values`.
pub open spec fn is_fill_of(
    board: [[u8; 9]; 9],
    filled: [[u8; 9]; 9],
    block: int,
    values: Seq<u8>,
) -> bool {
    forall|r: int, c: int|
        in_grid(r, c) ==> filled[r][c] == #[trigger] fill_at(board, block, values, r, c)
}

/// The empty cells before place `k + 1` are those before place `k`, and
/// the cell at place `k` if it is empty; there are never more of them
/// than empty cells in all.
pub proof fn lemma_blanks_step(values: Seq<u8>, k: int)
    requires
        0 <= k < values.len(),
    ensures
        blanks_before(values, k + 1) == blanks_before(values, k) + if values[k] == 0 {
            1nat
        } else {
            0nat
        },
        blanks_before(values, k + 1) <= blanks(values),
{
    assert(values.take(k).push(values[k]) =~= values.take(k + 1));
    values.take(k).lemma_filter_push(values[k], blank_test());
    assert(values.take(k + 1) + values.skip(k + 1) =~= values);
}

/// Of two empty cells the later one has more empty cells before it.
pub proof fn lemma_blanks_rise(values: Seq<u8>, i: int, j: int)
    requires
        0 <= i < j < values.len(),
        values[i] == 0,
    ensures
        blanks_before(values, i) < blanks_before(values, j),
    decreases j - i,
{
    lemma_blanks_step(values, i);
    if i + 1 < j {
        lemma_blanks_step(values, j - 1);
        lemma_blanks_rise(values, i, j - 1);
    }
}

/// The missing values are those of `1..=9` that do not occur, each listed
/// once.
pub proof fn lemma_missing_members(values: Seq<u8>)
    ensures
        missing_from(values).no_duplicates(),
        forall|value: u8|
            missing_from(values).contains(value) <==> 1 <= value <= 9 && !values.contains(value),
{
    assert forall|i: int, j: int| 0 <= i < 9 && 0 <= j < 9 && i != j implies digits()[i]
        != digits()[j] by {}
    lemma_filter_keeps_distinct(digits(), absent_from(values));
    assert forall|value: u8|
        missing_from(values).contains(value) <==> 1 <= value <= 9 && !values.contains(value) by {
        if missing_from(values).contains(value) {
            digits().lemma_filter_contains_rev(absent_from(values), value);
            let k = choose|k: int| 0 <= k < 9 && digits()[k] == value;
            let i = choose|i: int|
                0 <= i < missing_from(values).len() && missing_from(values)[i] == value;
            digits().lemma_filter_pred(absent_from(values), i);
        }
        if 1 <= value <= 9 && !values.contains(value) {
            assert(digits()[value - 1] == value);
            digits().lemma_filter_contains(absent_from(values), value - 1);
        }
    }
}

/// The missing values are at least as many as nine less the cells that
/// are not empty.
pub proof fn lemma_missing_enough(values: Seq<u8>)
    ensures
        missing_from(values).len() + values.len() >= 9 + blanks(values),
    decreases values.len(),
{
    assert forall|i: int, j: int| 0 <= i < 9 && 0 <= j < 9 && i != j implies digits()[i]
        != digits()[j] by {}
    if values.len() == 0 {
        lemma_filter_keeps_all(digits(), absent_from(values));
        assert(blanks(values) == 0);
    } else {
        let rest = values.drop_last();
        let last = values.last();
        lemma_missing_enough(rest);
        assert(rest.push(last) =~= values);
        rest.lemma_filter_push(last, blank_test());
        assert forall|value: u8| #[trigger]
            absent_from(values)(value) == (absent_from(rest)(value) && value != last) by {
            if rest.contains(value) {
                let i = choose|i: int| 0 <= i < rest.len() && rest[i] == value;
                assert(values[i] == value);
            }
            if values.contains(value) && value != last {
                let i = choose|i: int| 0 <= i < values.len() && values[i] == value;
                assert(rest[i] == value);
            }
            if value == last {
                assert(values[values.len() - 1] == value);
            }
        }
        lemma_filter_narrowed(digits(), absent_from(rest), absent_from(values), last);
        if last == 0 {
            assert(!digits().contains(0u8));
        }
    }
}

/// The values of `1..=9` that block `(block_row, block_col)` of `board`
/// lacks, in rising order.
pub fn missing_values(board: &[[u8; 9]; 9], block_row: usize, block_col: usize) -> (available:
    Vec<u8>)
    requires
        block_row < 3,
        block_col < 3,
    ensures
        available@ == missing_from(block_values(*board, block_row * 3 + block_col)),
{
    let ghost block = (block_row * 3 + block_col) as int;
    let ghost values = block_values(*board, block);
    let mut available: Vec<u8> = Vec::new();
    assert(digits().take(0).filter(absent_from(values)) =~= Seq::empty());
    for value in 1..10u8
        invariant
            block_row < 3,
            block_col < 3,
            block == block_row * 3 + block_col,
            values == block_values(*board, block),
            available@ == digits().take(value - 1).filter(absent_from(values)),
    {
        let mut present = false;
        for r in 0..3usize
            invariant
                block_row < 3,
                block_col < 3,
                block == block_row * 3 + block_col,
                values == block_values(*board, block),
                present == values.take(3 * r).contains(value),
        {
            for c in 0..3usize
                invariant
                    block_row < 3,
                    block_col < 3,
                    r < 3,
                    block == block_row * 3 + block_col,
                    values == block_values(*board, block),
                    present == values.take(3 * r + c).contains(value),
            {
                let found = board[block_row * 3 + r][block_col * 3 + c];
                proof {
                    let k = 3 * r + c;
                    assert(values[k] == found);
                    assert(values.take(k).push(found) =~= values.take(k + 1));
                    let longer = values.take(k + 1);
                    if values.take(k).contains(value) {
                        let i = choose|i: int| 0 <= i < k && values.take(k)[i] == value;
                        assert(longer[i] == value);
                    }
                    if found == value {
                        assert(longer[k] == value);
                    }
                    if longer.contains(value) {
                        let i = choose|i: int| 0 <= i < k + 1 && longer[i] == value;
                        if i < k {
                            assert(values.take(k)[i] == value);
                        }
                    }
                }
                if found == value {
                    present = true;
                }
            }
        }
        proof {
            assert(values.take(9) =~= values);
            let before = digits().take(value - 1);
            assert(before.push(value) =~= digits().take(value as int));
            before.lemma_filter_push(value, absent_from(values));
        }
        if !present {
            available.push(value);
        }
    }
    assert(digits().take(9) =~= digits());
    available
}

/// One step of the filling: once the cell at place `count` of the block
/// has been looked at, and filled if it was empty, the board is filled
/// among the first `count + 1` cells of the block.
proof fn lemma_fill_step(
    start: [[u8; 9]; 9],
    block: int,
    values: Seq<u8>,
    count: int,
    previous: [[u8; 9]; 9],
    current: [[u8; 9]; 9],
    r: int,
    c: int,
)
    requires
        in_grid(r, c),
        block_of(r, c) == block,
        place_in_block(r, c) == count,
        forall|row: int, col: int|
            in_grid(row, col) ==> previous[row][col] == #[trigger] fill_before(
                start,
                block,
                values,
                count,
                row,
                col,
            ),
        forall|row: int, col: int|
            in_grid(row, col) && !(row == r && col == c) ==> current[row][col]
                == previous[row][col],
        current[r][c] == fill_at(start, block, values, r, c),
    ensures
        forall|row: int, col: int|
            in_grid(row, col) ==> current[row][col] == #[trigger] fill_before(
                start,
                block,
                values,
                count + 1,
                row,
                col,
            ),
{
    assert forall|row: int, col: int| in_grid(row, col) implies current[row][col]
        == #[trigger] fill_before(start, block, values, count + 1, row, col) by {
        assert(previous[row][col] == fill_before(start, block, values, count, row, col));
        if !(row == r && col == c) {
            lemma_block_of_cell(row, col);
            lemma_block_of_cell(r, c);
            assert(block_of(row, col) == block ==> place_in_block(row, col) != count);
        }
    }
}

/// Fills the empty cells of block `(block_row, block_col)` of `board`,
/// row by row, with the entries of `values` in turn.
pub fn fill_block(board: &mut [[u8; 9]; 9], block_row: usize, block_col: usize, values: &Vec<u8>)
    requires
        block_row < 3,
        block_col < 3,
        values@.len() >= blanks(block_values(*old(board), block_row * 3 + block_col)),
    ensures
        is_fill_of(*old(board), *final(board), block_row * 3 + block_col, values@),
{
    let ghost block = (block_row * 3 + block_col) as int;
    let ghost start = *board;
    let ghost cells = block_values(start, block);
    let ghost mut count: int = 0;
    let mut index: usize = 0;
    assert(cells.take(0).filter(blank_test()) =~= Seq::empty());
    for r in 0..3usize
        invariant
            block_row < 3,
            block_col < 3,
            block == block_row * 3 + block_col,
            cells == block_values(start, block),
            values@.len() >= blanks(cells),
            count == 3 * r,
            index == blanks_before(cells, count),
            forall|row: int, col: int|
                in_grid(row, col) ==> board[row][col] == #[trigger] fill_before(
                    start,
                    block,
                    values@,
                    count,
                    row,
                    col,
                ),
    {
        for c in 0..3usize
            invariant
                block_row < 3,
                block_col < 3,
                r < 3,
                block == block_row * 3 + block_col,
                cells == block_values(start, block),
                values@.len() >= blanks(cells),
                count == 3 * r + c,
                index == blanks_before(cells, count),
                forall|row: int, col: int|
                    in_grid(row, col) ==> board[row][col] == #[trigger] fill_before(
                        start,
                        block,
                        values@,
                        count,
                        row,
                        col,
                    ),
        {
            let abs_r = block_row * 3 + r;
            let abs_c = block_col * 3 + c;
            let ghost previous = *board;
            proof {
                lemma_blanks_step(cells, count);
                assert(block_of(abs_r as int, abs_c as int) == block);
                assert(place_in_block(abs_r as int, abs_c as int) == count);
                assert(cells[count] == start[abs_r as int][abs_c as int]);
                assert(previous[abs_r as int][abs_c as int] == fill_before(
                    start,
                    block,
                    values@,
                    count,
                    abs_r as int,
                    abs_c as int,
                ));
            }
            if board[abs_r][abs_c] == 0 {
                board[abs_r][abs_c] = values[index];
                index += 1;
            }
            proof {
                lemma_fill_step(
                    start,
                    block,
                    values@,
                    count,
                    previous,
                    *board,
                    abs_r as int,
                    abs_c as int,
                );
                count = count + 1;
            }
        }
    }
    proof {
        assert forall|row: int, col: int| in_grid(row, col) implies board[row][col]
            == #[trigger] fill_at(start, block, values@, row, col) by {
            assert(board[row][col] == fill_before(start, block, values@, count, row, col));
            lemma_block_of_cell(row, col);
        }
    }
}

/// The givens of block `block` of `puzzle`, row by row, 0 for a cell
/// without one.
pub open spec fn block_givens(puzzle: Seq<char>, block: int) -> Seq<u8> {
    Seq::new(9, |k: int| given_at(puzzle, cell_row(block, k), cell_column(block, k)))
}

/// Whether `values` is a filling of a block with the givens `givens`:
/// every cell holds one of `1..=9`, a given holds its value, and the value
/// of a cell without a given occurs in no other cell of the block.
pub open spec fn is_filling(givens: Seq<u8>, values: Seq<u8>) -> bool {
    &&& values.len() == givens.len()
    &&& forall|k: int|
        0 <= k < givens.len() ==> 1 <= #[trigger] values[k] <= 9 && (givens[k] != 0 ==> values[k]
            == givens[k])
    &&& forall|i: int, j: int|
        0 <= i < givens.len() && 0 <= j < givens.len() && i != j && givens[i] == 0
            ==> #[trigger] values[i] != #[trigger] values[j]
}

/// Whether `state` can be the first state for `puzzle`: its givens are
/// those of `puzzle`, and each of its blocks is a filling of the block's
/// givens.
pub open spec fn is_initial_state(puzzle: Seq<char>, state: &Sudoku) -> bool {
    &&& forall|r: int, c: int|
        in_grid(r, c) ==> #[trigger] state.is_fixed(r, c) == (given_at(puzzle, r, c) != 0)
    &&& forall|block: int|
        0 <= block < 9 ==> is_filling(block_givens(puzzle, block), #[trigger] state.block(block))
}

/// The block `givens` with its empty cells filled from `values` in turn.
pub open spec fn filled_from(givens: Seq<u8>, values: Seq<u8>) -> Seq<u8> {
    Seq::new(
        givens.len(),
        |k: int|
            if givens[k] == 0 {
                values[blanks_before(givens, k) as int]
            } else {
                givens[k]
            },
    )
}

/// A block of nine cells whose empty cells take the missing values, in
/// any order, is a filling of its givens.
pub proof fn lemma_filled_from_missing(givens: Seq<u8>, values: Seq<u8>)
    requires
        givens.len() == 9,
        forall|k: int| 0 <= k < 9 ==> givens[k] <= 9,
        values.to_multiset() == missing_from(givens).to_multiset(),
    ensures
        values.len() >= blanks(givens),
        is_filling(givens, filled_from(givens, values)),
{
    let filled = filled_from(givens, values);
    lemma_missing_members(givens);
    lemma_missing_enough(givens);
    lemma_same_entries(missing_from(givens), values);
    assert forall|k: int| 0 <= k < 9 && givens[k] == 0 implies 0 <= blanks_before(givens, k)
        < values.len() && values.contains(#[trigger] filled[k]) by {
        lemma_blanks_step(givens, k);
        assert(values[blanks_before(givens, k) as int] == filled[k]);
    }
    assert forall|k: int| 0 <= k < 9 implies 1 <= #[trigger] filled[k] <= 9 && (givens[k] != 0
        ==> filled[k] == givens[k]) by {
        if givens[k] == 0 {
            assert(values.contains(filled[k]));
            assert(missing_from(givens).contains(filled[k]));
        }
    }
    assert forall|i: int, j: int|
        0 <= i < 9 && 0 <= j < 9 && i != j && givens[i] == 0 implies #[trigger] filled[i]
        != #[trigger] filled[j] by {
        assert(values.contains(filled[i]));
        assert(missing_from(givens).contains(filled[i]));
        if givens[j] == 0 {
            if i < j {
                lemma_blanks_rise(givens, i, j);
            } else {
                lemma_blanks_rise(givens, j, i);
            }
            assert(values.contains(filled[j]));
        } else {
            assert(givens[j] == filled[j]);
            assert(givens.contains(givens[j]));
        }
    }
}

/// A filling of nine givens that are pairwise different holds each of
/// `1..=9` exactly once, and so has no duplicates.
pub proof fn lemma_filling_of_distinct_givens(givens: Seq<u8>, values: Seq<u8>)
    requires
        givens.len() == 9,
        is_filling(givens, values),
        forall|i: int, j: int|
            0 <= i < 9 && 0 <= j < 9 && i != j && givens[i] != 0 ==> givens[i] != givens[j],
    ensures
        values.no_duplicates(),
        forall|value: u8| 1 <= value <= 9 ==> occurrences(values, value) == 1,
        group_duplicates(values) == 0,
{
    broadcast use group_to_multiset_ensures;

    assert forall|i: int, j: int|
        0 <= i < values.len() && 0 <= j < values.len() && i != j implies values[i] != values[j] by {
        if givens[i] == 0 {
            assert(values[i] != values[j]);
        } else if givens[j] == 0 {
            assert(values[j] != values[i]);
        } else {
            assert(values[i] == givens[i] && values[j] == givens[j]);
        }
    }
    assert forall|i: int, j: int| 0 <= i < 9 && 0 <= j < 9 && i != j implies digits()[i]
        != digits()[j] by {}
    values.unique_seq_to_set();
    digits().unique_seq_to_set();
    assert forall|value: u8| values.to_set().contains(value) implies digits().to_set().contains(
        value,
    ) by {
        let k = choose|k: int| 0 <= k < 9 && values[k] == value;
        assert(1 <= values[k] <= 9);
        assert(digits()[value - 1] == value);
    }
    vstd::set_lib::lemma_subset_equality(values.to_set(), digits().to_set());
    values.lemma_multiset_has_no_duplicates();
    assert forall|value: u8| 1 <= value <= 9 implies occurrences(values, value) == 1 by {
        assert(digits()[value - 1] == value);
        assert(digits().to_set().contains(value));
        assert(values.to_set().contains(value));
        assert(values.contains(value));
    }
    lemma_no_duplicates_iff_distinct(values);
}

/// A given is empty or one of `1..=9`.
pub proof fn lemma_given_in_range(puzzle: Seq<char>, r: int, c: int)
    ensures
        given_at(puzzle, r, c) <= 9,
{
}

/// Filling one block from the values it lacks gives that block the
/// filling, and leaves every other block as it was.
pub proof fn lemma_fill_touches_one_block(
    board: [[u8; 9]; 9],
    filled: [[u8; 9]; 9],
    block: int,
    values: Seq<u8>,
)
    requires
        0 <= block < 9,
        is_fill_of(board, filled, block, values),
    ensures
        block_values(filled, block) == filled_from(block_values(board, block), values),
        forall|other: int|
            0 <= other < 9 && other != block ==> #[trigger] block_values(filled, other)
                == block_values(board, other),
{
    assert forall|k: int| 0 <= k < 9 implies block_values(filled, block)[k] == filled_from(
        block_values(board, block),
        values,
    )[k] by {
        lemma_cell_of_block(block, k);
        let r = cell_row(block, k);
        let c = cell_column(block, k);
        assert(filled[r][c] == fill_at(board, block, values, r, c));
    }
    assert(block_values(filled, block) =~= filled_from(block_values(board, block), values));
    assert forall|other: int| 0 <= other < 9 && other != block implies #[trigger] block_values(
        filled,
        other,
    ) == block_values(board, other) by {
        assert forall|k: int| 0 <= k < 9 implies block_values(filled, other)[k] == block_values(
            board,
            other,
        )[k] by {
            lemma_cell_of_block(other, k);
            let r = cell_row(other, k);
            let c = cell_column(other, k);
            assert(filled[r][c] == fill_at(board, block, values, r, c));
        }
        assert(block_values(filled, other) =~= block_values(board, other));
    }
}

/// A first state has no empty cell, and each of its givens holds the
/// value that the puzzle gives it.
pub proof fn lemma_initial_state_is_filled(puzzle: Seq<char>, state: &Sudoku)
    requires
        is_initial_state(puzzle, state),
    ensures
        state.filled(),
        state.well_formed(),
        forall|r: int, c: int|
            in_grid(r, c) && state.is_fixed(r, c) ==> #[trigger] state.cell(r, c) == given_at(
                puzzle,
                r,
                c,
            ),
{
    assert forall|r: int, c: int| in_grid(r, c) implies 1 <= #[trigger] state.cell(r, c) <= 9 && (
    state.is_fixed(r, c) ==> state.cell(r, c) == given_at(puzzle, r, c)) by {
        lemma_block_of_cell(r, c);
        let block = block_of(r, c);
        let k = place_in_block(r, c);
        assert(is_filling(block_givens(puzzle, block), state.block(block)));
        assert(state.block(block)[k] == state.cell(r, c));
        assert(block_givens(puzzle, block)[k] == given_at(puzzle, r, c));
    }
}

/// A block of a first state whose givens are pairwise different holds
/// each of `1..=9` exactly once, and so has no duplicates.
pub proof fn lemma_initial_block_is_complete(puzzle: Seq<char>, state: &Sudoku, block: int)
    requires
        is_initial_state(puzzle, state),
        0 <= block < 9,
        forall|i: int, j: int|
            0 <= i < 9 && 0 <= j < 9 && i != j && block_givens(puzzle, block)[i] != 0
                ==> block_givens(puzzle, block)[i] != block_givens(puzzle, block)[j],
    ensures
        forall|value: u8| 1 <= value <= 9 ==> occurrences(state.block(block), value) == 1,
        group_duplicates(state.block(block)) == 0,
{
    lemma_filling_of_distinct_givens(block_givens(puzzle, block), state.block(block));
}

} // verus!
