//! The 9×9 grid: its cells, its givens, its constraint groups and its energy.

use crate::groups::all_distinct;
use crate::groups::count_duplicates;
use crate::groups::group_duplicates;
use crate::groups::lemma_no_duplicates_iff_distinct;
use crate::initial::block_givens;
use crate::initial::block_values;
use crate::initial::fill_block;
use crate::initial::given_at;
use crate::initial::is_filling;
use crate::initial::is_initial_state;
use crate::initial::lemma_fill_touches_one_block;
use crate::initial::lemma_filled_from_missing;
use crate::initial::lemma_given_in_range;
use crate::initial::lemma_initial_state_is_filled;
use crate::initial::missing_values;
use crate::initial::parse_givens;
use crate::neighbor::draw_other_value;
use crate::neighbor::lemma_free_cells;
use crate::neighbor::lemma_free_in_block;
use crate::neighbor::lemma_neighbor_keeps_filled;
use crate::random::choose_multiple;
use crate::random::choose_one;
use crate::random::picked_at;
use crate::random::random_index;
use crate::random::shuffle;
use crate::sa_solver::SimulatedAnnealingProblem;
use vstd::prelude::*;

verus! {

/// Whether `(r, c)` names a cell of the grid.
pub open spec fn in_grid(r: int, c: int) -> bool {
    0 <= r < 9 && 0 <= c < 9
}

/// The row of the `k`-th cell of block `block`, the cells of a block taken
/// row by row and the blocks likewise.
pub open spec fn cell_row(block: int, k: int) -> int {
    (block / 3) * 3 + k / 3
}

/// The column of the `k`-th cell of block `block`.
pub open spec fn cell_column(block: int, k: int) -> int {
    (block % 3) * 3 + k % 3
}

/// The block that holds the cell at row `r`, column `c`.
pub open spec fn block_of(r: int, c: int) -> int {
    (r / 3) * 3 + c / 3
}

/// The place of the cell at row `r`, column `c` within its block, the
/// cells of the block taken row by row.
pub open spec fn place_in_block(r: int, c: int) -> int {
    (r % 3) * 3 + c % 3
}

/// The `k`-th cell of a block lies in the grid and in that block, at
/// place `k`.
pub proof fn lemma_cell_of_block(block: int, k: int)
    requires
        0 <= block < 9,
        0 <= k < 9,
    ensures
        in_grid(cell_row(block, k), cell_column(block, k)),
        block_of(cell_row(block, k), cell_column(block, k)) == block,
        place_in_block(cell_row(block, k), cell_column(block, k)) == k,
{
}

/// A cell of the grid is the cell of its block at its place.
pub proof fn lemma_block_of_cell(r: int, c: int)
    requires
        in_grid(r, c),
    ensures
        0 <= block_of(r, c) < 9,
        0 <= place_in_block(r, c) < 9,
        cell_row(block_of(r, c), place_in_block(r, c)) == r,
        cell_column(block_of(r, c), place_in_block(r, c)) == c,
{
}

/// A 9×9 grid of cell values, 0 for an empty cell, with the mask of the
/// cells that are givens.
pub struct Sudoku {
    board: [[u8; 9]; 9],
    fixed_cells: [[bool; 9]; 9],
}

impl Clone for Sudoku {
    fn clone(&self) -> (copy: Self)
        ensures
            copy == *self,
    {
        Sudoku { board: self.board, fixed_cells: self.fixed_cells }
    }
}

impl Sudoku {
    /// The value at row `r`, column `c`; 0 stands for an empty cell.
    pub closed spec fn cell(&self, r: int, c: int) -> u8 {
        self.board[r][c]
    }

    /// Whether the cell at row `r`, column `c` is a given.
    pub closed spec fn is_fixed(&self, r: int, c: int) -> bool {
        self.fixed_cells[r][c]
    }

    /// Whether every cell is empty or holds one of `1..=9`.
    pub open spec fn well_formed(&self) -> bool {
        forall|r: int, c: int| in_grid(r, c) ==> #[trigger] self.cell(r, c) <= 9
    }

    /// Whether every cell holds one of `1..=9`.
    pub open spec fn filled(&self) -> bool {
        forall|r: int, c: int| in_grid(r, c) ==> 1 <= #[trigger] self.cell(r, c) <= 9
    }

    /// The values of row `r`, from left to right.
    pub open spec fn row(&self, r: int) -> Seq<u8> {
        Seq::new(9, |c: int| self.cell(r, c))
    }

    /// The values of column `c`, from top to bottom.
    pub open spec fn column(&self, c: int) -> Seq<u8> {
        Seq::new(9, |r: int| self.cell(r, c))
    }

    /// The values of block `block`, row by row.
    pub open spec fn block(&self, block: int) -> Seq<u8> {
        Seq::new(9, |k: int| self.cell(cell_row(block, k), cell_column(block, k)))
    }

    /// The 27 constraint groups: the rows, then the columns, then the
    /// blocks.
    pub open spec fn group(&self, g: int) -> Seq<u8> {
        if g < 9 {
            self.row(g)
        } else if g < 18 {
            self.column(g - 9)
        } else {
            self.block(g - 18)
        }
    }

    /// The duplicates of the first `count` groups, added up.
    pub open spec fn duplicates_in_groups(&self, count: nat) -> nat
        decreases count,
    {
        if count == 0 {
            0
        } else {
            self.duplicates_in_groups((count - 1) as nat) + group_duplicates(
                self.group(count - 1),
            )
        }
    }

    /// The duplicates of all 27 groups, added up.
    pub open spec fn total_duplicates(&self) -> nat {
        self.duplicates_in_groups(27)
    }

    /// The first `count` groups have no duplicates between them exactly
    /// when none of them holds a value of `1..=9` twice.
    pub proof fn lemma_no_duplicates_in_groups(&self, count: nat)
        ensures
            self.duplicates_in_groups(count) == 0 <==> forall|g: int|
                0 <= g < count ==> all_distinct(#[trigger] self.group(g)),
        decreases count,
    {
        if count > 0 {
            self.lemma_no_duplicates_in_groups((count - 1) as nat);
            lemma_no_duplicates_iff_distinct(self.group(count - 1));
        }
    }

    /// The energy is 0 exactly when none of the 27 groups holds a value of
    /// `1..=9` twice.
    pub proof fn lemma_energy_zero_iff_valid(&self)
        ensures
            self.energy() >= 0,
            self.energy() == 0 <==> forall|g: int|
                0 <= g < 27 ==> all_distinct(#[trigger] self.group(g)),
    {
        self.lemma_no_duplicates_in_groups(27);
    }

    /// A grid with the given cell values and the given mask of givens.
    pub fn new(board: [[u8; 9]; 9], fixed_cells: [[bool; 9]; 9]) -> (grid: Self)
        ensures
            forall|r: int, c: int| in_grid(r, c) ==> #[trigger] grid.cell(r, c) == board[r][c],
            forall|r: int, c: int|
                in_grid(r, c) ==> #[trigger] grid.is_fixed(r, c) == fixed_cells[r][c],
    {
        Sudoku { board, fixed_cells }
    }

    /// The value at row `r`, column `c`.
    pub fn value_at(&self, r: usize, c: usize) -> (value: u8)
        requires
            in_grid(r as int, c as int),
        ensures
            value == self.cell(r as int, c as int),
    {
        self.board[r][c]
    }

    /// Whether the cell at row `r`, column `c` is a given.
    pub fn fixed_at(&self, r: usize, c: usize) -> (fixed: bool)
        requires
            in_grid(r as int, c as int),
        ensures
            fixed == self.is_fixed(r as int, c as int),
    {
        self.fixed_cells[r][c]
    }

    /// The grid with the values of `first` and `second` exchanged. Neither
    /// cell may be a given.
    pub fn swapped(&self, first: (usize, usize), second: (usize, usize)) -> (next: Self)
        requires
            in_grid(first.0 as int, first.1 as int),
            in_grid(second.0 as int, second.1 as int),
            !self.is_fixed(first.0 as int, first.1 as int),
            !self.is_fixed(second.0 as int, second.1 as int),
        ensures
            self.is_swap(&next, first, second),
            self.same_givens(&next),
    {
        let (r1, c1) = first;
        let (r2, c2) = second;
        let mut new_board = self.board;
        let temp = new_board[r1][c1];
        new_board[r1][c1] = new_board[r2][c2];
        new_board[r2][c2] = temp;
        Sudoku { board: new_board, fixed_cells: self.fixed_cells }
    }

    /// The grid with `value` in `cell`, which may not be a given.
    pub fn with_value(&self, cell: (usize, usize), value: u8) -> (next: Self)
        requires
            in_grid(cell.0 as int, cell.1 as int),
            !self.is_fixed(cell.0 as int, cell.1 as int),
            1 <= value <= 9,
        ensures
            self.is_reassignment(&next, cell, value),
            self.same_givens(&next),
    {
        let (r, c) = cell;
        let mut new_board = self.board;
        new_board[r][c] = value;
        Sudoku { board: new_board, fixed_cells: self.fixed_cells }
    }
}

impl SimulatedAnnealingProblem for Sudoku {
    /// A grid is valid if each of its cells is empty or holds one of
    /// `1..=9`.
    open spec fn valid(&self) -> bool {
        self.well_formed()
    }

    /// The energy of a grid is the number of its duplicates.
    open spec fn energy(&self) -> nat {
        self.total_duplicates()
    }

    /// The neighbors of a grid are what a neighbor move can make of it.
    open spec fn neighbor(&self, next: &Self) -> bool {
        self.neighbor_move(next)
    }

    /// The first states for a puzzle description.
    open spec fn initial(puzzle_input: Seq<char>, state: &Self) -> bool {
        is_initial_state(puzzle_input, state)
    }

    proof fn clone_is_equal(&self, copy: &Self) {
    }

    /// The sum of the duplicates of the rows, the columns and the blocks.
    fn calculate_energy(&self) -> (energy: u32) {
        let mut energy: u32 = 0;
        for r in 0..9usize
            invariant
                self.well_formed(),
                energy == self.duplicates_in_groups(r as nat),
                energy <= 9 * r,
        {
            proof {
                assert(self.board[r as int]@ =~= self.row(r as int));
                assert forall|c: int| 0 <= c < 9 implies self.row(r as int)[c] <= 9 by {}
            }
            energy += count_duplicates(self.board[r].as_slice());
        }
        for c in 0..9usize
            invariant
                self.well_formed(),
                energy == self.duplicates_in_groups((9 + c) as nat),
                energy <= 9 * (9 + c),
        {
            let mut col: Vec<u8> = Vec::new();
            for r in 0..9usize
                invariant
                    c < 9,
                    col@ =~= self.column(c as int).take(r as int),
            {
                col.push(self.board[r][c]);
            }
            proof {
                assert(col@ =~= self.column(c as int));
                assert forall|r: int| 0 <= r < 9 implies col@[r] <= 9 by {}
            }
            energy += count_duplicates(col.as_slice());
        }
        for block_row in 0..3usize
            invariant
                self.well_formed(),
                energy == self.duplicates_in_groups((18 + 3 * block_row) as nat),
                energy <= 9 * (18 + 3 * block_row),
        {
            for block_col in 0..3usize
                invariant
                    block_row < 3,
                    self.well_formed(),
                    energy == self.duplicates_in_groups((18 + 3 * block_row + block_col) as nat),
                    energy <= 9 * (18 + 3 * block_row + block_col),
            {
                let ghost b = (3 * block_row + block_col) as int;
                let mut block: Vec<u8> = Vec::new();
                for r in 0..3usize
                    invariant
                        block_row < 3,
                        block_col < 3,
                        b == 3 * block_row + block_col,
                        block@ =~= self.block(b).take(3 * r),
                {
                    for c in 0..3usize
                        invariant
                            block_row < 3,
                            block_col < 3,
                            r < 3,
                            b == 3 * block_row + block_col,
                            block@ =~= self.block(b).take(3 * r + c),
                    {
                        block.push(self.board[block_row * 3 + r][block_col * 3 + c]);
                    }
                }
                proof {
                    assert(block@ =~= self.block(b));
                    assert forall|k: int| 0 <= k < 9 implies block@[k] <= 9 by {}
                }
                energy += count_duplicates(block.as_slice());
            }
        }
        energy
    }

    /// One neighbor move: a block is drawn; where it has two free cells or
    /// more, two of them are drawn and exchange their values; else one
    /// free cell of the whole grid is drawn and gets another value.
    fn generate_neighbor(&self) -> (next: Self) {
        let mut rng = rand::rng();
        let block_row = random_index(&mut rng, 0, 3);
        let block_col = random_index(&mut rng, 0, 3);
        let ghost block = (block_row * 3 + block_col) as int;
        let cells_in_block = self.free_cells_in_block(block_row, block_col);
        proof {
            lemma_free_in_block(self, block);
            lemma_free_cells(self);
        }
        let next = if cells_in_block.len() >= 2 {
            let chosen_cells = choose_multiple(&mut rng, &cells_in_block, 2);
            let first = chosen_cells[0];
            let second = chosen_cells[1];
            proof {
                let positions = choose|positions: Seq<int>|
                    picked_at(chosen_cells@, cells_in_block@, positions);
                assert(positions[0] != positions[1]);
                assert(cells_in_block@.contains(first));
                assert(cells_in_block@.contains(second));
            }
            self.swapped(first, second)
        } else {
            let mut non_fixed_cells = self.all_free_cells();
            match choose_one(&mut rng, &mut non_fixed_cells) {
                Some(cell) => {
                    let current_val = self.value_at(cell.0, cell.1);
                    let new_val = draw_other_value(&mut rng, current_val);
                    self.with_value(cell, new_val)
                },
                None => self.clone(),
            }
        };
        proof {
            assert(self.neighbor_in_block(&next, block));
            lemma_neighbor_keeps_filled(self, &next);
        }
        next
    }

    /// The first state for `puzzle_input`: its givens, and in each block
    /// the values that the block lacks, shuffled and put into its empty
    /// cells row by row.
    fn get_initial_state(puzzle_input: &str) -> (state: Self) {
        let ghost puzzle = puzzle_input@;
        let (mut board, fixed_cells) = parse_givens(puzzle_input);
        let mut rng = rand::rng();
        let ghost mut done: int = 0;
        proof {
            assert forall|block: int| 0 <= block < 9 implies #[trigger] block_values(board, block)
                == block_givens(puzzle, block) by {
                assert forall|k: int| 0 <= k < 9 implies block_values(board, block)[k]
                    == block_givens(puzzle, block)[k] by {
                    lemma_cell_of_block(block, k);
                    assert(board[cell_row(block, k)][cell_column(block, k)] == given_at(
                        puzzle,
                        cell_row(block, k),
                        cell_column(block, k),
                    ));
                }
            }
        }
        for block_row in 0..3usize
            invariant
                done == 3 * block_row,
                forall|block: int|
                    0 <= block < done ==> is_filling(
                        block_givens(puzzle, block),
                        #[trigger] block_values(board, block),
                    ),
                forall|block: int|
                    done <= block < 9 ==> #[trigger] block_values(board, block) == block_givens(
                        puzzle,
                        block,
                    ),
        {
            for block_col in 0..3usize
                invariant
                    block_row < 3,
                    done == 3 * block_row + block_col,
                    forall|block: int|
                        0 <= block < done ==> is_filling(
                            block_givens(puzzle, block),
                            #[trigger] block_values(board, block),
                        ),
                    forall|block: int|
                        done <= block < 9 ==> #[trigger] block_values(board, block)
                            == block_givens(puzzle, block),
            {
                let ghost before = board;
                let mut available = missing_values(&board, block_row, block_col);
                shuffle(&mut rng, &mut available);
                proof {
                    assert forall|k: int| 0 <= k < 9 implies block_givens(puzzle, done)[k] <= 9 by {
                        lemma_given_in_range(puzzle, cell_row(done, k), cell_column(done, k));
                    }
                    lemma_filled_from_missing(block_givens(puzzle, done), available@);
                }
                fill_block(&mut board, block_row, block_col, &available);
                proof {
                    lemma_fill_touches_one_block(before, board, done, available@);
                    done = done + 1;
                }
            }
        }
        let state = Sudoku::new(board, fixed_cells);
        proof {
            assert forall|block: int| 0 <= block < 9 implies is_filling(
                block_givens(puzzle, block),
                #[trigger] state.block(block),
            ) by {
                assert forall|k: int| 0 <= k < 9 implies state.block(block)[k] == block_values(
                    board,
                    block,
                )[k] by {
                    lemma_cell_of_block(block, k);
                }
            }
            assert forall|r: int, c: int| in_grid(r, c) implies #[trigger] state.is_fixed(r, c) == (
            given_at(puzzle, r, c) != 0) by {}
            lemma_initial_state_is_filled(puzzle, &state);
        }
        state
    }
}

} // verus!
