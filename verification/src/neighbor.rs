//! Neighbor moves on a grid: which cells may move, what a move is, and what
//! every move leaves as it was.

use crate::groups::group_duplicates;
use crate::groups::lemma_duplicates_of_same_values;
use crate::random::random_value;
use crate::sa_solver::is_walk;
use crate::sa_solver::reachable;
use crate::sa_solver::Search;
use crate::sa_solver::SimulatedAnnealingProblem;
use crate::seq_facts::lemma_filter_keeps_distinct;
use crate::sudoku::block_of;
use crate::sudoku::cell_column;
use crate::sudoku::cell_row;
use crate::sudoku::in_grid;
use crate::sudoku::lemma_block_of_cell;
use crate::sudoku::lemma_cell_of_block;
use crate::sudoku::place_in_block;
use crate::sudoku::Sudoku;
use rand::rngs::ThreadRng;
use vstd::prelude::*;
use vstd::seq_lib::*;

verus! {

/// The cells of block `block`, row by row.
pub open spec fn block_cells(block: int) -> Seq<(usize, usize)> {
    Seq::new(9, |k: int| (cell_row(block, k) as usize, cell_column(block, k) as usize))
}

/// The cells of the grid, row by row.
pub open spec fn grid_cells() -> Seq<(usize, usize)> {
    Seq::new(81, |k: int| ((k / 9) as usize, (k % 9) as usize))
}

/// How often a draw that returned the cell's present value is repeated
/// before the new value is drawn among the other eight directly.
pub const RESAMPLE_LIMIT: u32 = 100;

impl Sudoku {
    /// The test for a cell that is no given.
    pub open spec fn free_at(&self) -> spec_fn((usize, usize)) -> bool {
        |cell: (usize, usize)| !self.is_fixed(cell.0 as int, cell.1 as int)
    }

    /// The cells of block `block` that are no givens, row by row.
    pub open spec fn free_in_block(&self, block: int) -> Seq<(usize, usize)> {
        block_cells(block).filter(self.free_at())
    }

    /// The cells of the grid that are no givens, row by row.
    pub open spec fn free_cells(&self) -> Seq<(usize, usize)> {
        grid_cells().filter(self.free_at())
    }

    /// Whether `next` has the givens of `self`, each with its value.
    pub open spec fn same_givens(&self, next: &Sudoku) -> bool {
        forall|r: int, c: int|
            in_grid(r, c) ==> #[trigger] next.is_fixed(r, c) == self.is_fixed(r, c) && (
            self.is_fixed(r, c) ==> next.cell(r, c) == self.cell(r, c))
    }

    /// Whether `next` is `self` with the values of `first` and `second`
    /// exchanged.
    pub open spec fn is_swap(
        &self,
        next: &Sudoku,
        first: (usize, usize),
        second: (usize, usize),
    ) -> bool {
        &&& in_grid(first.0 as int, first.1 as int)
        &&& in_grid(second.0 as int, second.1 as int)
        &&& forall|r: int, c: int|
            in_grid(r, c) ==> #[trigger] next.is_fixed(r, c) == self.is_fixed(r, c)
        &&& forall|r: int, c: int|
            in_grid(r, c) ==> #[trigger] next.cell(r, c) == if r == first.0 && c == first.1 {
                self.cell(second.0 as int, second.1 as int)
            } else if r == second.0 && c == second.1 {
                self.cell(first.0 as int, first.1 as int)
            } else {
                self.cell(r, c)
            }
    }

    /// Whether `next` is `self` with `value` in `cell`.
    pub open spec fn is_reassignment(&self, next: &Sudoku, cell: (usize, usize), value: u8) -> bool {
        &&& in_grid(cell.0 as int, cell.1 as int)
        &&& forall|r: int, c: int|
            in_grid(r, c) ==> #[trigger] next.is_fixed(r, c) == self.is_fixed(r, c)
        &&& forall|r: int, c: int|
            in_grid(r, c) ==> #[trigger] next.cell(r, c) == if r == cell.0 && c == cell.1 {
                value
            } else {
                self.cell(r, c)
            }
    }

    /// Whether `next` can come of a neighbor move that picked `block`.
    ///
    /// Where the block has two free cells or more, two of them exchange
    /// their values. Else one free cell of the whole grid gets another
    /// value of `1..=9`; where the grid has no free cell, nothing changes.
    pub open spec fn neighbor_in_block(&self, next: &Sudoku, block: int) -> bool {
        if self.free_in_block(block).len() >= 2 {
            exists|first: (usize, usize), second: (usize, usize)|
                {
                    &&& #[trigger] self.is_swap(next, first, second)
                    &&& first != second
                    &&& self.free_in_block(block).contains(first)
                    &&& self.free_in_block(block).contains(second)
                }
        } else if self.free_cells().len() > 0 {
            exists|cell: (usize, usize), value: u8|
                {
                    &&& #[trigger] self.is_reassignment(next, cell, value)
                    &&& self.free_cells().contains(cell)
                    &&& 1 <= value <= 9
                    &&& value != self.cell(cell.0 as int, cell.1 as int)
                }
        } else {
            *next == *self
        }
    }

    /// Whether `next` can come of one neighbor move.
    pub open spec fn neighbor_move(&self, next: &Sudoku) -> bool {
        exists|block: int| 0 <= block < 9 && #[trigger] self.neighbor_in_block(next, block)
    }

    /// The free cells of the block in block row `block_row` and block
    /// column `block_col`, row by row.
    pub fn free_cells_in_block(&self, block_row: usize, block_col: usize) -> (cells: Vec<
        (usize, usize),
    >)
        requires
            block_row < 3,
            block_col < 3,
        ensures
            cells@ == self.free_in_block(block_row * 3 + block_col),
    {
        let ghost block = (block_row * 3 + block_col) as int;
        let mut cells: Vec<(usize, usize)> = Vec::new();
        assert(block_cells(block).take(0).filter(self.free_at()) =~= Seq::empty());
        for r_offset in 0..3usize
            invariant
                block_row < 3,
                block_col < 3,
                block == block_row * 3 + block_col,
                cells@ == block_cells(block).take(3 * r_offset).filter(self.free_at()),
        {
            for c_offset in 0..3usize
                invariant
                    block_row < 3,
                    block_col < 3,
                    r_offset < 3,
                    block == block_row * 3 + block_col,
                    cells@ == block_cells(block).take(3 * r_offset + c_offset).filter(
                        self.free_at(),
                    ),
            {
                let r = block_row * 3 + r_offset;
                let c = block_col * 3 + c_offset;
                proof {
                    let k = 3 * r_offset + c_offset;
                    let before = block_cells(block).take(k);
                    assert(before.push((r, c)) =~= block_cells(block).take(k + 1));
                    before.lemma_filter_push((r, c), self.free_at());
                }
                if !self.fixed_at(r, c) {
                    cells.push((r, c));
                }
            }
        }
        assert(block_cells(block).take(9) =~= block_cells(block));
        cells
    }

    /// The free cells of the grid, row by row.
    pub fn all_free_cells(&self) -> (cells: Vec<(usize, usize)>)
        ensures
            cells@ == self.free_cells(),
    {
        let mut cells: Vec<(usize, usize)> = Vec::new();
        assert(grid_cells().take(0).filter(self.free_at()) =~= Seq::empty());
        for r in 0..9usize
            invariant
                cells@ == grid_cells().take(9 * r).filter(self.free_at()),
        {
            for c in 0..9usize
                invariant
                    r < 9,
                    cells@ == grid_cells().take(9 * r + c).filter(self.free_at()),
            {
                proof {
                    let k = 9 * r + c;
                    let before = grid_cells().take(k);
                    assert(before.push((r, c)) =~= grid_cells().take(k + 1));
                    before.lemma_filter_push((r, c), self.free_at());
                }
                if !self.fixed_at(r, c) {
                    cells.push((r, c));
                }
            }
        }
        assert(grid_cells().take(81) =~= grid_cells());
        cells
    }
}

/// The cells of a block lie in the grid and in that block, each at its
/// place, and none is listed twice.
pub proof fn lemma_block_cells(block: int)
    requires
        0 <= block < 9,
    ensures
        block_cells(block).no_duplicates(),
        forall|k: int|
            0 <= k < 9 ==> {
                let cell = #[trigger] block_cells(block)[k];
                &&& in_grid(cell.0 as int, cell.1 as int)
                &&& block_of(cell.0 as int, cell.1 as int) == block
                &&& place_in_block(cell.0 as int, cell.1 as int) == k
            },
{
    assert forall|k: int| 0 <= k < 9 implies {
        let cell = #[trigger] block_cells(block)[k];
        &&& in_grid(cell.0 as int, cell.1 as int)
        &&& block_of(cell.0 as int, cell.1 as int) == block
        &&& place_in_block(cell.0 as int, cell.1 as int) == k
    } by {}
    assert forall|i: int, j: int| 0 <= i < 9 && 0 <= j < 9 && i != j implies block_cells(block)[i]
        != block_cells(block)[j] by {}
}

/// The free cells of a block are free cells of the grid within that block,
/// and none is listed twice.
pub proof fn lemma_free_in_block(grid: &Sudoku, block: int)
    requires
        0 <= block < 9,
    ensures
        grid.free_in_block(block).no_duplicates(),
        forall|cell: (usize, usize)| #[trigger]
            grid.free_in_block(block).contains(cell) ==> {
                &&& in_grid(cell.0 as int, cell.1 as int)
                &&& block_of(cell.0 as int, cell.1 as int) == block
                &&& !grid.is_fixed(cell.0 as int, cell.1 as int)
            },
{
    lemma_block_cells(block);
    lemma_filter_keeps_distinct(block_cells(block), grid.free_at());
    assert forall|cell: (usize, usize)| #[trigger]
        grid.free_in_block(block).contains(cell) implies {
        &&& in_grid(cell.0 as int, cell.1 as int)
        &&& block_of(cell.0 as int, cell.1 as int) == block
        &&& !grid.is_fixed(cell.0 as int, cell.1 as int)
    } by {
        block_cells(block).lemma_filter_contains_rev(grid.free_at(), cell);
        let i = choose|i: int|
            0 <= i < grid.free_in_block(block).len() && grid.free_in_block(block)[i] == cell;
        block_cells(block).lemma_filter_pred(grid.free_at(), i);
    }
}

/// The free cells of the grid lie in the grid and are no givens.
pub proof fn lemma_free_cells(grid: &Sudoku)
    ensures
        forall|cell: (usize, usize)| #[trigger]
            grid.free_cells().contains(cell) ==> {
                &&& in_grid(cell.0 as int, cell.1 as int)
                &&& !grid.is_fixed(cell.0 as int, cell.1 as int)
            },
{
    assert forall|cell: (usize, usize)| #[trigger] grid.free_cells().contains(cell) implies {
        &&& in_grid(cell.0 as int, cell.1 as int)
        &&& !grid.is_fixed(cell.0 as int, cell.1 as int)
    } by {
        grid_cells().lemma_filter_contains_rev(grid.free_at(), cell);
        let i = choose|i: int| 0 <= i < grid.free_cells().len() && grid.free_cells()[i] == cell;
        grid_cells().lemma_filter_pred(grid.free_at(), i);
    }
}

/// An exchange of two cells of one block leaves that block with the same
/// values, each as often as before, and so with the same duplicates.
pub proof fn lemma_swap_keeps_block(
    grid: &Sudoku,
    next: &Sudoku,
    first: (usize, usize),
    second: (usize, usize),
)
    requires
        grid.is_swap(next, first, second),
        block_of(first.0 as int, first.1 as int) == block_of(second.0 as int, second.1 as int),
    ensures
        next.block(block_of(first.0 as int, first.1 as int)).to_multiset() == grid.block(
            block_of(first.0 as int, first.1 as int),
        ).to_multiset(),
        group_duplicates(next.block(block_of(first.0 as int, first.1 as int))) == group_duplicates(
            grid.block(block_of(first.0 as int, first.1 as int)),
        ),
{
    let block = block_of(first.0 as int, first.1 as int);
    let i = place_in_block(first.0 as int, first.1 as int);
    let j = place_in_block(second.0 as int, second.1 as int);
    let before = grid.block(block);
    let after = next.block(block);
    let exchanged = before.update(i, before[j]).update(j, before[i]);
    lemma_block_of_cell(first.0 as int, first.1 as int);
    lemma_block_of_cell(second.0 as int, second.1 as int);
    assert forall|k: int| 0 <= k < 9 implies after[k] == exchanged[k] by {
        lemma_cell_of_block(block, k);
        let r = cell_row(block, k);
        let c = cell_column(block, k);
        assert(after[k] == next.cell(r, c));
        assert(before[k] == grid.cell(r, c));
        if k == i {
            assert(r == first.0 && c == first.1);
        } else if k == j {
            assert(r == second.0 && c == second.1);
        } else {
            assert(!(r == first.0 && c == first.1));
            assert(!(r == second.0 && c == second.1));
        }
    }
    assert(after =~= exchanged);
    lemma_exchange_keeps_values(before, i, j);
    lemma_duplicates_of_same_values(after, before, 9);
}

/// A sequence with two entries exchanged holds the same values, each as
/// often as before.
pub proof fn lemma_exchange_keeps_values(s: Seq<u8>, i: int, j: int)
    requires
        0 <= i < s.len(),
        0 <= j < s.len(),
    ensures
        s.update(i, s[j]).update(j, s[i]).to_multiset() == s.to_multiset(),
{
    broadcast use group_to_multiset_ensures;

    to_multiset_update(s, i, s[j]);
    to_multiset_update(s.update(i, s[j]), j, s[i]);
    assert(s.update(i, s[j]).update(j, s[i]).to_multiset() =~= s.to_multiset());
}

/// A neighbor move that picked a block with two free cells or more leaves
/// that block with the same values, each as often as before, and so with
/// the same duplicates.
pub proof fn lemma_swap_move_keeps_block(grid: &Sudoku, next: &Sudoku, block: int)
    requires
        0 <= block < 9,
        grid.free_in_block(block).len() >= 2,
        grid.neighbor_in_block(next, block),
    ensures
        next.block(block).to_multiset() == grid.block(block).to_multiset(),
        group_duplicates(next.block(block)) == group_duplicates(grid.block(block)),
{
    let (first, second) = choose|first: (usize, usize), second: (usize, usize)|
        {
            &&& #[trigger] grid.is_swap(next, first, second)
            &&& first != second
            &&& grid.free_in_block(block).contains(first)
            &&& grid.free_in_block(block).contains(second)
        };
    lemma_free_in_block(grid, block);
    lemma_swap_keeps_block(grid, next, first, second);
}

/// A neighbor move changes no given: the mask stays, and every given
/// keeps its value.
pub proof fn lemma_neighbor_keeps_givens(grid: &Sudoku, next: &Sudoku)
    requires
        grid.neighbor_move(next),
    ensures
        grid.same_givens(next),
{
    let block = choose|block: int| 0 <= block < 9 && #[trigger] grid.neighbor_in_block(next, block);
    lemma_free_in_block(grid, block);
    lemma_free_cells(grid);
}

/// A neighbor move leaves no cell empty that was filled, and fills none
/// with a value outside `1..=9`.
pub proof fn lemma_neighbor_keeps_filled(grid: &Sudoku, next: &Sudoku)
    requires
        grid.neighbor_move(next),
    ensures
        grid.well_formed() ==> next.well_formed(),
        grid.filled() ==> next.filled(),
{
    let block = choose|block: int| 0 <= block < 9 && #[trigger] grid.neighbor_in_block(next, block);
    if grid.free_in_block(block).len() >= 2 {
        let (first, second) = choose|first: (usize, usize), second: (usize, usize)|
            {
                &&& #[trigger] grid.is_swap(next, first, second)
                &&& first != second
                &&& grid.free_in_block(block).contains(first)
                &&& grid.free_in_block(block).contains(second)
            };
        assert forall|r: int, c: int| in_grid(r, c) implies (grid.well_formed()
            ==> #[trigger] next.cell(r, c) <= 9) && (grid.filled() ==> 1 <= next.cell(r, c) <= 9) by {
            assert(grid.well_formed() ==> grid.cell(r, c) <= 9 && grid.cell(
                first.0 as int,
                first.1 as int,
            ) <= 9 && grid.cell(second.0 as int, second.1 as int) <= 9);
            assert(grid.filled() ==> 1 <= grid.cell(r, c) && 1 <= grid.cell(
                first.0 as int,
                first.1 as int,
            ) && 1 <= grid.cell(second.0 as int, second.1 as int));
        }
    } else if grid.free_cells().len() > 0 {
        let (cell, value) = choose|cell: (usize, usize), value: u8|
            {
                &&& #[trigger] grid.is_reassignment(next, cell, value)
                &&& grid.free_cells().contains(cell)
                &&& 1 <= value <= 9
                &&& value != grid.cell(cell.0 as int, cell.1 as int)
            };
        assert forall|r: int, c: int| in_grid(r, c) implies (grid.well_formed()
            ==> #[trigger] next.cell(r, c) <= 9) && (grid.filled() ==> 1 <= next.cell(r, c) <= 9) by {}
    }
}

/// A grid whose cells are all givens has no neighbor but itself.
pub proof fn lemma_all_fixed_stays(grid: &Sudoku, next: &Sudoku)
    requires
        forall|r: int, c: int| in_grid(r, c) ==> #[trigger] grid.is_fixed(r, c),
        grid.neighbor_move(next),
    ensures
        *next == *grid,
{
    let block = choose|block: int| 0 <= block < 9 && #[trigger] grid.neighbor_in_block(next, block);
    lemma_free_in_block(grid, block);
    lemma_free_cells(grid);
}

/// Along a chain of neighbor moves every state has the givens of the
/// first, each with its value.
pub proof fn lemma_walk_keeps_givens(walk: Seq<Sudoku>, i: int)
    requires
        is_walk(walk),
        0 <= i < walk.len(),
    ensures
        walk[0].same_givens(&walk[i]),
    decreases i,
{
    if i > 0 {
        lemma_walk_keeps_givens(walk, i - 1);
        lemma_neighbor_keeps_givens(&walk[i - 1], &walk[i]);
    }
}

/// A state that comes from another by neighbor moves has its givens, each
/// with its value.
pub proof fn lemma_reachable_keeps_givens(from: Sudoku, to: Sudoku)
    requires
        reachable(from, to),
    ensures
        from.same_givens(&to),
{
    let walk = choose|walk: Seq<Sudoku>| #[trigger]
        is_walk(walk) && walk.first() == from && walk.last() == to;
    lemma_walk_keeps_givens(walk, walk.len() - 1);
}

/// At every step of a search the current grid and the best grid have the
/// givens of the grid that the search began with, each with its value.
pub proof fn lemma_search_keeps_givens(search: &Search<Sudoku>)
    requires
        search.well_formed(),
    ensures
        search.origin().same_givens(&search.current()),
        search.origin().same_givens(&search.best()),
{
    search.lemma_invariant();
    lemma_reachable_keeps_givens(search.origin(), search.current());
    lemma_reachable_keeps_givens(search.origin(), search.best());
}

/// A value of `1..=9` other than `current`. A draw from `1..=9` is repeated
/// while it returns `current`, at most `RESAMPLE_LIMIT` times; after that
/// the value is drawn among the others directly.
pub(crate) fn draw_other_value(rng: &mut ThreadRng, current: u8) -> (value: u8)
    ensures
        1 <= value <= 9,
        value != current,
{
    let mut value = random_value(rng, 1, 9);
    let mut repeats: u32 = 0;
    while value == current && repeats < RESAMPLE_LIMIT
        invariant
            1 <= value <= 9,
            repeats <= RESAMPLE_LIMIT,
        decreases RESAMPLE_LIMIT - repeats,
    {
        value = random_value(rng, 1, 9);
        repeats += 1;
    }
    if value == current {
        let other = random_value(rng, 1, 8);
        if other >= current {
            other + 1
        } else {
            other
        }
    } else {
        value
    }
}

} // verus!
