//! The layout of the grid: which cells form a row, a column, a box.

use crate::sudoku::Sudoku;
use vstd::prelude::*;

verus! {

/// The cells of the row of cell `i`, from left to right.
pub open spec fn row_cells(i: int) -> Seq<usize> {
    Seq::new(9, |k: int| ((i / 9) * 9 + k) as usize)
}

/// The cells of the column of cell `i`, from top to bottom.
pub open spec fn col_cells(i: int) -> Seq<usize> {
    Seq::new(9, |k: int| (k * 9 + i % 9) as usize)
}

/// The cells of the box in box row `br` and box column `bc`, row after row.
pub open spec fn block_cells(br: int, bc: int) -> Seq<usize> {
    Seq::new(9, |k: int| ((br * 3 + k / 3) * 9 + bc * 3 + k % 3) as usize)
}

/// The number of the box of cell `i`, boxes counted row after row.
pub open spec fn block_of(i: int) -> int {
    (i / 27) * 3 + (i % 9) / 3
}

/// Every index of `group` is a cell of the grid.
pub open spec fn on_grid(group: Seq<usize>) -> bool {
    forall|k: int| 0 <= k < group.len() ==> #[trigger] group[k] < 81
}

/// A cell lies in its row, its column and its box, and its row and its
/// column have no other cell in common.
pub proof fn lemma_cell_in_its_groups(i: int, other: int)
    requires
        0 <= i < 81,
        0 <= other < 81,
    ensures
        row_cells(i)[i % 9] == i,
        col_cells(i)[i / 9] == i,
        block_cells(i / 27, (i % 9) / 3)[((i / 9) % 3) * 3 + i % 3] == i,
        other / 9 == i / 9 && other % 9 == i % 9 ==> other == i,
{
    let r = i / 9;
    let c = i % 9;
    let k = (r % 3) * 3 + c % 3;
    assert(0 <= k < 9);
    assert(k / 3 == r % 3 && k % 3 == c % 3);
    assert(i / 27 == r / 3);
    assert((r / 3) * 3 + r % 3 == r);
    assert((c / 3) * 3 + c % 3 == c);
}

impl Sudoku {
    /// The cells of the box that holds `cell_index`.
    pub fn get_block_indices_by_cell_index(cell_index: usize) -> (r: Vec<usize>)
        requires
            cell_index < 81,
        ensures
            r@ == block_cells(cell_index as int / 27, (cell_index as int % 9) / 3),
            on_grid(r@),
    {
        let box_col = (cell_index % 9) / 3;
        let box_row = cell_index / 27;
        Sudoku::get_block_indices(box_row, box_col)
    }

    /// The number of the box that holds `cell_index`.
    pub fn get_block_index(cell_index: usize) -> (r: usize)
        requires
            cell_index < 81,
        ensures
            r == block_of(cell_index as int),
            r < 9,
    {
        let box_col = (cell_index % 9) / 3;
        let box_row = cell_index / 27;
        box_row * 3 + box_col
    }

    /// The cells of the box in box row `block_row` and box column `block_col`.
    pub fn get_block_indices(block_row: usize, block_col: usize) -> (r: Vec<usize>)
        requires
            block_row < 3,
            block_col < 3,
        ensures
            r@ == block_cells(block_row as int, block_col as int),
            on_grid(r@),
    {
        let mut r: Vec<usize> = Vec::new();
        let mut k: usize = 0;
        while k < 9
            invariant
                k <= 9,
                block_row < 3,
                block_col < 3,
                r@.len() == k,
                forall|j: int|
                    0 <= j < k ==> r@[j] == (block_row * 3 + j / 3) * 9 + block_col * 3 + j % 3,
            decreases 9 - k,
        {
            r.push((block_row * 3 + k / 3) * 9 + block_col * 3 + k % 3);
            k = k + 1;
        }
        assert(r@ =~= block_cells(block_row as int, block_col as int));
        r
    }

    /// The cells of the column that holds `cell_index`.
    pub fn get_col_indices(cell_index: usize) -> (r: Vec<usize>)
        requires
            cell_index < 81,
        ensures
            r@ == col_cells(cell_index as int),
            on_grid(r@),
            r@[cell_index as int / 9] == cell_index,
    {
        let mut r: Vec<usize> = Vec::new();
        let mut k: usize = 0;
        while k < 9
            invariant
                k <= 9,
                cell_index < 81,
                r@.len() == k,
                forall|j: int| 0 <= j < k ==> r@[j] == j * 9 + cell_index % 9,
            decreases 9 - k,
        {
            r.push(k * 9 + cell_index % 9);
            k = k + 1;
        }
        assert(r@ =~= col_cells(cell_index as int));
        r
    }

    /// The cells of the row that holds `cell_index`.
    pub fn get_row_indices(cell_index: usize) -> (r: Vec<usize>)
        requires
            cell_index < 81,
        ensures
            r@ == row_cells(cell_index as int),
            on_grid(r@),
            r@[cell_index as int % 9] == cell_index,
    {
        let mut r: Vec<usize> = Vec::new();
        let mut k: usize = 0;
        while k < 9
            invariant
                k <= 9,
                cell_index < 81,
                r@.len() == k,
                forall|j: int| 0 <= j < k ==> r@[j] == (cell_index / 9) * 9 + j,
            decreases 9 - k,
        {
            r.push((cell_index / 9) * 9 + k);
            k = k + 1;
        }
        assert(r@ =~= row_cells(cell_index as int));
        r
    }
}

} // verus!
