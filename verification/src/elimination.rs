//! Elimination cell by cell: what the peers of a cell leave to it.

use crate::closure::{closure, Crowded};
use crate::entry_num::{fixed, without, EntryNum, EntryNumThings};
use crate::sudoku::{
    lemma_narrowed_refl, lemma_narrowed_trans, lemma_narrowed_update, narrowed, total_bits, Sudoku,
};
use crate::sudoku_get_indices::{block_cells, col_cells, on_grid, row_cells};
use vstd::prelude::*;

verus! {

/// The candidates of the fixed cells among the first `n` of `group`, the
/// cell `index` left out.
pub open spec fn fixed_peers(data: Seq<u16>, group: Seq<usize>, index: usize, n: nat) -> u16
    decreases n,
{
    if n == 0 {
        0
    } else {
        let before = fixed_peers(data, group, index, (n - 1) as nat);
        let cell = group[n - 1];
        if cell != index && fixed(data[cell as int]) {
            before | data[cell as int]
        } else {
            before
        }
    }
}

/// The masks of the cells that are not fixed among the first `n` of `group`,
/// in the order of the group, the cell `index` left out.
pub open spec fn open_peers(data: Seq<u16>, group: Seq<usize>, index: usize, n: nat) -> Seq<u16>
    decreases n,
{
    if n == 0 {
        Seq::empty()
    } else {
        let before = open_peers(data, group, index, (n - 1) as nat);
        let cell = group[n - 1];
        if cell != index && !fixed(data[cell as int]) {
            before.push(data[cell as int])
        } else {
            before
        }
    }
}

/// The candidates that the first `n` masks have between them.
pub open spec fn union_of(sets: Seq<u16>, n: nat) -> u16
    decreases n,
{
    if n == 0 {
        0
    } else {
        union_of(sets, (n - 1) as nat) | sets[n - 1]
    }
}

/// The digits that `group` takes from cell `index`: those of its fixed cells
/// and those that closed subsets among the others lock up.
pub open spec fn taken(data: Seq<u16>, group: Seq<usize>, index: usize) -> Result<u16, Crowded> {
    let sets = open_peers(data, group, index, group.len());
    match closure(sets, union_of(sets, sets.len()), sets.len()) {
        Ok(locked) => Ok(fixed_peers(data, group, index, group.len()) | locked),
        Err(e) => Err(e),
    }
}

/// The digits that column, row and box take from cell `index`.
pub open spec fn cell_taken(data: Seq<u16>, index: usize) -> Result<u16, Crowded> {
    match taken(data, col_cells(index as int), index) {
        Err(e) => Err(e),
        Ok(in_col) => match taken(data, row_cells(index as int), index) {
            Err(e) => Err(e),
            Ok(in_row) => match taken(
                data,
                block_cells(index as int / 27, (index as int % 9) / 3),
                index,
            ) {
                Err(e) => Err(e),
                Ok(in_box) => Ok(in_col | in_row | in_box),
            },
        },
    }
}

/// The grid after the first `n` cells had their turn, and the failure that
/// stopped the sweep, if one did. A fixed cell is passed over.
pub open spec fn basic_sweep(data: Seq<u16>, n: nat) -> (Seq<u16>, Option<Crowded>)
    decreases n,
{
    if n == 0 {
        (data, None)
    } else {
        let (grid, failed) = basic_sweep(data, (n - 1) as nat);
        if failed.is_some() || fixed(grid[n - 1]) {
            (grid, failed)
        } else {
            match cell_taken(grid, (n - 1) as usize) {
                Ok(t) => (grid.update(n - 1, without(grid[n - 1], t)), None),
                Err(e) => (grid, Some(e)),
            }
        }
    }
}

/// A sweep that has failed stays as it is.
pub proof fn lemma_basic_sweep_stays_failed(data: Seq<u16>, n: nat, m: nat)
    requires
        n <= m,
        basic_sweep(data, n).1.is_some(),
    ensures
        basic_sweep(data, m) == basic_sweep(data, n),
    decreases m,
{
    if n < m {
        lemma_basic_sweep_stays_failed(data, n, (m - 1) as nat);
    }
}

/// A sweep of elimination gives no cell a candidate.
pub proof fn lemma_basic_sweep_narrows(data: Seq<u16>, n: nat)
    requires
        data.len() == 81,
        n <= 81,
    ensures
        narrowed(data, basic_sweep(data, n).0),
    decreases n,
{
    if n == 0 {
        lemma_narrowed_refl(data);
    } else {
        lemma_basic_sweep_narrows(data, (n - 1) as nat);
        let (grid, failed) = basic_sweep(data, (n - 1) as nat);
        if !(failed.is_some() || fixed(grid[n - 1])) {
            match cell_taken(grid, (n - 1) as usize) {
                Ok(t) => {
                    let was = grid[n - 1];
                    assert((was & !t) & !was == 0) by (bit_vector);
                    lemma_narrowed_update(grid, n - 1, without(was, t));
                    lemma_narrowed_trans(data, grid, basic_sweep(data, n).0);
                },
                Err(e) => {},
            }
        }
    }
}

impl Sudoku {
    /// The candidates that a list of masks has between them.
    pub fn union_all(sets: &Vec<EntryNum>) -> (r: EntryNum)
        ensures
            r == union_of(sets@, sets@.len()),
    {
        let mut r: EntryNum = 0;
        let mut i: usize = 0;
        while i < sets.len()
            invariant
                i <= sets.len(),
                r == union_of(sets@, i as nat),
            decreases sets.len() - i,
        {
            r = r | sets[i];
            i = i + 1;
        }
        r
    }

    /// The digits that the cells `to_consider` take from cell `index`.
    pub fn get_taken(
        index: usize,
        to_consider: &Vec<usize>,
        data: &[EntryNum; 81],
    ) -> (r: Result<EntryNum, Crowded>)
        requires
            on_grid(to_consider@),
        ensures
            r == taken(data@, to_consider@, index),
    {
        let mut res: EntryNum = 0;
        let mut sets: Vec<EntryNum> = Vec::new();
        let mut k: usize = 0;
        while k < to_consider.len()
            invariant
                k <= to_consider.len(),
                on_grid(to_consider@),
                res == fixed_peers(data@, to_consider@, index, k as nat),
                sets@ == open_peers(data@, to_consider@, index, k as nat),
            decreases to_consider.len() - k,
        {
            let cell = to_consider[k];
            if cell != index {
                let en: EntryNum = data[cell];
                if en.is_fixed() {
                    res = res | en;
                } else {
                    sets.push(en);
                }
            }
            k = k + 1;
        }
        let largest_missing = Sudoku::union_all(&sets);
        match Sudoku::get_sets(&sets, largest_missing) {
            Ok(taken_by_sets) => Ok(res | taken_by_sets),
            Err(e) => Err(e),
        }
    }

    /// The digits that column, row and box take from cell `index`.
    pub fn get_all_taken(index: usize, data: &[EntryNum; 81]) -> (r: Result<EntryNum, Crowded>)
        requires
            index < 81,
        ensures
            r == cell_taken(data@, index),
    {
        let col_nums = Sudoku::get_col_indices(index);
        let row_nums = Sudoku::get_row_indices(index);
        let box_nums = Sudoku::get_block_indices_by_cell_index(index);
        let col_taken = match Sudoku::get_taken(index, &col_nums, data) {
            Ok(t) => t,
            Err(e) => { return Err(e); },
        };
        let row_taken = match Sudoku::get_taken(index, &row_nums, data) {
            Ok(t) => t,
            Err(e) => { return Err(e); },
        };
        let box_taken = match Sudoku::get_taken(index, &box_nums, data) {
            Ok(t) => t,
            Err(e) => { return Err(e); },
        };
        Ok(col_taken | row_taken | box_taken)
    }

    /// One sweep over the cells: each cell that is not fixed loses what its
    /// column, row and box take from it. Returns how many candidates went, or the
    /// failure at which the sweep stopped.
    pub fn eliminate_basic_possibilities(&mut self) -> (r: Result<u32, Crowded>)
        ensures
            final(self)@ == basic_sweep(old(self)@, 81).0,
            narrowed(old(self)@, final(self)@),
            match r {
                Ok(count) => basic_sweep(old(self)@, 81).1.is_none() && count == total_bits(
                    old(self)@,
                    81,
                ) - total_bits(final(self)@, 81),
                Err(e) => basic_sweep(old(self)@, 81).1 == Some(e),
            },
    {
        let mut res: u32 = 0;
        let mut index: usize = 0;
        proof {
            lemma_narrowed_refl(self@);
        }
        while index < 81
            invariant
                index <= 81,
                self@.len() == 81,
                self@ == basic_sweep(old(self)@, index as nat).0,
                basic_sweep(old(self)@, index as nat).1.is_none(),
                narrowed(old(self)@, self@),
                res + total_bits(self@, 81) == total_bits(old(self)@, 81),
                res <= 16 * index,
            decreases 81 - index,
        {
            if !self.data[index].is_fixed() {
                match Sudoku::get_all_taken(index, &self.data) {
                    Ok(all_taken) => {
                        let ghost before = self@;
                        let removed = Sudoku::remove_possibilities(&mut self.data, index, all_taken);
                        proof {
                            lemma_narrowed_trans(old(self)@, before, self@);
                        }
                        res = res + removed;
                    },
                    Err(e) => {
                        proof {
                            lemma_basic_sweep_stays_failed(old(self)@, (index + 1) as nat, 81);
                        }
                        return Err(e);
                    },
                }
            }
            index = index + 1;
        }
        Ok(res)
    }
}

} // verus!
