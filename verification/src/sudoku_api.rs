//! What a caller does with a grid: read it from a line, sweep it, judge it.

use crate::closure::Crowded;
use crate::elimination::{basic_sweep, lemma_basic_sweep_narrows};
use crate::entry_num::{
    bit_count, count_bits, digit_mask, fixed, to_entry_num, EntryNum, EntryNumThings, ALL,
};
use crate::omission::{digit_holders, lemma_omission_sweep_narrows, omission_sweep};
use crate::soundness::{admits, is_solution, lemma_solve_step_sound};
use crate::sudoku::{
    lemma_narrowed_total, lemma_narrowed_trans, lemma_total_bits_bound, narrowed, total_bits,
    Sudoku,
};
use crate::sudoku_get_indices::{block_cells, col_cells, row_cells};
use vstd::prelude::*;
use vstd::string::*;

verus! {

/// Why a line is not a grid.
#[derive(Clone, Copy, Debug, PartialEq, Eq, Structural)]
pub enum ParseError {
    /// The line has `len` characters, not 81.
    WrongLength { len: usize },
    /// The character at `index` is none of `0` to `9`.
    NotADigit { character: char, index: usize },
}

/// Why a grid cannot be completed.
#[derive(Clone, Copy, Debug, PartialEq, Eq, Structural)]
pub enum Invalid {
    /// The cell `index` has no candidate left.
    NoCandidate { index: usize },
    /// No cell of row `row` has `digit` as a candidate.
    RowLacks { digit: u16, row: usize },
    /// No cell of column `col` has `digit` as a candidate.
    ColLacks { digit: u16, col: usize },
    /// No cell of box `block` has `digit` as a candidate.
    BoxLacks { digit: u16, block: usize },
}

/// Whether `c` is one of `0` to `9`.
pub open spec fn is_digit(c: char) -> bool {
    '0' <= c <= '9'
}

/// The candidates that a character of a line stands for: all nine for `0`,
/// the digit alone for `1` to `9`.
pub open spec fn cell_of(c: char) -> u16 {
    if c == '0' {
        ALL
    } else {
        digit_mask((c as u32 - '0' as u32) as u16)
    }
}

/// The grid that a line of 81 digits stands for.
pub open spec fn parsed(line: Seq<char>) -> Seq<u16> {
    Seq::new(81, |i: int| cell_of(line[i]))
}

/// The first of the first `n` cells that has no candidate.
pub open spec fn first_empty(data: Seq<u16>, n: nat) -> Option<usize>
    decreases n,
{
    if n == 0 {
        None
    } else {
        match first_empty(data, (n - 1) as nat) {
            Some(i) => Some(i),
            None => if data[n - 1] == 0 {
                Some((n - 1) as usize)
            } else {
                None
            },
        }
    }
}

/// Whether some cell of `group` has `digit` as a candidate.
pub open spec fn placeable(data: Seq<u16>, group: Seq<usize>, digit: u16) -> bool {
    digit_holders(data, group, digit).len() > 0
}

/// What row, column and box number `i` lack of `digit`, asked in this order.
pub open spec fn lacking(data: Seq<u16>, i: int, digit: u16) -> Option<Invalid> {
    if !placeable(data, row_cells(i * 9), digit) {
        Some(Invalid::RowLacks { digit, row: i as usize })
    } else if !placeable(data, col_cells(i), digit) {
        Some(Invalid::ColLacks { digit, col: i as usize })
    } else if !placeable(data, block_cells(i / 3, i % 3), digit) {
        Some(Invalid::BoxLacks { digit, block: i as usize })
    } else {
        None
    }
}

/// The first lack among the first `n` pairs of a group number and a digit,
/// the digits one to nine for number 0 first.
pub open spec fn first_lacking(data: Seq<u16>, n: nat) -> Option<Invalid>
    decreases n,
{
    if n == 0 {
        None
    } else {
        match first_lacking(data, (n - 1) as nat) {
            Some(e) => Some(e),
            None => lacking(data, (n - 1) as int / 9, ((n - 1) % 9 + 1) as u16),
        }
    }
}

/// No cell is empty, and every row, column and box has a place for every digit.
pub open spec fn valid(data: Seq<u16>) -> bool {
    &&& forall|i: int| 0 <= i < 81 ==> #[trigger] data[i] != 0
    &&& forall|n: int| 0 <= n < 81 ==> (#[trigger] lacking(data, n / 9, (n % 9 + 1) as u16)).is_none()
}

/// What is wrong with a grid: its first empty cell, or else its first lack.
pub open spec fn verdict(data: Seq<u16>) -> Result<(), Invalid> {
    match first_empty(data, 81) {
        Some(index) => Err(Invalid::NoCandidate { index }),
        None => match first_lacking(data, 81) {
            Some(e) => Err(e),
            None => Ok(()),
        },
    }
}

/// How many of the first `n` cells have two candidates or more.
pub open spec fn unfixed(data: Seq<u16>, n: nat) -> nat
    decreases n,
{
    if n == 0 {
        0
    } else {
        unfixed(data, (n - 1) as nat) + if bit_count(data[n - 1]) > 1 {
            1nat
        } else {
            0nat
        }
    }
}

/// Every cell is fixed.
pub open spec fn all_fixed(data: Seq<u16>) -> bool {
    forall|i: int| 0 <= i < 81 ==> fixed(#[trigger] data[i])
}

/// The grid after one sweep of elimination and one of omission, and the
/// failure that stopped it, if one did. After a failure no omission is tried.
pub open spec fn solve_step(data: Seq<u16>) -> (Seq<u16>, Option<Crowded>) {
    let (grid, failed) = basic_sweep(data, 81);
    if failed.is_some() {
        (grid, failed)
    } else {
        (omission_sweep(grid, 9), None)
    }
}

/// The first empty cell is empty and the cells before it are not; there is
/// none only if no cell is empty.
pub proof fn lemma_first_empty(data: Seq<u16>, n: nat)
    requires
        n <= data.len() <= 81,
    ensures
        match first_empty(data, n) {
            Some(i) => i < n && data[i as int] == 0 && forall|j: int| 0 <= j < i ==> data[j] != 0,
            None => forall|j: int| 0 <= j < n ==> data[j] != 0,
        },
    decreases n,
{
    if n > 0 {
        lemma_first_empty(data, (n - 1) as nat);
    }
}

/// There is no first lack exactly when no pair lacks anything.
pub proof fn lemma_first_lacking(data: Seq<u16>, n: nat)
    ensures
        first_lacking(data, n).is_none() <==> forall|k: int|
            0 <= k < n ==> (#[trigger] lacking(data, k / 9, (k % 9 + 1) as u16)).is_none(),
    decreases n,
{
    if n > 0 {
        lemma_first_lacking(data, (n - 1) as nat);
    }
}

/// A grid is valid exactly when nothing is wrong with it.
pub proof fn lemma_verdict_valid(data: Seq<u16>)
    requires
        data.len() == 81,
    ensures
        verdict(data).is_ok() <==> valid(data),
{
    lemma_first_empty(data, 81);
    lemma_first_lacking(data, 81);
}

/// One sweep gives no cell a candidate: every cell keeps some of its
/// candidates, so that its number of candidates does not grow.
pub proof fn lemma_solve_step_narrows(data: Seq<u16>)
    requires
        data.len() == 81,
    ensures
        narrowed(data, solve_step(data).0),
        forall|i: int|
            0 <= i < 81 ==> bit_count(#[trigger] solve_step(data).0[i]) <= bit_count(data[i]),
        total_bits(solve_step(data).0, 81) <= total_bits(data, 81),
{
    lemma_basic_sweep_narrows(data, 81);
    let (grid, failed) = basic_sweep(data, 81);
    if failed.is_none() {
        lemma_omission_sweep_narrows(grid, 9);
        lemma_narrowed_trans(data, grid, omission_sweep(grid, 9));
    }
    lemma_narrowed_total(data, solve_step(data).0, 81);
}

/// How many candidates one sweep takes from a grid.
pub open spec fn removed_by_step(data: Seq<u16>) -> int {
    total_bits(data, 81) - total_bits(solve_step(data).0, 81)
}

/// A sweep that takes no candidate leaves the grid as it is, so that the
/// next sweep takes none either and ends in the same way.
pub proof fn lemma_fixpoint_is_stable(data: Seq<u16>)
    requires
        data.len() == 81,
        removed_by_step(data) == 0,
    ensures
        solve_step(data).0 == data,
        removed_by_step(solve_step(data).0) == 0,
        solve_step(solve_step(data).0) == solve_step(data),
{
    lemma_solve_step_narrows(data);
    lemma_narrowed_total(data, solve_step(data).0, 81);
    assert(solve_step(data).0 =~= data);
}

/// The operations on a puzzle.
pub trait SudokuApi: Sized {
    /// The candidates of the 81 cells, row after row.
    spec fn cells(&self) -> Seq<u16>;

    /// Reads a grid from a line of 81 digits, `0` for an empty cell.
    fn new(line: String) -> (r: Result<Self, ParseError>)
        ensures
            match r {
                Ok(s) => {
                    &&& line@.len() == 81
                    &&& forall|i: int| 0 <= i < 81 ==> is_digit(line@[i])
                    &&& s.cells() == parsed(line@)
                },
                Err(ParseError::WrongLength { len }) => line@.len() != 81 && len == line@.len(),
                Err(ParseError::NotADigit { character, index }) => {
                    &&& line@.len() == 81
                    &&& index < 81
                    &&& character == line@[index as int]
                    &&& !is_digit(character)
                    &&& forall|j: int| 0 <= j < index ==> is_digit(line@[j])
                },
            },
    ;

    /// Leaves the grid as it is and reports that it did not solve it.
    fn attempt_solve(&mut self) -> (r: bool)
        ensures
            !r,
            final(self).cells() == old(self).cells(),
    ;

    /// One sweep of elimination over the cells and one of omission over the
    /// groups. Returns how many candidates went, or the failure at which the
    /// sweep stopped. No cell gains a candidate. A completed grid that fits
    /// the candidates still fits them afterwards, and where there is one the
    /// sweep does not fail.
    fn solve_once(&mut self) -> (r: Result<usize, Crowded>)
        requires
            old(self).cells().len() == 81,
        ensures
            final(self).cells() == solve_step(old(self).cells()).0,
            narrowed(old(self).cells(), final(self).cells()),
            forall|sol: Seq<u16>|
                is_solution(sol) && #[trigger] admits(old(self).cells(), sol) ==> r.is_ok() && admits(
                    final(self).cells(),
                    sol,
                ),
            forall|i: int|
                0 <= i < 81 ==> bit_count(#[trigger] final(self).cells()[i]) <= bit_count(
                    old(self).cells()[i],
                ),
            match r {
                Ok(count) => {
                    &&& solve_step(old(self).cells()).1.is_none()
                    &&& count == total_bits(old(self).cells(), 81) - total_bits(
                        final(self).cells(),
                        81,
                    )
                    &&& count == 0 ==> final(self).cells() == old(self).cells()
                },
                Err(e) => solve_step(old(self).cells()).1 == Some(e),
            },
    ;

    /// Counts the cells that have two candidates or more.
    fn count_unfixed(&self) -> (r: usize)
        requires
            self.cells().len() == 81,
        ensures
            r == unfixed(self.cells(), 81),
    ;

    /// Whether no cell is empty and every row, column and box has a place
    /// for every digit; says what is wrong first where not.
    fn is_valid(&self) -> (r: Result<(), Invalid>)
        requires
            self.cells().len() == 81,
        ensures
            r == verdict(self.cells()),
            r.is_ok() <==> valid(self.cells()),
    ;

    /// Whether the grid is valid and every cell is fixed.
    fn is_solved(&self) -> (r: bool)
        requires
            self.cells().len() == 81,
        ensures
            r == (valid(self.cells()) && all_fixed(self.cells())),
    ;
}

impl Sudoku {
    /// What row, column and box number `i` lack of `digit`.
    pub fn find_lack(&self, i: usize, digit: u16) -> (r: Option<Invalid>)
        requires
            i < 9,
            1 <= digit <= 9,
        ensures
            r == lacking(self@, i as int, digit),
    {
        let mask = to_entry_num(digit);
        let row_nums = Sudoku::get_row_indices(i * 9);
        if self.possible_locs(&row_nums, mask).len() == 0 {
            return Some(Invalid::RowLacks { digit, row: i });
        }
        let col_nums = Sudoku::get_col_indices(i);
        if self.possible_locs(&col_nums, mask).len() == 0 {
            return Some(Invalid::ColLacks { digit, col: i });
        }
        let box_nums = Sudoku::get_block_indices(i / 3, i % 3);
        if self.possible_locs(&box_nums, mask).len() == 0 {
            return Some(Invalid::BoxLacks { digit, block: i });
        }
        None
    }
}

impl SudokuApi for Sudoku {
    open spec fn cells(&self) -> Seq<u16> {
        self.data@
    }

    fn new(line: String) -> (r: Result<Self, ParseError>) {
        let text = line.as_str();
        let len = text.unicode_len();
        if len != 81 {
            return Err(ParseError::WrongLength { len });
        }
        let mut data: [EntryNum; 81] = [0; 81];
        let mut i: usize = 0;
        while i < 81
            invariant
                i <= 81,
                text@ == line@,
                text@.len() == 81,
                forall|j: int| 0 <= j < i ==> is_digit(line@[j]),
                forall|j: int| 0 <= j < i ==> data@[j] == cell_of(line@[j]),
            decreases 81 - i,
        {
            let c = text.get_char(i);
            if !(c >= '0' && c <= '9') {
                return Err(ParseError::NotADigit { character: c, index: i });
            }
            if c != '0' {
                let digit: u16 = (c as u32 - '0' as u32) as u16;
                data[i] = to_entry_num(digit);
            } else {
                data[i] = ALL;
            }
            i = i + 1;
        }
        assert(data@ =~= parsed(line@));
        Ok(Sudoku { data })
    }

    fn attempt_solve(&mut self) -> (r: bool) {
        false
    }

    fn solve_once(&mut self) -> (r: Result<usize, Crowded>) {
        let ghost start = self@;
        proof {
            lemma_total_bits_bound(start, 81);
            assert forall|sol: Seq<u16>| is_solution(sol) && #[trigger] admits(start, sol) implies (
            solve_step(start).1.is_none() && admits(solve_step(start).0, sol)) by {
                lemma_solve_step_sound(sol, start);
            }
        }
        let res = match self.eliminate_basic_possibilities() {
            Ok(n) => n,
            Err(e) => {
                proof {
                    lemma_narrowed_total(start, self@, 81);
                }
                return Err(e);
            },
        };
        let ghost middle = self@;
        let more = self.eliminate_omissions();
        proof {
            lemma_narrowed_trans(start, middle, self@);
            lemma_narrowed_total(start, self@, 81);
            if res + more == 0 {
                assert(self@ =~= start);
            }
        }
        Ok((res + more) as usize)
    }

    fn count_unfixed(&self) -> (r: usize) {
        let mut r: usize = 0;
        let mut i: usize = 0;
        while i < 81
            invariant
                i <= 81,
                r <= i,
                r == unfixed(self@, i as nat),
            decreases 81 - i,
        {
            if count_bits(self.data[i]) > 1 {
                r = r + 1;
            }
            i = i + 1;
        }
        r
    }

    fn is_valid(&self) -> (r: Result<(), Invalid>) {
        proof {
            lemma_verdict_valid(self@);
        }
        let mut i: usize = 0;
        while i < 81
            invariant
                i <= 81,
                first_empty(self@, i as nat).is_none(),
            decreases 81 - i,
        {
            if self.data[i] == 0 {
                proof {
                    lemma_first_empty_stays(self@, (i + 1) as nat, 81);
                }
                return Err(Invalid::NoCandidate { index: i });
            }
            i = i + 1;
        }
        let mut n: usize = 0;
        while n < 81
            invariant
                n <= 81,
                first_empty(self@, 81).is_none(),
                first_lacking(self@, n as nat).is_none(),
            decreases 81 - n,
        {
            match self.find_lack(n / 9, (n % 9 + 1) as u16) {
                Some(e) => {
                    proof {
                        lemma_first_lacking_stays(self@, (n + 1) as nat, 81);
                    }
                    return Err(e);
                },
                None => {},
            }
            n = n + 1;
        }
        Ok(())
    }

    fn is_solved(&self) -> (r: bool) {
        if self.is_valid().is_err() {
            return false;
        }
        let mut i: usize = 0;
        while i < 81
            invariant
                i <= 81,
                valid(self@),
                forall|j: int| 0 <= j < i ==> fixed(#[trigger] self@[j]),
            decreases 81 - i,
        {
            if !self.data[i].is_fixed() {
                return false;
            }
            i = i + 1;
        }
        true
    }
}

/// The first empty cell among more cells is the same.
pub proof fn lemma_first_empty_stays(data: Seq<u16>, n: nat, m: nat)
    requires
        n <= m,
        first_empty(data, n).is_some(),
    ensures
        first_empty(data, m) == first_empty(data, n),
    decreases m,
{
    if n < m {
        lemma_first_empty_stays(data, n, (m - 1) as nat);
    }
}

/// The first lack among more pairs is the same.
pub proof fn lemma_first_lacking_stays(data: Seq<u16>, n: nat, m: nat)
    requires
        n <= m,
        first_lacking(data, n).is_some(),
    ensures
        first_lacking(data, m) == first_lacking(data, n),
    decreases m,
{
    if n < m {
        lemma_first_lacking_stays(data, n, (m - 1) as nat);
    }
}

} // verus!
