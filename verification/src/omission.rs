//! Omission: a digit that a group leaves to one cell, or to cells that share
//! a second group.

use crate::entry_num::{
    count_bits, digit_mask, fixed, lemma_bit_count_unfold, to_entry_num, within, without, EntryNum,
    EntryNumThings,
};
use crate::sudoku::{
    lemma_narrowed_refl, lemma_narrowed_total, lemma_narrowed_trans, lemma_narrowed_update,
    lemma_total_bits_bound, narrowed, total_bits, EntityType, Sudoku,
};
use crate::sudoku_get_indices::{
    block_cells, block_of, col_cells, lemma_cell_in_its_groups, on_grid, row_cells,
};
use vstd::prelude::*;

verus! {

/// The cells among the first `n` of `group` that have a candidate of `mask`,
/// in the order of the group.
pub open spec fn holders(data: Seq<u16>, group: Seq<usize>, mask: u16, n: nat) -> Seq<usize>
    decreases n,
{
    if n == 0 {
        Seq::empty()
    } else {
        let before = holders(data, group, mask, (n - 1) as nat);
        if data[group[n - 1] as int] & mask != 0 {
            before.push(group[n - 1])
        } else {
            before
        }
    }
}

/// The cells of `group` that have digit `d` as a candidate.
pub open spec fn digit_holders(data: Seq<u16>, group: Seq<usize>, d: u16) -> Seq<usize> {
    holders(data, group, digit_mask(d), group.len())
}

/// The number of the row, column or box of a cell.
pub open spec fn unit_of(cell: usize, t: EntityType) -> int {
    match t {
        EntityType::Row => cell as int / 9,
        EntityType::Col => cell as int % 9,
        EntityType::Box => block_of(cell as int),
    }
}

/// The cells of the row, column or box of a cell.
pub open spec fn unit_cells(cell: usize, t: EntityType) -> Seq<usize> {
    match t {
        EntityType::Row => row_cells(cell as int),
        EntityType::Col => col_cells(cell as int),
        EntityType::Box => block_cells(cell as int / 27, (cell as int % 9) / 3),
    }
}

/// All of `cells` lie in one row, one column or one box.
pub open spec fn same_unit(cells: Seq<usize>, t: EntityType) -> bool {
    forall|k: int| 0 <= k < cells.len() ==> unit_of(#[trigger] cells[k], t) == unit_of(cells[0], t)
}

/// The second kind of group that cells of a group of kind `t` share, if
/// they share one: a box for cells of a row or a column; a row, or else a
/// column, for cells of a box.
pub open spec fn crossing(cells: Seq<usize>, t: EntityType) -> Option<EntityType> {
    match t {
        EntityType::Row | EntityType::Col => if same_unit(cells, EntityType::Box) {
            Some(EntityType::Box)
        } else {
            None
        },
        EntityType::Box => if same_unit(cells, EntityType::Row) {
            Some(EntityType::Row)
        } else if same_unit(cells, EntityType::Col) {
            Some(EntityType::Col)
        } else {
            None
        },
    }
}

/// The grid after the first `n` of `targets` lost the candidates `mask`,
/// but for the cells of `keep`.
pub open spec fn strike(
    data: Seq<u16>,
    targets: Seq<usize>,
    keep: Seq<usize>,
    mask: u16,
    n: nat,
) -> Seq<u16>
    decreases n,
{
    if n == 0 {
        data
    } else {
        let before = strike(data, targets, keep, mask, (n - 1) as nat);
        let cell = targets[n - 1];
        if keep.contains(cell) {
            before
        } else {
            before.update(cell as int, without(before[cell as int], mask))
        }
    }
}

/// What one digit does in one group of kind `t`. `start` is the grid as it
/// stood when the pass over the group began: which cells have the digit, and
/// whether a single one of them is fixed, is read from `start`. `data` is the
/// grid as the digits before have left it, and the one that changes. Where one
/// cell alone has the digit, that cell is fixed to it. Where two or three cells
/// have it and share a second group, the other cells of that group lose it.
pub open spec fn omission_digit(
    start: Seq<u16>,
    data: Seq<u16>,
    group: Seq<usize>,
    t: EntityType,
    d: u16,
) -> Seq<u16> {
    let found = digit_holders(start, group, d);
    if found.len() == 1 {
        if fixed(start[found[0] as int]) {
            data
        } else {
            data.update(found[0] as int, digit_mask(d))
        }
    } else if found.len() == 2 || found.len() == 3 {
        match crossing(found, t) {
            Some(second) => strike(data, unit_cells(found[0], second), found, digit_mask(d), 9),
            None => data,
        }
    } else {
        data
    }
}

/// The grid after the digits one to `d` had their turn in `group`, each of
/// them reading the group as `data` has it.
pub open spec fn omission_group(
    data: Seq<u16>,
    group: Seq<usize>,
    t: EntityType,
    d: nat,
) -> Seq<u16>
    decreases d,
{
    if d == 0 {
        data
    } else {
        omission_digit(data, omission_group(data, group, t, (d - 1) as nat), group, t, d as u16)
    }
}

/// The grid after the first `n` rows, columns and boxes had their turn:
/// row, column and box of each number in this order.
pub open spec fn omission_sweep(data: Seq<u16>, n: nat) -> Seq<u16>
    decreases n,
{
    if n == 0 {
        data
    } else {
        let i = (n - 1) as int;
        let before = omission_sweep(data, (n - 1) as nat);
        let rows = omission_group(before, row_cells(i * 9), EntityType::Row, 9);
        let cols = omission_group(rows, col_cells(i), EntityType::Col, 9);
        omission_group(cols, block_cells(i / 3, i % 3), EntityType::Box, 9)
    }
}

/// The holders are cells of the group, on the grid, that have a candidate
/// of `mask`.
pub proof fn lemma_holders(data: Seq<u16>, group: Seq<usize>, mask: u16, n: nat)
    requires
        on_grid(group),
        n <= group.len(),
    ensures
        on_grid(holders(data, group, mask, n)),
        forall|j: int|
            0 <= j < holders(data, group, mask, n).len() ==> data[#[trigger] holders(
                data,
                group,
                mask,
                n,
            )[j] as int] & mask != 0,
        forall|j: int|
            0 <= j < holders(data, group, mask, n).len() ==> group.contains(
                #[trigger] holders(data, group, mask, n)[j],
            ),
    decreases n,
{
    if n > 0 {
        lemma_holders(data, group, mask, (n - 1) as nat);
        let before = holders(data, group, mask, (n - 1) as nat);
        let now = holders(data, group, mask, n);
        assert(group[n - 1] < 81);
        assert(group.contains(group[n - 1]));
        assert forall|j: int| 0 <= j < now.len() implies #[trigger] now[j] < 81 && data[now[j] as int]
            & mask != 0 && group.contains(now[j]) by {
            if j < before.len() {
                assert(now[j] == before[j]);
            }
        }
    }
}

/// A cell of the group that has a candidate of `mask` is among the holders.
pub proof fn lemma_holders_has(data: Seq<u16>, group: Seq<usize>, mask: u16, n: nat, k: int)
    requires
        0 <= k < n <= group.len(),
        data[group[k] as int] & mask != 0,
    ensures
        holders(data, group, mask, n).contains(group[k]),
    decreases n,
{
    let now = holders(data, group, mask, n);
    if k == n - 1 {
        assert(now[now.len() - 1] == group[k]);
    } else {
        lemma_holders_has(data, group, mask, (n - 1) as nat, k);
        let before = holders(data, group, mask, (n - 1) as nat);
        let j = choose|j: int| 0 <= j < before.len() && before[j] == group[k];
        assert(now[j] == group[k]);
    }
}

/// The rows, columns and boxes of cells of the grid lie on the grid.
pub proof fn lemma_unit_cells_on_grid(cell: usize, t: EntityType)
    requires
        cell < 81,
    ensures
        on_grid(unit_cells(cell, t)),
        unit_cells(cell, t).len() == 9,
{
}

/// Striking a digit gives no cell a candidate. A cell of `targets` that is
/// not kept loses `mask`; every other cell stays as it is.
pub proof fn lemma_strike(data: Seq<u16>, targets: Seq<usize>, keep: Seq<usize>, mask: u16, n: nat)
    requires
        data.len() == 81,
        on_grid(targets),
        n <= targets.len(),
    ensures
        narrowed(data, strike(data, targets, keep, mask, n)),
        forall|c: int|
            0 <= c < 81 ==> #[trigger] strike(data, targets, keep, mask, n)[c] == if exists|k: int|
                0 <= k < n && targets[k] == c && !keep.contains(targets[k]) {
                without(data[c], mask)
            } else {
                data[c]
            },
    decreases n,
{
    if n == 0 {
        lemma_narrowed_refl(data);
    } else {
        lemma_strike(data, targets, keep, mask, (n - 1) as nat);
        let before = strike(data, targets, keep, mask, (n - 1) as nat);
        let now = strike(data, targets, keep, mask, n);
        let cell = targets[n - 1];
        assert(cell < 81);
        if !keep.contains(cell) {
            let was = before[cell as int];
            let first = data[cell as int];
            assert((was & !mask) & !was == 0) by (bit_vector);
            assert((first & !mask) & !mask == first & !mask) by (bit_vector);
            lemma_narrowed_update(before, cell as int, without(was, mask));
            lemma_narrowed_trans(data, before, now);
        }
        assert forall|c: int| 0 <= c < 81 implies #[trigger] now[c] == if exists|k: int|
            0 <= k < n && targets[k] == c && !keep.contains(targets[k]) {
            without(data[c], mask)
        } else {
            data[c]
        } by {
            let hit_before = exists|k: int|
                0 <= k < n - 1 && targets[k] == c && !keep.contains(targets[k]);
            let hit_now = exists|k: int| 0 <= k < n && targets[k] == c && !keep.contains(targets[k]);
            if hit_before {
                let k = choose|k: int|
                    0 <= k < n - 1 && targets[k] == c && !keep.contains(targets[k]);
                assert(0 <= k < n && targets[k] == c && !keep.contains(targets[k]));
                assert(hit_now);
            }
            if cell == c && !keep.contains(cell) {
                assert(0 <= n - 1 < n && targets[n - 1] == c && !keep.contains(targets[n - 1]));
                assert(hit_now);
            }
            if hit_now && !hit_before {
                let k = choose|k: int| 0 <= k < n && targets[k] == c && !keep.contains(targets[k]);
                assert(k == n - 1);
            }
        }
    }
}

/// One digit in one group leaves no cell a candidate that it had not when
/// the pass over the group began.
pub proof fn lemma_omission_digit_narrows(
    start: Seq<u16>,
    data: Seq<u16>,
    group: Seq<usize>,
    t: EntityType,
    d: u16,
)
    requires
        start.len() == 81,
        narrowed(start, data),
        on_grid(group),
        1 <= d <= 9,
    ensures
        narrowed(start, omission_digit(start, data, group, t, d)),
{
    let mask = digit_mask(d);
    let found = digit_holders(start, group, d);
    let after = omission_digit(start, data, group, t, d);
    lemma_holders(start, group, mask, group.len());
    if found.len() == 1 {
        let cell = found[0];
        let was = start[cell as int];
        let k = (d - 1) as u16;
        assert(mask & !was == 0) by (bit_vector)
            requires
                was & mask != 0,
                mask == 1u16 << k,
                k < 16,
        ;
        assert forall|i: int| 0 <= i < 81 implies within(#[trigger] after[i], start[i]) by {
            if i != cell || fixed(was) {
                assert(after[i] == data[i]);
            }
        }
    } else if found.len() == 2 || found.len() == 3 {
        match crossing(found, t) {
            Some(second) => {
                lemma_unit_cells_on_grid(found[0], second);
                lemma_strike(data, unit_cells(found[0], second), found, mask, 9);
                lemma_narrowed_trans(start, data, after);
            },
            None => {},
        }
    }
}

/// The digits one to `d` in one group give no cell a candidate.
pub proof fn lemma_omission_group_narrows(data: Seq<u16>, group: Seq<usize>, t: EntityType, d: nat)
    requires
        data.len() == 81,
        on_grid(group),
        d <= 9,
    ensures
        narrowed(data, omission_group(data, group, t, d)),
    decreases d,
{
    if d == 0 {
        lemma_narrowed_refl(data);
    } else {
        lemma_omission_group_narrows(data, group, t, (d - 1) as nat);
        lemma_omission_digit_narrows(
            data,
            omission_group(data, group, t, (d - 1) as nat),
            group,
            t,
            d as u16,
        );
    }
}

/// Cell `c` is one that the pass strikes digit `d` from: two or three cells
/// of the group have the digit and share a second group, and `c` is another
/// cell of that second group.
pub open spec fn struck(data: Seq<u16>, group: Seq<usize>, t: EntityType, d: u16, c: int) -> bool {
    let found = digit_holders(data, group, d);
    &&& found.len() == 2 || found.len() == 3
    &&& crossing(found, t).is_some()
    &&& unit_cells(found[0], crossing(found, t).unwrap()).contains(c as usize)
    &&& !found.contains(c as usize)
}

/// What the turn of another digit leaves of digit `d` in a cell that did not
/// have `d` among the cells of the group: what it found.
pub proof fn lemma_other_digit_keeps(
    start: Seq<u16>,
    data: Seq<u16>,
    group: Seq<usize>,
    t: EntityType,
    e: u16,
    d: u16,
    c: int,
)
    requires
        start.len() == 81,
        narrowed(start, data),
        on_grid(group),
        1 <= e <= 9,
        1 <= d <= 9,
        e != d,
        0 <= c < 81,
        !digit_holders(start, group, d).contains(c as usize),
    ensures
        omission_digit(start, data, group, t, e)[c] & digit_mask(d) == data[c] & digit_mask(d),
{
    let own = digit_mask(d);
    let other = digit_mask(e);
    let found = digit_holders(start, group, e);
    let after = omission_digit(start, data, group, t, e);
    let x = data[c];
    lemma_holders(start, group, other, group.len());
    let k = (d - 1) as u16;
    let j = (e - 1) as u16;
    assert((1u16 << j) & (1u16 << k) == 0 && (x & !(1u16 << j)) & (1u16 << k) == x & (1u16 << k))
        by (bit_vector)
        requires
            k != j,
            k < 16,
            j < 16,
    ;
    if found.len() == 1 {
        if c == found[0] && !fixed(start[c]) {
            let at = choose|at: int| 0 <= at < group.len() && group[at] == found[0];
            if start[c] & own != 0 {
                lemma_holders_has(start, group, own, group.len(), at);
            }
            let was = start[c];
            assert(within(x, was));
            assert(x & own == 0) by (bit_vector)
                requires
                    x & !was == 0,
                    was & own == 0,
            ;
        }
    } else if found.len() == 2 || found.len() == 3 {
        match crossing(found, t) {
            Some(second) => {
                lemma_unit_cells_on_grid(found[0], second);
                lemma_strike(data, unit_cells(found[0], second), found, other, 9);
            },
            None => {},
        }
    }
}

/// What a pass over one group leaves of digit `d` in a cell that is none of
/// the cells of the group that had it: nothing in a cell that the pass strikes
/// the digit from, and what the cell had in every other cell.
pub proof fn lemma_omission_pass_digit(
    data: Seq<u16>,
    group: Seq<usize>,
    t: EntityType,
    d: u16,
    c: int,
    n: nat,
)
    requires
        data.len() == 81,
        on_grid(group),
        1 <= d <= 9,
        0 <= c < 81,
        n <= 9,
        !digit_holders(data, group, d).contains(c as usize),
    ensures
        omission_group(data, group, t, n)[c] & digit_mask(d) == if n >= d && struck(
            data,
            group,
            t,
            d,
            c,
        ) {
            0
        } else {
            data[c] & digit_mask(d)
        },
    decreases n,
{
    if n > 0 {
        lemma_omission_pass_digit(data, group, t, d, c, (n - 1) as nat);
        lemma_omission_group_narrows(data, group, t, (n - 1) as nat);
        let before = omission_group(data, group, t, (n - 1) as nat);
        let after = omission_group(data, group, t, n);
        let mask = digit_mask(d);
        assert(after == omission_digit(data, before, group, t, n as u16));
        if n != d {
            lemma_other_digit_keeps(data, before, group, t, n as u16, d, c);
        } else {
            let found = digit_holders(data, group, d);
            let x = before[c];
            lemma_holders(data, group, mask, group.len());
            assert(x & mask == data[c] & mask);
            if found.len() == 2 || found.len() == 3 {
                match crossing(found, t) {
                    Some(second) => {
                        let targets = unit_cells(found[0], second);
                        lemma_holders(data, group, mask, group.len());
                        lemma_unit_cells_on_grid(found[0], second);
                        lemma_strike(before, targets, found, mask, 9);
                        assert(after == strike(before, targets, found, mask, 9));
                        assert((x & !mask) & mask == 0) by (bit_vector);
                        let hit = exists|k: int|
                            0 <= k < 9 && targets[k] == c && !found.contains(targets[k]);
                        if targets.contains(c as usize) {
                            let k = choose|k: int| 0 <= k < targets.len() && targets[k] == c as usize;
                            assert(0 <= k < 9 && targets[k] == c && !found.contains(targets[k]));
                            assert(hit);
                            assert(after[c] == without(x, mask));
                            assert(struck(data, group, t, d, c));
                        } else {
                            if hit {
                                let k = choose|k: int|
                                    0 <= k < 9 && targets[k] == c && !found.contains(targets[k]);
                                assert(targets[k] == c as usize);
                            }
                            assert(after[c] == x);
                            assert(!struck(data, group, t, d, c));
                        }
                    },
                    None => {
                        assert(after == before);
                    },
                }
            } else if found.len() == 1 {
                assert(found.contains(found[0]));
                assert(found[0] != c as usize);
                assert(after[c] == x);
            } else {
                assert(after == before);
            }
        }
    }
}

/// A cell of the grid is among the cells of every row, column or box that
/// it shares with another cell.
pub proof fn lemma_unit_cells_hold(cell: usize, t: EntityType, c: usize)
    requires
        cell < 81,
        c < 81,
        unit_of(c, t) == unit_of(cell, t),
    ensures
        unit_cells(cell, t).contains(c),
{
    let i = c as int;
    lemma_cell_in_its_groups(i, i);
    match t {
        EntityType::Row => {
            assert(unit_cells(cell, t)[i % 9] == c);
        },
        EntityType::Col => {
            assert(unit_cells(cell, t)[i / 9] == c);
        },
        EntityType::Box => {
            assert(i / 27 == cell as int / 27 && (i % 9) / 3 == (cell as int % 9) / 3);
            let k = ((i / 9) % 3) * 3 + i % 3;
            assert(0 <= k < 9);
            assert(unit_cells(cell, t)[k] == c);
        },
    }
}

/// Where two or three cells of a group have a digit and share a second
/// group, a pass over the group leaves the digit to none of the other cells of
/// the second group, and every cell outside the second group keeps or lacks
/// the digit as before.
pub proof fn lemma_omission_confined(data: Seq<u16>, group: Seq<usize>, t: EntityType, d: u16)
    requires
        data.len() == 81,
        on_grid(group),
        1 <= d <= 9,
        digit_holders(data, group, d).len() == 2 || digit_holders(data, group, d).len() == 3,
        crossing(digit_holders(data, group, d), t).is_some(),
    ensures
        forall|c: int|
            0 <= c < 81 && unit_cells(
                digit_holders(data, group, d)[0],
                crossing(digit_holders(data, group, d), t).unwrap(),
            ).contains(c as usize) && !digit_holders(data, group, d).contains(c as usize)
                ==> #[trigger] omission_group(data, group, t, 9)[c] & digit_mask(d) == 0,
        forall|c: int|
            0 <= c < 81 && !unit_cells(
                digit_holders(data, group, d)[0],
                crossing(digit_holders(data, group, d), t).unwrap(),
            ).contains(c as usize) ==> #[trigger] omission_group(data, group, t, 9)[c] & digit_mask(d)
                == data[c] & digit_mask(d),
{
    let found = digit_holders(data, group, d);
    let second = crossing(found, t).unwrap();
    let targets = unit_cells(found[0], second);
    let after = omission_group(data, group, t, 9);
    lemma_holders(data, group, digit_mask(d), group.len());
    assert(same_unit(found, second));
    assert forall|c: int| 0 <= c < 81 && targets.contains(c as usize) && !found.contains(
        c as usize,
    ) implies #[trigger] after[c] & digit_mask(d) == 0 by {
        lemma_omission_pass_digit(data, group, t, d, c, 9);
    }
    assert forall|c: int| 0 <= c < 81 && !targets.contains(c as usize) implies #[trigger] after[c]
        & digit_mask(d) == data[c] & digit_mask(d) by {
        if found.contains(c as usize) {
            let j = choose|j: int| 0 <= j < found.len() && found[j] == c as usize;
            assert(unit_of(found[j], second) == unit_of(found[0], second));
            lemma_unit_cells_hold(found[0], second, c as usize);
        }
        lemma_omission_pass_digit(data, group, t, d, c, 9);
    }
}

/// Where the cells of a group that have a digit are four or more, or share
/// no second group, a pass over the group makes no deduction for the digit:
/// every cell outside the group, and every cell of it that had not the
/// digit, keeps or lacks the digit as before.
pub proof fn lemma_omission_no_deduction(data: Seq<u16>, group: Seq<usize>, t: EntityType, d: u16)
    requires
        data.len() == 81,
        on_grid(group),
        1 <= d <= 9,
        digit_holders(data, group, d).len() >= 2,
        digit_holders(data, group, d).len() > 3 || crossing(digit_holders(data, group, d), t).is_none(),
    ensures
        forall|c: int|
            0 <= c < 81 && !digit_holders(data, group, d).contains(c as usize)
                ==> #[trigger] omission_group(data, group, t, 9)[c] & digit_mask(d) == data[c]
                & digit_mask(d),
        forall|c: int|
            0 <= c < 81 && !group.contains(c as usize) ==> #[trigger] omission_group(
                data,
                group,
                t,
                9,
            )[c] & digit_mask(d) == data[c] & digit_mask(d),
{
    let found = digit_holders(data, group, d);
    let after = omission_group(data, group, t, 9);
    lemma_holders(data, group, digit_mask(d), group.len());
    assert forall|c: int| 0 <= c < 81 && !found.contains(c as usize) implies #[trigger] after[c]
        & digit_mask(d) == data[c] & digit_mask(d) by {
        lemma_omission_pass_digit(data, group, t, d, c, 9);
    }
    assert forall|c: int| 0 <= c < 81 && !group.contains(c as usize) implies #[trigger] after[c]
        & digit_mask(d) == data[c] & digit_mask(d) by {
        if found.contains(c as usize) {
            let j = choose|j: int| 0 <= j < found.len() && found[j] == c as usize;
            assert(group.contains(found[j]));
        }
    }
}

/// A sweep of omission gives no cell a candidate.
pub proof fn lemma_omission_sweep_narrows(data: Seq<u16>, n: nat)
    requires
        data.len() == 81,
        n <= 9,
    ensures
        narrowed(data, omission_sweep(data, n)),
    decreases n,
{
    if n == 0 {
        lemma_narrowed_refl(data);
    } else {
        let i = (n - 1) as int;
        lemma_omission_sweep_narrows(data, (n - 1) as nat);
        let before = omission_sweep(data, (n - 1) as nat);
        let rows = omission_group(before, row_cells(i * 9), EntityType::Row, 9);
        let cols = omission_group(rows, col_cells(i), EntityType::Col, 9);
        lemma_omission_group_narrows(before, row_cells(i * 9), EntityType::Row, 9);
        lemma_omission_group_narrows(rows, col_cells(i), EntityType::Col, 9);
        lemma_omission_group_narrows(cols, block_cells(i / 3, i % 3), EntityType::Box, 9);
        lemma_narrowed_trans(data, before, rows);
        lemma_narrowed_trans(data, rows, cols);
        lemma_narrowed_trans(data, cols, omission_sweep(data, n));
    }
}

impl Sudoku {
    /// Whether `list` holds `x`.
    pub fn holds(list: &Vec<usize>, x: usize) -> (r: bool)
        ensures
            r == list@.contains(x),
    {
        let mut k: usize = 0;
        while k < list.len()
            invariant
                k <= list.len(),
                forall|j: int| 0 <= j < k ==> list@[j] != x,
            decreases list.len() - k,
        {
            if list[k] == x {
                return true;
            }
            k = k + 1;
        }
        false
    }

    /// Whether all the cells lie in one row, one column or one box.
    #[allow(non_snake_case)]
    pub fn in_same_RCB(indices: &Vec<usize>, t: EntityType) -> (r: bool)
        requires
            indices@.len() > 0,
            on_grid(indices@),
        ensures
            r == same_unit(indices@, t),
    {
        let first = Sudoku::unit_number(indices[0], t);
        let mut k: usize = 0;
        while k < indices.len()
            invariant
                k <= indices.len(),
                on_grid(indices@),
                indices@.len() > 0,
                first == unit_of(indices@[0], t),
                forall|j: int| 0 <= j < k ==> unit_of(#[trigger] indices@[j], t) == first,
            decreases indices.len() - k,
        {
            if Sudoku::unit_number(indices[k], t) != first {
                return false;
            }
            k = k + 1;
        }
        true
    }

    /// The number of the row, column or box of a cell.
    pub fn unit_number(cell: usize, t: EntityType) -> (r: usize)
        requires
            cell < 81,
        ensures
            r == unit_of(cell, t),
    {
        match t {
            EntityType::Row => cell / 9,
            EntityType::Col => cell % 9,
            EntityType::Box => Sudoku::get_block_index(cell),
        }
    }

    /// The cells of `indices` that have a candidate of `mask`.
    pub fn possible_locs(&self, indices: &Vec<usize>, mask: EntryNum) -> (r: Vec<usize>)
        requires
            on_grid(indices@),
        ensures
            r@ == holders(self@, indices@, mask, indices@.len()),
            on_grid(r@),
            forall|j: int| 0 <= j < r@.len() ==> self@[#[trigger] r@[j] as int] & mask != 0,
    {
        let mut r: Vec<usize> = Vec::new();
        let mut k: usize = 0;
        while k < indices.len()
            invariant
                k <= indices.len(),
                on_grid(indices@),
                r@ == holders(self@, indices@, mask, k as nat),
                on_grid(r@),
                forall|j: int| 0 <= j < r@.len() ==> self@[#[trigger] r@[j] as int] & mask != 0,
            decreases indices.len() - k,
        {
            let cell = indices[k];
            if self.data[cell] & mask != 0 {
                r.push(cell);
            }
            k = k + 1;
        }
        r
    }

    /// Takes the candidates `mask` from the cells `targets`, but for those
    /// in `keep`, and returns how many candidates went.
    pub fn remove_from_others(
        &mut self,
        targets: &Vec<usize>,
        keep: &Vec<usize>,
        mask: EntryNum,
    ) -> (r: u32)
        requires
            on_grid(targets@),
        ensures
            final(self)@ == strike(old(self)@, targets@, keep@, mask, targets@.len()),
            narrowed(old(self)@, final(self)@),
            r + total_bits(final(self)@, 81) == total_bits(old(self)@, 81),
    {
        let mut res: u32 = 0;
        let mut k: usize = 0;
        proof {
            lemma_narrowed_refl(self@);
            lemma_total_bits_bound(self@, 81);
        }
        while k < targets.len()
            invariant
                k <= targets.len(),
                on_grid(targets@),
                self@.len() == 81,
                self@ == strike(old(self)@, targets@, keep@, mask, k as nat),
                narrowed(old(self)@, self@),
                res + total_bits(self@, 81) == total_bits(old(self)@, 81),
                total_bits(old(self)@, 81) <= 1296,
            decreases targets.len() - k,
        {
            let cell = targets[k];
            if !Sudoku::holds(keep, cell) {
                let ghost before = self@;
                let removed = Sudoku::remove_possibilities(&mut self.data, cell, mask);
                proof {
                    lemma_narrowed_trans(old(self)@, before, self@);
                }
                res = res + removed;
            }
            k = k + 1;
        }
        res
    }

    /// Takes the candidates `mask` from the cells of one box, but for those in
    /// `indices`. The box lies in the band of boxes that holds row `rcb_index`
    /// and in the stack that holds the first column of `block_locs`.
    pub fn remove_other_locs(
        &mut self,
        rcb_index: usize,
        mask: EntryNum,
        indices: &Vec<usize>,
        block_locs: &Vec<usize>,
    ) -> (r: u32)
        requires
            rcb_index < 9,
            block_locs@.len() > 0,
            block_locs@[0] < 9,
        ensures
            final(self)@ == strike(
                old(self)@,
                block_cells(rcb_index as int / 3, block_locs@[0] as int / 3),
                indices@,
                mask,
                9,
            ),
            narrowed(old(self)@, final(self)@),
            r + total_bits(final(self)@, 81) == total_bits(old(self)@, 81),
    {
        let block_row = rcb_index / 3;
        let block_col = block_locs[0] / 3;
        let bloc_indices = Sudoku::get_block_indices(block_row, block_col);
        self.remove_from_others(&bloc_indices, indices, mask)
    }

    /// The cells of the second group that `found`, cells of a group of kind
    /// `t`, share; none if they share no second group.
    pub fn crossing_cells(found: &Vec<usize>, t: EntityType) -> (r: Vec<usize>)
        requires
            found@.len() > 0,
            on_grid(found@),
        ensures
            on_grid(r@),
            match crossing(found@, t) {
                Some(second) => r@ == unit_cells(found@[0], second),
                None => r@.len() == 0,
            },
    {
        let first_index = found[0];
        match t {
            EntityType::Row | EntityType::Col => {
                if Sudoku::in_same_RCB(found, EntityType::Box) {
                    Sudoku::get_block_indices_by_cell_index(first_index)
                } else {
                    Vec::new()
                }
            },
            EntityType::Box => {
                if Sudoku::in_same_RCB(found, EntityType::Row) {
                    Sudoku::get_row_indices(first_index)
                } else if Sudoku::in_same_RCB(found, EntityType::Col) {
                    Sudoku::get_col_indices(first_index)
                } else {
                    Vec::new()
                }
            },
        }
    }

    /// One pass of the digits one to nine over one group of kind `t`. The
    /// group is read once, before the first digit: which cells have a digit is
    /// taken from the grid as it stood then. Returns how many candidates went.
    pub fn eliminate_omission(&mut self, indices: &Vec<usize>, t: EntityType) -> (r: u32)
        requires
            on_grid(indices@),
        ensures
            final(self)@ == omission_group(old(self)@, indices@, t, 9),
            narrowed(old(self)@, final(self)@),
            r + total_bits(final(self)@, 81) == total_bits(old(self)@, 81),
    {
        let ens = Sudoku { data: self.data };
        let had = self.count_candidates();
        let mut d: u16 = 1;
        proof {
            lemma_narrowed_refl(self@);
        }
        while d <= 9
            invariant
                1 <= d <= 10,
                on_grid(indices@),
                ens@ == old(self)@,
                self@.len() == 81,
                self@ == omission_group(old(self)@, indices@, t, (d - 1) as nat),
                narrowed(old(self)@, self@),
            decreases 10 - d,
        {
            let mask = to_entry_num(d);
            let pos_locs = ens.possible_locs(indices, mask);
            let ghost before = self@;
            proof {
                lemma_omission_digit_narrows(ens@, before, indices@, t, d);
            }
            if pos_locs.len() == 1 {
                let cell = pos_locs[0];
                if !ens.data[cell].is_fixed() {
                    self.data[cell] = mask;
                    assert(self@ =~= before.update(cell as int, mask));
                }
            } else if pos_locs.len() == 2 || pos_locs.len() == 3 {
                let to_remove = Sudoku::crossing_cells(&pos_locs, t);
                if to_remove.len() > 0 {
                    let _ = self.remove_from_others(&to_remove, &pos_locs, mask);
                }
            }
            assert(self@ == omission_digit(ens@, before, indices@, t, d));
            d = d + 1;
        }
        proof {
            lemma_narrowed_total(old(self)@, self@, 81);
        }
        had - self.count_candidates()
    }

    /// Counts the candidates of all the cells.
    pub fn count_candidates(&self) -> (r: u32)
        ensures
            r == total_bits(self@, 81),
    {
        let mut r: u32 = 0;
        let mut i: usize = 0;
        while i < 81
            invariant
                i <= 81,
                r == total_bits(self@, i as nat),
                r <= 16 * i,
            decreases 81 - i,
        {
            proof {
                lemma_bit_count_unfold(self@[i as int]);
            }
            r = r + count_bits(self.data[i]);
            i = i + 1;
        }
        r
    }

    /// One pass of the omission rule over the nine rows, columns and boxes.
    /// Returns how many candidates went.
    pub fn eliminate_omissions(&mut self) -> (r: u32)
        ensures
            final(self)@ == omission_sweep(old(self)@, 9),
            narrowed(old(self)@, final(self)@),
            r + total_bits(final(self)@, 81) == total_bits(old(self)@, 81),
    {
        let mut res: u32 = 0;
        let mut i: usize = 0;
        proof {
            lemma_narrowed_refl(self@);
            lemma_total_bits_bound(self@, 81);
        }
        while i < 9
            invariant
                i <= 9,
                self@.len() == 81,
                self@ == omission_sweep(old(self)@, i as nat),
                narrowed(old(self)@, self@),
                res + total_bits(self@, 81) == total_bits(old(self)@, 81),
                total_bits(old(self)@, 81) <= 1296,
            decreases 9 - i,
        {
            let row_nums = Sudoku::get_row_indices(i * 9);
            let col_nums = Sudoku::get_col_indices(i);
            let block_nums = Sudoku::get_block_indices(i / 3, i % 3);
            let ghost start = self@;
            let in_rows = self.eliminate_omission(&row_nums, EntityType::Row);
            let ghost rows = self@;
            let in_cols = self.eliminate_omission(&col_nums, EntityType::Col);
            let ghost cols = self@;
            let in_boxes = self.eliminate_omission(&block_nums, EntityType::Box);
            proof {
                lemma_narrowed_trans(old(self)@, start, rows);
                lemma_narrowed_trans(old(self)@, rows, cols);
                lemma_narrowed_trans(old(self)@, cols, self@);
            }
            res = res + in_rows + in_cols + in_boxes;
            i = i + 1;
        }
        res
    }
}

} // verus!
