//! Why the deductions are safe: a completed grid that fits the candidates
//! before a sweep still fits them after it.

use crate::closure::{closure, covered, grow, lemma_grow_ends, Growth};
use crate::entry_num::{
    bit_count, digit_mask, fixed, has_bit, has_digit, lemma_bit_count_unfold, lemma_single_bit,
    lemma_union_count, lemma_within_count, within,
};
use crate::elimination::{
    basic_sweep, cell_taken, fixed_peers, open_peers, taken, union_of,
};
use crate::omission::{
    crossing, holders, lemma_holders, lemma_holders_has, lemma_strike, omission_digit,
    omission_group, omission_sweep, same_unit, unit_cells, unit_of,
};
use crate::sudoku::{lemma_total_bits_bound, total_bits, EntityType};
use crate::sudoku_api::{
    lacking, lemma_solve_step_narrows, removed_by_step, solve_step, valid,
};
use crate::sudoku_get_indices::{block_cells, block_of, col_cells, on_grid, row_cells};
use vstd::prelude::*;

verus! {

/// A mask that gains a bit has that bit and those it had, and counts more.
pub proof fn lemma_add_bit(u: u16, k: u16)
    requires
        k < 16,
        !has_bit(u, k),
    ensures
        bit_count((u | (1u16 << k)) as u16) > bit_count(u),
        forall|j: u16|
            j < 16 ==> (#[trigger] has_bit((u | (1u16 << k)) as u16, j) <==> has_bit(u, j) || j == k),
{
    let m: u16 = 1u16 << k;
    let w: u16 = u | m;
    assert(forall|j: u16| j < 16 ==> (#[trigger] has_bit(w, j) <==> has_bit(u, j) || j == k))
        by (bit_vector)
        requires
            w == u | (1u16 << k),
            k < 16,
    ;
    assert(m & !u != 0) by (bit_vector)
        requires
            m == 1u16 << k,
            k < 16,
            u & (1u16 << k) == 0,
    ;
    lemma_union_count(u, m);
}

/// The digits `vals` are digits of the masks `sets`, one for each mask, and
/// no digit stands for two masks.
pub open spec fn chosen(sets: Seq<u16>, vals: Seq<u16>) -> bool {
    &&& sets.len() == vals.len()
    &&& forall|j: int| 0 <= j < vals.len() ==> has_digit(sets[j], #[trigger] vals[j])
    &&& forall|i: int, j: int|
        0 <= i < j < vals.len() ==> #[trigger] vals[i] != #[trigger] vals[j]
}

/// The digits chosen for those of the first `n` masks that lie within `c`.
pub open spec fn used(sets: Seq<u16>, vals: Seq<u16>, c: u16, n: nat) -> u16
    decreases n,
{
    if n == 0 {
        0
    } else {
        let before = used(sets, vals, c, (n - 1) as nat);
        if within(sets[n - 1], c) {
            before | digit_mask(vals[n - 1])
        } else {
            before
        }
    }
}

/// The digits chosen for the masks within `c` lie within `c`, and there are
/// no fewer of them than there are such masks.
pub proof fn lemma_used(sets: Seq<u16>, vals: Seq<u16>, c: u16, n: nat)
    requires
        chosen(sets, vals),
        n <= sets.len(),
    ensures
        within(used(sets, vals, c, n), c),
        bit_count(used(sets, vals, c, n)) >= covered(sets, c, n),
        forall|k: u16|
            k < 16 ==> (#[trigger] has_bit(used(sets, vals, c, n), k) <==> exists|j: int|
                0 <= j < n && within(sets[j], c) && #[trigger] vals[j] == k + 1),
    decreases n,
{
    if n == 0 {
        assert(0u16 & !c == 0) by (bit_vector);
        assert(forall|k: u16| k < 16 ==> !#[trigger] has_bit(0u16, k)) by (bit_vector);
        lemma_bit_count_unfold(0u16);
    } else {
        lemma_used(sets, vals, c, (n - 1) as nat);
        let before = used(sets, vals, c, (n - 1) as nat);
        let now = used(sets, vals, c, n);
        let x = sets[n - 1];
        let v = vals[n - 1];
        if within(x, c) {
            let k = (v - 1) as u16;
            let m = digit_mask(v);
            assert(has_digit(x, v));
            if has_bit(before, k) {
                let j = choose|j: int|
                    0 <= j < n - 1 && within(sets[j], c) && #[trigger] vals[j] == k + 1;
                assert(vals[j] != vals[n - 1]);
            }
            lemma_add_bit(before, k);
            assert(now & !c == 0) by (bit_vector)
                requires
                    now == before | m,
                    m == 1u16 << k,
                    k < 16,
                    x & m != 0,
                    x & !c == 0,
                    before & !c == 0,
            ;
            assert forall|b: u16| b < 16 implies (#[trigger] has_bit(now, b) <==> exists|j: int|
                0 <= j < n && within(sets[j], c) && #[trigger] vals[j] == b + 1) by {
                if has_bit(before, b) {
                    let j = choose|j: int|
                        0 <= j < n - 1 && within(sets[j], c) && #[trigger] vals[j] == b + 1;
                    assert(0 <= j < n && within(sets[j], c) && vals[j] == b + 1);
                }
                if b == k {
                    assert(0 <= n - 1 < n && within(sets[n - 1], c) && vals[n - 1] == b + 1);
                }
                if exists|j: int| 0 <= j < n && within(sets[j], c) && #[trigger] vals[j] == b + 1 {
                    let j = choose|j: int|
                        0 <= j < n && within(sets[j], c) && #[trigger] vals[j] == b + 1;
                    if j < n - 1 {
                        assert(has_bit(before, b));
                    }
                }
            }
        } else {
            assert forall|b: u16| b < 16 implies (#[trigger] has_bit(now, b) <==> exists|j: int|
                0 <= j < n && within(sets[j], c) && #[trigger] vals[j] == b + 1) by {
                if has_bit(before, b) {
                    let j = choose|j: int|
                        0 <= j < n - 1 && within(sets[j], c) && #[trigger] vals[j] == b + 1;
                    assert(0 <= j < n && within(sets[j], c) && vals[j] == b + 1);
                }
                if exists|j: int| 0 <= j < n && within(sets[j], c) && #[trigger] vals[j] == b + 1 {
                    let j = choose|j: int|
                        0 <= j < n && within(sets[j], c) && #[trigger] vals[j] == b + 1;
                    assert(j < n - 1);
                    assert(has_bit(before, b));
                }
            }
        }
    }
}

/// Where as many masks lie within `c` as `c` has digits, or more, their
/// chosen digits are all the digits of `c`: there are no more such masks than
/// digits, and a digit chosen for no mask is none of `c`.
pub proof fn lemma_closed_is_used_up(sets: Seq<u16>, vals: Seq<u16>, c: u16, d: u16)
    requires
        chosen(sets, vals),
        covered(sets, c, sets.len()) >= bit_count(c),
        1 <= d <= 9,
        forall|j: int| 0 <= j < vals.len() ==> #[trigger] vals[j] != d,
    ensures
        covered(sets, c, sets.len()) == bit_count(c),
        c & digit_mask(d) == 0,
{
    let u = used(sets, vals, c, sets.len());
    lemma_used(sets, vals, c, sets.len());
    lemma_within_count(u, c);
    let k = (d - 1) as u16;
    if has_bit(u, k) {
        let j = choose|j: int|
            0 <= j < sets.len() && within(sets[j], c) && #[trigger] vals[j] == k + 1;
        assert(vals[j] != d);
    }
}

/// Where each mask has a digit of its own, the closure does not fail, and
/// a digit that belongs to no mask is not locked up.
pub proof fn lemma_closure_avoids(sets: Seq<u16>, vals: Seq<u16>, all: u16, d: u16, n: nat)
    requires
        chosen(sets, vals),
        1 <= d <= 9,
        forall|j: int| 0 <= j < vals.len() ==> #[trigger] vals[j] != d,
        n <= sets.len(),
    ensures
        closure(sets, all, n).is_ok(),
        closure(sets, all, n).unwrap() & digit_mask(d) == 0,
    decreases n,
{
    let m = digit_mask(d);
    if n == 0 {
        assert(0u16 & m == 0) by (bit_vector);
    } else {
        lemma_closure_avoids(sets, vals, all, d, (n - 1) as nat);
        let res = closure(sets, all, (n - 1) as nat).unwrap();
        if !within(sets[n - 1], res) {
            lemma_grow_ends(sets, all, sets[n - 1]);
            match grow(sets, all, sets[n - 1]) {
                Growth::Closed(c) => {
                    lemma_closed_is_used_up(sets, vals, c, d);
                    assert((res | c) & m == 0) by (bit_vector)
                        requires
                            res & m == 0,
                            c & m == 0,
                    ;
                },
                Growth::Crowded(c) => {
                    lemma_closed_is_used_up(sets, vals, c, d);
                },
                Growth::Whole => {},
            }
        }
    }
}

/// Two cells share a row, a column or a box.
pub open spec fn shares_unit(a: int, b: int) -> bool {
    a / 9 == b / 9 || a % 9 == b % 9 || block_of(a) == block_of(b)
}

/// Some cell of `group` holds digit `d` in `sol`.
pub open spec fn present(sol: Seq<u16>, group: Seq<usize>, d: u16) -> bool {
    exists|k: int| 0 <= k < group.len() && sol[#[trigger] group[k] as int] == d
}

/// A completed grid: a digit in every cell, no digit twice in a row, a
/// column or a box, and every digit in each of them.
pub open spec fn is_solution(sol: Seq<u16>) -> bool {
    &&& sol.len() == 81
    &&& forall|i: int| 0 <= i < 81 ==> 1 <= #[trigger] sol[i] <= 9
    &&& forall|a: int, b: int|
        0 <= a < 81 && 0 <= b < 81 && a != b && shares_unit(a, b) ==> #[trigger] sol[a]
            != #[trigger] sol[b]
    &&& forall|i: int, d: u16|
        0 <= i < 9 && 1 <= d <= 9 ==> #[trigger] present(sol, row_cells(i * 9), d)
    &&& forall|i: int, d: u16| 0 <= i < 9 && 1 <= d <= 9 ==> #[trigger] present(sol, col_cells(i), d)
    &&& forall|i: int, d: u16|
        0 <= i < 9 && 1 <= d <= 9 ==> #[trigger] present(sol, block_cells(i / 3, i % 3), d)
}

/// Every cell of the grid has the digit of the completed grid among its
/// candidates.
pub open spec fn admits(data: Seq<u16>, sol: Seq<u16>) -> bool {
    &&& data.len() == 81
    &&& forall|i: int| 0 <= i < 81 ==> has_digit(#[trigger] data[i], sol[i])
}

/// The cells of `group` lie on the grid and hold different digits in `sol`,
/// all of them different from the digit of cell `index` but that cell itself.
pub open spec fn peers_differ(sol: Seq<u16>, group: Seq<usize>, index: usize) -> bool {
    &&& on_grid(group)
    &&& forall|j: int, k: int|
        0 <= j < k < group.len() ==> sol[#[trigger] group[j] as int] != sol[#[trigger] group[k] as int]
    &&& forall|j: int|
        0 <= j < group.len() && #[trigger] group[j] != index ==> sol[group[j] as int]
            != sol[index as int]
}

/// Two cells that share a row, a column or a box hold different digits.
pub proof fn lemma_differ(sol: Seq<u16>, a: int, b: int)
    requires
        is_solution(sol),
        0 <= a < 81,
        0 <= b < 81,
        a != b,
        shares_unit(a, b),
    ensures
        sol[a] != sol[b],
{
}

/// Cells that pairwise share a row, a column or a box, and share one with
/// cell `index`, hold different digits.
pub proof fn lemma_group_differs(sol: Seq<u16>, group: Seq<usize>, index: usize)
    requires
        is_solution(sol),
        index < 81,
        on_grid(group),
        forall|j: int, k: int|
            0 <= j < k < group.len() ==> group[j] != group[k] && shares_unit(
                #[trigger] group[j] as int,
                #[trigger] group[k] as int,
            ),
        forall|j: int| 0 <= j < group.len() ==> shares_unit(#[trigger] group[j] as int, index as int),
    ensures
        peers_differ(sol, group, index),
{
    assert forall|j: int, k: int| 0 <= j < k < group.len() implies sol[#[trigger] group[j] as int]
        != sol[#[trigger] group[k] as int] by {
        lemma_differ(sol, group[j] as int, group[k] as int);
    }
    assert forall|j: int| 0 <= j < group.len() && #[trigger] group[j] != index implies sol[group[j] as int]
        != sol[index as int] by {
        lemma_differ(sol, group[j] as int, index as int);
    }
}

/// In a completed grid the cells of the row, the column and the box of a
/// cell hold different digits.
pub proof fn lemma_units_differ(sol: Seq<u16>, index: usize)
    requires
        is_solution(sol),
        index < 81,
    ensures
        peers_differ(sol, row_cells(index as int), index),
        peers_differ(sol, col_cells(index as int), index),
        peers_differ(sol, block_cells(index as int / 27, (index as int % 9) / 3), index),
{
    let i = index as int;
    let rows = row_cells(i);
    let cols = col_cells(i);
    let boxes = block_cells(i / 27, (i % 9) / 3);
    assert forall|k: int| 0 <= k < 9 implies #[trigger] rows[k] < 81 && rows[k] as int / 9 == i
        / 9 by {}
    assert forall|k: int| 0 <= k < 9 implies #[trigger] cols[k] < 81 && cols[k] as int % 9 == i
        % 9 by {}
    assert forall|k: int| 0 <= k < 9 implies #[trigger] boxes[k] < 81 && block_of(boxes[k] as int)
        == block_of(i) by {
        lemma_block_of_block_cells(i / 27, (i % 9) / 3, k);
    }
    assert forall|j: int, k: int| 0 <= j < k < 9 implies #[trigger] boxes[j] != #[trigger] boxes[k] by {
        lemma_block_of_block_cells(i / 27, (i % 9) / 3, j);
        lemma_block_of_block_cells(i / 27, (i % 9) / 3, k);
    }
    lemma_group_differs(sol, rows, index);
    lemma_group_differs(sol, cols, index);
    lemma_group_differs(sol, boxes, index);
}

/// The cells of a box lie on the grid, in that box.
pub proof fn lemma_block_of_block_cells(br: int, bc: int, k: int)
    requires
        0 <= br < 3,
        0 <= bc < 3,
        0 <= k < 9,
    ensures
        block_cells(br, bc)[k] == (br * 3 + k / 3) * 9 + bc * 3 + k % 3,
        block_cells(br, bc)[k] < 81,
        block_of(block_cells(br, bc)[k] as int) == br * 3 + bc,
{
    let r = br * 3 + k / 3;
    let c = bc * 3 + k % 3;
    assert(0 <= r < 9 && 0 <= c < 9);
    let cell = r * 9 + c;
    assert(cell / 9 == r && cell % 9 == c);
    assert(cell / 27 == br);
    assert(c / 3 == bc);
}

/// The digits that `sol` has in the cells whose masks `open_peers` lists.
pub open spec fn open_vals(
    sol: Seq<u16>,
    data: Seq<u16>,
    group: Seq<usize>,
    index: usize,
    n: nat,
) -> Seq<u16>
    decreases n,
{
    if n == 0 {
        Seq::empty()
    } else {
        let before = open_vals(sol, data, group, index, (n - 1) as nat);
        let cell = group[n - 1];
        if cell != index && !fixed(data[cell as int]) {
            before.push(sol[cell as int])
        } else {
            before
        }
    }
}

/// The digits of the completed grid in the open cells of a group are
/// digits of their masks, each its own, and none is the digit of cell `index`.
pub proof fn lemma_open_vals(sol: Seq<u16>, data: Seq<u16>, group: Seq<usize>, index: usize, n: nat)
    requires
        is_solution(sol),
        admits(data, sol),
        index < 81,
        peers_differ(sol, group, index),
        n <= group.len(),
    ensures
        chosen(open_peers(data, group, index, n), open_vals(sol, data, group, index, n)),
        forall|j: int|
            0 <= j < open_vals(sol, data, group, index, n).len() ==> #[trigger] open_vals(
                sol,
                data,
                group,
                index,
                n,
            )[j] != sol[index as int],
        forall|j: int|
            0 <= j < open_vals(sol, data, group, index, n).len() ==> exists|k: int|
                0 <= k < n && #[trigger] open_vals(sol, data, group, index, n)[j] == sol[group[k] as int],
    decreases n,
{
    if n > 0 {
        lemma_open_vals(sol, data, group, index, (n - 1) as nat);
        let sets_before = open_peers(data, group, index, (n - 1) as nat);
        let vals_before = open_vals(sol, data, group, index, (n - 1) as nat);
        let sets = open_peers(data, group, index, n);
        let vals = open_vals(sol, data, group, index, n);
        let cell = group[n - 1];
        assert(cell < 81);
        if cell != index && !fixed(data[cell as int]) {
            assert forall|j: int| 0 <= j < vals.len() implies has_digit(sets[j], #[trigger] vals[j])
                && vals[j] != sol[index as int] && exists|k: int|
                0 <= k < n && vals[j] == sol[group[k] as int] by {
                if j < vals_before.len() {
                    assert(vals[j] == vals_before[j]);
                    assert(sets[j] == sets_before[j]);
                    let k = choose|k: int| 0 <= k < n - 1 && vals_before[j] == sol[group[k] as int];
                    assert(0 <= k < n && vals[j] == sol[group[k] as int]);
                } else {
                    assert(vals[j] == sol[cell as int]);
                    assert(sets[j] == data[cell as int]);
                    assert(0 <= n - 1 < n && vals[j] == sol[group[n - 1] as int]);
                }
            }
            assert forall|i: int, j: int| 0 <= i < j < vals.len() implies #[trigger] vals[i]
                != #[trigger] vals[j] by {
                if j < vals_before.len() {
                    assert(vals[i] == vals_before[i]);
                    assert(vals[j] == vals_before[j]);
                } else {
                    assert(vals[i] == vals_before[i]);
                    let k = choose|k: int| 0 <= k < n - 1 && vals_before[i] == sol[group[k] as int];
                    assert(sol[group[k] as int] != sol[group[n - 1] as int]);
                }
            }
        } else {
            assert forall|j: int| 0 <= j < vals.len() implies exists|k: int|
                0 <= k < n && #[trigger] vals[j] == sol[group[k] as int] by {
                let k = choose|k: int| 0 <= k < n - 1 && vals_before[j] == sol[group[k] as int];
                assert(0 <= k < n && vals[j] == sol[group[k] as int]);
            }
        }
    }
}

/// Different digits have disjoint masks; a fixed mask that has a digit is
/// the mask of that digit.
pub proof fn lemma_digit_masks(m: u16, d: u16, e: u16)
    requires
        1 <= d <= 9,
        1 <= e <= 9,
    ensures
        d != e ==> digit_mask(d) & digit_mask(e) == 0,
        has_digit(m, d) && fixed(m) ==> m == digit_mask(d),
        has_digit(m, d) ==> m != 0,
{
    let k = (d - 1) as u16;
    let j = (e - 1) as u16;
    assert(k != j ==> (1u16 << k) & (1u16 << j) == 0) by (bit_vector)
        requires
            k < 16,
            j < 16,
    ;
    if has_digit(m, d) {
        let x = digit_mask(d);
        assert(x & !m == 0 && m != 0) by (bit_vector)
            requires
                m & (1u16 << k) != 0,
                x == 1u16 << k,
                k < 16,
        ;
        lemma_single_bit(k);
        lemma_within_count(x, m);
    }
}

/// The fixed cells of a group do not hold the digit of cell `index`.
pub proof fn lemma_fixed_peers_avoid(
    sol: Seq<u16>,
    data: Seq<u16>,
    group: Seq<usize>,
    index: usize,
    n: nat,
)
    requires
        is_solution(sol),
        admits(data, sol),
        index < 81,
        peers_differ(sol, group, index),
        n <= group.len(),
    ensures
        fixed_peers(data, group, index, n) & digit_mask(sol[index as int]) == 0,
    decreases n,
{
    let m = digit_mask(sol[index as int]);
    if n == 0 {
        assert(0u16 & m == 0) by (bit_vector);
    } else {
        lemma_fixed_peers_avoid(sol, data, group, index, (n - 1) as nat);
        let before = fixed_peers(data, group, index, (n - 1) as nat);
        let cell = group[n - 1];
        assert(cell < 81);
        let x = data[cell as int];
        if cell != index && fixed(x) {
            assert(has_digit(x, sol[cell as int]));
            lemma_digit_masks(x, sol[cell as int], sol[index as int]);
            assert((before | x) & m == 0) by (bit_vector)
                requires
                    before & m == 0,
                    x & m == 0,
            ;
        }
    }
}

/// What a group takes from a cell leaves it the digit of the completed grid.
pub proof fn lemma_taken_avoids(sol: Seq<u16>, data: Seq<u16>, group: Seq<usize>, index: usize)
    requires
        is_solution(sol),
        admits(data, sol),
        index < 81,
        peers_differ(sol, group, index),
    ensures
        taken(data, group, index).is_ok(),
        taken(data, group, index).unwrap() & digit_mask(sol[index as int]) == 0,
{
    let m = digit_mask(sol[index as int]);
    let sets = open_peers(data, group, index, group.len());
    let vals = open_vals(sol, data, group, index, group.len());
    lemma_open_vals(sol, data, group, index, group.len());
    lemma_fixed_peers_avoid(sol, data, group, index, group.len());
    lemma_closure_avoids(sets, vals, union_of(sets, sets.len()), sol[index as int], sets.len());
    let direct = fixed_peers(data, group, index, group.len());
    let locked = closure(sets, union_of(sets, sets.len()), sets.len()).unwrap();
    assert((direct | locked) & m == 0) by (bit_vector)
        requires
            direct & m == 0,
            locked & m == 0,
    ;
}

/// A sweep of elimination over a grid that a completed grid fits does not
/// fail, and the completed grid fits the result.
pub proof fn lemma_basic_sweep_sound(sol: Seq<u16>, data: Seq<u16>, n: nat)
    requires
        is_solution(sol),
        admits(data, sol),
        n <= 81,
    ensures
        basic_sweep(data, n).1.is_none(),
        admits(basic_sweep(data, n).0, sol),
    decreases n,
{
    if n > 0 {
        lemma_basic_sweep_sound(sol, data, (n - 1) as nat);
        let grid = basic_sweep(data, (n - 1) as nat).0;
        let index = (n - 1) as usize;
        if !fixed(grid[n - 1]) {
            lemma_units_differ(sol, index);
            lemma_taken_avoids(sol, grid, col_cells(index as int), index);
            lemma_taken_avoids(sol, grid, row_cells(index as int), index);
            lemma_taken_avoids(
                sol,
                grid,
                block_cells(index as int / 27, (index as int % 9) / 3),
                index,
            );
            let a = taken(grid, col_cells(index as int), index).unwrap();
            let b = taken(grid, row_cells(index as int), index).unwrap();
            let c = taken(grid, block_cells(index as int / 27, (index as int % 9) / 3), index).unwrap();
            let t = cell_taken(grid, index).unwrap();
            let m = digit_mask(sol[n - 1]);
            let x = grid[n - 1];
            let k = (sol[n - 1] - 1) as u16;
            assert(has_digit(x, sol[n - 1]));
            assert((x & !t) & m != 0) by (bit_vector)
                requires
                    t == a | b | c,
                    a & m == 0,
                    b & m == 0,
                    c & m == 0,
                    x & m != 0,
            ;
            let after = basic_sweep(data, n).0;
            assert forall|i: int| 0 <= i < 81 implies has_digit(#[trigger] after[i], sol[i]) by {
                if i != n - 1 {
                    assert(after[i] == grid[i]);
                }
            }
        }
    }
}

/// The cells of the row, column or box of a cell lie on the grid and share
/// that row, column or box.
pub proof fn lemma_unit_cells_share(cell: usize, t: EntityType, k: int)
    requires
        cell < 81,
        0 <= k < 9,
    ensures
        unit_cells(cell, t)[k] < 81,
        unit_of(unit_cells(cell, t)[k], t) == unit_of(cell, t),
{
    match t {
        EntityType::Row => {},
        EntityType::Col => {},
        EntityType::Box => {
            lemma_block_of_block_cells(cell as int / 27, (cell as int % 9) / 3, k);
        },
    }
}

/// The cell that holds digit `d` in the completed grid is among the cells
/// of the group that have `d` as a candidate.
pub proof fn lemma_holder_of_digit(
    sol: Seq<u16>,
    data: Seq<u16>,
    group: Seq<usize>,
    d: u16,
) -> (h: usize)
    requires
        is_solution(sol),
        admits(data, sol),
        on_grid(group),
        1 <= d <= 9,
        present(sol, group, d),
    ensures
        h < 81,
        sol[h as int] == d,
        holders(data, group, digit_mask(d), group.len()).contains(h),
{
    let k = choose|k: int| 0 <= k < group.len() && sol[#[trigger] group[k] as int] == d;
    let h = group[k];
    assert(h < 81);
    assert(has_digit(data[h as int], sol[h as int]));
    lemma_holders_has(data, group, digit_mask(d), group.len(), k);
    h
}

/// What one digit does in one group leaves every cell the digit of the
/// completed grid, where the completed grid fitted the grid when the pass over
/// the group began and fits it now.
pub proof fn lemma_omission_digit_sound(
    sol: Seq<u16>,
    start: Seq<u16>,
    data: Seq<u16>,
    group: Seq<usize>,
    t: EntityType,
    d: u16,
)
    requires
        is_solution(sol),
        admits(start, sol),
        admits(data, sol),
        on_grid(group),
        1 <= d <= 9,
        present(sol, group, d),
    ensures
        admits(omission_digit(start, data, group, t, d), sol),
{
    let mask = digit_mask(d);
    let found = holders(start, group, mask, group.len());
    let after = omission_digit(start, data, group, t, d);
    let h = lemma_holder_of_digit(sol, start, group, d);
    let at = choose|j: int| 0 <= j < found.len() && found[j] == h;
    lemma_holders(start, group, mask, group.len());
    if found.len() == 1 {
        assert(found[0] == h);
        if !fixed(start[h as int]) {
            lemma_single_bit((d - 1) as u16);
            assert forall|i: int| 0 <= i < 81 implies has_digit(#[trigger] after[i], sol[i]) by {
                if i != h {
                    assert(after[i] == data[i]);
                }
            }
        }
    } else if found.len() == 2 || found.len() == 3 {
        match crossing(found, t) {
            Some(second) => {
                let targets = unit_cells(found[0], second);
                assert(same_unit(found, second));
                assert(unit_of(found[at], second) == unit_of(found[0], second));
                assert forall|k: int| 0 <= k < 9 implies #[trigger] targets[k] < 81 by {
                    lemma_unit_cells_share(found[0], second, k);
                }
                lemma_strike(data, targets, found, mask, 9);
                assert forall|i: int| 0 <= i < 81 implies has_digit(#[trigger] after[i], sol[i]) by {
                    let hit = exists|k: int|
                        0 <= k < 9 && targets[k] == i && !found.contains(targets[k]);
                    if hit {
                        let k = choose|k: int|
                            0 <= k < 9 && targets[k] == i && !found.contains(targets[k]);
                        lemma_unit_cells_share(found[0], second, k);
                        assert(unit_of(i as usize, second) == unit_of(h, second));
                        assert(shares_unit(i, h as int));
                        lemma_differ(sol, i, h as int);
                        lemma_digit_masks(data[i], sol[i], d);
                        let x = data[i];
                        let own = digit_mask(sol[i]);
                        assert((x & !mask) & own != 0) by (bit_vector)
                            requires
                                x & own != 0,
                                own & mask == 0,
                        ;
                    } else {
                        assert(after[i] == data[i]);
                    }
                }
            },
            None => {},
        }
    }
}

/// The digits one to `d` in one group leave every cell the digit of the
/// completed grid.
pub proof fn lemma_omission_group_sound(
    sol: Seq<u16>,
    data: Seq<u16>,
    group: Seq<usize>,
    t: EntityType,
    d: nat,
)
    requires
        is_solution(sol),
        admits(data, sol),
        on_grid(group),
        d <= 9,
        forall|e: u16| 1 <= e <= 9 ==> #[trigger] present(sol, group, e),
    ensures
        admits(omission_group(data, group, t, d), sol),
    decreases d,
{
    if d > 0 {
        lemma_omission_group_sound(sol, data, group, t, (d - 1) as nat);
        lemma_omission_digit_sound(
            sol,
            data,
            omission_group(data, group, t, (d - 1) as nat),
            group,
            t,
            d as u16,
        );
    }
}

/// A sweep of omission leaves every cell the digit of the completed grid.
pub proof fn lemma_omission_sweep_sound(sol: Seq<u16>, data: Seq<u16>, n: nat)
    requires
        is_solution(sol),
        admits(data, sol),
        n <= 9,
    ensures
        admits(omission_sweep(data, n), sol),
    decreases n,
{
    if n > 0 {
        let i = (n - 1) as int;
        lemma_omission_sweep_sound(sol, data, (n - 1) as nat);
        let before = omission_sweep(data, (n - 1) as nat);
        let rows = omission_group(before, row_cells(i * 9), EntityType::Row, 9);
        let cols = omission_group(rows, col_cells(i), EntityType::Col, 9);
        assert forall|k: int| 0 <= k < 9 implies #[trigger] block_cells(i / 3, i % 3)[k] < 81 by {
            lemma_block_of_block_cells(i / 3, i % 3, k);
        }
        assert(forall|e: u16| 1 <= e <= 9 ==> #[trigger] present(sol, row_cells(i * 9), e));
        assert(forall|e: u16| 1 <= e <= 9 ==> #[trigger] present(sol, col_cells(i), e));
        assert(forall|e: u16| 1 <= e <= 9 ==> #[trigger] present(sol, block_cells(i / 3, i % 3), e));
        lemma_omission_group_sound(sol, before, row_cells(i * 9), EntityType::Row, 9);
        lemma_omission_group_sound(sol, rows, col_cells(i), EntityType::Col, 9);
        lemma_omission_group_sound(sol, cols, block_cells(i / 3, i % 3), EntityType::Box, 9);
    }
}

/// A grid that a completed grid fits is valid.
pub proof fn lemma_admits_valid(sol: Seq<u16>, data: Seq<u16>)
    requires
        is_solution(sol),
        admits(data, sol),
    ensures
        valid(data),
{
    assert forall|i: int| 0 <= i < 81 implies #[trigger] data[i] != 0 by {
        lemma_digit_masks(data[i], sol[i], 1);
    }
    assert forall|n: int| 0 <= n < 81 implies (#[trigger] lacking(
        data,
        n / 9,
        (n % 9 + 1) as u16,
    )).is_none() by {
        let i = n / 9;
        let d = (n % 9 + 1) as u16;
        assert forall|k: int| 0 <= k < 9 implies #[trigger] block_cells(i / 3, i % 3)[k] < 81 by {
            lemma_block_of_block_cells(i / 3, i % 3, k);
        }
        assert(present(sol, row_cells(i * 9), d));
        assert(present(sol, col_cells(i), d));
        assert(present(sol, block_cells(i / 3, i % 3), d));
        let a = lemma_holder_of_digit(sol, data, row_cells(i * 9), d);
        let b = lemma_holder_of_digit(sol, data, col_cells(i), d);
        let c = lemma_holder_of_digit(sol, data, block_cells(i / 3, i % 3), d);
    }
}

/// One sweep over a grid that a completed grid fits does not fail, and the
/// completed grid fits the result. So a grid that can be completed stays
/// valid, sweep after sweep.
pub proof fn lemma_solve_step_sound(sol: Seq<u16>, data: Seq<u16>)
    requires
        is_solution(sol),
        admits(data, sol),
    ensures
        solve_step(data).1.is_none(),
        admits(solve_step(data).0, sol),
        valid(data),
        valid(solve_step(data).0),
{
    lemma_basic_sweep_sound(sol, data, 81);
    lemma_omission_sweep_sound(sol, basic_sweep(data, 81).0, 9);
    lemma_admits_valid(sol, data);
    lemma_admits_valid(sol, solve_step(data).0);
}

/// The grid after `n` sweeps, one after the other.
pub open spec fn sweeps(data: Seq<u16>, n: nat) -> Seq<u16>
    decreases n,
{
    if n == 0 {
        data
    } else {
        solve_step(sweeps(data, (n - 1) as nat)).0
    }
}

/// However many sweeps a grid that can be completed goes through, to the
/// point where a sweep finds nothing more or further, no sweep fails, the
/// completed grid still fits, and the grid is valid.
pub proof fn lemma_sweeps_sound(sol: Seq<u16>, data: Seq<u16>, n: nat)
    requires
        is_solution(sol),
        admits(data, sol),
    ensures
        admits(sweeps(data, n), sol),
        valid(sweeps(data, n)),
        solve_step(sweeps(data, n)).1.is_none(),
    decreases n,
{
    if n > 0 {
        lemma_sweeps_sound(sol, data, (n - 1) as nat);
        lemma_solve_step_sound(sol, sweeps(data, (n - 1) as nat));
    }
    lemma_solve_step_sound(sol, sweeps(data, n));
}

/// Sweeps that each take a candidate come to an end: there are no more of
/// them than the grid had candidates.
pub proof fn lemma_sweeps_end(data: Seq<u16>, n: nat)
    requires
        data.len() == 81,
        forall|k: nat| k < n ==> removed_by_step(#[trigger] sweeps(data, k)) > 0,
    ensures
        sweeps(data, n).len() == 81,
        n + total_bits(sweeps(data, n), 81) <= total_bits(data, 81),
        n <= 1296,
    decreases n,
{
    lemma_total_bits_bound(data, 81);
    if n > 0 {
        lemma_sweeps_end(data, (n - 1) as nat);
        let before = sweeps(data, (n - 1) as nat);
        lemma_solve_step_narrows(before);
        assert(removed_by_step(before) > 0);
    }
}

} // verus!
