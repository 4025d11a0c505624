//! The grid: eighty-one candidate masks, row after row.

use crate::entry_num::{bit_count, lemma_within_count, lemma_within_trans, within, EntryNum};
use vstd::prelude::*;

verus! {

/// A Sudoku grid. Cell `row * 9 + column` holds the candidates of that cell.
pub struct Sudoku {
    pub data: [EntryNum; 81],
}

/// Which kind of group a set of nine cells is.
#[derive(Clone, Copy, Debug, PartialEq, Eq, Structural)]
pub enum EntityType {
    Box,
    Col,
    Row,
}

impl View for Sudoku {
    type V = Seq<u16>;

    open spec fn view(&self) -> Seq<u16> {
        self.data@
    }
}

/// The candidates left in the first `n` cells, counted over all of them.
pub open spec fn total_bits(data: Seq<u16>, n: nat) -> nat
    decreases n,
{
    if n == 0 {
        0
    } else {
        total_bits(data, (n - 1) as nat) + bit_count(data[n - 1])
    }
}

/// No cell of `after` has a candidate that it had not in `before`.
pub open spec fn narrowed(before: Seq<u16>, after: Seq<u16>) -> bool {
    &&& before.len() == after.len()
    &&& forall|i: int| 0 <= i < before.len() ==> within(#[trigger] after[i], before[i])
}

/// A grid left as it is counts as narrowed.
pub proof fn lemma_narrowed_refl(data: Seq<u16>)
    ensures
        narrowed(data, data),
{
    assert forall|j: int| 0 <= j < data.len() implies within(data[j], data[j]) by {
        let x = data[j];
        assert(x & !x == 0) by (bit_vector);
    }
}

/// A grid is narrowed when one cell keeps some of its candidates and the
/// others stay.
pub proof fn lemma_narrowed_update(data: Seq<u16>, i: int, v: u16)
    requires
        0 <= i < data.len(),
        within(v, data[i]),
    ensures
        narrowed(data, data.update(i, v)),
{
    lemma_narrowed_refl(data);
}

/// Narrowing twice is narrowing.
pub proof fn lemma_narrowed_trans(a: Seq<u16>, b: Seq<u16>, c: Seq<u16>)
    requires
        narrowed(a, b),
        narrowed(b, c),
    ensures
        narrowed(a, c),
{
    assert forall|i: int| 0 <= i < a.len() implies within(#[trigger] c[i], a[i]) by {
        assert(within(b[i], a[i]));
        lemma_within_trans(c[i], b[i], a[i]);
    }
}

/// Replacing the candidates of one cell changes the total by the difference.
pub proof fn lemma_total_bits_update(data: Seq<u16>, i: int, v: u16, n: nat)
    requires
        0 <= i < data.len(),
        n <= data.len(),
    ensures
        total_bits(data.update(i, v), n) + (if i < n { bit_count(data[i]) } else { 0 })
            == total_bits(data, n) + (if i < n { bit_count(v) } else { 0 }),
    decreases n,
{
    if n > 0 {
        lemma_total_bits_update(data, i, v, (n - 1) as nat);
    }
}

/// No cell has more than sixteen candidates.
pub proof fn lemma_total_bits_bound(data: Seq<u16>, n: nat)
    ensures
        total_bits(data, n) <= 16 * n,
    decreases n,
{
    if n > 0 {
        lemma_total_bits_bound(data, (n - 1) as nat);
        crate::entry_num::lemma_bit_count_unfold(data[n - 1]);
    }
}

/// A narrowed grid has no more candidates, cell by cell and in total; with as
/// many in total it is the same grid.
pub proof fn lemma_narrowed_total(before: Seq<u16>, after: Seq<u16>, n: nat)
    requires
        narrowed(before, after),
        n <= before.len(),
    ensures
        total_bits(after, n) <= total_bits(before, n),
        forall|i: int| 0 <= i < before.len() ==> bit_count(#[trigger] after[i]) <= bit_count(before[i]),
        total_bits(after, n) == total_bits(before, n) ==> forall|i: int|
            0 <= i < n ==> #[trigger] after[i] == before[i],
    decreases n,
{
    assert forall|i: int| 0 <= i < before.len() implies bit_count(#[trigger] after[i]) <= bit_count(
        before[i],
    ) by {
        lemma_within_count(after[i], before[i]);
    }
    if n > 0 {
        lemma_narrowed_total(before, after, (n - 1) as nat);
        lemma_within_count(after[n - 1], before[n - 1]);
    }
}

} // verus!
