//! The one way in which a cell loses candidates.

use crate::entry_num::{
    bit_count, count_bits, lemma_bit_count_unfold, lemma_within_count, without, EntryNum,
};
use crate::sudoku::{lemma_narrowed_update, lemma_total_bits_update, narrowed, total_bits, Sudoku};
use vstd::prelude::*;

verus! {

impl Sudoku {
    /// Takes the candidates `to_remove` from cell `index` and returns how many
    /// the cell lost.
    pub fn remove_possibilities(
        data: &mut [EntryNum; 81],
        index: usize,
        to_remove: EntryNum,
    ) -> (r: u32)
        requires
            index < 81,
        ensures
            final(data)@ == old(data)@.update(
                index as int,
                without(old(data)@[index as int], to_remove),
            ),
            r == bit_count(old(data)@[index as int]) - bit_count(final(data)@[index as int]),
            r + total_bits(final(data)@, 81) == total_bits(old(data)@, 81),
            narrowed(old(data)@, final(data)@),
            r <= 16,
    {
        let prev: EntryNum = data[index];
        let next: EntryNum = (prev ^ to_remove) & prev;
        proof {
            assert((prev ^ to_remove) & prev == prev & !to_remove) by (bit_vector);
            assert((prev & !to_remove) & !prev == 0) by (bit_vector);
            lemma_within_count(next, prev);
            lemma_bit_count_unfold(prev);
            lemma_total_bits_update(data@, index as int, next, 81);
            lemma_narrowed_update(data@, index as int, next);
        }
        data[index] = next;
        assert(data@ =~= old(data)@.update(index as int, next));
        count_bits(prev) - count_bits(next)
    }
}

} // verus!
