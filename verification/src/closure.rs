//! Naked subsets: cells of a group that share as many candidates as they are cells.

use crate::entry_num::{
    bit_count, count_bits, has_bit, lemma_bit_count_unfold, lemma_union_count, lemma_within_trans,
    within, without, EntryNum,
};
use crate::sudoku::Sudoku;
use vstd::prelude::*;

verus! {

/// More cells lie within a set of digits than the set has digits.
#[derive(Clone, Copy, Debug, PartialEq, Eq, Structural)]
pub struct Crowded {
    /// The digits that are too few.
    pub digits: EntryNum,
    /// How many cells have no candidate but these.
    pub cells: usize,
}

/// How growing one seed ended.
#[derive(Clone, Copy, Debug, PartialEq, Eq, Structural)]
pub enum Growth {
    /// As many cells lie within these digits as there are digits.
    Closed(EntryNum),
    /// The seed grew to the whole of the candidates, or could grow no further.
    Whole,
    /// More cells lie within these digits than there are digits.
    Crowded(EntryNum),
}

/// How many of the first `n` masks lie within `cur`.
pub open spec fn covered(sets: Seq<u16>, cur: u16, n: nat) -> nat
    decreases n,
{
    if n == 0 {
        0
    } else {
        covered(sets, cur, (n - 1) as nat) + if within(sets[n - 1], cur) {
            1nat
        } else {
            0nat
        }
    }
}

/// Among the first `n` masks, the smallest non-empty part that lies outside
/// `cur`: the first of those with the fewest bits, or 0 if every mask lies
/// within `cur`.
pub open spec fn smallest_rest(sets: Seq<u16>, cur: u16, n: nat) -> u16
    decreases n,
{
    if n == 0 {
        0
    } else {
        let best = smallest_rest(sets, cur, (n - 1) as nat);
        let rest = without(sets[n - 1], cur);
        if rest != 0 && (best == 0 || bit_count(rest) < bit_count(best)) {
            rest
        } else {
            best
        }
    }
}

/// The smallest rest is empty or lies wholly outside `cur`.
pub proof fn lemma_smallest_rest_outside(sets: Seq<u16>, cur: u16, n: nat)
    ensures
        smallest_rest(sets, cur, n) & cur == 0,
        smallest_rest(sets, cur, n) != 0 ==> !within(smallest_rest(sets, cur, n), cur),
    decreases n,
{
    if n == 0 {
        assert(0u16 & cur == 0) by (bit_vector);
    } else {
        lemma_smallest_rest_outside(sets, cur, (n - 1) as nat);
        let x = sets[n - 1];
        assert((x & !cur) & cur == 0) by (bit_vector);
    }
    let r = smallest_rest(sets, cur, n);
    assert(r != 0 ==> r & !cur != 0) by (bit_vector)
        requires
            r & cur == 0,
    ;
}

/// `rest` is what mask `j` has outside `cur`; none of the first `n` masks
/// has fewer digits outside `cur`, but for those within it, and every such mask
/// before `j` has more.
pub open spec fn least_rest_at(sets: Seq<u16>, cur: u16, n: nat, rest: u16, j: int) -> bool {
    &&& 0 <= j < n
    &&& rest == without(sets[j], cur)
    &&& forall|i: int|
        0 <= i < n && !within(#[trigger] sets[i], cur) ==> bit_count(rest) <= bit_count(
            without(sets[i], cur),
        )
    &&& forall|i: int|
        0 <= i < j && !within(#[trigger] sets[i], cur) ==> bit_count(rest) < bit_count(
            without(sets[i], cur),
        )
}

/// The smallest rest is empty only where every mask lies within `cur`.
/// Else it is the least of what the masks have outside `cur`, the first of
/// those that are equal in size.
pub proof fn lemma_smallest_rest_least(sets: Seq<u16>, cur: u16, n: nat)
    requires
        n <= sets.len(),
    ensures
        smallest_rest(sets, cur, n) == 0 <==> forall|i: int|
            0 <= i < n ==> within(#[trigger] sets[i], cur),
        smallest_rest(sets, cur, n) != 0 ==> exists|j: int| #[trigger]
            least_rest_at(sets, cur, n, smallest_rest(sets, cur, n), j),
    decreases n,
{
    if n > 0 {
        lemma_smallest_rest_least(sets, cur, (n - 1) as nat);
        let best = smallest_rest(sets, cur, (n - 1) as nat);
        let now = smallest_rest(sets, cur, n);
        let rest = without(sets[n - 1], cur);
        if rest != 0 && (best == 0 || bit_count(rest) < bit_count(best)) {
            if best != 0 {
                let j = choose|j: int| #[trigger] least_rest_at(sets, cur, (n - 1) as nat, best, j);
                assert(least_rest_at(sets, cur, (n - 1) as nat, best, j));
            }
            assert(least_rest_at(sets, cur, n, now, n - 1));
        } else if best != 0 {
            let j = choose|j: int| #[trigger] least_rest_at(sets, cur, (n - 1) as nat, best, j);
            assert(least_rest_at(sets, cur, n, now, j));
        }
    }
}

/// Grows `cur` by the smallest rest until as many masks lie within it as it
/// has bits, or more, or it has become `all`.
pub open spec fn grow(sets: Seq<u16>, all: u16, cur: u16) -> Growth
    decreases 16 - bit_count(cur),
    via grow_decreases
{
    if cur == all {
        Growth::Whole
    } else if covered(sets, cur, sets.len()) == bit_count(cur) {
        Growth::Closed(cur)
    } else if covered(sets, cur, sets.len()) > bit_count(cur) {
        Growth::Crowded(cur)
    } else if smallest_rest(sets, cur, sets.len()) == 0 {
        Growth::Whole
    } else {
        grow(sets, all, cur | smallest_rest(sets, cur, sets.len()))
    }
}

#[via_fn]
proof fn grow_decreases(sets: Seq<u16>, all: u16, cur: u16) {
    let rest = smallest_rest(sets, cur, sets.len());
    lemma_smallest_rest_outside(sets, cur, sets.len());
    lemma_union_count(cur, rest);
    lemma_bit_count_unfold(cur | rest);
}

/// Growing a seed ends at digits that hold the seed and are not `all`, with
/// as many masks within them as there are digits; a failure, at digits with
/// more masks within them.
pub proof fn lemma_grow_ends(sets: Seq<u16>, all: u16, cur: u16)
    ensures
        match grow(sets, all, cur) {
            Growth::Closed(c) => {
                &&& covered(sets, c, sets.len()) == bit_count(c)
                &&& within(cur, c)
                &&& c != all
            },
            Growth::Crowded(c) => covered(sets, c, sets.len()) > bit_count(c) && within(cur, c),
            Growth::Whole => true,
        },
    decreases 16 - bit_count(cur),
{
    let rest = smallest_rest(sets, cur, sets.len());
    assert(cur & !cur == 0) by (bit_vector);
    if cur != all && covered(sets, cur, sets.len()) < bit_count(cur) && rest != 0 {
        lemma_smallest_rest_outside(sets, cur, sets.len());
        lemma_union_count(cur, rest);
        lemma_bit_count_unfold(cur | rest);
        lemma_grow_ends(sets, all, cur | rest);
        match grow(sets, all, cur | rest) {
            Growth::Closed(c) => {
                lemma_within_trans(cur, cur | rest, c);
            },
            Growth::Crowded(c) => {
                lemma_within_trans(cur, cur | rest, c);
            },
            Growth::Whole => {},
        }
    }
}

/// The digits locked up by closed subsets, found from the first `n` masks as
/// seeds in turn. A seed that already lies within what was found is passed over.
pub open spec fn closure(sets: Seq<u16>, all: u16, n: nat) -> Result<u16, Crowded>
    decreases n,
{
    if n == 0 {
        Ok(0)
    } else {
        match closure(sets, all, (n - 1) as nat) {
            Err(e) => Err(e),
            Ok(res) => if within(sets[n - 1], res) {
                Ok(res)
            } else {
                match grow(sets, all, sets[n - 1]) {
                    Growth::Closed(c) => Ok(res | c),
                    Growth::Whole => Ok(res),
                    Growth::Crowded(c) => Err(
                        Crowded { digits: c, cells: covered(sets, c, sets.len()) as usize },
                    ),
                }
            },
        }
    }
}

/// As many masks lie within the digits `c` as `c` has digits, and `c` is
/// not `all`: the digits of `c` belong to those masks.
pub open spec fn locked(sets: Seq<u16>, all: u16, c: u16) -> bool {
    covered(sets, c, sets.len()) == bit_count(c) && c != all
}

/// Every digit that the closure gives belongs to locked digits among those
/// it gives. A failure names digits with more masks within them than there are
/// digits.
pub proof fn lemma_closure_locked(sets: Seq<u16>, all: u16, n: nat)
    requires
        n <= sets.len(),
    ensures
        match closure(sets, all, n) {
            Ok(res) => forall|k: u16|
                k < 16 && #[trigger] has_bit(res, k) ==> exists|c: u16|
                    #[trigger] locked(sets, all, c) && within(c, res) && has_bit(c, k),
            Err(e) => covered(sets, e.digits, sets.len()) > bit_count(e.digits),
        },
    decreases n,
{
    if n == 0 {
        assert(forall|k: u16| k < 16 ==> !#[trigger] has_bit(0u16, k)) by (bit_vector);
    } else {
        lemma_closure_locked(sets, all, (n - 1) as nat);
        match closure(sets, all, (n - 1) as nat) {
            Err(e) => {},
            Ok(res) => {
                if !within(sets[n - 1], res) {
                    lemma_grow_ends(sets, all, sets[n - 1]);
                    match grow(sets, all, sets[n - 1]) {
                        Growth::Closed(found) => {
                            let now: u16 = res | found;
                            lemma_union_count(res, found);
                            assert(forall|k: u16|
                                k < 16 && #[trigger] has_bit(now, k) ==> has_bit(res, k) || has_bit(
                                    found,
                                    k,
                                )) by (bit_vector)
                                requires
                                    now == res | found,
                            ;
                            assert forall|k: u16| k < 16 && #[trigger] has_bit(now, k) implies exists|
                                c: u16,
                            | #[trigger] locked(sets, all, c) && within(c, now) && has_bit(c, k) by {
                                if has_bit(res, k) {
                                    let c = choose|c: u16| #[trigger]
                                        locked(sets, all, c) && within(c, res) && has_bit(c, k);
                                    lemma_within_trans(c, res, now);
                                    assert(locked(sets, all, c) && within(c, now) && has_bit(c, k));
                                } else {
                                    assert(locked(sets, all, found) && within(found, now) && has_bit(
                                        found,
                                        k,
                                    ));
                                }
                            }
                        },
                        Growth::Whole => {},
                        Growth::Crowded(c) => {},
                    }
                }
            },
        }
    }
}

impl Sudoku {
    /// Counts the masks that lie within `cur`.
    pub fn count_covered(sets: &Vec<EntryNum>, cur: EntryNum) -> (r: usize)
        ensures
            r == covered(sets@, cur, sets@.len()),
    {
        let mut r: usize = 0;
        let mut i: usize = 0;
        while i < sets.len()
            invariant
                i <= sets.len(),
                r <= i,
                r == covered(sets@, cur, i as nat),
            decreases sets.len() - i,
        {
            if sets[i] & !cur == 0 {
                r = r + 1;
            }
            i = i + 1;
        }
        r
    }

    /// The smallest non-empty part of a mask that lies outside `cur`.
    pub fn smallest_remainder(sets: &Vec<EntryNum>, cur: EntryNum) -> (r: EntryNum)
        ensures
            r == smallest_rest(sets@, cur, sets@.len()),
    {
        let mut best: EntryNum = 0;
        let mut i: usize = 0;
        while i < sets.len()
            invariant
                i <= sets.len(),
                best == smallest_rest(sets@, cur, i as nat),
            decreases sets.len() - i,
        {
            let rest: EntryNum = sets[i] & !cur;
            if rest != 0 && (best == 0 || count_bits(rest) < count_bits(best)) {
                best = rest;
            }
            i = i + 1;
        }
        best
    }

    /// Grows one seed to a closed subset, if there is one short of `all_pots`.
    pub fn grow_seed(sets: &Vec<EntryNum>, all_pots: EntryNum, seed: EntryNum) -> (r: Growth)
        ensures
            r == grow(sets@, all_pots, seed),
    {
        let mut cur: EntryNum = seed;
        loop
            invariant
                grow(sets@, all_pots, cur) == grow(sets@, all_pots, seed),
            decreases 16 - bit_count(cur),
        {
            if cur == all_pots {
                return Growth::Whole;
            }
            let counted = Sudoku::count_covered(sets, cur);
            let size: u32 = count_bits(cur);
            if counted == size as usize {
                return Growth::Closed(cur);
            } else if counted > size as usize {
                return Growth::Crowded(cur);
            }
            let rest = Sudoku::smallest_remainder(sets, cur);
            if rest == 0 {
                return Growth::Whole;
            }
            proof {
                lemma_smallest_rest_outside(sets@, cur, sets@.len());
                lemma_union_count(cur, rest);
                lemma_bit_count_unfold(cur | rest);
            }
            cur = cur | rest;
        }
    }

    /// The digits that closed subsets among `sets` lock up, each subset short
    /// of `all_pots`; fails where more cells lie within a set of digits than it has
    /// digits.
    pub fn get_sets(sets: &Vec<EntryNum>, all_pots: EntryNum) -> (r: Result<EntryNum, Crowded>)
        ensures
            r == closure(sets@, all_pots, sets@.len()),
    {
        let mut res: EntryNum = 0;
        let mut i: usize = 0;
        while i < sets.len()
            invariant
                i <= sets.len(),
                closure(sets@, all_pots, i as nat) == Ok::<u16, Crowded>(res),
            decreases sets.len() - i,
        {
            let seed: EntryNum = sets[i];
            if seed & !res != 0 {
                match Sudoku::grow_seed(sets, all_pots, seed) {
                    Growth::Closed(c) => {
                        res = res | c;
                    },
                    Growth::Whole => {},
                    Growth::Crowded(c) => {
                        let cells = Sudoku::count_covered(sets, c);
                        proof {
                            lemma_closure_stays_failed(sets@, all_pots, (i + 1) as nat, sets@.len());
                        }
                        return Err(Crowded { digits: c, cells });
                    },
                }
            }
            i = i + 1;
        }
        Ok(res)
    }
}

/// Once a seed has failed, the closure over more seeds fails in the same way.
pub proof fn lemma_closure_stays_failed(sets: Seq<u16>, all: u16, n: nat, m: nat)
    requires
        n <= m,
        closure(sets, all, n).is_err(),
    ensures
        closure(sets, all, m) == closure(sets, all, n),
    decreases m,
{
    if n < m {
        lemma_closure_stays_failed(sets, all, n, (m - 1) as nat);
    }
}

} // verus!
