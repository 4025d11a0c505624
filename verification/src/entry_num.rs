//! Candidate masks: one bit per digit, bit `d - 1` standing for digit `d`.

use vstd::prelude::*;

verus! {

/// The candidates of one cell.
pub type EntryNum = u16;

/// The masks of the single digits, and the mask of all nine.
pub const ONE: EntryNum = 0b1;
pub const TWO: EntryNum = 0b10;
pub const THREE: EntryNum = 0b100;
pub const FOUR: EntryNum = 0b1000;
pub const FIVE: EntryNum = 0b10000;
pub const SIX: EntryNum = 0b100000;
pub const SEVEN: EntryNum = 0b1000000;
pub const EIGHT: EntryNum = 0b10000000;
pub const NINE: EntryNum = 0b100000000;
pub const ALL: EntryNum = 0b111111111;

/// The masks of the digits one to nine, in this order.
pub const NUMS: [EntryNum; 9] = [ONE, TWO, THREE, FOUR, FIVE, SIX, SEVEN, EIGHT, NINE];

/// Whether bit `k` of `m` is set.
pub open spec fn has_bit(m: u16, k: u16) -> bool {
    m & (1u16 << k) != 0
}

/// Bit `k` of `m` as a number.
pub open spec fn bit_val(m: u16, k: u16) -> nat {
    if has_bit(m, k) {
        1
    } else {
        0
    }
}

/// The number of set bits of `m` among the bits below `k`.
pub open spec fn bits_below(m: u16, k: nat) -> nat
    decreases k,
{
    if k == 0 {
        0
    } else {
        bits_below(m, (k - 1) as nat) + bit_val(m, (k - 1) as u16)
    }
}

/// The number of set bits of `m`.
pub open spec fn bit_count(m: u16) -> nat {
    bits_below(m, 16)
}

/// The mask that holds digit `d` alone.
pub open spec fn digit_mask(d: u16) -> u16
    recommends
        1 <= d <= 9,
{
    1u16 << ((d - 1) as u16)
}

/// Whether digit `d` is a candidate in `m`.
pub open spec fn has_digit(m: u16, d: u16) -> bool {
    1 <= d <= 9 && has_bit(m, (d - 1) as u16)
}

/// A mask is fixed when exactly one bit is set.
pub open spec fn fixed(m: u16) -> bool {
    bit_count(m) == 1
}

/// The candidate digits of `m` that are at most `d`, ascending.
pub open spec fn positions_upto(m: u16, d: nat) -> Seq<u16>
    decreases d,
{
    if d == 0 {
        Seq::empty()
    } else if has_digit(m, d as u16) {
        positions_upto(m, (d - 1) as nat).push(d as u16)
    } else {
        positions_upto(m, (d - 1) as nat)
    }
}

/// The candidate digits of `m`, ascending.
pub open spec fn positions(m: u16) -> Seq<u16> {
    positions_upto(m, 9)
}

/// `a` without the bits of `b`.
pub open spec fn without(a: u16, b: u16) -> u16 {
    a & !b
}

/// Every bit of `a` is a bit of `b`.
pub open spec fn within(a: u16, b: u16) -> bool {
    a & !b == 0
}

/// The number of set bits, written out bit by bit.
pub proof fn lemma_bit_count_unfold(m: u16)
    ensures
        bit_count(m) == bits_below(m, 9) + bit_val(m, 9) + bit_val(m, 10) + bit_val(m, 11)
            + bit_val(m, 12) + bit_val(m, 13) + bit_val(m, 14) + bit_val(m, 15),
        bits_below(m, 9) == bit_val(m, 0) + bit_val(m, 1) + bit_val(m, 2) + bit_val(m, 3)
            + bit_val(m, 4) + bit_val(m, 5) + bit_val(m, 6) + bit_val(m, 7) + bit_val(m, 8),
        bit_count(m) <= 16,
{
    reveal_with_fuel(bits_below, 17);
}

/// What lies within a mask lies within what that mask lies within.
pub proof fn lemma_within_trans(a: u16, b: u16, c: u16)
    requires
        within(a, b),
        within(b, c),
    ensures
        within(a, c),
{
    assert(a & !c == 0) by (bit_vector)
        requires
            a & !b == 0,
            b & !c == 0,
    ;
}

/// A mask within another has no more bits, and as many only if the two are equal.
pub proof fn lemma_within_count(a: u16, b: u16)
    requires
        within(a, b),
    ensures
        bit_count(a) <= bit_count(b),
        bit_count(a) == bit_count(b) ==> a == b,
{
    lemma_bit_count_unfold(a);
    lemma_bit_count_unfold(b);
    lemma_within_bits(a, b);
    assert(bit_val(a, 0) <= bit_val(b, 0));
    assert(bit_val(a, 1) <= bit_val(b, 1));
    assert(bit_val(a, 2) <= bit_val(b, 2));
    assert(bit_val(a, 3) <= bit_val(b, 3));
    assert(bit_val(a, 4) <= bit_val(b, 4));
    assert(bit_val(a, 5) <= bit_val(b, 5));
    assert(bit_val(a, 6) <= bit_val(b, 6));
    assert(bit_val(a, 7) <= bit_val(b, 7));
    assert(bit_val(a, 8) <= bit_val(b, 8));
    assert(bit_val(a, 9) <= bit_val(b, 9));
    assert(bit_val(a, 10) <= bit_val(b, 10));
    assert(bit_val(a, 11) <= bit_val(b, 11));
    assert(bit_val(a, 12) <= bit_val(b, 12));
    assert(bit_val(a, 13) <= bit_val(b, 13));
    assert(bit_val(a, 14) <= bit_val(b, 14));
    assert(bit_val(a, 15) <= bit_val(b, 15));
    if bit_count(a) == bit_count(b) {
        lemma_same_bits(a, b);
    }
}

proof fn lemma_within_bits(a: u16, b: u16)
    by (bit_vector)
    requires
        a & !b == 0,
    ensures
        has_bit(a, 0) ==> has_bit(b, 0),
        has_bit(a, 1) ==> has_bit(b, 1),
        has_bit(a, 2) ==> has_bit(b, 2),
        has_bit(a, 3) ==> has_bit(b, 3),
        has_bit(a, 4) ==> has_bit(b, 4),
        has_bit(a, 5) ==> has_bit(b, 5),
        has_bit(a, 6) ==> has_bit(b, 6),
        has_bit(a, 7) ==> has_bit(b, 7),
        has_bit(a, 8) ==> has_bit(b, 8),
        has_bit(a, 9) ==> has_bit(b, 9),
        has_bit(a, 10) ==> has_bit(b, 10),
        has_bit(a, 11) ==> has_bit(b, 11),
        has_bit(a, 12) ==> has_bit(b, 12),
        has_bit(a, 13) ==> has_bit(b, 13),
        has_bit(a, 14) ==> has_bit(b, 14),
        has_bit(a, 15) ==> has_bit(b, 15),
{
}

proof fn lemma_same_bits(a: u16, b: u16)
    by (bit_vector)
    requires
        has_bit(a, 0) <==> has_bit(b, 0),
        has_bit(a, 1) <==> has_bit(b, 1),
        has_bit(a, 2) <==> has_bit(b, 2),
        has_bit(a, 3) <==> has_bit(b, 3),
        has_bit(a, 4) <==> has_bit(b, 4),
        has_bit(a, 5) <==> has_bit(b, 5),
        has_bit(a, 6) <==> has_bit(b, 6),
        has_bit(a, 7) <==> has_bit(b, 7),
        has_bit(a, 8) <==> has_bit(b, 8),
        has_bit(a, 9) <==> has_bit(b, 9),
        has_bit(a, 10) <==> has_bit(b, 10),
        has_bit(a, 11) <==> has_bit(b, 11),
        has_bit(a, 12) <==> has_bit(b, 12),
        has_bit(a, 13) <==> has_bit(b, 13),
        has_bit(a, 14) <==> has_bit(b, 14),
        has_bit(a, 15) <==> has_bit(b, 15),
    ensures
        a == b,
{
}

/// Counts the set bits of a mask.
pub fn count_bits(m: u16) -> (r: u32)
    ensures
        r == bit_count(m),
{
    let mut r: u32 = 0;
    let mut k: u16 = 0;
    while k < 16
        invariant
            k <= 16,
            r == bits_below(m, k as nat),
            r <= k,
        decreases 16 - k,
    {
        if m & (1u16 << k) != 0 {
            r = r + 1;
        }
        k = k + 1;
    }
    r
}

/// The mask with bit `k` alone has that bit and no other, and is fixed.
pub proof fn lemma_single_bit(k: u16)
    requires
        k < 16,
    ensures
        forall|j: u16| j < 16 ==> (#[trigger] has_bit(1u16 << k, j) <==> j == k),
        fixed(1u16 << k),
        1u16 << k != 0,
        k < 9 ==> 1u16 << k <= ALL,
{
    assert(forall|j: u16| j < 16 ==> (#[trigger] has_bit(1u16 << k, j) <==> j == k)) by (bit_vector)
        requires
            k < 16,
    ;
    assert(1u16 << k != 0) by (bit_vector)
        requires
            k < 16,
    ;
    assert(k < 9 ==> 1u16 << k <= 0b111111111) by (bit_vector);
    lemma_bit_count_unfold(1u16 << k);
}

/// The bits that `a | b` has are those of `a` and those of `b`; a mask that
/// gains a bit counts more.
pub proof fn lemma_union_count(a: u16, b: u16)
    ensures
        bit_count(a) <= bit_count(a | b),
        !within(b, a) ==> bit_count(a) < bit_count(a | b),
        within(a, a | b),
        within(b, a | b),
{
    assert(a & !(a | b) == 0 && b & !(a | b) == 0) by (bit_vector);
    lemma_within_count(a, a | b);
    if !within(b, a) {
        if bit_count(a) == bit_count(a | b) {
            assert(false) by (bit_vector)
                requires
                    a == a | b,
                    b & !a != 0,
            ;
        }
    }
}

/// Turns a digit into the mask that holds it alone.
pub fn to_entry_num(num: u16) -> (r: EntryNum)
    requires
        1 <= num <= 9,
    ensures
        r == digit_mask(num),
        fixed(r),
        r <= ALL,
{
    proof {
        lemma_single_bit((num - 1) as u16);
    }
    1u16 << (num - 1)
}

/// What a candidate mask can be asked.
pub trait EntryNumThings: Sized {
    /// The mask that the value stands for.
    spec fn mask(self) -> u16;

    /// Whether exactly one candidate is left.
    fn is_fixed(self) -> (r: bool)
        ensures
            r == fixed(self.mask()),
    ;

    /// The one-based position of the single bit of a fixed mask.
    fn get_fixed(self) -> (r: EntryNum)
        requires
            fixed(self.mask()),
        ensures
            1 <= r <= 16,
            self.mask() == 1u16 << ((r - 1) as u16),
            r <= 9 <==> self.mask() <= ALL,
            r <= 9 ==> self.mask() == digit_mask(r),
    ;

    /// The mask of a digit, for the digits one to nine.
    fn get_entry_num(num: u16) -> (r: Option<EntryNum>)
        ensures
            1 <= num <= 9 ==> r == Some(digit_mask(num)),
            !(1 <= num <= 9) ==> r.is_none(),
    ;

    /// The candidate digits, ascending.
    fn get_pos(self) -> (r: Vec<u16>)
        ensures
            r@ == positions(self.mask()),
    ;
}

impl EntryNumThings for EntryNum {
    open spec fn mask(self) -> u16 {
        self
    }

    fn is_fixed(self) -> (r: bool) {
        count_bits(self) == 1
    }

    fn get_fixed(self) -> (r: EntryNum) {
        let mut k: u16 = 0;
        while self & (1u16 << k) == 0
            invariant
                k < 16,
                bits_below(self, k as nat) == 0,
                fixed(self),
            decreases 16 - k,
        {
            proof {
                reveal_with_fuel(bits_below, 2);
                if k == 15 {
                    assert(bits_below(self, 16) == 0);
                }
            }
            k = k + 1;
        }
        proof {
            lemma_single_bit(k);
            assert((1u16 << k) & !self == 0) by (bit_vector)
                requires
                    self & (1u16 << k) != 0,
                    k < 16,
            ;
            lemma_within_count(1u16 << k, self);
            assert(k < 9 <==> 1u16 << k <= 0b111111111) by (bit_vector)
                requires
                    k < 16,
            ;
        }
        k + 1
    }

    fn get_entry_num(num: u16) -> (r: Option<EntryNum>) {
        if num > 0 && num < 10 {
            Some(to_entry_num(num))
        } else {
            None
        }
    }

    fn get_pos(self) -> (r: Vec<u16>) {
        let mut res: Vec<u16> = Vec::new();
        let mut d: u16 = 1;
        while d <= 9
            invariant
                1 <= d <= 10,
                res@ == positions_upto(self, (d - 1) as nat),
            decreases 10 - d,
        {
            if self & (1u16 << (d - 1)) != 0 {
                res.push(d);
            }
            d = d + 1;
        }
        res
    }
}

/// The candidate digits at most `d` are listed once each, in ascending
/// order, and no other number is.
pub proof fn lemma_positions_members(m: u16, d: nat)
    requires
        d <= 9,
    ensures
        forall|k: int|
            0 <= k < positions_upto(m, d).len() ==> has_digit(m, #[trigger] positions_upto(m, d)[k])
                && positions_upto(m, d)[k] <= d,
        forall|j: int, k: int|
            0 <= j < k < positions_upto(m, d).len() ==> #[trigger] positions_upto(m, d)[j]
                < #[trigger] positions_upto(m, d)[k],
        forall|e: u16| 1 <= e <= d && has_digit(m, e) ==> positions_upto(m, d).contains(e),
    decreases d,
{
    if d > 0 {
        lemma_positions_members(m, (d - 1) as nat);
        let before = positions_upto(m, (d - 1) as nat);
        let now = positions_upto(m, d);
        assert forall|k: int| 0 <= k < now.len() implies has_digit(m, #[trigger] now[k]) && now[k]
            <= d by {
            if k < before.len() {
                assert(now[k] == before[k]);
            }
        }
        assert forall|j: int, k: int| 0 <= j < k < now.len() implies #[trigger] now[j]
            < #[trigger] now[k] by {
            assert(now[j] == before[j]);
            if k < before.len() {
                assert(now[k] == before[k]);
            }
        }
        assert forall|e: u16| 1 <= e <= d && has_digit(m, e) implies now.contains(e) by {
            if e < d {
                let k = choose|k: int| 0 <= k < before.len() && before[k] == e;
                assert(now[k] == e);
            } else {
                assert(now[now.len() - 1] == e);
            }
        }
    }
}

/// The number of candidate digits at most `d` is the number of set bits below `d`.
pub proof fn lemma_positions_len(m: u16, d: nat)
    requires
        d <= 9,
    ensures
        positions_upto(m, d).len() == bits_below(m, d),
    decreases d,
{
    if d > 0 {
        lemma_positions_len(m, (d - 1) as nat);
    }
}

/// A digit's mask has that digit as its only candidate.
pub proof fn lemma_positions_of_digit(d: u16)
    requires
        1 <= d <= 9,
    ensures
        positions(digit_mask(d)) == seq![d],
{
    let m = digit_mask(d);
    lemma_single_bit((d - 1) as u16);
    reveal_with_fuel(positions_upto, 10);
    assert(forall|e: u16| 1 <= e <= 9 ==> (has_digit(m, e) <==> e == d)) by {
        assert forall|e: u16| 1 <= e <= 9 implies (has_digit(m, e) <==> e == d) by {
            assert(has_bit(m, (e - 1) as u16) <==> (e - 1) as u16 == (d - 1) as u16);
        }
    }
    assert(positions_upto(m, (d - 1) as nat) =~= Seq::<u16>::empty());
    assert(positions_upto(m, d as nat) =~= seq![d]);
    assert(positions(m) =~= seq![d]);
}

/// A nine-bit mask is fixed exactly when it has one candidate digit.
pub proof fn lemma_fixed_iff_one_position(m: u16)
    requires
        m <= ALL,
    ensures
        fixed(m) <==> positions(m).len() == 1,
{
    lemma_positions_len(m, 9);
    lemma_bit_count_unfold(m);
    assert(!has_bit(m, 9) && !has_bit(m, 10) && !has_bit(m, 11) && !has_bit(m, 12) && !has_bit(
        m,
        13,
    ) && !has_bit(m, 14) && !has_bit(m, 15)) by (bit_vector)
        requires
            m <= 0b111111111,
    ;
}

} // verus!
