use sudokutwo::entry_num;
use sudokutwo::entry_num::{
    count_bits, to_entry_num, EntryNum, EntryNumThings, ALL, EIGHT, FIVE, NINE, ONE, THREE, TWO,
};

#[test]
fn conversion_one() {
    assert_eq!(entry_num::to_entry_num(1), entry_num::ONE);
    assert_eq!(entry_num::to_entry_num(2), entry_num::TWO);
    assert_eq!(entry_num::to_entry_num(5), entry_num::FIVE);
    assert_eq!(entry_num::to_entry_num(9), entry_num::NINE);
}

#[test]
fn conversion_back() {
    assert_eq!(entry_num::ONE.get_fixed(), 1);
}

#[test]
fn conversion_all() {
    for i in 1..=9 {
        assert_eq!(entry_num::to_entry_num(i).get_fixed(), i);
    }
}

#[test]
fn single_pos_convert() {
    for i in 1..=9 {
        assert_eq!(entry_num::to_entry_num(i).get_pos()[0], i)
    }
}

#[test]
fn multi_pos_convert() {
    let possible = (ONE | THREE | FIVE).get_pos();
    let expected: Vec<u16> = vec![1, 3, 5];
    assert_eq!(possible, expected);
}

#[test]
fn test_removal() {
    let possible = ONE | TWO | THREE | NINE;
    assert_eq!(possible.get_pos(), vec!(1, 2, 3, 9));
    let to_remove = TWO | NINE | EIGHT;
    assert_eq!(to_remove.get_pos(), vec!(2, 8, 9));
    let possible: EntryNum = (possible ^ to_remove) & possible;
    assert_eq!(possible.get_pos(), vec!(1, 3));
}

#[test]
fn digit_mask_round_trip() {
    for d in 1..=9u16 {
        assert_eq!(to_entry_num(d).get_pos(), vec![d]);
        assert_eq!(to_entry_num(d), 1u16 << (d - 1));
    }
}

#[test]
fn fixed_iff_one_position() {
    for m in 0..=ALL {
        assert_eq!(m.is_fixed(), m.get_pos().len() == 1);
    }
}

#[test]
fn count_bits_matches_count_ones() {
    for m in 0..=u16::MAX {
        assert_eq!(count_bits(m), m.count_ones());
    }
}

#[test]
fn get_fixed_of_every_single_bit() {
    for k in 0..16u16 {
        assert_eq!((1u16 << k).get_fixed(), k + 1);
    }
}

#[test]
fn get_entry_num_in_and_out_of_range() {
    assert_eq!(<EntryNum as EntryNumThings>::get_entry_num(0), None);
    assert_eq!(<EntryNum as EntryNumThings>::get_entry_num(1), Some(ONE));
    assert_eq!(<EntryNum as EntryNumThings>::get_entry_num(9), Some(NINE));
    assert_eq!(<EntryNum as EntryNumThings>::get_entry_num(10), None);
}

#[test]
fn positions_of_empty_and_full() {
    assert_eq!(0u16.get_pos(), Vec::<u16>::new());
    assert_eq!(ALL.get_pos(), vec![1, 2, 3, 4, 5, 6, 7, 8, 9]);
    assert!(!0u16.is_fixed());
    assert!(!ALL.is_fixed());
    assert!(FIVE.is_fixed());
}

#[test]
fn nums_lists_the_digit_masks() {
    for d in 1..=9u16 {
        assert_eq!(entry_num::NUMS[(d - 1) as usize], to_entry_num(d));
    }
}
