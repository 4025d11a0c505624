use sudokutwo::closure::{Crowded, Growth};
use sudokutwo::entry_num::{ALL, EIGHT, FIVE, FOUR, NINE, ONE, SEVEN, SIX, THREE, TWO};
use sudokutwo::sudoku::{EntityType, Sudoku};

fn blank() -> Sudoku {
    Sudoku { data: [ALL; 81] }
}

#[test]
fn row_indices_ascend() {
    assert_eq!(Sudoku::get_row_indices(0), vec![0, 1, 2, 3, 4, 5, 6, 7, 8]);
    assert_eq!(Sudoku::get_row_indices(40), vec![36, 37, 38, 39, 40, 41, 42, 43, 44]);
    assert_eq!(Sudoku::get_row_indices(80), vec![72, 73, 74, 75, 76, 77, 78, 79, 80]);
}

#[test]
fn col_indices_ascend() {
    assert_eq!(Sudoku::get_col_indices(0), vec![0, 9, 18, 27, 36, 45, 54, 63, 72]);
    assert_eq!(Sudoku::get_col_indices(40), vec![4, 13, 22, 31, 40, 49, 58, 67, 76]);
    assert_eq!(Sudoku::get_col_indices(80), vec![8, 17, 26, 35, 44, 53, 62, 71, 80]);
}

#[test]
fn block_indices_row_after_row() {
    assert_eq!(Sudoku::get_block_indices(0, 0), vec![0, 1, 2, 9, 10, 11, 18, 19, 20]);
    assert_eq!(Sudoku::get_block_indices(1, 2), vec![33, 34, 35, 42, 43, 44, 51, 52, 53]);
    assert_eq!(
        Sudoku::get_block_indices_by_cell_index(40),
        vec![30, 31, 32, 39, 40, 41, 48, 49, 50]
    );
    assert_eq!(
        Sudoku::get_block_indices_by_cell_index(80),
        vec![60, 61, 62, 69, 70, 71, 78, 79, 80]
    );
}

#[test]
fn block_index_of_cells() {
    assert_eq!(Sudoku::get_block_index(0), 0);
    assert_eq!(Sudoku::get_block_index(8), 2);
    assert_eq!(Sudoku::get_block_index(40), 4);
    assert_eq!(Sudoku::get_block_index(54), 6);
    assert_eq!(Sudoku::get_block_index(80), 8);
}

#[test]
fn every_cell_lies_in_its_groups() {
    for i in 0..81usize {
        assert!(Sudoku::get_row_indices(i).contains(&i));
        assert!(Sudoku::get_col_indices(i).contains(&i));
        let block = Sudoku::get_block_indices_by_cell_index(i);
        assert!(block.contains(&i));
        for c in block {
            assert_eq!(Sudoku::get_block_index(c), Sudoku::get_block_index(i));
        }
    }
}

#[test]
fn remove_possibilities_counts_what_went() {
    let mut data = [ALL; 81];
    data[7] = ONE | TWO | THREE | NINE;
    let removed = Sudoku::remove_possibilities(&mut data, 7, TWO | NINE | EIGHT);
    assert_eq!(removed, 2);
    assert_eq!(data[7], ONE | THREE);
    let removed = Sudoku::remove_possibilities(&mut data, 7, TWO | NINE | EIGHT);
    assert_eq!(removed, 0);
    assert_eq!(data[7], ONE | THREE);
    for i in 0..81 {
        if i != 7 {
            assert_eq!(data[i], ALL);
        }
    }
}

#[test]
fn covered_and_remainder() {
    let sets = vec![ONE | TWO, TWO | THREE, ONE | THREE, FOUR | FIVE | SIX | SEVEN];
    assert_eq!(Sudoku::count_covered(&sets, ONE | TWO), 1);
    assert_eq!(Sudoku::count_covered(&sets, ONE | TWO | THREE), 3);
    assert_eq!(Sudoku::count_covered(&sets, 0), 0);
    assert_eq!(Sudoku::smallest_remainder(&sets, ONE | TWO), THREE);
    assert_eq!(Sudoku::smallest_remainder(&sets, ONE), TWO);
    assert_eq!(Sudoku::smallest_remainder(&sets, ALL), 0);
    assert_eq!(Sudoku::smallest_remainder(&sets, ONE | TWO | THREE), FOUR | FIVE | SIX | SEVEN);
}

#[test]
fn smallest_remainder_takes_the_first_of_equals() {
    let sets = vec![ONE | TWO | THREE, ONE | FOUR, ONE | FIVE];
    assert_eq!(Sudoku::smallest_remainder(&sets, ONE), FOUR);
}

#[test]
fn naked_triple_is_closed() {
    let sets = vec![ONE | TWO, TWO | THREE, ONE | THREE, ALL];
    assert_eq!(Sudoku::grow_seed(&sets, ALL, ONE | TWO), Growth::Closed(ONE | TWO | THREE));
    assert_eq!(Sudoku::get_sets(&sets, ALL), Ok(ONE | TWO | THREE));
}

#[test]
fn whole_group_is_no_subset() {
    let sets = vec![ONE | TWO, TWO | THREE, ONE | THREE];
    assert_eq!(Sudoku::grow_seed(&sets, ONE | TWO | THREE, ONE | TWO), Growth::Whole);
    assert_eq!(Sudoku::get_sets(&sets, ONE | TWO | THREE), Ok(0));
    assert_eq!(Sudoku::get_sets(&Vec::new(), 0), Ok(0));
}

#[test]
fn naked_pair_and_more() {
    let sets = vec![FOUR | FIVE, ONE | TWO | THREE | FOUR, FOUR | FIVE, EIGHT | NINE, EIGHT | NINE];
    let all = ONE | TWO | THREE | FOUR | FIVE | EIGHT | NINE;
    assert_eq!(Sudoku::get_sets(&sets, all), Ok(FOUR | FIVE | EIGHT | NINE));
}

#[test]
fn crowded_subset_is_an_error() {
    let sets = vec![ONE | TWO, ONE | TWO, ONE | TWO, ALL];
    assert_eq!(Sudoku::grow_seed(&sets, ALL, ONE | TWO), Growth::Crowded(ONE | TWO));
    assert_eq!(Sudoku::get_sets(&sets, ALL), Err(Crowded { digits: ONE | TWO, cells: 3 }));
}

#[test]
fn taken_joins_fixed_peers_and_subsets() {
    let mut data = [ALL; 81];
    data[1] = FIVE;
    data[2] = ONE | TWO;
    data[3] = ONE | TWO;
    data[4] = SEVEN;
    let row = Sudoku::get_row_indices(0);
    assert_eq!(Sudoku::get_taken(0, &row, &data), Ok(FIVE | SEVEN | ONE | TWO));
    assert_eq!(Sudoku::get_taken(2, &row, &data), Ok(FIVE | SEVEN));
    assert_eq!(Sudoku::union_all(&vec![ONE, THREE, ONE | NINE]), ONE | THREE | NINE);
    assert_eq!(Sudoku::union_all(&Vec::new()), 0);
}

#[test]
fn all_taken_joins_the_three_groups() {
    let mut data = [ALL; 81];
    data[8] = ONE;
    data[72] = TWO;
    data[10] = THREE;
    assert_eq!(Sudoku::get_all_taken(0, &data), Ok(ONE | TWO | THREE));
}

#[test]
fn basic_sweep_removes_fixed_neighbours() {
    let mut s = blank();
    s.data[0] = FIVE;
    let removed = s.eliminate_basic_possibilities().unwrap();
    assert_eq!(removed, 20);
    for i in 1..81usize {
        let peer = i / 9 == 0 || i % 9 == 0 || Sudoku::get_block_index(i) == 0;
        assert_eq!(s.data[i], if peer { ALL & !FIVE } else { ALL });
    }
    assert_eq!(s.data[0], FIVE);
}

#[test]
fn same_unit_tests() {
    assert!(Sudoku::in_same_RCB(&vec![0, 1, 2], EntityType::Row));
    assert!(Sudoku::in_same_RCB(&vec![0, 1, 2], EntityType::Box));
    assert!(!Sudoku::in_same_RCB(&vec![0, 1, 2], EntityType::Col));
    assert!(Sudoku::in_same_RCB(&vec![4, 40, 76], EntityType::Col));
    assert!(!Sudoku::in_same_RCB(&vec![4, 40, 76], EntityType::Box));
    assert!(!Sudoku::in_same_RCB(&vec![2, 3], EntityType::Box));
    assert!(Sudoku::in_same_RCB(&vec![50], EntityType::Box));
    assert_eq!(Sudoku::unit_number(50, EntityType::Row), 5);
    assert_eq!(Sudoku::unit_number(50, EntityType::Col), 5);
    assert_eq!(Sudoku::unit_number(50, EntityType::Box), 4);
}

#[test]
fn holders_and_membership() {
    let mut s = blank();
    for c in 0..9 {
        s.data[c] = ALL & !NINE;
    }
    s.data[3] = ALL;
    s.data[7] = NINE;
    let row = Sudoku::get_row_indices(0);
    assert_eq!(s.possible_locs(&row, NINE), vec![3, 7]);
    assert_eq!(s.possible_locs(&row, ONE), vec![0, 1, 2, 3, 4, 5, 6, 8]);
    assert!(Sudoku::holds(&vec![3, 7], 7));
    assert!(!Sudoku::holds(&vec![3, 7], 4));
    assert!(!Sudoku::holds(&Vec::new(), 0));
}

#[test]
fn crossing_cells_of_holders() {
    assert_eq!(
        Sudoku::crossing_cells(&vec![3, 5], EntityType::Row),
        vec![3, 4, 5, 12, 13, 14, 21, 22, 23]
    );
    assert_eq!(Sudoku::crossing_cells(&vec![2, 3], EntityType::Row), Vec::<usize>::new());
    assert_eq!(
        Sudoku::crossing_cells(&vec![0, 9, 18], EntityType::Col),
        vec![0, 1, 2, 9, 10, 11, 18, 19, 20]
    );
    assert_eq!(
        Sudoku::crossing_cells(&vec![10, 11], EntityType::Box),
        vec![9, 10, 11, 12, 13, 14, 15, 16, 17]
    );
    assert_eq!(
        Sudoku::crossing_cells(&vec![1, 19], EntityType::Box),
        vec![1, 10, 19, 28, 37, 46, 55, 64, 73]
    );
    assert_eq!(Sudoku::crossing_cells(&vec![0, 10], EntityType::Box), Vec::<usize>::new());
}

#[test]
fn omission_in_a_row_clears_the_box() {
    let mut s = blank();
    for c in 2..9 {
        s.data[c] = ALL & !SEVEN;
    }
    let before = s.data;
    let row = Sudoku::get_row_indices(0);
    let removed = s.eliminate_omission(&row, EntityType::Row);
    assert_eq!(removed, 6);
    let block = Sudoku::get_block_indices(0, 0);
    for i in 0..81usize {
        if block.contains(&i) && i != 0 && i != 1 && i != 2 {
            assert_eq!(s.data[i], ALL & !SEVEN);
        } else {
            assert_eq!(s.data[i], before[i]);
        }
    }
    assert_eq!(s.data[0], ALL);
    assert_eq!(s.data[1], ALL);
}

#[test]
fn omission_in_a_box_clears_the_row() {
    let mut s = blank();
    for i in Sudoku::get_block_indices(1, 1) {
        s.data[i] = ALL & !TWO;
    }
    s.data[39] = ALL;
    s.data[41] = ALL;
    let before = s.data;
    let block = Sudoku::get_block_indices(1, 1);
    let removed = s.eliminate_omission(&block, EntityType::Box);
    assert_eq!(removed, 6);
    for i in 0..81usize {
        if i / 9 == 4 && !(39..=41).contains(&i) {
            assert_eq!(s.data[i], ALL & !TWO);
        } else {
            assert_eq!(s.data[i], before[i]);
        }
    }
}

#[test]
fn hidden_single_is_fixed() {
    let mut s = blank();
    for c in 1..9 {
        s.data[c] = ALL & !THREE;
    }
    let row = Sudoku::get_row_indices(0);
    let removed = s.eliminate_omission(&row, EntityType::Row);
    assert_eq!(removed, 8);
    assert_eq!(s.data[0], THREE);
    for c in 1..9 {
        assert_eq!(s.data[c], ALL & !THREE);
    }
    for i in 9..81 {
        assert_eq!(s.data[i], ALL);
    }
}

#[test]
fn four_holders_lead_to_nothing() {
    let mut s = blank();
    for c in 4..9 {
        s.data[c] = ALL & !SIX;
    }
    let before = s.data;
    let row = Sudoku::get_row_indices(0);
    assert_eq!(s.eliminate_omission(&row, EntityType::Row), 0);
    assert_eq!(s.data, before);
}

#[test]
fn remove_from_others_spares_the_kept() {
    let mut s = blank();
    let targets = vec![0, 1, 2, 9];
    let removed = s.remove_from_others(&targets, &vec![1, 9], ONE | TWO);
    assert_eq!(removed, 4);
    assert_eq!(s.data[0], ALL & !(ONE | TWO));
    assert_eq!(s.data[1], ALL);
    assert_eq!(s.data[2], ALL & !(ONE | TWO));
    assert_eq!(s.data[9], ALL);
}

#[test]
fn remove_other_locs_clears_a_box() {
    let mut s = blank();
    let removed = s.remove_other_locs(4, FOUR, &vec![36, 37], &vec![0, 1]);
    assert_eq!(removed, 7);
    for i in Sudoku::get_block_indices(1, 0) {
        if i == 36 || i == 37 {
            assert_eq!(s.data[i], ALL);
        } else {
            assert_eq!(s.data[i], ALL & !FOUR);
        }
    }
    assert_eq!(s.data[0], ALL);
}

#[test]
fn omission_sweep_counts_what_went() {
    let mut s = blank();
    for c in 2..9 {
        s.data[c] = ALL & !SEVEN;
    }
    let bits: u32 = s.data.iter().map(|m| m.count_ones()).sum();
    let removed = s.eliminate_omissions();
    let left: u32 = s.data.iter().map(|m| m.count_ones()).sum();
    assert_eq!(removed, bits - left);
    assert!(removed >= 6);
    assert_eq!(s.data[9], ALL & !SEVEN);
}

#[test]
fn the_group_is_read_once_in_a_row() {
    let mut s = blank();
    let row = [ONE | NINE, NINE, TWO, THREE, FOUR, FIVE, SIX, SEVEN, EIGHT];
    for c in 0..9 {
        s.data[c] = row[c];
    }
    let before = s.data;
    let removed = s.eliminate_omission(&Sudoku::get_row_indices(0), EntityType::Row);
    assert_eq!(s.data[0], ONE);
    assert_eq!(s.data[1], NINE);
    for i in [9usize, 10, 11, 18, 19, 20] {
        assert_eq!(s.data[i], ALL & !NINE);
    }
    for i in 0..81usize {
        if Sudoku::get_block_index(i) != 0 {
            assert_eq!(s.data[i], before[i]);
        }
    }
    assert_eq!(removed, 7);
}

#[test]
fn the_group_is_read_once_in_a_box() {
    let mut s = blank();
    let masks = [ONE | NINE, NINE, TWO, THREE, FOUR, FIVE, SIX, SEVEN, EIGHT];
    let block = Sudoku::get_block_indices(0, 0);
    for k in 0..9 {
        s.data[block[k]] = masks[k];
    }
    let before = s.data;
    let removed = s.eliminate_omission(&block, EntityType::Box);
    assert_eq!(s.data[0], ONE);
    assert_eq!(s.data[1], NINE);
    for i in 3..9usize {
        assert_eq!(s.data[i], ALL & !NINE);
    }
    for i in 9..81usize {
        assert_eq!(s.data[i], before[i]);
    }
    assert_eq!(removed, 7);
}

#[test]
fn holders_in_two_boxes_lead_to_nothing() {
    let mut s = blank();
    let row = [TWO | NINE, TWO | NINE, THREE, ONE | NINE, TWO | FOUR, FIVE, SIX, SEVEN, EIGHT];
    for c in 0..9 {
        s.data[c] = row[c];
    }
    let before = s.data;
    let removed = s.eliminate_omission(&Sudoku::get_row_indices(0), EntityType::Row);
    assert_eq!(s.data[3], ONE);
    assert_eq!(s.data[4], FOUR);
    for i in 0..81usize {
        if i != 3 && i != 4 {
            assert_eq!(s.data[i], before[i]);
        }
    }
    assert_eq!(s.data[9] & NINE, NINE);
    assert_eq!(removed, 2);
}

#[test]
fn a_cell_alone_with_two_digits_ends_with_the_later() {
    let mut s = blank();
    for c in 1..9 {
        s.data[c] = ALL & !(ONE | TWO);
    }
    s.data[0] = ONE | TWO;
    let removed = s.eliminate_omission(&Sudoku::get_row_indices(0), EntityType::Row);
    assert_eq!(s.data[0], TWO);
    assert_eq!(removed, 1);
    for i in 1..81 {
        assert_eq!(s.data[i], if i < 9 { ALL & !(ONE | TWO) } else { ALL });
    }
}

#[test]
fn candidates_are_counted() {
    let mut s = blank();
    assert_eq!(s.count_candidates(), 729);
    s.data[5] = ONE;
    s.data[80] = 0;
    assert_eq!(s.count_candidates(), 729 - 8 - 9);
}
