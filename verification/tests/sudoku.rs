use sudokutwo::closure::Crowded;
use sudokutwo::entry_num::{EntryNumThings, ALL, EIGHT, FIVE, FOUR, NINE, ONE, SEVEN, SIX, THREE, TWO};
use sudokutwo::render::{cell_to_string, data_to_string, digit_str, number_to_string};
use sudokutwo::sudoku::Sudoku;
use sudokutwo::sudoku_api::{Invalid, ParseError, SudokuApi};

const EASY: &str =
    "003020600900305001001806400008102900700000008006708200002609500800203009005010300";

const EASY_SOLVED: &str =
    "483921657967345821251876493548132976729564138136798245372689514814253769695417382";

const HARD: &str =
    "400000805030000000000700000020000060000080400000010000000603070500200000104000000";

fn load_sudoku() -> Sudoku {
    Sudoku::new(String::from(EASY)).unwrap()
}

fn blank() -> Sudoku {
    Sudoku { data: [ALL; 81] }
}

fn total(s: &Sudoku) -> u32 {
    s.data.iter().map(|m| m.count_ones()).sum()
}

#[test]
fn sudoku_ops() {}

#[test]
fn import_test() {
    let _s = Sudoku::new(String::from(
        "003020600900305001001806400008102900700000008006708200002609500800203009005010300",
    ))
    .unwrap();
}

#[test]
fn solve_once_test() {
    let mut s = load_sudoku();
    println!("Before: \n{}", data_to_string(&s.data));
    s.solve_once().unwrap();
    println!("After: \n{}", data_to_string(&s.data));
}

#[test]
fn solve() {
    let mut s = load_sudoku();
    while s.solve_once().unwrap() > 0 {
        if let Err(msg) = s.is_valid() {
            panic!("{:?}", msg);
        }
        println!("solving... \n{}", data_to_string(&s.data))
    }
    assert_eq!(s.is_valid(), Ok(()));
    println!("After: \n{}", data_to_string(&s.data));
}

#[test]
fn parse_builds_masks() {
    let s = load_sudoku();
    assert_eq!(s.data[0], ALL);
    assert_eq!(s.data[1], ALL);
    assert_eq!(s.data[2], THREE);
    assert_eq!(s.data[4], TWO);
    assert_eq!(s.data[6], SIX);
    assert_eq!(s.data[9], NINE);
    assert_eq!(s.data[80], ALL);
    assert_eq!(s.count_unfixed(), 49);
}

#[test]
fn parse_rejects_wrong_length() {
    assert_eq!(
        Sudoku::new(String::from("123")).err(),
        Some(ParseError::WrongLength { len: 3 })
    );
    assert_eq!(Sudoku::new(String::new()).err(), Some(ParseError::WrongLength { len: 0 }));
    let long = format!("{}0", EASY);
    assert_eq!(Sudoku::new(long).err(), Some(ParseError::WrongLength { len: 82 }));
}

#[test]
fn parse_rejects_non_digit() {
    let mut line = String::from(EASY);
    line.replace_range(5..6, "x");
    assert_eq!(
        Sudoku::new(line).err(),
        Some(ParseError::NotADigit { character: 'x', index: 5 })
    );
    let mut line = String::from(EASY);
    line.replace_range(80..81, ".");
    line.replace_range(40..41, "_");
    assert_eq!(
        Sudoku::new(line).err(),
        Some(ParseError::NotADigit { character: '_', index: 40 })
    );
}

#[test]
fn easy_puzzle_is_solved_at_fixpoint() {
    let mut s = load_sudoku();
    let mut rounds = 0;
    while s.solve_once().unwrap() > 0 {
        assert_eq!(s.is_valid(), Ok(()));
        rounds += 1;
        assert!(rounds < 1000);
    }
    assert_eq!(s.is_valid(), Ok(()));
    assert!(s.is_solved());
    assert_eq!(s.count_unfixed(), 0);
    let expected = Sudoku::new(String::from(EASY_SOLVED)).unwrap();
    assert_eq!(s.data, expected.data);
}

#[test]
fn hard_puzzle_stays_valid() {
    let mut s = Sudoku::new(String::from(HARD)).unwrap();
    let mut first = s.solve_once().unwrap();
    assert_eq!(s.is_valid(), Ok(()));
    while first > 0 {
        first = s.solve_once().unwrap();
        assert_eq!(s.is_valid(), Ok(()));
    }
    let again = Sudoku { data: s.data };
    let mut second = Sudoku::new(String::from(HARD)).unwrap();
    while second.solve_once().unwrap() > 0 {}
    assert_eq!(again.data, second.data);
    assert_eq!(again.is_solved(), second.is_solved());
}

#[test]
fn masks_only_lose_bits() {
    let mut s = Sudoku::new(String::from(HARD)).unwrap();
    loop {
        let before = s.data;
        let bits = total(&s);
        let removed = s.solve_once().unwrap();
        for i in 0..81 {
            assert_eq!(s.data[i] & !before[i], 0);
            assert!(s.data[i].count_ones() <= before[i].count_ones());
        }
        assert_eq!(removed as u32, bits - total(&s));
        if removed == 0 {
            assert_eq!(s.data, before);
            break;
        }
    }
}

#[test]
fn fixpoint_is_stable() {
    let mut s = load_sudoku();
    while s.solve_once().unwrap() > 0 {}
    let at_rest = s.data;
    assert_eq!(s.solve_once(), Ok(0));
    assert_eq!(s.solve_once(), Ok(0));
    assert_eq!(s.data, at_rest);
}

#[test]
fn solve_once_keeps_the_easy_puzzle_valid() {
    let mut s = load_sudoku();
    assert_eq!(s.is_valid(), Ok(()));
    let removed = s.solve_once().unwrap();
    assert!(removed > 0);
    assert_eq!(s.is_valid(), Ok(()));
}

#[test]
fn attempt_solve_changes_nothing() {
    let mut s = load_sudoku();
    let before = s.data;
    assert!(!s.attempt_solve());
    assert_eq!(s.data, before);
}

#[test]
fn blank_grid_is_a_valid_fixpoint() {
    let mut s = blank();
    assert_eq!(s.is_valid(), Ok(()));
    assert!(!s.is_solved());
    assert_eq!(s.count_unfixed(), 81);
    assert_eq!(s.solve_once(), Ok(0));
    assert_eq!(s.data, [ALL; 81]);
}

#[test]
fn validator_names_the_first_empty_cell() {
    let mut s = blank();
    s.data[17] = 0;
    s.data[30] = 0;
    assert_eq!(s.is_valid(), Err(Invalid::NoCandidate { index: 17 }));
    assert!(!s.is_solved());
}

#[test]
fn validator_names_the_lacking_group() {
    let mut s = blank();
    for c in 0..9 {
        s.data[2 * 9 + c] = ALL & !FOUR;
    }
    assert_eq!(s.is_valid(), Err(Invalid::RowLacks { digit: 4, row: 2 }));

    let mut s = blank();
    for r in 0..9 {
        s.data[r * 9 + 5] = ALL & !SEVEN;
    }
    assert_eq!(s.is_valid(), Err(Invalid::ColLacks { digit: 7, col: 5 }));

    let mut s = blank();
    for r in 3..6 {
        for c in 6..9 {
            s.data[r * 9 + c] = ALL & !ONE;
        }
    }
    assert_eq!(s.is_valid(), Err(Invalid::BoxLacks { digit: 1, block: 5 }));
}

#[test]
fn validator_asks_rows_before_columns() {
    let mut s = blank();
    for c in 0..9 {
        s.data[c] = ALL & !NINE;
    }
    for r in 0..9 {
        s.data[r * 9] = ALL & !NINE;
    }
    assert_eq!(s.is_valid(), Err(Invalid::RowLacks { digit: 9, row: 0 }));
}

#[test]
fn solved_grid_is_solved() {
    let s = Sudoku::new(String::from(EASY_SOLVED)).unwrap();
    assert_eq!(s.is_valid(), Ok(()));
    assert!(s.is_solved());
    assert_eq!(s.count_unfixed(), 0);
}

#[test]
fn a_valid_grid_can_lose_its_last_candidate() {
    let mut s = Sudoku::new(String::from(
        "012345678900000000000000000000000000000000000000000000000000000000000000000000000",
    ))
    .unwrap();
    assert_eq!(s.is_valid(), Ok(()));
    assert!(s.solve_once().is_ok());
    assert_eq!(s.data[0], 0);
    assert_eq!(s.is_valid(), Err(Invalid::NoCandidate { index: 0 }));
}

#[test]
fn crowded_cells_stop_the_sweep() {
    let mut s = blank();
    s.data[1] = ONE | TWO;
    s.data[2] = ONE | TWO;
    s.data[3] = ONE | TWO;
    let before = s.data;
    assert_eq!(s.solve_once(), Err(Crowded { digits: ONE | TWO, cells: 3 }));
    for i in 0..81 {
        assert_eq!(s.data[i] & !before[i], 0);
    }
}

#[test]
fn text_of_cells() {
    assert_eq!(cell_to_string(FIVE), "5");
    assert_eq!(cell_to_string(ONE | THREE | NINE), "[1, 3, 9]");
    assert_eq!(cell_to_string(0), "[]");
    assert_eq!(cell_to_string(ALL), "[1, 2, 3, 4, 5, 6, 7, 8, 9]");
    assert_eq!(cell_to_string(EIGHT | NINE), "[8, 9]");
}

#[test]
fn text_of_a_solved_grid() {
    let s = Sudoku::new(String::from(EASY_SOLVED)).unwrap();
    let text = data_to_string(&s.data);
    let expected = "483921657\n967345821\n251876493\n548132976\n729564138\n136798245\n372689514\n814253769\n695417382\n";
    assert_eq!(text, expected);
}

#[test]
fn text_of_an_open_grid() {
    let mut s = Sudoku::new(String::from(EASY_SOLVED)).unwrap();
    s.data[0] = FOUR | FIVE;
    s.data[80] = 0;
    let text = data_to_string(&s.data);
    assert!(text.starts_with("[4, 5]83921657\n"));
    assert!(text.ends_with("69541738[]\n"));
    assert_eq!(text.lines().count(), 9);
}

#[test]
fn fixed_cells_read_back() {
    let s = load_sudoku();
    assert!(s.data[2].is_fixed());
    assert_eq!(s.data[2].get_fixed(), 3);
    assert!(!s.data[0].is_fixed());
}

#[test]
fn the_solution_fits_after_every_sweep() {
    let solved = Sudoku::new(String::from(EASY_SOLVED)).unwrap();
    let mut s = load_sudoku();
    loop {
        for i in 0..81 {
            assert_eq!(solved.data[i] & !s.data[i], 0);
        }
        assert_eq!(s.is_valid(), Ok(()));
        if s.solve_once().unwrap() == 0 {
            break;
        }
    }
}

#[test]
fn hard_puzzles_keep_their_solutions() {
    let puzzles = [
        (
            "400000805030000000000700000020000060000080400000010000000603070500200000104000000",
            "417369825632158947958724316825437169791586432346912758289643571573291684164875293",
        ),
        (
            "520006000000000701300000000000400800600000050000000000041800000000030020008700000",
            "527316489896542731314987562172453896689271354453698217941825673765134928238769145",
        ),
        (
            "600000803040700000000000000000504070300200000106000000020000050000080600000010000",
            "617459823248736915539128467982564371374291586156873294823647159791385642465912738",
        ),
        (
            "480300000000000071020000000705000060000200800000000000001076000300000400000050000",
            "487312695593684271126597384735849162914265837268731549851476923379128456642953718",
        ),
    ];
    let mut solved_count = 0;
    for (puzzle, solution) in puzzles {
        let solved = Sudoku::new(String::from(solution)).unwrap();
        assert!(solved.is_solved());
        let mut s = Sudoku::new(String::from(puzzle)).unwrap();
        let before_unfixed = s.count_unfixed();
        loop {
            let removed = s.solve_once().unwrap();
            assert_eq!(s.is_valid(), Ok(()));
            for i in 0..81 {
                assert_eq!(solved.data[i] & !s.data[i], 0);
            }
            if removed == 0 {
                break;
            }
        }
        assert!(s.count_unfixed() <= before_unfixed);
        if s.is_solved() {
            assert_eq!(s.data, solved.data);
            solved_count += 1;
        }
        let mut again = Sudoku::new(String::from(puzzle)).unwrap();
        while again.solve_once().unwrap() > 0 {}
        assert_eq!(again.data, s.data);
    }
    assert_eq!(solved_count, 3);
}

#[test]
fn errors_in_words() {
    assert_eq!(Invalid::NoCandidate { index: 17 }.message(), "cell 17 has no candidate left");
    assert_eq!(Invalid::NoCandidate { index: 0 }.message(), "cell 0 has no candidate left");
    assert_eq!(Invalid::RowLacks { digit: 4, row: 2 }.message(), "4 is not possible in row 2");
    assert_eq!(Invalid::ColLacks { digit: 7, col: 5 }.message(), "7 is not possible in column 5");
    assert_eq!(Invalid::BoxLacks { digit: 1, block: 8 }.message(), "1 is not possible in box 8");
    assert_eq!(ParseError::WrongLength { len: 120 }.message(), "the line has 120 characters, not 81");
    assert_eq!(
        ParseError::NotADigit { character: 'x', index: 5 }.message(),
        "the character 'x' at index 5 is not a digit"
    );
    assert_eq!(
        ParseError::NotADigit { character: '\u{e9}', index: 80 }.message(),
        "the character '\u{e9}' at index 80 is not a digit"
    );
    let mut line = String::from(EASY);
    line.replace_range(7..8, "?");
    assert_eq!(
        Sudoku::new(line).err().unwrap().message(),
        "the character '?' at index 7 is not a digit"
    );
    assert_eq!(
        Crowded { digits: ONE | TWO, cells: 3 }.message(),
        "3 cells of a group have no candidates but [1, 2]"
    );
}

#[test]
fn numbers_in_decimal() {
    assert_eq!(number_to_string(0), "0");
    assert_eq!(number_to_string(9), "9");
    assert_eq!(number_to_string(10), "10");
    assert_eq!(number_to_string(81), "81");
    assert_eq!(number_to_string(1296), "1296");
    assert_eq!(number_to_string(usize::MAX), usize::MAX.to_string());
    assert_eq!(digit_str(0), "0");
    assert_eq!(digit_str(9), "9");
}
