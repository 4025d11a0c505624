//! A grid as text: nine lines, a fixed cell as its digit, any other cell as
//! the list of its candidates.

use crate::closure::Crowded;
use crate::entry_num::{lemma_positions_members, positions, EntryNum, EntryNumThings};
use crate::sudoku_api::{Invalid, ParseError};
use vstd::prelude::*;
use vstd::string::*;

verus! {

/// The character of a digit.
pub open spec fn digit_char(d: u16) -> char {
    if d == 0 {
        '0'
    } else if d == 1 {
        '1'
    } else if d == 2 {
        '2'
    } else if d == 3 {
        '3'
    } else if d == 4 {
        '4'
    } else if d == 5 {
        '5'
    } else if d == 6 {
        '6'
    } else if d == 7 {
        '7'
    } else if d == 8 {
        '8'
    } else {
        '9'
    }
}

/// The first `n` digits of `pots`, a comma and a blank between two of them.
pub open spec fn list_text(pots: Seq<u16>, n: nat) -> Seq<char>
    decreases n,
{
    if n == 0 {
        Seq::empty()
    } else if n == 1 {
        seq![digit_char(pots[0])]
    } else {
        list_text(pots, (n - 1) as nat) + seq![',', ' '] + seq![digit_char(pots[n - 1])]
    }
}

/// One cell: its digit if it has one candidate, else the list of its
/// candidates in square brackets.
pub open spec fn cell_text(m: u16) -> Seq<char> {
    let pots = positions(m);
    if pots.len() == 1 {
        seq![digit_char(pots[0])]
    } else {
        seq!['['] + list_text(pots, pots.len()) + seq![']']
    }
}

/// The first `n` cells of row `row`.
pub open spec fn row_text(data: Seq<u16>, row: int, n: nat) -> Seq<char>
    decreases n,
{
    if n == 0 {
        Seq::empty()
    } else {
        row_text(data, row, (n - 1) as nat) + cell_text(data[row * 9 + n - 1])
    }
}

/// The first `n` rows, each with a line feed after it.
pub open spec fn grid_text(data: Seq<u16>, n: nat) -> Seq<char>
    decreases n,
{
    if n == 0 {
        Seq::empty()
    } else {
        grid_text(data, (n - 1) as nat) + row_text(data, n - 1, 9) + seq!['\n']
    }
}

/// The text of a digit.
pub fn digit_str(d: u16) -> (r: &'static str)
    requires
        d <= 9,
    ensures
        r@ == seq![digit_char(d)],
{
    proof {
        reveal_strlit("0");
        reveal_strlit("1");
        reveal_strlit("2");
        reveal_strlit("3");
        reveal_strlit("4");
        reveal_strlit("5");
        reveal_strlit("6");
        reveal_strlit("7");
        reveal_strlit("8");
        reveal_strlit("9");
    }
    let r = if d == 0 {
        "0"
    } else if d == 1 {
        "1"
    } else if d == 2 {
        "2"
    } else if d == 3 {
        "3"
    } else if d == 4 {
        "4"
    } else if d == 5 {
        "5"
    } else if d == 6 {
        "6"
    } else if d == 7 {
        "7"
    } else if d == 8 {
        "8"
    } else {
        "9"
    };
    assert(r@ =~= seq![digit_char(d)]);
    r
}

/// A number in decimal digits.
pub open spec fn decimal(n: nat) -> Seq<char>
    decreases n,
{
    if n < 10 {
        seq![digit_char(n as u16)]
    } else {
        decimal(n / 10).push(digit_char((n % 10) as u16))
    }
}

/// The text of a number.
pub fn number_to_string(n: usize) -> (r: String)
    ensures
        r@ == decimal(n as nat),
    decreases n,
{
    if n < 10 {
        String::from_str(digit_str(n as u16))
    } else {
        let mut s = number_to_string(n / 10);
        s.append(digit_str((n % 10) as u16));
        assert(s@ =~= decimal(n as nat));
        s
    }
}

/// The text of one cell.
pub fn cell_to_string(m: EntryNum) -> (r: String)
    ensures
        r@ == cell_text(m),
{
    let pots = m.get_pos();
    proof {
        lemma_positions_members(m, 9);
        reveal_strlit("[");
        reveal_strlit("]");
        reveal_strlit(", ");
    }
    if pots.len() == 1 {
        String::from_str(digit_str(pots[0]))
    } else {
        let mut t = String::from_str("[");
        let mut k: usize = 0;
        while k < pots.len()
            invariant
                k <= pots.len(),
                pots@ == positions(m),
                forall|j: int| 0 <= j < pots@.len() ==> 1 <= #[trigger] pots@[j] <= 9,
                t@ == seq!['['] + list_text(pots@, k as nat),
                ", "@ == seq![',', ' '],
            decreases pots.len() - k,
        {
            if k > 0 {
                t.append(", ");
            }
            t.append(digit_str(pots[k]));
            assert(t@ =~= seq!['['] + list_text(pots@, (k + 1) as nat));
            k = k + 1;
        }
        t.append("]");
        t
    }
}

/// The text of a grid.
pub fn data_to_string(data: &[EntryNum; 81]) -> (r: String)
    ensures
        r@ == grid_text(data@, 9),
{
    let mut s = String::from_str("");
    proof {
        reveal_strlit("");
        reveal_strlit("\n");
    }
    assert(s@ =~= grid_text(data@, 0));
    let mut i: usize = 0;
    while i < 9
        invariant
            i <= 9,
            s@ == grid_text(data@, i as nat),
            "\n"@ == seq!['\n'],
        decreases 9 - i,
    {
        let ghost start = s@;
        let mut j: usize = 0;
        assert(s@ =~= start + row_text(data@, i as int, 0));
        while j < 9
            invariant
                i < 9,
                j <= 9,
                s@ == start + row_text(data@, i as int, j as nat),
            decreases 9 - j,
        {
            let cell = cell_to_string(data[i * 9 + j]);
            s.append(cell.as_str());
            assert(s@ =~= start + row_text(data@, i as int, (j + 1) as nat));
            j = j + 1;
        }
        s.append("\n");
        i = i + 1;
    }
    s
}

/// What is wrong with a grid, in words.
pub open spec fn invalid_text(e: Invalid) -> Seq<char> {
    match e {
        Invalid::NoCandidate { index } => "cell "@ + decimal(index as nat)
            + " has no candidate left"@,
        Invalid::RowLacks { digit, row } => decimal(digit as nat) + " is not possible in row "@
            + decimal(row as nat),
        Invalid::ColLacks { digit, col } => decimal(digit as nat) + " is not possible in column "@
            + decimal(col as nat),
        Invalid::BoxLacks { digit, block } => decimal(digit as nat) + " is not possible in box "@
            + decimal(block as nat),
    }
}

/// What is wrong with a line, in words: its length, or the character that
/// is no digit and where it stands.
pub open spec fn parse_error_text(e: ParseError) -> Seq<char> {
    match e {
        ParseError::WrongLength { len } => "the line has "@ + decimal(len as nat)
            + " characters, not 81"@,
        ParseError::NotADigit { character, index } => "the character '"@ + seq![character]
            + "' at index "@ + decimal(index as nat) + " is not a digit"@,
    }
}

/// The text that holds one character alone. The body calls std's
/// `String::from` on a `char`, which is documented to give the string of
/// that single character; this contract is taken on trust, not proved.
#[verifier::external_body]
fn char_to_string(c: char) -> (r: String)
    ensures
        r@ == seq![c],
{
    String::from(c)
}

/// Which cells are too many for which digits, in words.
pub open spec fn crowded_text(e: Crowded) -> Seq<char> {
    decimal(e.cells as nat) + " cells of a group have no candidates but "@ + cell_text(e.digits)
}

impl Invalid {
    /// What is wrong with the grid, in words.
    pub fn message(&self) -> (r: String)
        ensures
            r@ == invalid_text(*self),
    {
        match *self {
            Invalid::NoCandidate { index } => {
                let mut s = String::from_str("cell ");
                s.append(number_to_string(index).as_str());
                s.append(" has no candidate left");
                s
            },
            Invalid::RowLacks { digit, row } => {
                let mut s = number_to_string(digit as usize);
                s.append(" is not possible in row ");
                s.append(number_to_string(row).as_str());
                s
            },
            Invalid::ColLacks { digit, col } => {
                let mut s = number_to_string(digit as usize);
                s.append(" is not possible in column ");
                s.append(number_to_string(col).as_str());
                s
            },
            Invalid::BoxLacks { digit, block } => {
                let mut s = number_to_string(digit as usize);
                s.append(" is not possible in box ");
                s.append(number_to_string(block).as_str());
                s
            },
        }
    }
}

impl ParseError {
    /// What is wrong with the line, in words.
    pub fn message(&self) -> (r: String)
        ensures
            r@ == parse_error_text(*self),
    {
        match *self {
            ParseError::WrongLength { len } => {
                let mut s = String::from_str("the line has ");
                s.append(number_to_string(len).as_str());
                s.append(" characters, not 81");
                s
            },
            ParseError::NotADigit { character, index } => {
                let mut s = String::from_str("the character '");
                s.append(char_to_string(character).as_str());
                s.append("' at index ");
                s.append(number_to_string(index).as_str());
                s.append(" is not a digit");
                s
            },
        }
    }
}

impl Crowded {
    /// Which cells are too many for which digits, in words.
    pub fn message(&self) -> (r: String)
        ensures
            r@ == crowded_text(*self),
    {
        let mut s = number_to_string(self.cells);
        s.append(" cells of a group have no candidates but ");
        s.append(cell_to_string(self.digits).as_str());
        s
    }
}

} // verus!
