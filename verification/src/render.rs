//! The grid as text: nine lines of cells, the blocks set apart by bars and
//! rules.

use crate::sudoku::Sudoku;
use vstd::prelude::*;
use vstd::string::StringExecFns;

verus! {

/// The character for the digit `digit`.
pub open spec fn digit_char(digit: int) -> char {
    ('0' as int + digit) as char
}

/// The decimal digits of `value`, without leading zeros.
pub open spec fn decimal(value: u8) -> Seq<char> {
    if value >= 100 {
        seq![digit_char(value as int / 100), digit_char(value as int / 10 % 10), digit_char(
            value as int % 10,
        )]
    } else if value >= 10 {
        seq![digit_char(value as int / 10), digit_char(value as int % 10)]
    } else {
        seq![digit_char(value as int)]
    }
}

/// The text of one cell: a dot for an empty cell and else the value, then
/// a space.
pub open spec fn cell_text(value: u8) -> Seq<char> {
    if value == 0 {
        seq!['.', ' ']
    } else {
        decimal(value) + seq![' ']
    }
}

/// The bar that stands before the fourth and the seventh cell of a line.
pub open spec fn bar() -> Seq<char> {
    seq!['|', ' ']
}

/// `count` dashes.
pub open spec fn dashes(count: nat) -> Seq<char> {
    Seq::new(count, |i: int| '-')
}

/// The line that stands before the fourth and the seventh row: dashes
/// under the cells, a plus sign under each bar, and a line feed.
pub open spec fn rule() -> Seq<char> {
    dashes(6) + seq!['+'] + dashes(7) + seq!['+'] + dashes(6) + seq!['\n']
}

/// Whether a bar, or a rule, stands before the cell, or the row, of
/// index `i`.
pub open spec fn begins_block(i: int) -> bool {
    i % 3 == 0 && i != 0
}

impl Sudoku {
    /// The text of the first `count` cells of row `r`.
    pub open spec fn row_text(&self, r: int, count: nat) -> Seq<char>
        decreases count,
    {
        if count == 0 {
            Seq::empty()
        } else {
            self.row_text(r, (count - 1) as nat) + if begins_block(count - 1) {
                bar()
            } else {
                Seq::empty()
            } + cell_text(self.cell(r, count - 1))
        }
    }

    /// The text of the first `count` rows, each ended by a line feed.
    pub open spec fn grid_text(&self, count: nat) -> Seq<char>
        decreases count,
    {
        if count == 0 {
            Seq::empty()
        } else {
            self.grid_text((count - 1) as nat) + if begins_block(count - 1) {
                rule()
            } else {
                Seq::empty()
            } + self.row_text(count - 1, 9) + seq!['\n']
        }
    }

    /// The grid as text: one line for each row, a dot for an empty cell, a
    /// bar between the blocks of a line and a rule between the blocks of
    /// rows.
    pub fn display(&self) -> (text: String)
        ensures
            text@ == self.grid_text(9),
    {
        let mut text = String::new();
        for i in 0..9usize
            invariant
                text@ == self.grid_text(i as nat),
        {
            if i % 3 == 0 && i != 0 {
                proof {
                    reveal_strlit("------+-------+------\n");
                    assert("------+-------+------\n"@ =~= rule());
                }
                text.append("------+-------+------\n");
            }
            let ghost before = text@;
            for j in 0..9usize
                invariant
                    i < 9,
                    text@ == before + self.row_text(i as int, j as nat),
            {
                if j % 3 == 0 && j != 0 {
                    proof {
                        reveal_strlit("| ");
                        assert("| "@ =~= bar());
                    }
                    text.append("| ");
                }
                append_cell(&mut text, self.value_at(i, j));
                proof {
                    assert(text@ =~= before + self.row_text(i as int, (j + 1) as nat));
                }
            }
            proof {
                reveal_strlit("\n");
            }
            text.append("\n");
            proof {
                assert(text@ =~= self.grid_text((i + 1) as nat));
            }
        }
        text
    }
}

/// Appends the text of a cell that holds `value`.
pub fn append_cell(text: &mut String, value: u8)
    ensures
        final(text)@ == old(text)@ + cell_text(value),
{
    if value == 0 {
        proof {
            reveal_strlit(". ");
            assert(". "@ =~= cell_text(0));
        }
        text.append(". ");
    } else {
        if value >= 100 {
            text.append(digit_str(value / 100));
        }
        if value >= 10 {
            text.append(digit_str(value / 10 % 10));
        }
        text.append(digit_str(value % 10));
        proof {
            reveal_strlit(" ");
        }
        text.append(" ");
        proof {
            assert(text@ =~= old(text)@ + cell_text(value));
        }
    }
}

/// The digit `digit` as text.
pub fn digit_str(digit: u8) -> (text: &'static str)
    requires
        digit <= 9,
    ensures
        text@ == seq![digit_char(digit as int)],
{
    proof {
        reveal_strlit("0");
        reveal_strlit("1");
        reveal_strlit("2");
        reveal_strlit("3");
        reveal_strlit("4");
        reveal_strlit("5");
        reveal_strlit("6");
        reveal_strlit("7");
        reveal_strlit("8");
        reveal_strlit("9");
    }
    let text = match digit {
        0 => "0",
        1 => "1",
        2 => "2",
        3 => "3",
        4 => "4",
        5 => "5",
        6 => "6",
        7 => "7",
        8 => "8",
        _ => "9",
    };
    assert(text@ =~= seq![digit_char(digit as int)]);
    text
}

} // verus!
