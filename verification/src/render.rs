//! The textual form of a board: one line of nine characters for each row.

use vstd::prelude::*;
use crate::board::Board;

verus! {

/// The character that stands for the cell value `d`: `'0'` for an empty cell
/// and the digit itself otherwise.
pub open spec fn digit_char(d: u8) -> char {
    if d == 0 {
        '0'
    } else if d == 1 {
        '1'
    } else if d == 2 {
        '2'
    } else if d == 3 {
        '3'
    } else if d == 4 {
        '4'
    } else if d == 5 {
        '5'
    } else if d == 6 {
        '6'
    } else if d == 7 {
        '7'
    } else if d == 8 {
        '8'
    } else {
        '9'
    }
}

/// The text of the grid `s`: 90 characters, the nine cells of each row
/// followed by a line feed.
pub open spec fn rendered(s: Seq<u8>) -> Seq<char> {
    Seq::new(
        90,
        |k: int|
            if k % 10 == 9 {
                '\n'
            } else {
                digit_char(s[(k / 10) * 9 + k % 10])
            },
    )
}

/// The one-character text of a cell value.
fn digit_text(d: u8) -> (text: &'static str)
    requires
        d <= 9,
    ensures
        text@ == seq![digit_char(d)],
{
    proof {
        reveal_strlit("0");
        reveal_strlit("1");
        reveal_strlit("2");
        reveal_strlit("3");
        reveal_strlit("4");
        reveal_strlit("5");
        reveal_strlit("6");
        reveal_strlit("7");
        reveal_strlit("8");
        reveal_strlit("9");
    }
    match d {
        0 => "0",
        1 => "1",
        2 => "2",
        3 => "3",
        4 => "4",
        5 => "5",
        6 => "6",
        7 => "7",
        8 => "8",
        _ => "9",
    }
}

impl Board {
    /// The board as text: nine lines of nine characters, `'1'` to `'9'` for a
    /// digit and `'0'` for an empty cell, each line ended by a line feed.
    pub fn print_board(&self) -> (res: String)
        requires
            self.wf(),
        ensures
            res@ == rendered(self@),
            res@.len() == 90,
    {
        let mut res = String::new();
        let mut i: usize = 0;
        while i < 9
            invariant
                i <= 9,
                self.wf(),
                res@ == rendered(self@).subrange(0, 10 * i),
            decreases 9 - i,
        {
            let mut j: usize = 0;
            while j < 9
                invariant
                    i < 9,
                    j <= 9,
                    self.wf(),
                    res@ == rendered(self@).subrange(0, 10 * i + j),
                decreases 9 - j,
            {
                let cell = self.get(i * 9 + j);
                let ghost before = res@;
                res.append(digit_text(cell));
                proof {
                    let k = 10 * i + j;
                    assert(k % 10 == j && k / 10 == i);
                    assert(rendered(self@)[k] == digit_char(cell));
                    assert(res@ =~= rendered(self@).subrange(0, k + 1));
                }
                j += 1;
            }
            proof {
                reveal_strlit("\n");
            }
            res.append("\n");
            proof {
                let k = 10 * i + 9;
                assert(k % 10 == 9);
                assert(res@ =~= rendered(self@).subrange(0, k + 1));
            }
            i += 1;
        }
        assert(res@ =~= rendered(self@));
        res
    }
}

} // verus!
