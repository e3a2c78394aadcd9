//! The executable board and its elementary operations.

use vstd::prelude::*;
use crate::grid::{blank, col_of, fits, full, peers, row_of, same_block, valid};

verus! {

/// A 9×9 Sudoku board.  Cell `(row, column)` is stored at index
/// `row * 9 + column`; `0` stands for an empty cell.
#[derive(Clone, Copy)]
pub struct Board {
    board: [u8; 81],
}

impl View for Board {
    type V = Seq<u8>;

    closed spec fn view(&self) -> Seq<u8> {
        self.board@
    }
}

impl Board {
    /// The board holds only digits and empty cells, and no digit twice in
    /// a row, a column or a block.
    pub open spec fn wf(&self) -> bool {
        valid(self@)
    }

    /// A board whose cells are all empty.
    pub fn new() -> (b: Self)
        ensures
            b.wf(),
            b@.len() == 81,
            blank(b@),
    {
        Self { board: [0; 81] }
    }

    /// The board with the given cells, if they hold only digits and empty
    /// cells and no digit twice in a row, a column or a block.
    pub fn from_cells(cells: [u8; 81]) -> (made: Option<Self>)
        ensures
            match made {
                Some(b) => b@ == cells@ && b.wf(),
                None => !valid(cells@),
            },
    {
        let b = Self { board: cells };
        if b.is_well_formed() {
            Some(b)
        } else {
            None
        }
    }

    /// Whether the board holds only digits and empty cells, and no digit twice
    /// in a row, a column or a block.
    pub fn is_well_formed(&self) -> (ok: bool)
        ensures
            ok == self.wf(),
    {
        let mut i: usize = 0;
        while i < 81
            invariant
                i <= 81,
                self@.len() == 81,
                forall|k: int| 0 <= k < i ==> #[trigger] self@[k] <= 9,
                forall|k: int| 0 <= k < i && self@[k] != 0 ==> fits(self@, #[trigger] self@[k], k),
            decreases 81 - i,
        {
            let cell = self.board[i];
            if cell > 9 || (cell != 0 && !self.is_valid_filler(cell, i)) {
                return false;
            }
            i += 1;
        }
        true
    }

    /// The cells of the board in row-major order.
    pub fn cells(&self) -> (cells: [u8; 81])
        ensures
            cells@ == self@,
    {
        self.board
    }

    /// The value of the cell at `index`.
    pub fn get(&self, index: usize) -> (v: u8)
        requires
            index < 81,
        ensures
            v == self@[index as int],
    {
        self.board[index]
    }

    /// Writes `value` into the cell at `index`.
    pub(crate) fn set_cell(&mut self, index: usize, value: u8)
        requires
            index < 81,
        ensures
            final(self)@ == old(self)@.update(index as int, value),
    {
        self.board[index] = value;
    }

    /// The index of the first empty cell in row-major order, if there is one.
    pub fn first_empty(&self) -> (found: Option<usize>)
        ensures
            match found {
                Some(i) => i < 81 && self@[i as int] == 0 && forall|k: int|
                    0 <= k < i ==> #[trigger] self@[k] != 0,
                None => full(self@),
            },
    {
        let mut i: usize = 0;
        while i < 81
            invariant
                i <= 81,
                forall|k: int| 0 <= k < i ==> #[trigger] self@[k] != 0,
            decreases 81 - i,
        {
            if self.board[i] == 0 {
                return Some(i);
            }
            i += 1;
        }
        None
    }

    /// Whether `number` may stand at `index`: whether no other cell of the
    /// row, the column or the block of that cell holds it.  What the cell
    /// itself holds plays no part.
    pub fn is_valid_filler(&self, number: u8, index: usize) -> (ok: bool)
        requires
            index < 81,
        ensures
            ok == fits(self@, number, index as int),
    {
        let row = index / 9;
        let column = index % 9;
        let mut c: usize = 0;
        while c < 9
            invariant
                c <= 9,
                index < 81,
                row == index / 9,
                column == index % 9,
                forall|j: int|
                    0 <= j < 81 && j != index && row_of(j) == row && col_of(j) < c
                        ==> #[trigger] self@[j] != number,
            decreases 9 - c,
        {
            if c != column && self.board[row * 9 + c] == number {
                assert(peers(index as int, row * 9 + c));
                return false;
            }
            c += 1;
        }
        let mut r: usize = 0;
        while r < 9
            invariant
                r <= 9,
                index < 81,
                row == index / 9,
                column == index % 9,
                forall|j: int|
                    0 <= j < 81 && j != index && col_of(j) == column && row_of(j) < r
                        ==> #[trigger] self@[j] != number,
            decreases 9 - r,
        {
            if r != row && self.board[r * 9 + column] == number {
                assert(peers(index as int, r * 9 + column));
                return false;
            }
            r += 1;
        }
        let top = (row / 3) * 3;
        let left = (column / 3) * 3;
        let mut i: usize = 0;
        while i < 3
            invariant
                i <= 3,
                index < 81,
                row == index / 9,
                column == index % 9,
                top == (row / 3) * 3,
                left == (column / 3) * 3,
                forall|j: int|
                    0 <= j < 81 && j != index && same_block(index as int, j) && row_of(j) < top + i
                        ==> #[trigger] self@[j] != number,
            decreases 3 - i,
        {
            let x = top + i;
            let mut k: usize = 0;
            while k < 3
                invariant
                    k <= 3,
                    i < 3,
                    index < 81,
                    row == index / 9,
                    column == index % 9,
                    top == (row / 3) * 3,
                    left == (column / 3) * 3,
                    x == top + i,
                    forall|j: int|
                        0 <= j < 81 && j != index && same_block(index as int, j) && row_of(j) < x
                            ==> #[trigger] self@[j] != number,
                    forall|j: int|
                        0 <= j < 81 && j != index && same_block(index as int, j) && row_of(j) == x
                            && col_of(j) < left + k ==> #[trigger] self@[j] != number,
                decreases 3 - k,
            {
                let y = left + k;
                if !(x == row && y == column) && self.board[x * 9 + y] == number {
                    assert(peers(index as int, x * 9 + y));
                    return false;
                }
                k += 1;
            }
            i += 1;
        }
        true
    }

    /// Whether no cell is empty.
    pub fn is_filled(&self) -> (r: bool)
        ensures
            r == full(self@),
    {
        let mut i: usize = 0;
        while i < 81
            invariant
                i <= 81,
                forall|k: int| 0 <= k < i ==> #[trigger] self@[k] != 0,
            decreases 81 - i,
        {
            if self.board[i] == 0 {
                return false;
            }
            i += 1;
        }
        true
    }
}

} // verus!
