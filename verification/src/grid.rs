//! The mathematical model of a Sudoku grid.
//!
//! A grid is a sequence of 81 cells in row-major order.  A cell holds `0`
//! when it is empty and a digit `1..=9` otherwise.

use vstd::prelude::*;

verus! {

/// Row of the cell with index `i`.
pub open spec fn row_of(i: int) -> int {
    i / 9
}

/// Column of the cell with index `i`.
pub open spec fn col_of(i: int) -> int {
    i % 9
}

/// Cells `i` and `j` lie in the same 3×3 block.
pub open spec fn same_block(i: int, j: int) -> bool {
    row_of(i) / 3 == row_of(j) / 3 && col_of(i) / 3 == col_of(j) / 3
}

/// Cells `i` and `j` are distinct and share a row, a column or a block.
pub open spec fn peers(i: int, j: int) -> bool {
    i != j && (row_of(i) == row_of(j) || col_of(i) == col_of(j) || same_block(i, j))
}

/// `s` has 81 cells, each empty or a digit `1..=9`.
pub open spec fn well_shaped(s: Seq<u8>) -> bool {
    s.len() == 81 && forall|i: int| 0 <= i < 81 ==> #[trigger] s[i] <= 9
}

/// Digit `d` occurs in no peer of cell `i`.  The cell itself is not looked at.
pub open spec fn fits(s: Seq<u8>, d: u8, i: int) -> bool {
    forall|j: int| 0 <= j < 81 && peers(i, j) ==> #[trigger] s[j] != d
}

/// No two peers hold the same digit.
pub open spec fn consistent(s: Seq<u8>) -> bool {
    forall|i: int, j: int|
        0 <= i < 81 && 0 <= j < 81 && peers(i, j) && #[trigger] s[i] != 0 ==> s[i] != #[trigger] s[j]
}

/// `s` is a grid that respects the Sudoku constraint.
pub open spec fn valid(s: Seq<u8>) -> bool {
    well_shaped(s) && consistent(s)
}

/// No cell of `s` is empty.
pub open spec fn full(s: Seq<u8>) -> bool {
    forall|i: int| 0 <= i < s.len() ==> #[trigger] s[i] != 0
}

/// Every cell of `s` is empty.
pub open spec fn blank(s: Seq<u8>) -> bool {
    forall|i: int| 0 <= i < s.len() ==> #[trigger] s[i] == 0
}

/// `t` keeps every digit of `s`.
pub open spec fn extends(t: Seq<u8>, s: Seq<u8>) -> bool {
    t.len() == s.len() && forall|i: int|
        #![trigger s[i]]
        #![trigger t[i]]
        0 <= i < s.len() && s[i] != 0 ==> t[i] == s[i]
}

/// `t` is a completed grid that keeps the digits of `s` and respects the
/// Sudoku constraint.
pub open spec fn is_solution(t: Seq<u8>, s: Seq<u8>) -> bool {
    valid(t) && full(t) && extends(t, s)
}

/// `s` can be completed.
pub open spec fn solvable(s: Seq<u8>) -> bool {
    exists|t: Seq<u8>| is_solution(t, s)
}

/// All completions of `s`.
pub open spec fn solutions(s: Seq<u8>) -> Set<Seq<u8>> {
    Set::new(|t: Seq<u8>| is_solution(t, s))
}

/// The completions of `s` whose cell `i` holds a digit smaller than `d`.
pub open spec fn solutions_below(s: Seq<u8>, i: int, d: int) -> Set<Seq<u8>> {
    Set::new(|t: Seq<u8>| is_solution(t, s) && t[i] < d)
}

/// `t` and `u` hold the same in every cell before cell `i`.
pub open spec fn agree_before(t: Seq<u8>, u: Seq<u8>, i: int) -> bool {
    forall|j: int| 0 <= j < i ==> #[trigger] t[j] == u[j]
}

/// `t` comes before `u` in the order in which completions are found: at the
/// first cell in row-major order where they differ, `t` holds the smaller
/// digit.
pub open spec fn precedes(t: Seq<u8>, u: Seq<u8>) -> bool {
    exists|i: int| 0 <= i < t.len() && #[trigger] agree_before(t, u, i) && t[i] < u[i]
}

/// The completions of `s` that come before `f`.
pub open spec fn earlier(s: Seq<u8>, f: Seq<u8>) -> Set<Seq<u8>> {
    Set::new(|t: Seq<u8>| is_solution(t, s) && precedes(t, f))
}

/// The number of elements of `a`, where every number above two counts as two.
pub open spec fn count_up_to_two(a: Set<Seq<u8>>) -> nat {
    if forall|t: Seq<u8>| !a.contains(t) {
        0
    } else if forall|t: Seq<u8>, u: Seq<u8>| a.contains(t) && a.contains(u) ==> t == u {
        1
    } else {
        2
    }
}

/// `s` has exactly one completion.
pub open spec fn uniquely_solvable(s: Seq<u8>) -> bool {
    count_up_to_two(solutions(s)) == 1
}

/// The smaller of `n` and two.
pub open spec fn at_most_two(n: nat) -> nat {
    if n < 2 {
        n
    } else {
        2
    }
}

/// Number of digits among the first `n` cells of `s`.
pub open spec fn filled_below(s: Seq<u8>, n: int) -> nat
    decreases n,
{
    if n <= 0 {
        0
    } else if s[n - 1] != 0 {
        filled_below(s, n - 1) + 1
    } else {
        filled_below(s, n - 1)
    }
}

/// Number of digits in `s`.
pub open spec fn filled(s: Seq<u8>) -> nat {
    filled_below(s, s.len() as int)
}

/// Cell `i` is the only empty cell of `s`.
pub open spec fn only_gap(s: Seq<u8>, i: int) -> bool {
    0 <= i < s.len() && s[i] == 0 && forall|j: int| 0 <= j < s.len() && j != i ==> #[trigger] s[j] != 0
}

} // verus!
