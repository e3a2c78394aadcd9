//! Counting the completions of a board, up to two.
//!
//! The search fills the empty cells in row-major order and tries the digits of
//! each cell in increasing order, so it finds the completions in the order
//! that `precedes` describes.  It stops as soon as the counter exceeds one.

use vstd::prelude::*;
use crate::board::Board;
use crate::facts::{
    lemma_count_disjoint_union, lemma_count_subset, lemma_earlier_split, lemma_filled_update,
    lemma_fits_ignores_cell, lemma_full_has_one_solution, lemma_one_gap_has_one_solution,
    lemma_none_earlier_than_full, lemma_place_keeps_valid, lemma_solution_of_placed,
    lemma_solutions_below_ends, lemma_solutions_below_split,
};
use crate::grid::{
    at_most_two, count_up_to_two, earlier, filled, full, is_solution, only_gap, solutions,
    solutions_below, valid,
};

verus! {

/// The counter after the completions of `s` were counted, starting from `c`.
/// Nothing is counted when `c` exceeds one already or `s` has no empty cell;
/// otherwise the number of completions is added, but the counter never goes
/// beyond two.
pub open spec fn counted(s: Seq<u8>, c: nat) -> nat {
    if c > 1 || full(s) {
        c
    } else {
        at_most_two(c + count_up_to_two(solutions(s)))
    }
}

/// Whether counting the completions of `s`, starting from `c`, ends with the
/// signal to stop: the counter exceeds one, or `s` had no empty cell.
pub open spec fn stops(s: Seq<u8>, c: nat) -> bool {
    full(s) || counted(s, c) > 1
}

/// Placing a digit at an empty cell fills the grid exactly if the cell was the
/// only empty one.
pub proof fn lemma_full_after_last(s: Seq<u8>, i: int, d: u8)
    requires
        0 <= i < s.len(),
        s[i] == 0,
        d != 0,
    ensures
        full(s.update(i, d)) == only_gap(s, i),
{
    let u = s.update(i, d);
    if full(u) {
        assert forall|j: int| 0 <= j < s.len() && j != i implies #[trigger] s[j] != 0 by {
            assert(u[j] == s[j]);
        }
    }
    if only_gap(s, i) {
        assert forall|j: int| 0 <= j < u.len() implies #[trigger] u[j] != 0 by {
            if j != i {
                assert(s[j] != 0);
            }
        }
    }
}

impl Board {
    /// Adds to `count` the number of completions of `board`, but stops as soon
    /// as `count` exceeds one.
    ///
    /// Returns `true` if `count` exceeds one in the end, or if the board had
    /// no empty cell: then nothing is counted.  Returns `false` if the search
    /// went through every completion with `count` at one at most.
    ///
    /// The board is as it was unless the search stopped while counting.  Then
    /// it holds the completion that was counted last: the first completion if
    /// `count` was one at the start, and the second if it was zero.
    pub fn count_solutions(board: &mut Self, count: &mut u32) -> (stop: bool)
        requires
            old(board).wf(),
        ensures
            final(board).wf(),
            *final(count) == counted(old(board)@, *old(count) as nat),
            stop == stops(old(board)@, *old(count) as nat),
            *old(count) <= 1 && !full(old(board)@) ==> stop == (*final(count) > 1),
            !stop || *old(count) > 1 || full(old(board)@) ==> final(board)@ == old(board)@,
            stop && *old(count) <= 1 && !full(old(board)@) ==> is_solution(
                final(board)@,
                old(board)@,
            ) && *old(count) + count_up_to_two(earlier(old(board)@, final(board)@)) == 1,
        decreases 81 - filled(old(board)@),
    {
        if *count > 1 {
            return true;
        }
        let index = match board.first_empty() {
            None => {
                return true;
            },
            Some(i) => i,
        };
        let ghost s = board@;
        let ghost c0 = *count as nat;
        proof {
            lemma_filled_update(s, index as int, 0);
            lemma_solutions_below_ends(s, index as int);
        }
        let mut number: u8 = 1;
        while number < 10
            invariant
                1 <= number <= 10,
                index < 81,
                valid(s),
                s[index as int] == 0,
                forall|j: int| 0 <= j < index ==> #[trigger] s[j] != 0,
                s == old(board)@,
                c0 == *old(count) as nat,
                filled(s) <= 81,
                board@.len() == 81,
                board@.update(index as int, 0) == s,
                *count <= 1,
                *count == c0 + count_up_to_two(solutions_below(s, index as int, number as int)),
            decreases 10 - number,
        {
            let ghost placed = s.update(index as int, number);
            let ghost below = solutions_below(s, index as int, number as int);
            proof {
                lemma_fits_ignores_cell(s, number, index as int, board@[index as int]);
                assert(s.update(index as int, board@[index as int]) == board@);
                lemma_solutions_below_split(s, index as int, number);
            }
            if board.is_valid_filler(number, index) {
                board.set_cell(index, number);
                proof {
                    assert(board@ == placed);
                    lemma_place_keeps_valid(s, number, index as int);
                    lemma_filled_update(s, index as int, number);
                    lemma_filled_update(placed, index as int, number);
                    lemma_full_after_last(s, index as int, number);
                    lemma_count_disjoint_union(below, solutions(placed));
                    lemma_count_subset(
                        solutions_below(s, index as int, number + 1),
                        solutions(s),
                    );
                }
                if board.is_filled() {
                    proof {
                        lemma_full_has_one_solution(placed);
                        lemma_solution_of_placed(s, placed, index as int, number);
                    }
                    *count = *count + 1;
                    if *count > 1 {
                        proof {
                            lemma_earlier_split(s, index as int, number, placed);
                            lemma_none_earlier_than_full(placed);
                            lemma_count_disjoint_union(below, earlier(placed, placed));
                        }
                        return true;
                    }
                    board.set_cell(index, 0);
                    proof {
                        assert(board@ == s);
                        lemma_one_gap_has_one_solution(s, index as int);
                    }
                    return false;
                }
                let ghost before = *count as nat;
                let stop = Board::count_solutions(board, count);
                if stop {
                    proof {
                        lemma_earlier_split(s, index as int, number, board@);
                        lemma_count_disjoint_union(below, earlier(placed, board@));
                    }
                    return true;
                }
            }
            number += 1;
        }
        board.set_cell(index, 0);
        assert(board@ == s);
        false
    }
}

} // verus!
