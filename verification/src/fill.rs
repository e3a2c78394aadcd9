//! Completing a board by backtracking over randomly ordered candidates.

use vstd::prelude::*;
use crate::board::Board;
use crate::facts::{
    lemma_blank_solvable, lemma_filled_update, lemma_full_has_one_solution, lemma_place_keeps_valid,
    lemma_solution_digit_fits, lemma_solution_of_placed,
};
use crate::grid::{blank, filled, fits, full, is_solution, solvable, valid};
use crate::random::{is_digit_permutation, occurs, shuffled_list};

verus! {

/// A grid with a digit placed where the digit does not fit has no completion.
pub proof fn lemma_misfit_unsolvable(s: Seq<u8>, i: int, d: u8)
    requires
        s.len() == 81,
        0 <= i < 81,
        s[i] == 0,
        d != 0,
        !fits(s, d, i),
    ensures
        !solvable(s.update(i, d)),
{
    if solvable(s.update(i, d)) {
        let t = choose|t: Seq<u8>| is_solution(t, s.update(i, d));
        lemma_solution_of_placed(s, t, i, d);
        lemma_solution_digit_fits(s, t, i);
    }
}

/// A grid that has no completion with any entry of a list of all digits at an
/// empty cell has no completion at all.
pub proof fn lemma_no_digit_unsolvable(s: Seq<u8>, i: int, digits: Seq<u8>)
    requires
        s.len() == 81,
        0 <= i < 81,
        s[i] == 0,
        is_digit_permutation(digits),
        forall|m: int| 0 <= m < 9 ==> !solvable(#[trigger] s.update(i, digits[m])),
    ensures
        !solvable(s),
{
    if solvable(s) {
        let t = choose|t: Seq<u8>| is_solution(t, s);
        lemma_solution_digit_fits(s, t, i);
        assert(occurs(digits, t[i]));
        let m = choose|m: int| 0 <= m < 9 && digits[m] == t[i];
        assert(!solvable(s.update(i, digits[m])));
    }
}

impl Board {
    /// Completes the board if it can be completed, and leaves it as it was if
    /// not.  Returns whether it completed it.  Which completion is found
    /// depends on the random order in which the digits are tried.
    pub fn fill_grid(&mut self) -> (done: bool)
        requires
            old(self).wf(),
        ensures
            final(self).wf(),
            done == solvable(old(self)@),
            done ==> is_solution(final(self)@, old(self)@),
            done ==> forall|i: int|
                0 <= i < 81 ==> fits(final(self)@, #[trigger] final(self)@[i], i),
            !done ==> final(self)@ == old(self)@,
            blank(old(self)@) ==> done && full(final(self)@),
        decreases 81 - filled(old(self)@),
    {
        proof {
            if blank(self@) {
                lemma_blank_solvable(self@);
            }
        }
        let index = match self.first_empty() {
            None => {
                proof {
                    lemma_full_has_one_solution(self@);
                }
                return true;
            },
            Some(i) => i,
        };
        let numbers = shuffled_list();
        let ghost s = self@;
        proof {
            lemma_filled_update(s, index as int, 0);
        }
        let mut n: usize = 0;
        while n < 9
            invariant
                n <= 9,
                index < 81,
                valid(s),
                s[index as int] == 0,
                s == old(self)@,
                self@ == s,
                filled(s) <= 81,
                is_digit_permutation(numbers@),
                forall|m: int| 0 <= m < n ==> !solvable(#[trigger] s.update(index as int, numbers@[m])),
            decreases 9 - n,
        {
            let number = numbers[n];
            let ghost placed = s.update(index as int, number);
            if self.is_valid_filler(number, index) {
                self.set_cell(index, number);
                proof {
                    lemma_place_keeps_valid(s, number, index as int);
                    lemma_filled_update(s, index as int, number);
                    lemma_filled_update(placed, index as int, number);
                }
                if self.is_filled() {
                    proof {
                        lemma_full_has_one_solution(placed);
                        lemma_solution_of_placed(s, placed, index as int, number);
                    }
                    return true;
                } else if self.fill_grid() {
                    proof {
                        lemma_solution_of_placed(s, self@, index as int, number);
                    }
                    return true;
                } else {
                    self.set_cell(index, 0);
                    assert(self@ == s);
                }
            } else {
                proof {
                    lemma_misfit_unsolvable(s, index as int, number);
                }
            }
            n += 1;
        }
        proof {
            lemma_no_digit_unsolvable(s, index as int, numbers@);
        }
        false
    }
}

} // verus!
