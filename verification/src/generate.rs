//! Making a puzzle: a completed board from which digits are taken away as long
//! as a single completion remains.

use vstd::prelude::*;
use crate::board::Board;
use crate::facts::{
    lemma_clear_keeps_valid, lemma_filled_below_bound, lemma_filled_below_pos,
    lemma_filled_update, lemma_full_has_one_solution,
};
use crate::grid::{
    blank, extends, filled, filled_below, is_solution, solvable, uniquely_solvable, valid,
};
use crate::random::random_below;

verus! {

/// Emptying the digit at cell `c` of `p` would leave more than one completion,
/// or none.
pub open spec fn needed_clue(p: Seq<u8>, c: int) -> bool {
    0 <= c < p.len() && p[c] != 0 && !uniquely_solvable(p.update(c, 0))
}

/// `p` is a puzzle that `attempts` refused removals may leave behind when the
/// digits are taken away from the grid `base`.
///
/// `p` is `base` with some digits taken away.  Unless nothing was taken away,
/// `p` has exactly one completion.  With no attempt nothing is taken away;
/// otherwise `p` is blank or holds a digit that cannot be taken away without
/// losing that property.
pub open spec fn carved_from(p: Seq<u8>, base: Seq<u8>, attempts: u32) -> bool {
    &&& extends(base, p)
    &&& p == base || uniquely_solvable(p)
    &&& attempts == 0 ==> p == base
    &&& attempts > 0 ==> blank(p) || exists|c: int| #[trigger] needed_clue(p, c)
}

/// `base` is what puzzle generation takes digits away from when it starts
/// from the grid `start`: a completion of `start` if it has one, and `start`
/// itself otherwise.
pub open spec fn completed_from(base: Seq<u8>, start: Seq<u8>) -> bool {
    if solvable(start) {
        is_solution(base, start)
    } else {
        base == start
    }
}

/// `p` is a puzzle that `attempts` refused removals may leave behind when one
/// starts from the grid `start`.
pub open spec fn generated_from(p: Seq<u8>, start: Seq<u8>, attempts: u32) -> bool {
    exists|base: Seq<u8>| completed_from(base, start) && #[trigger] carved_from(p, base, attempts)
}

/// Cell `c` of `s` holds a digit and has exactly `n` digits before it in
/// row-major order.
pub open spec fn is_pick(s: Seq<u8>, c: int, n: int) -> bool {
    0 <= c < s.len() && s[c] != 0 && filled_below(s, c) == n
}

/// The cell of `s` that holds a digit and has exactly `n` digits before it.
pub open spec fn picked_cell(s: Seq<u8>, n: int) -> int {
    choose|c: int| is_pick(s, c, n)
}

/// A digit at cell `a` is counted among the digits before any later cell.
pub proof fn lemma_filled_below_grows(s: Seq<u8>, a: int, b: int)
    requires
        0 <= a < b <= s.len(),
        s[a] != 0,
    ensures
        filled_below(s, a) < filled_below(s, b),
    decreases b,
{
    if a < b - 1 {
        lemma_filled_below_grows(s, a, b - 1);
    }
}

/// Only one cell holds a digit with exactly `n` digits before it.
pub proof fn lemma_pick_is_unique(s: Seq<u8>, a: int, b: int, n: int)
    requires
        is_pick(s, a, n),
        is_pick(s, b, n),
    ensures
        a == b,
        picked_cell(s, n) == a,
{
    if a < b {
        lemma_filled_below_grows(s, a, b);
    }
    if b < a {
        lemma_filled_below_grows(s, b, a);
    }
    let c = picked_cell(s, n);
    if c < a {
        lemma_filled_below_grows(s, c, a);
    }
    if a < c {
        lemma_filled_below_grows(s, a, c);
    }
}

impl Board {
    /// The number of cells that hold a digit.
    pub fn count_filled(&self) -> (n: usize)
        requires
            self.wf(),
        ensures
            n == filled(self@),
            n <= 81,
    {
        let mut n: usize = 0;
        let mut i: usize = 0;
        while i < 81
            invariant
                i <= 81,
                n == filled_below(self@, i as int),
                n <= i,
            decreases 81 - i,
        {
            if self.get(i) != 0 {
                n += 1;
            }
            i += 1;
        }
        n
    }

    /// The index of the cell that holds a digit and has exactly `n` such cells
    /// before it in row-major order.
    pub fn nth_filled(&self, n: usize) -> (index: usize)
        requires
            self.wf(),
            n < filled(self@),
        ensures
            index < 81,
            self@[index as int] != 0,
            filled_below(self@, index as int) == n,
            index == picked_cell(self@, n as int),
    {
        let mut seen: usize = 0;
        let mut i: usize = 0;
        proof {
            lemma_filled_below_bound(self@, 81);
        }
        while self.get(i) == 0 || seen < n
            invariant
                i < 81,
                self.wf(),
                seen == filled_below(self@, i as int),
                seen <= n < filled(self@),
            decreases 81 - i,
        {
            if self.get(i) != 0 {
                seen += 1;
            }
            i += 1;
        }
        proof {
            lemma_pick_is_unique(self@, i as int, i as int, n as int);
        }
        i
    }

    /// Empties the cell at `index` if the board then has exactly one
    /// completion, and leaves the board as it was if not.  Returns whether the
    /// cell was emptied.
    pub fn remove_if_unique(&mut self, index: usize) -> (removed: bool)
        requires
            old(self).wf(),
            index < 81,
        ensures
            final(self).wf(),
            removed == uniquely_solvable(old(self)@.update(index as int, 0)),
            removed ==> final(self)@ == old(self)@.update(index as int, 0),
            !removed ==> final(self)@ == old(self)@,
    {
        let backup = self.get(index);
        self.set_cell(index, 0);
        proof {
            lemma_clear_keeps_valid(old(self)@, index as int);
        }
        let mut cloned_board = self.clone();
        let mut count: u32 = 0;
        assert(cloned_board@ == self@);
        assert(self@[index as int] == 0);
        Board::count_solutions(&mut cloned_board, &mut count);
        if count != 1 {
            self.set_cell(index, backup);
            assert(self@ == old(self)@);
            false
        } else {
            true
        }
    }

    /// One round of taking digits away, with `remaining` attempts left: the
    /// cell that holds a digit and has `pick` digits before it is emptied if
    /// the board then has exactly one completion.  If not, the board stays as
    /// it was and the round uses up one attempt.  Returns the attempts that are
    /// left after the round.
    pub fn removal_round(&mut self, pick: usize, remaining: u32) -> (left: u32)
        requires
            old(self).wf(),
            pick < filled(old(self)@),
            remaining > 0,
        ensures
            final(self).wf(),
            is_pick(old(self)@, picked_cell(old(self)@, pick as int), pick as int),
            uniquely_solvable(old(self)@.update(picked_cell(old(self)@, pick as int), 0)) ==> left
                == remaining && final(self)@ == old(self)@.update(
                picked_cell(old(self)@, pick as int),
                0,
            ),
            !uniquely_solvable(old(self)@.update(picked_cell(old(self)@, pick as int), 0)) ==> left
                == remaining - 1 && final(self)@ == old(self)@,
    {
        let index = self.nth_filled(pick);
        if self.remove_if_unique(index) {
            remaining
        } else {
            remaining - 1
        }
    }

    /// Turns the board into a puzzle.  The board is completed first (it stays
    /// as it is if it has no completion).  Then a randomly chosen digit is
    /// taken away whenever the board keeps exactly one completion without it.
    /// Each choice for which this fails uses up one of the `attempts`; the work
    /// ends when none is left, or when no digit is left.
    pub fn generate_problem(&mut self, attempts: u32)
        requires
            old(self).wf(),
        ensures
            final(self).wf(),
            generated_from(final(self)@, old(self)@, attempts),
    {
        let mut remaining_attempts = attempts;
        let mut rng = rand::thread_rng();
        self.fill_grid();
        let ghost base = self@;
        proof {
            if solvable(old(self)@) {
                lemma_full_has_one_solution(base);
            }
        }
        let mut clues = self.count_filled();
        while remaining_attempts > 0 && clues > 0
            invariant
                self.wf(),
                valid(base),
                extends(base, self@),
                self@ == base || uniquely_solvable(self@),
                clues == filled(self@),
                remaining_attempts <= attempts,
                attempts == 0 ==> self@ == base,
                remaining_attempts == 0 && attempts > 0 ==> exists|c: int|
                    #[trigger] needed_clue(self@, c),
            decreases remaining_attempts, clues,
        {
            let pick = random_below(&mut rng, 0, clues);
            let ghost before = self@;
            let ghost cell = picked_cell(before, pick as int);
            let left = self.removal_round(pick, remaining_attempts);
            proof {
                lemma_filled_update(before, cell, 0);
            }
            if left == remaining_attempts {
                clues -= 1;
            } else {
                remaining_attempts = left;
                assert(needed_clue(self@, cell));
            }
        }
        proof {
            if clues == 0 {
                lemma_no_clue_is_blank(self@);
            }
            assert(completed_from(base, old(self)@));
            assert(carved_from(self@, base, attempts));
        }
    }
}

/// A grid without digits is blank.
pub proof fn lemma_no_clue_is_blank(s: Seq<u8>)
    requires
        filled(s) == 0,
    ensures
        blank(s),
{
    assert forall|i: int| 0 <= i < s.len() implies #[trigger] s[i] == 0 by {
        if s[i] != 0 {
            lemma_filled_below_pos(s, i, s.len() as int);
        }
    }
}

} // verus!
