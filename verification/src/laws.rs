//! Laws that tie the operations on a board together.

use vstd::prelude::*;
use crate::count::{counted, stops};
use crate::facts::{
    lemma_clear_keeps_valid, lemma_count_disjoint_union, lemma_count_subset,
    lemma_full_has_one_solution, lemma_one_gap_has_one_solution,
};
use crate::generate::{carved_from, completed_from, generated_from, needed_clue};
use crate::grid::{
    agree_before, consistent, count_up_to_two, earlier, extends, fits, full, is_solution, only_gap,
    peers, precedes, solutions, solvable, uniquely_solvable, valid,
};

verus! {

/// In a grid that respects the Sudoku constraint, every digit fits at its own
/// cell: it occurs nowhere else in its row, its column or its block.
pub proof fn law_digits_fit(s: Seq<u8>)
    requires
        valid(s),
    ensures
        forall|i: int| 0 <= i < 81 && s[i] != 0 ==> fits(s, #[trigger] s[i], i),
{
}

/// A grid in which every digit fits at its own cell respects the Sudoku
/// constraint.
pub proof fn law_fitting_digits_are_consistent(s: Seq<u8>)
    requires
        s.len() == 81,
        forall|i: int| 0 <= i < 81 && s[i] != 0 ==> fits(s, #[trigger] s[i], i),
    ensures
        consistent(s),
{
}

/// A puzzle with exactly one completion has a completion, and any two
/// completions of it are the same grid.
pub proof fn law_unique_completion(p: Seq<u8>, t: Seq<u8>, u: Seq<u8>)
    requires
        uniquely_solvable(p),
    ensures
        solvable(p),
        is_solution(t, p) && is_solution(u, p) ==> t == u,
{
    let w = choose|w: Seq<u8>| solutions(p).contains(w);
    assert(is_solution(w, p));
    if is_solution(t, p) && is_solution(u, p) {
        assert(solutions(p).contains(t) && solutions(p).contains(u));
    }
}

/// A puzzle generated from a grid that can be completed, with at least one
/// attempt, has an empty cell and exactly one completion.
pub proof fn law_generated_puzzle_is_unique(p: Seq<u8>, start: Seq<u8>, attempts: u32)
    requires
        valid(start),
        solvable(start),
        generated_from(p, start, attempts),
    ensures
        valid(p),
        uniquely_solvable(p),
        attempts > 0 ==> !full(p),
{
    let base = choose|base: Seq<u8>|
        completed_from(base, start) && #[trigger] carved_from(p, base, attempts);
    lemma_full_has_one_solution(base);
    lemma_carved_is_valid(p, base);
    if attempts > 0 && full(p) {
        assert(p[0] != 0);
        let c = choose|c: int| #[trigger] needed_clue(p, c);
        let q = p.update(c, 0);
        assert forall|j: int| 0 <= j < 81 && j != c implies #[trigger] q[j] != 0 by {
            assert(q[j] == p[j]);
        }
        assert(only_gap(q, c));
        lemma_clear_keeps_valid(p, c);
        lemma_full_has_one_solution(p);
        assert(is_solution(p, q));
        lemma_one_gap_has_one_solution(q, c);
    }
}

/// A valid grid with digits taken away is valid.
pub proof fn lemma_carved_is_valid(p: Seq<u8>, base: Seq<u8>)
    requires
        valid(base),
        extends(base, p),
    ensures
        valid(p),
{
    assert forall|i: int| 0 <= i < 81 implies #[trigger] p[i] <= 9 by {
        if p[i] != 0 {
            assert(base[i] == p[i]);
        }
    }
    assert forall|i: int, j: int|
        0 <= i < 81 && 0 <= j < 81 && peers(i, j) && #[trigger] p[i] != 0 implies p[i]
        != #[trigger] p[j] by {
        assert(base[i] == p[i]);
        if p[j] != 0 {
            assert(base[j] == p[j]);
        }
    }
}

/// Counting the completions of a puzzle generated from a grid that can be
/// completed, with at least one attempt and the counter at zero, counts exactly
/// one and does not end with the signal to stop.
pub proof fn law_generated_puzzle_counts_one(p: Seq<u8>, start: Seq<u8>, attempts: u32)
    requires
        valid(start),
        solvable(start),
        attempts > 0,
        generated_from(p, start, attempts),
    ensures
        counted(p, 0) == 1,
        !stops(p, 0),
{
    law_generated_puzzle_is_unique(p, start, attempts);
}

/// Completing a puzzle that was generated from a grid that can be completed
/// gives back the completed grid from which the digits were taken away: every
/// completion `t` of the puzzle completes the starting grid, the puzzle is
/// that completion with digits taken away, and the puzzle has no other.
pub proof fn law_resolve_restores(p: Seq<u8>, start: Seq<u8>, attempts: u32, t: Seq<u8>)
    requires
        valid(start),
        solvable(start),
        generated_from(p, start, attempts),
        is_solution(t, p),
    ensures
        is_solution(t, start),
        carved_from(p, t, attempts),
        forall|u: Seq<u8>| is_solution(u, p) ==> u == t,
{
    let base = choose|base: Seq<u8>|
        completed_from(base, start) && #[trigger] carved_from(p, base, attempts);
    law_generated_puzzle_is_unique(p, start, attempts);
    assert(is_solution(base, p));
    law_unique_completion(p, t, base);
    assert forall|u: Seq<u8>| is_solution(u, p) implies u == t by {
        law_unique_completion(p, u, t);
    }
}

/// Two grids that differ among their first `n` cells have a first cell where
/// they differ.
pub proof fn lemma_first_difference(t: Seq<u8>, u: Seq<u8>, n: int) -> (i: int)
    requires
        0 <= n,
        !agree_before(t, u, n),
    ensures
        0 <= i < n,
        agree_before(t, u, i),
        t[i] != u[i],
    decreases n,
{
    if n == 0 {
        0
    } else if agree_before(t, u, n - 1) {
        n - 1
    } else {
        lemma_first_difference(t, u, n - 1)
    }
}

/// Of two different grids of the same size, one comes before the other.
pub proof fn law_precedes_is_total(t: Seq<u8>, u: Seq<u8>)
    requires
        t.len() == u.len(),
        t != u,
    ensures
        precedes(t, u) || precedes(u, t),
{
    if agree_before(t, u, t.len() as int) {
        assert(t =~= u);
    }
    let i = lemma_first_difference(t, u, t.len() as int);
    assert(agree_before(u, t, i));
}

/// The order in which completions are found is transitive, and no grid comes
/// before itself.
pub proof fn law_precedes_is_an_order(t: Seq<u8>, u: Seq<u8>, v: Seq<u8>)
    requires
        t.len() == u.len() == v.len(),
    ensures
        !precedes(t, t),
        precedes(t, u) && precedes(u, v) ==> precedes(t, v),
{
    if precedes(t, u) && precedes(u, v) {
        let i = choose|i: int| 0 <= i < t.len() && #[trigger] agree_before(t, u, i) && t[i] < u[i];
        let k = choose|k: int| 0 <= k < u.len() && #[trigger] agree_before(u, v, k) && u[k] < v[k];
        let m = if i < k {
            i
        } else {
            k
        };
        assert(agree_before(t, v, m));
    }
}

/// What `count_solutions` says of the board that it leaves when it stops
/// while counting holds of one grid only: a completion of `s` such that the
/// number of completions before it makes exactly one together with the
/// counter's first value `c`.
pub proof fn law_stopped_board_is_determined(s: Seq<u8>, c: nat, f: Seq<u8>, g: Seq<u8>)
    requires
        is_solution(f, s),
        is_solution(g, s),
        c + count_up_to_two(earlier(s, f)) == 1,
        c + count_up_to_two(earlier(s, g)) == 1,
    ensures
        f == g,
{
    if f != g {
        law_precedes_is_total(f, g);
        let (a, b) = if precedes(f, g) {
            (f, g)
        } else {
            (g, f)
        };
        let before_a = earlier(s, a);
        let only_a = Set::<Seq<u8>>::empty().insert(a);
        assert forall|t: Seq<u8>| before_a.contains(t) implies earlier(s, b).contains(t) by {
            law_precedes_is_an_order(t, a, b);
        }
        law_precedes_is_an_order(a, a, a);
        assert(only_a.contains(a));
        assert(before_a.disjoint(only_a));
        lemma_count_disjoint_union(before_a, only_a);
        lemma_count_subset(before_a.union(only_a), earlier(s, b));
    }
}

} // verus!
