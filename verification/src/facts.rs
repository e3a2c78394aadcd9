//! Facts about the grid model that the proofs of the board operations rest on.

use vstd::prelude::*;
use vstd::relations::injective_on;
use vstd::set_lib::{lemma_int_range, lemma_len_subset, lemma_map_size, set_int_range};
use crate::grid::{
    agree_before, at_most_two, blank, count_up_to_two, earlier, filled, filled_below, fits, full,
    is_solution, only_gap, peers, precedes, solutions, solutions_below, solvable,
    uniquely_solvable, valid,
};

verus! {

/// Whether a digit fits at a cell does not depend on what the cell holds.
pub proof fn lemma_fits_ignores_cell(s: Seq<u8>, d: u8, i: int, v: u8)
    requires
        s.len() == 81,
        0 <= i < 81,
    ensures
        fits(s.update(i, v), d, i) == fits(s, d, i),
{
    let u = s.update(i, v);
    if fits(s, d, i) {
        assert forall|j: int| 0 <= j < 81 && peers(i, j) implies #[trigger] u[j] != d by {
            assert(u[j] == s[j]);
        }
    }
    if fits(u, d, i) {
        assert forall|j: int| 0 <= j < 81 && peers(i, j) implies #[trigger] s[j] != d by {
            assert(u[j] == s[j]);
        }
    }
}

/// Placing a digit that fits keeps a grid valid.
pub proof fn lemma_place_keeps_valid(s: Seq<u8>, d: u8, i: int)
    requires
        valid(s),
        0 <= i < 81,
        1 <= d <= 9,
        fits(s, d, i),
    ensures
        valid(s.update(i, d)),
{
    let u = s.update(i, d);
    assert forall|a: int, b: int|
        0 <= a < 81 && 0 <= b < 81 && peers(a, b) && #[trigger] u[a] != 0 implies u[a]
        != #[trigger] u[b] by {
        if a == i {
            assert(u[b] == s[b]);
        } else if b == i {
            assert(peers(i, a));
            assert(u[a] == s[a]);
        } else {
            assert(u[a] == s[a] && u[b] == s[b]);
        }
    }
}

/// Emptying a cell keeps a grid valid.
pub proof fn lemma_clear_keeps_valid(s: Seq<u8>, i: int)
    requires
        valid(s),
        0 <= i < 81,
    ensures
        valid(s.update(i, 0)),
{
    let u = s.update(i, 0);
    assert forall|a: int, b: int|
        0 <= a < 81 && 0 <= b < 81 && peers(a, b) && #[trigger] u[a] != 0 implies u[a]
        != #[trigger] u[b] by {
        if b == i {
        } else {
            assert(u[a] == s[a] && u[b] == s[b]);
        }
    }
}

/// In a completion of `s`, the digit at an empty cell of `s` fits there, and
/// the completion is one of `s` with that digit placed.
pub proof fn lemma_solution_digit_fits(s: Seq<u8>, t: Seq<u8>, i: int)
    requires
        is_solution(t, s),
        s.len() == 81,
        0 <= i < 81,
    ensures
        1 <= t[i] <= 9,
        fits(s, t[i], i),
        is_solution(t, s.update(i, t[i])),
{
    let d = t[i];
    assert forall|j: int| 0 <= j < 81 && peers(i, j) implies #[trigger] s[j] != d by {
        if s[j] != 0 {
            assert(t[j] == s[j]);
        }
    }
    let u = s.update(i, d);
    assert forall|j: int| 0 <= j < 81 && #[trigger] u[j] != 0 implies t[j] == u[j] by {
        if j != i {
            assert(u[j] == s[j]);
        }
    }
}

/// A completion of `s` with a digit placed at an empty cell is a completion
/// of `s` that holds this digit there.
pub proof fn lemma_solution_of_placed(s: Seq<u8>, t: Seq<u8>, i: int, d: u8)
    requires
        s.len() == 81,
        0 <= i < 81,
        s[i] == 0,
        d != 0,
        is_solution(t, s.update(i, d)),
    ensures
        is_solution(t, s),
        t[i] == d,
{
    let u = s.update(i, d);
    assert(u[i] == d);
    assert forall|j: int| 0 <= j < 81 && #[trigger] s[j] != 0 implies t[j] == s[j] by {
        assert(u[j] == s[j]);
    }
}

/// The digit of cell `row * 9 + c` of `s`.
pub open spec fn digit_in_row(s: Seq<u8>, row: int) -> spec_fn(int) -> int {
    |c: int| s[row * 9 + c] as int
}

/// In a valid grid with a single empty cell, at most one digit fits there: the
/// other eight cells of its row hold eight different digits.
pub proof fn lemma_last_digit_forced(s: Seq<u8>, i: int, d: u8, e: u8)
    requires
        valid(s),
        only_gap(s, i),
        1 <= d <= 9,
        1 <= e <= 9,
        fits(s, d, i),
        fits(s, e, i),
    ensures
        d == e,
{
    if d != e {
        let row = i / 9;
        let col = i % 9;
        let f = digit_in_row(s, row);
        let others = set_int_range(0, 9).remove(col);
        let digits = others.map(f);
        let free = set_int_range(1, 10).remove(d as int).remove(e as int);
        lemma_int_range(0, 9);
        lemma_int_range(1, 10);
        assert(others.len() == 8);
        assert(free.len() == 7);
        assert forall|a: int, b: int|
            others.contains(a) && others.contains(b) && #[trigger] f(a) == #[trigger] f(
                b,
            ) implies a == b by {
            if a != b {
                assert(peers(row * 9 + a, row * 9 + b));
                assert(s[row * 9 + a] != 0);
                assert(s[row * 9 + a] != s[row * 9 + b]);
            }
        }
        assert(injective_on(f, others));
        lemma_map_size(others, digits, f);
        assert forall|v: int| digits.contains(v) implies free.contains(v) by {
            let c = choose|c: int| others.contains(c) && v == f(c);
            assert(peers(i, row * 9 + c));
            assert(s[row * 9 + c] != 0);
            assert(s[row * 9 + c] <= 9);
            assert(s[row * 9 + c] != d);
            assert(s[row * 9 + c] != e);
        }
        assert(digits.subset_of(free));
        lemma_len_subset(digits, free);
    }
}

/// A valid grid without empty cells is its own and only completion.
pub proof fn lemma_full_has_one_solution(s: Seq<u8>)
    requires
        valid(s),
        full(s),
    ensures
        is_solution(s, s),
        forall|t: Seq<u8>| is_solution(t, s) ==> t == s,
        uniquely_solvable(s),
{
    assert forall|t: Seq<u8>| is_solution(t, s) implies t == s by {
        assert forall|j: int| 0 <= j < 81 implies t[j] == s[j] by {
            assert(s[j] != 0);
        }
        assert(t =~= s);
    }
    assert(solutions(s).contains(s));
}

/// A valid grid with a single empty cell has exactly one completion.
pub proof fn lemma_one_gap_has_one_solution(s: Seq<u8>, i: int)
    requires
        valid(s),
        only_gap(s, i),
        solvable(s),
    ensures
        uniquely_solvable(s),
{
    let w = choose|t: Seq<u8>| is_solution(t, s);
    assert(solutions(s).contains(w));
    assert forall|t: Seq<u8>, u: Seq<u8>|
        solutions(s).contains(t) && solutions(s).contains(u) implies t == u by {
        lemma_solution_digit_fits(s, t, i);
        lemma_solution_digit_fits(s, u, i);
        lemma_last_digit_forced(s, i, t[i], u[i]);
        assert forall|j: int| 0 <= j < 81 implies t[j] == u[j] by {
            if j != i {
                assert(s[j] != 0);
            }
        }
        assert(t =~= u);
    }
}

/// The digit that the pattern grid holds at cell `i`: each row lists the
/// digits in order, starting three later than the row above and one more
/// later in each band of three rows.
pub open spec fn pattern_digit(i: int) -> int {
    ((i / 9) * 3 + (i / 9) / 3 + i % 9) % 9 + 1
}

/// A completed grid.
pub open spec fn pattern() -> Seq<u8> {
    Seq::new(81, |i: int| pattern_digit(i) as u8)
}

/// How far the row of cell `i` of the pattern grid is rotated at that cell,
/// counted without wrapping around.
pub open spec fn pattern_shift(i: int) -> int {
    ((i / 9) % 3) * 3 + (i / 9) / 3 + i % 9
}

/// The digit of the pattern grid is the shift, wrapped around once at most.
pub proof fn lemma_pattern_digit_is_shift(i: int)
    requires
        0 <= i < 81,
    ensures
        0 <= pattern_shift(i) <= 16,
        pattern_digit(i) == if pattern_shift(i) < 9 {
            pattern_shift(i) + 1
        } else {
            pattern_shift(i) - 8
        },
{
    let row = i / 9;
    let col = i % 9;
    let band = row / 3;
    let line = row % 3;
    assert(row == band * 3 + line);
    assert(row * 3 + band + col == band * 9 + pattern_shift(i));
}

/// Two peers hold different digits in the pattern grid.
pub proof fn lemma_pattern_peers_differ(i: int, j: int)
    requires
        0 <= i < 81,
        0 <= j < 81,
        peers(i, j),
    ensures
        pattern_digit(i) != pattern_digit(j),
{
    lemma_pattern_digit_is_shift(i);
    lemma_pattern_digit_is_shift(j);
    let (row_i, col_i, row_j, col_j) = (i / 9, i % 9, j / 9, j % 9);
    assert(row_i == (row_i / 3) * 3 + row_i % 3 && row_j == (row_j / 3) * 3 + row_j % 3);
    assert(col_i == (col_i / 3) * 3 + col_i % 3 && col_j == (col_j / 3) * 3 + col_j % 3);
    if row_i == row_j {
        assert(col_i != col_j);
    } else if col_i == col_j {
    } else {
        assert(row_i / 3 == row_j / 3 && col_i / 3 == col_j / 3);
    }
}

/// The pattern grid is complete and respects the Sudoku constraint.
pub proof fn lemma_pattern_solved()
    ensures
        valid(pattern()),
        full(pattern()),
{
    let p = pattern();
    assert forall|i: int, j: int|
        0 <= i < 81 && 0 <= j < 81 && peers(i, j) && #[trigger] p[i] != 0 implies p[i]
        != #[trigger] p[j] by {
        lemma_pattern_peers_differ(i, j);
    }
}

/// The blank grid can be completed.
pub proof fn lemma_blank_solvable(s: Seq<u8>)
    requires
        s.len() == 81,
        blank(s),
    ensures
        solvable(s),
{
    lemma_pattern_solved();
    assert(is_solution(pattern(), s));
}

/// The capped size of the union of two disjoint sets.
pub proof fn lemma_count_disjoint_union(a: Set<Seq<u8>>, b: Set<Seq<u8>>)
    requires
        a.disjoint(b),
    ensures
        count_up_to_two(a.union(b)) == at_most_two(count_up_to_two(a) + count_up_to_two(b)),
{
    let u = a.union(b);
    if count_up_to_two(a) == 0 {
        assert(u =~= b);
    } else if count_up_to_two(b) == 0 {
        assert(u =~= a);
    } else {
        let x = choose|t: Seq<u8>| a.contains(t);
        let y = choose|t: Seq<u8>| b.contains(t);
        assert(u.contains(x) && u.contains(y));
        assert(x != y);
    }
}

/// The capped size of a set is at least that of any part of it.
pub proof fn lemma_count_subset(a: Set<Seq<u8>>, b: Set<Seq<u8>>)
    requires
        a.subset_of(b),
    ensures
        count_up_to_two(a) <= count_up_to_two(b),
{
    if count_up_to_two(a) >= 1 {
        let x = choose|t: Seq<u8>| a.contains(t);
        assert(b.contains(x));
        if count_up_to_two(a) == 2 {
            let (y, z) = choose|y: Seq<u8>, z: Seq<u8>| a.contains(y) && a.contains(z) && y != z;
            assert(b.contains(y) && b.contains(z));
        }
    }
}

/// The completions of `s` that hold less than `d + 1` at the empty cell `i`
/// are those that hold less than `d` and those that hold `d`, which are the
/// completions of `s` with `d` placed; there are none of the latter unless `d`
/// fits.
pub proof fn lemma_solutions_below_split(s: Seq<u8>, i: int, d: u8)
    requires
        s.len() == 81,
        0 <= i < 81,
        s[i] == 0,
        1 <= d <= 9,
    ensures
        solutions_below(s, i, d + 1).subset_of(solutions(s)),
        !fits(s, d, i) ==> solutions_below(s, i, d + 1) == solutions_below(s, i, d as int),
        fits(s, d, i) ==> solutions_below(s, i, d + 1) == solutions_below(s, i, d as int).union(
            solutions(s.update(i, d)),
        ) && solutions_below(s, i, d as int).disjoint(solutions(s.update(i, d))),
{
    let next = solutions_below(s, i, d + 1);
    let below = solutions_below(s, i, d as int);
    let here = solutions(s.update(i, d));
    assert forall|t: Seq<u8>| here.contains(t) implies is_solution(t, s) && t[i] == d by {
        lemma_solution_of_placed(s, t, i, d);
    }
    assert forall|t: Seq<u8>| is_solution(t, s) && t[i] == d implies here.contains(t) && fits(
        s,
        d,
        i,
    ) by {
        lemma_solution_digit_fits(s, t, i);
    }
    if fits(s, d, i) {
        assert(next =~= below.union(here));
    } else {
        assert(next =~= below);
    }
}

/// No completion holds less than 1 at a cell, and every completion holds less
/// than 10.
pub proof fn lemma_solutions_below_ends(s: Seq<u8>, i: int)
    requires
        s.len() == 81,
        0 <= i < 81,
    ensures
        count_up_to_two(solutions_below(s, i, 1)) == 0,
        solutions_below(s, i, 10) == solutions(s),
{
    assert forall|t: Seq<u8>| !solutions_below(s, i, 1).contains(t) by {
        if is_solution(t, s) {
            assert(t[i] != 0);
        }
    }
    assert forall|t: Seq<u8>| is_solution(t, s) implies t[i] < 10 by {
        assert(t[i] <= 9);
    }
    assert(solutions_below(s, i, 10) =~= solutions(s));
}

/// Let `i` be the first empty cell of `s`, and `f` a completion of `s` with
/// `d` placed there.  The completions of `s` that come before `f` are those
/// that hold less than `d` at `i`, and those that hold `d` there and come
/// before `f` among the completions of `s` with `d` placed.
pub proof fn lemma_earlier_split(s: Seq<u8>, i: int, d: u8, f: Seq<u8>)
    requires
        s.len() == 81,
        0 <= i < 81,
        s[i] == 0,
        forall|j: int| 0 <= j < i ==> #[trigger] s[j] != 0,
        1 <= d <= 9,
        is_solution(f, s.update(i, d)),
    ensures
        is_solution(f, s),
        earlier(s, f) == solutions_below(s, i, d as int).union(earlier(s.update(i, d), f)),
        solutions_below(s, i, d as int).disjoint(earlier(s.update(i, d), f)),
{
    let placed = s.update(i, d);
    let below = solutions_below(s, i, d as int);
    let after = earlier(placed, f);
    lemma_solution_of_placed(s, f, i, d);
    assert forall|u: Seq<u8>| after.contains(u) implies is_solution(u, s) && u[i] == d by {
        lemma_solution_of_placed(s, u, i, d);
    }
    assert forall|u: Seq<u8>| below.contains(u) implies precedes(u, f) by {
        assert forall|j: int| 0 <= j < i implies #[trigger] u[j] == f[j] by {
            assert(s[j] != 0);
        }
        assert(agree_before(u, f, i));
    }
    assert forall|u: Seq<u8>| earlier(s, f).contains(u) implies below.contains(u) || after.contains(
        u,
    ) by {
        let k = choose|k: int| 0 <= k < u.len() && #[trigger] agree_before(u, f, k) && u[k] < f[k];
        if k < i {
            assert(s[k] != 0);
        } else if k > i {
            assert(u[i] == f[i]);
            lemma_solution_digit_fits(s, u, i);
        }
    }
    assert(earlier(s, f) =~= below.union(after));
}

/// A grid without empty cells has no completion that comes before it.
pub proof fn lemma_none_earlier_than_full(f: Seq<u8>)
    requires
        valid(f),
        full(f),
    ensures
        count_up_to_two(earlier(f, f)) == 0,
{
    lemma_full_has_one_solution(f);
    assert forall|t: Seq<u8>| !earlier(f, f).contains(t) by {
        if is_solution(t, f) {
            assert(t == f);
        }
    }
}

/// The count of digits among the first `n` cells lies between 0 and `n`.
pub proof fn lemma_filled_below_bound(s: Seq<u8>, n: int)
    requires
        0 <= n,
    ensures
        filled_below(s, n) <= n,
    decreases n,
{
    if n > 0 {
        lemma_filled_below_bound(s, n - 1);
    }
}

/// How the count of digits among the first `n` cells changes when cell `i` is rewritten.
pub proof fn lemma_filled_below_update(s: Seq<u8>, i: int, v: u8, n: int)
    requires
        0 <= i < s.len(),
        0 <= n <= s.len(),
    ensures
        filled_below(s.update(i, v), n) == filled_below(s, n) + (if i < n && s[i] == 0 && v != 0 {
            1int
        } else if i < n && s[i] != 0 && v == 0 {
            -1int
        } else {
            0int
        }),
    decreases n,
{
    if n > 0 {
        lemma_filled_below_update(s, i, v, n - 1);
        if n - 1 != i {
            assert(s.update(i, v)[n - 1] == s[n - 1]);
        }
        if i < n && s[i] != 0 && v == 0 && i < n - 1 {
            lemma_filled_below_pos(s, i, n - 1);
        }
    }
}

/// A digit among the first `n` cells makes their count positive.
pub proof fn lemma_filled_below_pos(s: Seq<u8>, i: int, n: int)
    requires
        0 <= i < n <= s.len(),
        s[i] != 0,
    ensures
        filled_below(s, n) >= 1,
    decreases n,
{
    if n - 1 != i {
        lemma_filled_below_pos(s, i, n - 1);
    }
}

/// How the number of digits changes when cell `i` is rewritten.
pub proof fn lemma_filled_update(s: Seq<u8>, i: int, v: u8)
    requires
        0 <= i < s.len(),
    ensures
        filled(s) <= s.len(),
        s[i] == 0 && v != 0 ==> filled(s.update(i, v)) == filled(s) + 1,
        s[i] != 0 && v == 0 ==> filled(s.update(i, v)) == filled(s) - 1,
        (s[i] == 0) == (v == 0) ==> filled(s.update(i, v)) == filled(s),
{
    lemma_filled_below_bound(s, s.len() as int);
    lemma_filled_below_update(s, i, v, s.len() as int);
}

} // verus!
