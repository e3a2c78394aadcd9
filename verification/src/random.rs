//! The source of randomness and the shuffled list of candidate digits.

use vstd::prelude::*;
use rand::rngs::ThreadRng;
use rand::Rng;

verus! {

/// The handle to the random number generator of the current thread, as the
/// `rand` crate defines it.  Nothing is known of what it holds.
#[verifier::external_type_specification]
#[verifier::external_body]
pub struct ExThreadRng(ThreadRng);

/// `rand::thread_rng` hands out the generator of the current thread.  Nothing
/// is claimed of the handle.  The generator is seeded from the operating system
/// on its first use in a thread, and `rand` panics if that source fails.
pub assume_specification[ rand::thread_rng ]() -> (rng: ThreadRng);

/// Draws a number from `low..high` with `Rng::gen_range`.  The contract claims
/// only what `rand` documents of every draw: the number is at least `low` and
/// less than `high`.  `gen_range` panics unless `low < high`.
#[verifier::external_body]
pub(crate) fn random_below(rng: &mut ThreadRng, low: usize, high: usize) -> (n: usize)
    requires
        low < high,
    ensures
        low <= n < high,
{
    rng.gen_range(low, high)
}

/// `d` is an entry of `list`.
pub open spec fn occurs(list: Seq<u8>, d: u8) -> bool {
    exists|k: int| 0 <= k < list.len() && list[k] == d
}

/// `list` holds each of the digits `1..=9` exactly once.
pub open spec fn is_digit_permutation(list: Seq<u8>) -> bool {
    &&& list.len() == 9
    &&& forall|k: int| 0 <= k < 9 ==> 1 <= #[trigger] list[k] <= 9
    &&& forall|k: int, m: int| 0 <= k < m < 9 ==> #[trigger] list[k] != #[trigger] list[m]
    &&& forall|d: u8| 1 <= d <= 9 ==> #[trigger] occurs(list, d)
}

/// The digits `1..=9` in increasing order.
pub open spec fn digits_in_order() -> Seq<u8> {
    seq![1u8, 2u8, 3u8, 4u8, 5u8, 6u8, 7u8, 8u8, 9u8]
}

/// `list` with the entries at `i` and `j` exchanged.
pub open spec fn swapped(list: Seq<u8>, i: int, j: int) -> Seq<u8> {
    list.update(i, list[j]).update(j, list[i])
}

/// `draws` can steer a shuffle: there are eight of them, and the draw with
/// index `k` is one of the positions `0..=8 - k`.
pub open spec fn valid_draws(draws: Seq<usize>) -> bool {
    draws.len() == 8 && forall|k: int| 0 <= k < 8 ==> #[trigger] draws[k] <= 8 - k
}

/// The list after the first `n` steps of the shuffle that `draws` steers.
/// The list starts in increasing order; step `k` exchanges the entry at
/// position `8 - k` with the entry at the position drawn for that step.
pub open spec fn shuffled(draws: Seq<usize>, n: int) -> Seq<u8>
    decreases n,
{
    if n <= 0 {
        digits_in_order()
    } else {
        swapped(shuffled(draws, n - 1), 9 - n, draws[n - 1] as int)
    }
}

/// Exchanging two entries of a list that holds each digit once gives such a
/// list again.
pub proof fn lemma_swap_keeps_permutation(list: Seq<u8>, i: int, j: int)
    requires
        is_digit_permutation(list),
        0 <= i < 9,
        0 <= j < 9,
    ensures
        is_digit_permutation(swapped(list, i, j)),
{
    let after = swapped(list, i, j);
    assert forall|d: u8| 1 <= d <= 9 implies #[trigger] occurs(after, d) by {
        assert(occurs(list, d));
        let k = choose|k: int| 0 <= k < 9 && list[k] == d;
        if k == i {
            assert(after[j] == d);
        } else if k == j {
            assert(after[i] == d);
        } else {
            assert(after[k] == d);
        }
    }
}

/// Exchanges the entries at `i` and `j`.
pub fn swap_entries(list: &mut [u8; 9], i: usize, j: usize)
    requires
        i < 9,
        j < 9,
    ensures
        final(list)@ == swapped(old(list)@, i as int, j as int),
{
    let upper = list[i];
    let drawn = list[j];
    list[i] = drawn;
    list[j] = upper;
}

/// The digits `1..=9` in the order that the given draws lead to: starting
/// from the increasing order, the entries at positions 8, 7, .., 1 are
/// exchanged in turn with the entry at the position drawn for them.
pub fn shuffled_by(draws: [usize; 8]) -> (list: [u8; 9])
    requires
        valid_draws(draws@),
    ensures
        list@ == shuffled(draws@, 8),
        is_digit_permutation(list@),
{
    let mut list: [u8; 9] = [1, 2, 3, 4, 5, 6, 7, 8, 9];
    proof {
        assert(list@ =~= digits_in_order());
        assert forall|d: u8| 1 <= d <= 9 implies #[trigger] occurs(list@, d) by {
            assert(list@[d - 1] == d);
        }
    }
    let mut k: usize = 0;
    while k < 8
        invariant
            k <= 8,
            valid_draws(draws@),
            list@ == shuffled(draws@, k as int),
            is_digit_permutation(list@),
        decreases 8 - k,
    {
        proof {
            lemma_swap_keeps_permutation(list@, 8 - k, draws@[k as int] as int);
        }
        swap_entries(&mut list, 8 - k, draws[k]);
        k += 1;
    }
    list
}

/// The digits `1..=9` in a random order: the order that eight random draws
/// lead to, the draw with index `k` taken from the positions `0..=8 - k`.
pub fn shuffled_list() -> (list: [u8; 9])
    ensures
        is_digit_permutation(list@),
        exists|draws: Seq<usize>| #[trigger] valid_draws(draws) && list@ == shuffled(draws, 8),
{
    let mut rng = rand::thread_rng();
    let mut draws: [usize; 8] = [0; 8];
    let mut k: usize = 0;
    while k < 8
        invariant
            k <= 8,
            forall|m: int| 0 <= m < k ==> #[trigger] draws@[m] <= 8 - m,
        decreases 8 - k,
    {
        let drawn = random_below(&mut rng, 0, 9 - k);
        draws[k] = drawn;
        k += 1;
    }
    let list = shuffled_by(draws);
    assert(valid_draws(draws@));
    list
}

} // verus!
