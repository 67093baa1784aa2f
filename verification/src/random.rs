//! Where chance enters: the orders in which cells and values are tried, and
//! the choice of a symmetry. The random numbers come from the `rand` crate.

use rand::seq::SliceRandom;
use vstd::prelude::*;
use crate::QQWing;
use crate::state::occurs;
use crate::symmetry::Symmetry;

verus! {

/// `rand::rngs::ThreadRng`: the handle to the generator of a thread. The
/// library hands it from where it is made to where it is used, and looks at
/// nothing in it.
#[verifier::external_type_specification]
#[verifier::external_body]
pub struct ExThreadRng(rand::rngs::ThreadRng);

/// `rand::thread_rng`: a handle to the generator of the current thread.
/// Nothing is claimed of it.
#[verifier::external_body]
fn thread_generator() -> (rng: rand::rngs::ThreadRng) {
    rand::thread_rng()
}

/// `rand::seq::SliceRandom::shuffle` on an array of bytes: the method only
/// swaps elements, so the array holds afterwards what it held before, each
/// number as often. Which order comes out is left open.
#[verifier::external_body]
fn shuffle<const N: usize>(values: &mut [u8; N], rng: &mut rand::rngs::ThreadRng)
    ensures
        final(values)@.to_multiset() == old(values)@.to_multiset(),
{
    values.shuffle(rng);
}

/// `rand::random::<usize>`: some number. Nothing is claimed of it.
#[verifier::external_body]
fn random_number() -> (n: usize) {
    rand::random::<usize>()
}

/// The symmetry that a random number picks: any but the first, which is
/// none.
pub open spec fn symmetry_at(n: int) -> Symmetry {
    if n % 5 == 0 {
        Symmetry::ROTATE90
    } else if n % 5 == 1 {
        Symmetry::ROTATE180
    } else if n % 5 == 2 {
        Symmetry::MIRROR
    } else if n % 5 == 3 {
        Symmetry::FLIP
    } else {
        Symmetry::RANDOM
    }
}

/// An order that holds the same numbers as a complete order is complete.
pub proof fn lemma_shuffled_complete(before: Seq<u8>, after: Seq<u8>, n: int)
    requires
        before.len() == n,
        after.len() == n,
        after.to_multiset() == before.to_multiset(),
        forall|i: int| 0 <= i < n ==> #[trigger] before[i] < n,
        forall|c: int| 0 <= c < n ==> #[trigger] occurs(before, c),
    ensures
        forall|i: int| 0 <= i < n ==> #[trigger] after[i] < n,
        forall|c: int| 0 <= c < n ==> #[trigger] occurs(after, c),
{
    before.to_multiset_ensures();
    after.to_multiset_ensures();
    assert forall|i: int| 0 <= i < n implies #[trigger] after[i] < n by {
        assert(after.to_multiset().count(after[i]) > 0);
    }
    assert forall|c: int| 0 <= c < n implies #[trigger] occurs(after, c) by {
        assert(occurs(before, c));
        let i = choose|i: int| 0 <= i < before.len() && #[trigger] before[i] == c;
        assert(before.to_multiset().count(before[i]) > 0);
    }
}

impl QQWing {
    /// Puts the cells and the values into a new random order.
    pub fn shuffle_random_arrays(&mut self)
        requires
            old(self)@.orders_complete(),
        ensures
            final(self)@.orders_complete(),
            final(self)@ == (crate::Board {
                random_board_array: final(self)@.random_board_array,
                random_possibility_array: final(self)@.random_possibility_array,
                ..old(self)@
            }),
            final(self)@.random_board_array.to_multiset() == old(
                self,
            )@.random_board_array.to_multiset(),
            final(self)@.random_possibility_array.to_multiset() == old(
                self,
            )@.random_possibility_array.to_multiset(),
    {
        let mut rng = thread_generator();
        shuffle(&mut self.random_board_array, &mut rng);
        shuffle(&mut self.random_possibility_array, &mut rng);
        proof {
            lemma_shuffled_complete(
                old(self)@.random_board_array,
                self@.random_board_array,
                81,
            );
            lemma_shuffled_complete(
                old(self)@.random_possibility_array,
                self@.random_possibility_array,
                9,
            );
        }
    }

    /// Picks a symmetry at random; never none.
    pub fn get_random_symmetry() -> (symmetry: Symmetry)
        ensures
            symmetry != Symmetry::NONE,
    {
        let n = random_number();
        QQWing::symmetry_for(n)
    }

    /// The symmetry that a number picks: any but the first.
    pub fn symmetry_for(n: usize) -> (symmetry: Symmetry)
        ensures
            symmetry == symmetry_at(n as int),
            symmetry != Symmetry::NONE,
    {
        let values = [
            Symmetry::NONE,
            Symmetry::ROTATE90,
            Symmetry::ROTATE180,
            Symmetry::MIRROR,
            Symmetry::FLIP,
            Symmetry::RANDOM,
        ];
        values[(n % (values.len() - 1)) + 1]
    }
}

} // verus!
