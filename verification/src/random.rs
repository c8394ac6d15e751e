//! The one source of chance: the order in which candidate moves are tried.

use rand::rngs::ThreadRng;
use rand::seq::SliceRandom;
use vstd::prelude::*;

verus! {

/// The thread-local random number generator of `rand`: a handle that is
/// carried from where it is made to where a shuffle draws from it.
#[verifier::external_type_specification]
#[verifier::external_body]
pub struct ExThreadRng(ThreadRng);

/// `rand::thread_rng` hands out the generator of the current thread. Nothing
/// is claimed of it. It panics when the operating system has no seed for it.
pub assume_specification[ rand::thread_rng ]() -> (rng: ThreadRng)
;

/// Puts `moves` into a random order.
///
/// Calls `rand::seq::SliceRandom::shuffle`. The order that comes out depends
/// on chance; assumed is only what the shuffle does whatever it draws: it
/// exchanges elements in place, so the same moves come out, each as often
/// as it went in.
#[verifier::external_body]
pub(crate) fn shuffle_moves<M>(moves: &mut Vec<M>, rng: &mut ThreadRng)
    ensures
        final(moves)@.to_multiset() == old(moves)@.to_multiset(),
{
    moves.shuffle(rng);
}

} // verus!
