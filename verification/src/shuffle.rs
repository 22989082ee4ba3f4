//! The random permutation: not a sort in the sense of an order, but the
//! same elements in an order that chance picks.

use rand::seq::SliceRandom;
use vstd::prelude::*;

verus! {

/// `rand::rngs::ThreadRng`, the handle to a thread's random generator.
/// Nothing is known of what it holds.
#[verifier::external_type_specification]
#[verifier::external_body]
pub struct ExThreadRng(rand::rngs::ThreadRng);

/// `rand::thread_rng` hands out the calling thread's generator, which the
/// system seeds. Nothing is claimed of it. Its first call on a thread
/// panics where the system has no random source to seed it from.
pub assume_specification[ rand::thread_rng ]() -> (rng: rand::rngs::ThreadRng);

/// Calls `rand::seq::SliceRandom::shuffle` on the elements of `words`. That
/// function walks the slice from its end and swaps each element with one at
/// a position that the generator picks at or before it: the elements are
/// the same afterwards, each as often as before. Which order comes out is
/// left open.
#[verifier::external_body]
fn shuffle_with<T>(words: &mut Vec<T>, rng: &mut rand::rngs::ThreadRng)
    ensures
        final(words)@.to_multiset() == old(words)@.to_multiset(),
{
    words.shuffle(rng);
}

/// Hands back the elements of `words` in a random order, drawn with the
/// calling thread's generator. The result is in general not sorted: every
/// order of the elements is as likely as any other.
pub fn random_sort<T: PartialOrd>(words: Vec<T>) -> (out: Vec<T>)
    ensures
        out@.to_multiset() == words@.to_multiset(),
        out@.len() == words@.len(),
{
    let ghost input = words@;
    let mut words = words;
    let mut rng = rand::thread_rng();
    shuffle_with(&mut words, &mut rng);
    proof {
        vstd::seq_lib::to_multiset_len(words@);
        vstd::seq_lib::to_multiset_len(input);
    }
    words
}

} // verus!
