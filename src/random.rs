//! The random source: the `rand` crate's thread-local generator.
use rand::rngs::ThreadRng;
use rand::seq::IteratorRandom;
use rand::Rng;
use vstd::prelude::*;

verus! {

/// The generator handle of `rand`, carried through opaque.
#[verifier::external_type_specification]
#[verifier::external_body]
pub struct ExThreadRng(rand::rngs::ThreadRng);

/// Relies on `rand::thread_rng`: a handle on the calling thread's generator.
pub assume_specification[ rand::thread_rng ]() -> rand::rngs::ThreadRng;

/// Relies on `rand::random`: a value drawn from the thread's generator, of
/// which nothing is promised.
pub assume_specification<T>[ rand::random::<T> ]() -> T
    where
        rand::distributions::Standard: rand::distributions::Distribution<T>,
;

/// Relies on `IteratorRandom::choose`: `None` exactly when the iterator is
/// empty, and otherwise one of its items.
#[verifier::external_body]
pub(crate) fn choose_from(items: &Vec<usize>, rng: &mut ThreadRng) -> (r: Option<usize>)
    ensures
        r is None <==> items@.len() == 0,
        r matches Some(x) ==> items@.contains(x),
{
    items.iter().copied().choose(rng)
}

/// Relies on `Rng::gen_range`: a value of the half-open range `0..n`, which
/// panics when the range is empty.
#[verifier::external_body]
pub(crate) fn below(rng: &mut ThreadRng, n: usize) -> (r: usize)
    requires
        0 < n,
    ensures
        r < n,
{
    rng.gen_range(0..n)
}

} // verus!
