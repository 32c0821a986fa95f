use vstd::prelude::*;
use rand::seq::SliceRandom;
use rand::Rng;

verus! {

/// Relies on rand's `Rng::gen_range` on the thread-local generator: it returns
/// a value of `0..n`, and panics only on an empty range.
#[verifier::external_body]
pub(crate) fn random_index(n: usize) -> (r: usize)
    requires
        n > 0,
    ensures
        r < n,
{
    rand::thread_rng().gen_range(0..n)
}

/// Relies on rand's `Rng::gen::<u32>` on the thread-local generator: any value.
#[verifier::external_body]
pub(crate) fn random_u32() -> u32 {
    rand::thread_rng().gen::<u32>()
}

/// Relies on rand's `SliceRandom::choose`: `None` for an empty slice, and
/// otherwise one of its elements.
#[verifier::external_body]
pub(crate) fn choose_one(v: &Vec<u32>) -> (r: Option<u32>)
    ensures
        r is None <==> v@.len() == 0,
        r matches Some(x) ==> v@.contains(x),
{
    v.choose(&mut rand::thread_rng()).copied()
}

} // verus!
