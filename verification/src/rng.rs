//! Trusted gateway to the process random source. Nothing can be promised
//! of which values come out; the contracts state only ranges and
//! membership, and all logic that consumes the values is verified for
//! every outcome.

use vstd::prelude::*;

use crate::point::Point;

verus! {

/// The thread-local generator of the `rand` crate.
#[verifier::external_type_specification]
#[verifier::external_body]
pub struct ExThreadRng(rand::rngs::ThreadRng);

/// Relies on rand::thread_rng: hands out the thread-local generator.
#[verifier::external_body]
pub(crate) fn new_rng() -> rand::rngs::ThreadRng {
    rand::thread_rng()
}

/// Relies on rand::Rng::gen_range: returns a value drawn from `[0, n)`;
/// the range is non-empty, so the call cannot panic.
#[verifier::external_body]
pub(crate) fn rng_below(rng: &mut rand::rngs::ThreadRng, n: u32) -> (r: u32)
    requires
        n >= 1,
    ensures
        r < n,
{
    rand::Rng::gen_range(rng, 0..n)
}

/// Relies on rand::seq::SliceRandom::choose_multiple: picks
/// `min(amount, len)` elements at distinct indices, in some order.
#[verifier::external_body]
pub(crate) fn choose_multiple_points(
    rng: &mut rand::rngs::ThreadRng,
    v: &Vec<Point>,
    amount: usize,
) -> (r: Vec<Point>)
    ensures
        r@.len() == vstd::math::min(amount as int, v@.len() as int),
        forall|i: int| 0 <= i < r@.len() ==> v@.contains(#[trigger] r@[i]),
        (forall|i: int, j: int| 0 <= i < j < v@.len() ==> v@[i] != v@[j]) ==> (forall|
            i: int,
            j: int,
        | 0 <= i < j < r@.len() ==> r@[i] != r@[j]),
{
    rand::seq::SliceRandom::choose_multiple(v.as_slice(), rng, amount).copied().collect()
}

} // verus!
