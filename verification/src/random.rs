//! The random source: the standard generator of `rand`, drawn from one bit at
//! a time.

use vstd::prelude::*;
use rand::rngs::StdRng;
use rand::Rng;

verus! {

/// `rand::rngs::StdRng`, the generator that candidates are drawn from.
/// Nothing is known of what it holds.
#[verifier::external_type_specification]
#[verifier::external_body]
pub struct ExStdRng(StdRng);

/// `Rng::gen_ratio`: one draw that is `true` with probability
/// `numerator / denominator`. Which value comes back depends on the generator;
/// what `rand` documents of every draw is that a ratio of zero gives `false`
/// and a ratio of one gives `true`. The call panics on a zero denominator and
/// on a numerator above the denominator, so both are left out.
#[verifier::external_body]
pub(crate) fn draw_ratio(rng: &mut StdRng, numerator: u32, denominator: u32) -> (hit: bool)
    requires
        denominator > 0,
        numerator <= denominator,
    ensures
        numerator == 0 ==> !hit,
        numerator == denominator ==> hit,
{
    rng.gen_ratio(numerator, denominator)
}

} // verus!
