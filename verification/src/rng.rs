use vstd::prelude::*;

verus! {

/// Relies on rand::Rng::gen_range over `0..n`, which panics on an empty
/// range and otherwise returns a value within it. Nothing else is promised:
/// the result may differ between two calls on the same argument.
#[verifier::external_body]
pub(crate) fn rand_below(n: usize) -> (r: usize)
    requires
        n > 0,
    ensures
        r < n,
{
    rand::Rng::gen_range(&mut rand::thread_rng(), 0..n)
}

/// Relies on rand::Rng::gen for `u32`. Nothing is promised of the value.
#[verifier::external_body]
pub(crate) fn rand_u32() -> u32 {
    rand::Rng::gen(&mut rand::thread_rng())
}

} // verus!
