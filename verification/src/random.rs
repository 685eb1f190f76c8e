//! Random draws from `rand`'s thread-local generator.
//!
//! The values depend on chance, so the wrappers state only the range that
//! every draw falls in.
use vstd::prelude::*;
use rand::Rng;
use rand::rngs::ThreadRng;

verus! {

#[verifier::external_type_specification]
#[verifier::external_body]
pub struct ExThreadRng(ThreadRng);

/// `rand::thread_rng()`: a handle to the thread-local generator. Nothing is
/// promised of it beyond its type.
#[verifier::external_body]
pub(crate) fn thread_rng() -> ThreadRng {
    rand::thread_rng()
}

/// `Rng::gen_range(lo..hi)` on `usize`: a value in `[lo, hi)`. The call panics
/// on an empty range, which `requires` rules out; which value comes is left to
/// chance.
#[verifier::external_body]
pub(crate) fn gen_range_usize(rng: &mut ThreadRng, lo: usize, hi: usize) -> (r: usize)
    requires
        lo < hi,
    ensures
        lo <= r < hi,
{
    rng.gen_range(lo..hi)
}

} // verus!
