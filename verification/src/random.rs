//! Uniform draws from the thread's random generator.
use crate::fixed::Fixed;
use rand::rngs::ThreadRng;
use rand::Rng;
use vstd::prelude::*;

verus! {

/// The handle of `rand`'s generator of the current thread, opaque here.
#[verifier::external_type_specification]
#[verifier::external_body]
pub struct ExThreadRng(ThreadRng);

/// Calls `rand::thread_rng`, which hands out the current thread's lazily
/// seeded generator. Nothing is claimed of the handle.
#[verifier::external_body]
pub(crate) fn thread_generator() -> (rng: ThreadRng) {
    rand::thread_rng()
}

/// Calls `rand::Rng::gen_range` on the half-open range `low..high` of `i64`.
/// The call panics on an empty range, which `requires` leaves out; the
/// integer sampler returns `low` plus an offset below `high - low`, so the
/// draw lies in the range. Which value comes is left open.
#[verifier::external_body]
pub(crate) fn draw_raw(rng: &mut ThreadRng, low: i64, high: i64) -> (r: i64)
    requires
        low < high,
    ensures
        low <= r < high,
{
    rng.gen_range(low..high)
}

/// A number drawn uniformly from `[low, high)`.
pub(crate) fn uniform(rng: &mut ThreadRng, low: Fixed, high: Fixed) -> (r: Fixed)
    requires
        low@ < high@,
    ensures
        low@ <= r@ < high@,
{
    Fixed::from_raw(draw_raw(rng, low.raw(), high.raw()))
}

/// A number drawn uniformly from `[0, 1)`.
pub(crate) fn uniform_unit(rng: &mut ThreadRng) -> (r: Fixed)
    ensures
        0 <= r@ < crate::fixed::ONE_RAW,
{
    uniform(rng, Fixed::zero(), Fixed::one())
}

} // verus!
