//! Uniform integer draws from the thread-local random source.

use rand::Rng;
use vstd::prelude::*;

verus! {

/// Relies on rand's `thread_rng` and `Rng::gen_range`: for integers and
/// `low < high` it returns `low + v % (high - low)`, a value in `[low, high)`.
/// It panics when `low >= high`, which `requires` rules out.
#[verifier::external_body]
fn draw_in_range(low: usize, high: usize) -> (r: usize)
    requires
        low < high,
    ensures
        low <= r < high,
{
    rand::thread_rng().gen_range(low, high)
}

/// A uniformly drawn integer in `[min, max)`. An empty range (`min == max`)
/// yields `min`.
pub fn rand_range(min: usize, max: usize) -> (r: usize)
    requires
        min <= max,
    ensures
        min == max ==> r == min,
        min < max ==> min <= r < max,
{
    if min == max {
        min
    } else {
        draw_in_range(min, max)
    }
}

} // verus!
