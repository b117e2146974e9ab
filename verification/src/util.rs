//! Randomness helpers: the one trusted call into the random number generator,
//! and the small utilities built on it.

use vstd::prelude::*;

verus! {

/// Relies on rand::Rng::gen_range over `0..n`: it panics on an empty range
/// and otherwise returns a uniformly drawn value of the range.
#[verifier::external_body]
pub(crate) fn rand_below(n: usize) -> (r: usize)
    requires
        n >= 1,
    ensures
        r < n,
{
    rand::Rng::gen_range(&mut rand::thread_rng(), 0..n)
}

/// A new tile's value: 2 with probability 9/10, else 4.
pub fn two_or_four() -> (r: u128)
    ensures
        r == 2 || r == 4,
{
    if rand_below(10) < 9 {
        2
    } else {
        4
    }
}

/// A random coordinate of an n-by-n grid.
pub fn position(n: usize) -> (r: (usize, usize))
    requires
        n >= 1,
    ensures
        r.0 < n && r.1 < n,
{
    (rand_below(n), rand_below(n))
}

/// Whether a number is odd.
pub fn odd(n: usize) -> (r: bool)
    ensures
        r == (n % 2 != 0),
{
    n % 2 != 0
}

} // verus!
