//! The one source of chance: `rand`'s thread-local generator.
use rand::RngExt;
use vstd::prelude::*;

verus! {

/// A number the generator drew from the range `0 .. range()`. Only `random_below` makes
/// one, so a contract that names a draw's range says what the generator was asked for.
pub struct Draw {
    value: usize,
    bound: usize,
}

impl Draw {
    /// The number drawn.
    pub closed spec fn drawn(&self) -> nat {
        self.value as nat
    }

    /// The end of the range the number was drawn from.
    pub closed spec fn range(&self) -> nat {
        self.bound as nat
    }

    /// The number drawn.
    pub fn value(&self) -> (v: usize)
        ensures
            v == self.drawn(),
    {
        self.value
    }
}

/// Calls `rand::rng().random_range(0..n)` (`rand::RngExt::random_range` on the
/// thread-local generator) and keeps the range with the number. `random_range` panics on
/// an empty range, hence `n > 0`; its documentation promises a value inside the range,
/// and that is all that is claimed of the value: which one comes is chance.
#[verifier::external_body]
pub(crate) fn random_below(n: usize) -> (d: Draw)
    requires
        n > 0,
    ensures
        d.range() == n,
        d.drawn() < n,
{
    Draw { value: rand::rng().random_range(0..n), bound: n }
}

/// The numbers drawn, in order.
pub(crate) fn drawn_values(draws: &Vec<Draw>) -> (values: Vec<usize>)
    ensures
        values@.len() == draws@.len(),
        forall|j: int| 0 <= j < draws@.len() ==> #[trigger] values@[j] == draws@[j].drawn(),
{
    let mut values: Vec<usize> = Vec::new();
    for j in 0..draws.len()
        invariant
            values@.len() == j,
            forall|m: int| 0 <= m < j ==> #[trigger] values@[m] == draws@[m].drawn(),
    {
        values.push(draws[j].value());
    }
    values
}

} // verus!
