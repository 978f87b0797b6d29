//! The quorum predicate: a strict majority of the population.

use vstd::prelude::*;

verus! {

/// Whether `voter_count` votes are a strict majority of `population`.
pub open spec fn is_quorum(voter_count: int, population: int) -> bool {
    2 * voter_count > population
}

/// Tells whether `k` voters are a quorum among `n` nodes.
///
/// The comparison is made on `n / 2`, so that no count is too large to test.
pub fn has_quorum(k: usize, n: usize) -> (held: bool)
    requires
        n >= 1,
    ensures
        held == is_quorum(k as int, n as int),
{
    k > n / 2
}

} // verus!
