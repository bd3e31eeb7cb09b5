//! Cluster Monte Carlo sampling of Ising-type spin lattices, and the
//! statistics that turn a batch of sampled configurations into the
//! sensitivity ("S") matrix of a variational ansatz.
//!
//! Spins are kept as `i8` values in {-1, +1}. Everything the library
//! computes is exact integer arithmetic; the scalar factors that depend on
//! the inverse temperature (bond weights, hyperbolic functions) are applied
//! by the caller on top of the integer results, as documented per function.
use vstd::prelude::*;

pub mod ising;
pub mod machines;
pub mod sampler;
pub mod estimator;

verus! {

/// Errors a caller can provoke; index errors are excluded by preconditions
/// instead, so verified functions never panic.
#[derive(Clone, Copy, Debug, PartialEq, Eq, Structural)]
pub enum SimError {
    /// A lattice with no sites, or a dimension of zero.
    InvalidGeometry,
    /// A rejected run parameter, such as a sample batch too small for a
    /// covariance, or a configuration that is not made of unit spins.
    InvalidParameter,
}

/// A well-formed spin configuration: one value in {-1, +1} per site.
pub open spec fn valid_conf(c: Seq<i8>, n: int) -> bool {
    &&& c.len() == n
    &&& forall|i: int| 0 <= i < c.len() ==> c[i] == 1i8 || c[i] == -1i8
}

/// Membership in a sequence extended by one element.
pub proof fn lemma_push_contains<A>(s: Seq<A>, x: A, y: A)
    ensures
        s.push(x).contains(y) <==> (s.contains(y) || x == y),
{
    if s.contains(y) {
        let i = choose|i: int| 0 <= i < s.len() && s[i] == y;
        assert(s.push(x)[i] == y);
    }
    if x == y {
        assert(s.push(x)[s.len() as int] == y);
    }
    if s.push(x).contains(y) {
        let i = choose|i: int| 0 <= i < s.push(x).len() && s.push(x)[i] == y;
        if i < s.len() {
            assert(s[i] == y);
        }
    }
}

} // verus!
