//! Local layout of the transient MINI cell vector in dimension `D`.

use vstd::prelude::*;

verus! {

/// Position of velocity component `component` of basis function `basis` in a
/// local cell vector with `D` components per basis function.
pub fn local_velocity<const D: usize>(basis: usize, component: usize) -> (index: usize)
    requires
        basis * D + component <= usize::MAX,
    ensures
        index == basis * D + component,
{
    assert(basis * D <= usize::MAX);
    basis * D + component
}

} // verus!
