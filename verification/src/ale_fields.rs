//! Local coefficient layout of the ALE fluid and solid element blocks.
//!
//! A fluid cell carries `D + 1` vertex velocities and one bubble velocity,
//! each with `D` components, followed by `D + 1` vertex pressures. A solid
//! cell carries `D + 1` vertex velocities with `D` components.

use vstd::prelude::*;

verus! {

/// Offset of the first pressure coefficient in a local fluid vector.
pub fn fluid_pressure_offset<const D: usize>() -> (offset: usize)
    requires
        (D + 2) * D <= usize::MAX,
    ensures
        offset == (D + 2) * D,
{
    assert(D + 2 <= usize::MAX) by (nonlinear_arith)
        requires
            (D + 2) * D <= usize::MAX,
    ;
    (D + 2) * D
}

/// Number of coefficients in a local fluid vector.
pub fn fluid_local_size<const D: usize>() -> (size: usize)
    requires
        (D + 2) * D + D + 1 <= usize::MAX,
    ensures
        size == (D + 2) * D + D + 1,
{
    fluid_pressure_offset::<D>() + D + 1
}

/// Number of coefficients in a local solid vector.
pub fn solid_local_size<const D: usize>() -> (size: usize)
    requires
        (D + 1) * D <= usize::MAX,
    ensures
        size == (D + 1) * D,
{
    assert(D + 1 <= usize::MAX) by (nonlinear_arith)
        requires
            (D + 1) * D <= usize::MAX,
    ;
    (D + 1) * D
}

/// Every velocity coefficient of a local fluid vector lies before the
/// pressure block, distinct basis/component pairs occupy distinct rows, and
/// every vertex pressure lies inside the local vector.
pub proof fn lemma_fluid_layout_partitions_rows(
    d: nat,
    basis: nat,
    component: nat,
    other_basis: nat,
    other_component: nat,
    vertex: nat,
)
    requires
        basis < d + 2,
        component < d,
        other_basis < d + 2,
        other_component < d,
        vertex < d + 1,
    ensures
        basis * d + component < (d + 2) * d,
        (basis, component) != (other_basis, other_component) ==> basis * d + component
            != other_basis * d + other_component,
        (d + 2) * d <= (d + 2) * d + vertex < (d + 2) * d + d + 1,
{
    assert(basis * d + component < (d + 2) * d) by (nonlinear_arith)
        requires
            basis < d + 2,
            component < d,
    ;
    if (basis, component) != (other_basis, other_component) {
        if basis == other_basis {
        } else if basis < other_basis {
            assert(basis * d + component < other_basis * d) by (nonlinear_arith)
                requires
                    basis < other_basis,
                    component < d,
            ;
        } else {
            assert(other_basis * d + other_component < basis * d) by (nonlinear_arith)
                requires
                    other_basis < basis,
                    other_component < d,
            ;
        }
    }
}

} // verus!
