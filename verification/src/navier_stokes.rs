//! Local layout, pressure closure and packet accounting of the fixed-domain
//! MINI Navier--Stokes step in two dimensions.

use vstd::prelude::*;

use crate::diagnostic::Diagnostic;

verus! {

/// Velocity components per basis function.
pub const COMPONENTS: usize = 2;

/// Position of velocity component `component` of basis function `basis` in a
/// local cell vector.
pub fn local_velocity(basis: usize, component: usize) -> (index: usize)
    requires
        basis * COMPONENTS + component <= usize::MAX,
    ensures
        index == basis * COMPONENTS + component,
{
    basis * COMPONENTS + component
}

/// How the pressure of a step is fixed.
#[derive(Debug, Clone, Copy, PartialEq, Eq, Structural)]
pub enum PressureReferenceKind2d {
    /// The pressure has zero integral, enforced by a gauge multiplier.
    ZeroIntegral,
    /// The pressure is fixed by a boundary traction.
    BoundaryTraction,
}

/// Require that the pressure closure of the previous state matches the
/// prepared step: a zero-integral reference exactly when the step carries a
/// gauge multiplier.
pub fn require_pressure_policy(previous: PressureReferenceKind2d, with_gauge: bool) -> (result:
    Result<(), Diagnostic>)
    ensures
        result is Ok <==> ((previous == PressureReferenceKind2d::ZeroIntegral) == with_gauge),
        result is Err ==> result == Err::<(), Diagnostic>(Diagnostic::PressureClosureMismatch),
{
    let expected_gauge = match previous {
        PressureReferenceKind2d::ZeroIntegral => true,
        PressureReferenceKind2d::BoundaryTraction => false,
    };
    if expected_gauge != with_gauge {
        return Err(Diagnostic::PressureClosureMismatch);
    }
    Ok(())
}

/// Class of an assembly packet: cells come first, then pressure constraints,
/// then gauge packets.
pub open spec fn packet_class(packet: usize, cell_count: usize, constraint_end: usize) -> int {
    if packet < cell_count {
        0
    } else if packet < constraint_end {
        1
    } else {
        2
    }
}

/// Number of evaluated cell, constraint and gauge packets.
#[derive(Debug, Clone, Copy)]
pub struct PacketEvaluations {
    counts: [usize; 3],
}

impl PacketEvaluations {
    /// Evaluations per packet class.
    pub closed spec fn view_counts(&self) -> Seq<usize> {
        self.counts@
    }

    /// No packet has been evaluated yet.
    pub fn new() -> (evaluations: Self)
        ensures
            evaluations.view_counts() == seq![0usize, 0usize, 0usize],
    {
        let evaluations = PacketEvaluations { counts: [0, 0, 0] };
        assert(evaluations.counts@ =~= seq![0usize, 0usize, 0usize]);
        evaluations
    }

    /// Forget every recorded evaluation.
    pub fn reset_packet_evaluations(&mut self)
        ensures
            final(self).view_counts() == seq![0usize, 0usize, 0usize],
    {
        self.counts = [0, 0, 0];
        assert(self.counts@ =~= seq![0usize, 0usize, 0usize]);
    }

    /// Evaluations of cell, constraint and gauge packets so far.
    pub fn packet_evaluations(&self) -> (counts: [usize; 3])
        ensures
            counts@ == self.view_counts(),
    {
        self.counts
    }

    /// Record one evaluation of `packet` in its class.
    pub fn record(&mut self, packet: usize, cell_count: usize, constraint_end: usize)
        requires
            old(self).view_counts()[packet_class(packet, cell_count, constraint_end)] < usize::MAX,
        ensures
            final(self).view_counts() == old(self).view_counts().update(
                packet_class(packet, cell_count, constraint_end),
                (old(self).view_counts()[packet_class(packet, cell_count, constraint_end)] + 1) as usize,
            ),
    {
        let class: usize = if packet < cell_count {
            0
        } else if packet < constraint_end {
            1
        } else {
            2
        };
        self.counts[class] = self.counts[class] + 1;
    }
}

} // verus!
