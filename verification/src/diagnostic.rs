use vstd::prelude::*;

verus! {

/// Reason for which a discretization request is rejected.
///
/// Every variant corresponds to one fail-closed check of the library.
#[derive(Debug, Clone, Copy, PartialEq, Eq, Structural)]
pub enum Diagnostic {
    /// The ambient dimension is neither two nor three.
    UnsupportedDimension,
    /// The mesh is not an intrinsic mesh of the admitted dimension.
    MeshDimensionMismatch,
    /// A fixed-velocity vertex inventory repeats a vertex or names a vertex
    /// outside the mesh.
    FixedVertexInventoryInvalid,
    /// Some exterior vertex carries no homogeneous velocity constraint.
    ExteriorNotHomogeneous,
    /// A Region cell inventory is empty or repeats a cell.
    RegionCellsEmptyOrRepeated,
    /// A partition names one Domain twice.
    RepeatedDomain,
    /// One Connection is bound to different Domain endpoint pairs.
    ConnectionDomainsDiffer,
    /// The cells of a Region are not connected through shared facets.
    RegionNotConnected,
    /// Two Region closures share vertices outside their quotient facets.
    SharedVerticesOutsideQuotient,
    /// The pressure closure of a state differs from its prepared step.
    PressureClosureMismatch,
    /// A dense matrix coefficient count is not the square of a positive side.
    DenseShapeNotSquare,
    /// A dense matrix coefficient count overflows the address space.
    DenseShapeOverflow,
    /// A partition does not carry exactly the Domains and Connection of a
    /// harmonic motion policy.
    MotionInventoryMismatch,
    /// The harmonic motion has no genuinely solved fluid-interior vertex.
    NoFluidInterior,
    /// The square interior stiffness width overflows the address space.
    DenseWidthOverflow,
    /// The interior/driver influence width overflows the address space.
    InfluenceWidthOverflow,
    /// The peak dense storage overflows the address space.
    DenseStorageOverflow,
    /// The peak dense storage exceeds the bounded reference budget.
    DenseMotionBudgetExceeded,
    /// The mesh has no positive-dimensional nonempty cell stratum.
    EmptyCellStratum,
    /// A Region membership names a cell outside the mesh.
    CellOutsideMesh,
    /// A Region membership assigns a mesh cell more than once.
    CellAssignedTwice,
    /// A mesh cell is owned by no Region.
    CellOmitted,
    /// A facet is incident on no cell or on more than two cells.
    NonManifoldFacet,
    /// A facet incidence points outside the cell stratum.
    FacetOutsideCellStratum,
    /// A facet incidence references a cell absent from the mesh.
    FacetReferencesAbsentCell,
    /// Two trace quotients share one exact Connection/Field identity.
    RepeatedTraceQuotient,
    /// A trace quotient has no cross-Region facet between its Domains.
    QuotientWithoutFacetCoverage,
    /// Some cross-Region facet is witnessed by no trace quotient.
    IncompleteQuotientCoverage,
    /// A material cell subset has no facet on its boundary.
    NoRetainedBoundaryFacet,
    /// A cell index names no cell of the mesh.
    AbsentCell,
    /// A cell of a planar mesh is not a triangle.
    CellNotTriangle,
    /// A facet index names no facet of the mesh.
    AbsentFacet,
    /// A facet of a planar mesh is not an edge.
    FacetNotEdge,
    /// A fluid vertex is absent from the pressure space.
    VertexOutsidePressureSpace,
    /// A cell has no canonical MINI bubble position in the fluid Domain.
    CellWithoutBubble,
    /// Interface actions are empty or not in strictly increasing vertex order.
    InterfaceOrderInvalid,
    /// The Plan's eliminated state and rate differ from the complete
    /// kinematic inventory of the equations.
    StateRateMismatch,
    /// The Plan carries other than exactly one trace quotient.
    PluralTraceQuotients,
    /// The trace quotient omits the state-rate Field.
    QuotientOmitsStateRate,
    /// The trace quotient has no velocity Field distinct from the state rate.
    NoCoupledVelocity,
    /// The quotient velocity is not paired with exactly one scalar constraint.
    PressureConstraintNotUnique,
    /// The Plan or the equations carry Field roles beyond the three projected ones.
    AdditionalFieldRoles,
    /// A role differs from its equation Domain or its admitted discrete space.
    RoleSpaceMismatch,
}

} // verus!
