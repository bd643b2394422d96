//! Exact Region ownership and quotient facet witnesses for every mesh consumer.
//!
//! The mesh is read through a plain snapshot of the topology queries that the
//! binding needs: the cell stratum, and for every facet the cells incident on
//! it. Geometry admission supplies exact cell membership; topology supplies
//! orientation.

use vstd::prelude::*;

use crate::diagnostic::Diagnostic;

verus! {

/// Opaque exact identity of a Domain, Field or Connection.
pub type RawId = u64;

/// One entity of a simplicial mesh: its topological dimension and its index
/// inside that stratum.
#[derive(Debug, Clone, Copy, PartialEq, Eq, Structural)]
pub struct MeshEntity {
    pub dimension: usize,
    pub index: usize,
}

/// Incidence of a higher-dimensional entity on a lower one, with the
/// relative orientation sign reported by the topology.
#[derive(Debug, Clone, Copy, PartialEq, Eq, Structural)]
pub struct EntityIncidence {
    pub entity: MeshEntity,
    pub orientation: i8,
}

/// Topology snapshot of a conforming simplicial mesh.
///
/// `cell_vertices[c]` and `cell_facets[c]` are the vertex closure and the
/// facets of cell `c`; `facet_vertices[f]` is the vertex closure of facet `f`
/// and `facet_cells[f]` the cells incident on it. `coordinate_dimensions[v]`
/// is the number of coordinates stored for vertex `v`, and
/// `vertex_on_boundary[v]` tells whether `v` lies on the physical exterior.
#[derive(Debug, Clone)]
pub struct MeshTopology {
    pub dimension: usize,
    pub coordinate_dimensions: Vec<usize>,
    pub vertex_on_boundary: Vec<bool>,
    pub cell_vertices: Vec<Vec<usize>>,
    pub cell_facets: Vec<Vec<usize>>,
    pub facet_vertices: Vec<Vec<usize>>,
    pub facet_cells: Vec<Vec<EntityIncidence>>,
}

impl MeshTopology {
    /// Number of top-dimensional cells.
    pub open spec fn cell_count(&self) -> nat {
        self.cell_vertices@.len()
    }

    /// Number of facets.
    pub open spec fn facet_count(&self) -> nat {
        self.facet_cells@.len()
    }

    /// Number of vertices.
    pub open spec fn vertex_count(&self) -> nat {
        self.coordinate_dimensions@.len()
    }

    /// The per-entity tables agree in length, the vertex count is
    /// addressable, and every facet named by a cell exists.
    pub open spec fn well_formed(&self) -> bool {
        &&& self.vertex_on_boundary@.len() == self.coordinate_dimensions@.len()
        &&& self.coordinate_dimensions@.len() <= usize::MAX
        &&& self.cell_facets@.len() == self.cell_vertices@.len()
        &&& self.facet_vertices@.len() == self.facet_cells@.len()
        &&& forall|c: int, k: int|
            0 <= c < self.cell_facets@.len() && 0 <= k < self.cell_facets@[c]@.len()
                ==> #[trigger] self.cell_facets@[c]@[k] < self.facet_cells@.len()
    }

    /// Cells incident on facet `f`.
    pub open spec fn facet_sides(&self, f: int) -> Seq<EntityIncidence> {
        self.facet_cells@[f]@
    }
}

/// One endpoint of a trace quotient: the Domain and the Field it glues.
#[derive(Debug, Clone, Copy, PartialEq, Eq, Structural)]
pub struct TraceEndpoint {
    pub domain: RawId,
    pub field: RawId,
}

/// A conforming trace quotient of one Connection between two Field endpoints.
#[derive(Debug, Clone, Copy, PartialEq, Eq, Structural)]
pub struct ConformingTraceQuotient {
    pub connection: RawId,
    pub first: TraceEndpoint,
    pub second: TraceEndpoint,
}

/// A cross-Region facet with its two incident cells, ordered so that
/// `first` lies in the Domain of the first quotient endpoint.
#[derive(Debug, Clone, Copy, PartialEq, Eq, Structural)]
pub struct TraceFacet {
    pub facet: MeshEntity,
    pub first: EntityIncidence,
    pub second: EntityIncidence,
}

/// A trace quotient together with every facet that witnesses it.
#[derive(Debug, Clone)]
pub struct TraceBinding {
    pub quotient: ConformingTraceQuotient,
    pub facets: Vec<TraceFacet>,
}

/// Domain owning `cell` according to the last entry of `membership` naming it.
pub open spec fn owner_of(membership: Seq<(usize, RawId)>, cell: usize) -> Option<RawId>
    decreases membership.len(),
{
    if membership.len() == 0 {
        None
    } else if membership.last().0 == cell {
        Some(membership.last().1)
    } else {
        owner_of(membership.drop_last(), cell)
    }
}

/// Fault of the `i`-th membership entry: a cell outside the mesh, or a cell
/// that an earlier entry already assigned.
pub open spec fn membership_fault(
    mesh: MeshTopology,
    membership: Seq<(usize, RawId)>,
    i: int,
) -> Option<Diagnostic> {
    if membership[i].0 >= mesh.cell_count() {
        Some(Diagnostic::CellOutsideMesh)
    } else if owner_of(membership.take(i), membership[i].0) is Some {
        Some(Diagnostic::CellAssignedTwice)
    } else {
        None
    }
}

/// First membership fault at or after entry `i`.
pub open spec fn first_membership_fault(
    mesh: MeshTopology,
    membership: Seq<(usize, RawId)>,
    i: int,
) -> Option<Diagnostic>
    decreases membership.len() - i,
{
    if i < 0 || i >= membership.len() {
        None
    } else if membership_fault(mesh, membership, i) is Some {
        membership_fault(mesh, membership, i)
    } else {
        first_membership_fault(mesh, membership, i + 1)
    }
}

/// Some mesh cell receives no owning Domain.
pub open spec fn omits_cell(mesh: MeshTopology, membership: Seq<(usize, RawId)>) -> bool {
    exists|c: usize| c < mesh.cell_count() && #[trigger] owner_of(membership, c) is None
}

/// Owning Domain of every cell, in cell order.
pub open spec fn owners(mesh: MeshTopology, membership: Seq<(usize, RawId)>) -> Seq<RawId> {
    Seq::new(mesh.cell_count(), |c: int| owner_of(membership, c as usize)->0)
}

/// Fault of one incident side of a facet.
pub open spec fn side_fault(mesh: MeshTopology, side: EntityIncidence) -> Option<Diagnostic> {
    if side.entity.dimension != mesh.dimension {
        Some(Diagnostic::FacetOutsideCellStratum)
    } else if side.entity.index >= mesh.cell_count() {
        Some(Diagnostic::FacetReferencesAbsentCell)
    } else {
        None
    }
}

/// Fault of facet `f`: it must be incident on one or two cells of the mesh.
pub open spec fn facet_fault(mesh: MeshTopology, f: int) -> Option<Diagnostic> {
    let sides = mesh.facet_sides(f);
    if sides.len() == 0 || sides.len() > 2 {
        Some(Diagnostic::NonManifoldFacet)
    } else if side_fault(mesh, sides[0]) is Some {
        side_fault(mesh, sides[0])
    } else if sides.len() == 2 {
        side_fault(mesh, sides[1])
    } else {
        None
    }
}

/// First facet fault at or after facet `f`.
pub open spec fn first_facet_fault(mesh: MeshTopology, f: int) -> Option<Diagnostic>
    decreases mesh.facet_count() - f,
{
    if f < 0 || f >= mesh.facet_count() {
        None
    } else if facet_fault(mesh, f) is Some {
        facet_fault(mesh, f)
    } else {
        first_facet_fault(mesh, f + 1)
    }
}

/// Facet `f` lies between two cells owned by different Domains.
pub open spec fn is_cross_facet(mesh: MeshTopology, owners: Seq<RawId>, f: int) -> bool {
    let sides = mesh.facet_sides(f);
    &&& sides.len() == 2
    &&& owners[sides[0].entity.index as int] != owners[sides[1].entity.index as int]
}

/// Facet `f` lies between a cell of Domain `a` and a cell of Domain `b`.
pub open spec fn crosses(mesh: MeshTopology, owners: Seq<RawId>, f: int, a: RawId, b: RawId) -> bool {
    let sides = mesh.facet_sides(f);
    let o0 = owners[sides[0].entity.index as int];
    let o1 = owners[sides[1].entity.index as int];
    &&& is_cross_facet(mesh, owners, f)
    &&& ((o0 == a && o1 == b) || (o0 == b && o1 == a))
}

/// Witness of cross facet `f`, with the cell of Domain `a` first.
pub open spec fn oriented_facet(mesh: MeshTopology, owners: Seq<RawId>, f: int, a: RawId) -> TraceFacet {
    let sides = mesh.facet_sides(f);
    let facet = MeshEntity { dimension: (mesh.dimension - 1) as usize, index: f as usize };
    if owners[sides[0].entity.index as int] == a {
        TraceFacet { facet, first: sides[0], second: sides[1] }
    } else {
        TraceFacet { facet, first: sides[1], second: sides[0] }
    }
}

/// Witnesses, in facet order, of every facet before `n` between Domain `a`
/// (first side) and Domain `b` (second side).
pub open spec fn trace_facets(
    mesh: MeshTopology,
    owners: Seq<RawId>,
    a: RawId,
    b: RawId,
    n: int,
) -> Seq<TraceFacet>
    decreases n,
{
    if n <= 0 {
        Seq::empty()
    } else if crosses(mesh, owners, n - 1, a, b) {
        trace_facets(mesh, owners, a, b, n - 1).push(oriented_facet(mesh, owners, n - 1, a))
    } else {
        trace_facets(mesh, owners, a, b, n - 1)
    }
}

/// Witnesses of quotient `q` over the whole facet stratum.
pub open spec fn quotient_facets(
    mesh: MeshTopology,
    owners: Seq<RawId>,
    q: ConformingTraceQuotient,
) -> Seq<TraceFacet> {
    trace_facets(mesh, owners, q.first.domain, q.second.domain, mesh.facet_count() as int)
}

/// Exact identity of a quotient: its Connection and its two Fields.
pub open spec fn same_identity(p: ConformingTraceQuotient, q: ConformingTraceQuotient) -> bool {
    p.connection == q.connection && p.first.field == q.first.field && p.second.field
        == q.second.field
}

/// Fault of the `i`-th quotient: an identity repeated from an earlier
/// quotient, or a quotient with no cross-Region facet between its Domains.
pub open spec fn quotient_fault(
    mesh: MeshTopology,
    owners: Seq<RawId>,
    quotients: Seq<ConformingTraceQuotient>,
    i: int,
) -> Option<Diagnostic> {
    if exists|j: int| 0 <= j < i && #[trigger] same_identity(quotients[j], quotients[i]) {
        Some(Diagnostic::RepeatedTraceQuotient)
    } else if quotient_facets(mesh, owners, quotients[i]).len() == 0 {
        Some(Diagnostic::QuotientWithoutFacetCoverage)
    } else {
        None
    }
}

/// First quotient fault at or after quotient `i`.
pub open spec fn first_quotient_fault(
    mesh: MeshTopology,
    owners: Seq<RawId>,
    quotients: Seq<ConformingTraceQuotient>,
    i: int,
) -> Option<Diagnostic>
    decreases quotients.len() - i,
{
    if i < 0 || i >= quotients.len() {
        None
    } else if quotient_fault(mesh, owners, quotients, i) is Some {
        quotient_fault(mesh, owners, quotients, i)
    } else {
        first_quotient_fault(mesh, owners, quotients, i + 1)
    }
}

/// Some cross-Region facet is witnessed by no quotient.
pub open spec fn uncovered_facet(
    mesh: MeshTopology,
    owners: Seq<RawId>,
    quotients: Seq<ConformingTraceQuotient>,
) -> bool {
    exists|f: int|
        0 <= f < mesh.facet_count() && #[trigger] is_cross_facet(mesh, owners, f) && forall|
            i: int,
        |
            0 <= i < quotients.len() ==> !crosses(
                mesh,
                owners,
                f,
                #[trigger] quotients[i].first.domain,
                quotients[i].second.domain,
            )
}

/// The first check of the Region binding that rejects, if any.
pub open spec fn binding_fault(
    mesh: MeshTopology,
    membership: Seq<(usize, RawId)>,
    quotients: Seq<ConformingTraceQuotient>,
) -> Option<Diagnostic> {
    let owned = owners(mesh, membership);
    if mesh.dimension == 0 || mesh.cell_count() == 0 {
        Some(Diagnostic::EmptyCellStratum)
    } else if first_membership_fault(mesh, membership, 0) is Some {
        first_membership_fault(mesh, membership, 0)
    } else if omits_cell(mesh, membership) {
        Some(Diagnostic::CellOmitted)
    } else if first_facet_fault(mesh, 0) is Some {
        first_facet_fault(mesh, 0)
    } else if first_quotient_fault(mesh, owned, quotients, 0) is Some {
        first_quotient_fault(mesh, owned, quotients, 0)
    } else if uncovered_facet(mesh, owned, quotients) {
        Some(Diagnostic::IncompleteQuotientCoverage)
    } else {
        None
    }
}

/// The trace bindings are, quotient by quotient, the quotient with its
/// complete oriented facet witnesses.
pub open spec fn binds_traces(
    mesh: MeshTopology,
    owners: Seq<RawId>,
    quotients: Seq<ConformingTraceQuotient>,
    traces: Seq<TraceBinding>,
) -> bool {
    &&& traces.len() == quotients.len()
    &&& forall|i: int|
        0 <= i < quotients.len() ==> {
            &&& (#[trigger] traces[i]).quotient == quotients[i]
            &&& traces[i].facets@ == quotient_facets(mesh, owners, quotients[i])
        }
}

/// Every witness of `s` is oriented from Domain `a` to Domain `b` and lies
/// on a facet below `n`; facets strictly increase along `s`.
pub open spec fn oriented_witnesses(
    mesh: MeshTopology,
    owners: Seq<RawId>,
    a: RawId,
    b: RawId,
    s: Seq<TraceFacet>,
    n: int,
) -> bool {
    &&& forall|w: int|
        0 <= w < s.len() ==> #[trigger] oriented_witness(mesh, owners, a, b, s[w])
            && s[w].facet.index < n
    &&& forall|v: int, w: int|
        0 <= v < w < s.len() ==> (#[trigger] s[v]).facet.index < (#[trigger] s[w]).facet.index
}

/// The owner of a cell is the Domain of some entry naming it; a cell named by
/// no entry has no owner.
proof fn lemma_owner_of_entry(m: Seq<(usize, RawId)>, cell: usize)
    ensures
        owner_of(m, cell) is None ==> forall|i: int| 0 <= i < m.len() ==> (#[trigger] m[i]).0 != cell,
        owner_of(m, cell) is Some ==> exists|i: int| 0 <= i < m.len() && #[trigger] m[i] == (
            cell,
            owner_of(m, cell)->0,
        ),
    decreases m.len(),
{
    if m.len() > 0 {
        let t = m.drop_last();
        lemma_owner_of_entry(t, cell);
        if m.last().0 == cell {
            assert(m[m.len() - 1] == (cell, owner_of(m, cell)->0));
        } else {
            if owner_of(m, cell) is Some {
                let i = choose|i: int| 0 <= i < t.len() && #[trigger] t[i] == (cell, owner_of(t, cell)->0);
                assert(m[i] == t[i]);
            } else {
                assert forall|i: int| 0 <= i < m.len() implies (#[trigger] m[i]).0 != cell by {
                    if i < t.len() {
                        assert(m[i] == t[i]);
                    }
                }
            }
        }
    }
}

/// Without membership faults no cell is named twice.
proof fn lemma_membership_cells_distinct(mesh: MeshTopology, m: Seq<(usize, RawId)>, i: int)
    requires
        0 <= i <= m.len(),
        first_membership_fault(mesh, m, i) is None,
    ensures
        forall|a: int, b: int| 0 <= a < b < m.len() && i <= b ==> (#[trigger] m[a]).0 != (#[trigger] m[b]).0,
    decreases m.len() - i,
{
    if i < m.len() {
        assert(membership_fault(mesh, m, i) is None);
        lemma_membership_cells_distinct(mesh, m, i + 1);
        let t = m.take(i);
        lemma_owner_of_entry(t, m[i].0);
        assert forall|a: int| 0 <= a < i implies (#[trigger] m[a]).0 != m[i].0 by {
            assert(t[a] == m[a]);
        }
    }
}

/// In a membership naming each cell once, a cell's owner is the Domain of
/// the entry naming it.
proof fn lemma_owner_of_named_once(m: Seq<(usize, RawId)>, cell: usize, d: RawId)
    requires
        forall|a: int, b: int| 0 <= a < b < m.len() ==> (#[trigger] m[a]).0 != (#[trigger] m[b]).0,
    ensures
        owner_of(m, cell) == Some(d) <==> m.contains((cell, d)),
{
    lemma_owner_of_entry(m, cell);
    if m.contains((cell, d)) {
        let i = choose|i: int| 0 <= i < m.len() && m[i] == (cell, d);
        assert(m[i].0 == cell);
        let j = choose|j: int| 0 <= j < m.len() && #[trigger] m[j] == (cell, owner_of(m, cell)->0);
        if i < j {
            assert(m[i].0 != m[j].0);
        } else if j < i {
            assert(m[j].0 != m[i].0);
        }
    }
    if owner_of(m, cell) == Some(d) {
        let j = choose|j: int| 0 <= j < m.len() && #[trigger] m[j] == (cell, owner_of(m, cell)->0);
        assert(m[j] == (cell, d));
    }
}

/// Membership order carries no meaning: two memberships without membership
/// faults that name the same (cell, Domain) pairs give the same cell owners
/// and the same binding verdict for any quotients.
pub proof fn lemma_binding_ignores_membership_order(
    mesh: MeshTopology,
    m1: Seq<(usize, RawId)>,
    m2: Seq<(usize, RawId)>,
    quotients: Seq<ConformingTraceQuotient>,
)
    requires
        first_membership_fault(mesh, m1, 0) is None,
        first_membership_fault(mesh, m2, 0) is None,
        forall|i: int| 0 <= i < m1.len() ==> m2.contains(#[trigger] m1[i]),
        forall|j: int| 0 <= j < m2.len() ==> m1.contains(#[trigger] m2[j]),
    ensures
        owners(mesh, m1) == owners(mesh, m2),
        binding_fault(mesh, m1, quotients) == binding_fault(mesh, m2, quotients),
{
    lemma_membership_cells_distinct(mesh, m1, 0);
    lemma_membership_cells_distinct(mesh, m2, 0);
    assert forall|c: usize| #[trigger] owner_of(m1, c) == owner_of(m2, c) by {
        if owner_of(m1, c) is Some {
            let d = owner_of(m1, c)->0;
            lemma_owner_of_named_once(m1, c, d);
            lemma_owner_of_named_once(m2, c, d);
            let i = choose|i: int| 0 <= i < m1.len() && m1[i] == (c, d);
            assert(m2.contains(m1[i]));
        } else if owner_of(m2, c) is Some {
            let d = owner_of(m2, c)->0;
            lemma_owner_of_named_once(m1, c, d);
            lemma_owner_of_named_once(m2, c, d);
            let j = choose|j: int| 0 <= j < m2.len() && m2[j] == (c, d);
            assert(m1.contains(m2[j]));
        }
    }
    assert(owners(mesh, m1) =~= owners(mesh, m2));
    if omits_cell(mesh, m1) {
        let c = choose|c: usize| c < mesh.cell_count() && #[trigger] owner_of(m1, c) is None;
        assert(owner_of(m2, c) is None);
    }
    if omits_cell(mesh, m2) {
        let c = choose|c: usize| c < mesh.cell_count() && #[trigger] owner_of(m2, c) is None;
        assert(owner_of(m1, c) is None);
    }
}

/// Witnesses before facet `n` lie on distinct mesh facets in increasing order,
/// each with its first cell in Domain `a` and its second cell in Domain `b`.
proof fn lemma_trace_facets_oriented(
    mesh: MeshTopology,
    owners: Seq<RawId>,
    a: RawId,
    b: RawId,
    n: int,
)
    requires
        n <= mesh.facet_count(),
        n <= usize::MAX,
        mesh.dimension > 0,
    ensures
        oriented_witnesses(mesh, owners, a, b, trace_facets(mesh, owners, a, b, n), n),
    decreases n,
{
    if n > 0 {
        lemma_trace_facets_oriented(mesh, owners, a, b, n - 1);
        let prev = trace_facets(mesh, owners, a, b, n - 1);
        if crosses(mesh, owners, n - 1, a, b) {
            let t = oriented_facet(mesh, owners, n - 1, a);
            let cur = prev.push(t);
            assert(t.facet.index == n - 1);
            assert(oriented_witness(mesh, owners, a, b, t));
            assert forall|w: int| 0 <= w < cur.len() implies #[trigger] oriented_witness(
                mesh,
                owners,
                a,
                b,
                cur[w],
            ) && cur[w].facet.index < n by {
                if w < prev.len() {
                    assert(cur[w] == prev[w]);
                    assert(oriented_witness(mesh, owners, a, b, prev[w]));
                } else {
                    assert(cur[w] == t);
                }
            }
            assert forall|v: int, w: int| 0 <= v < w < cur.len() implies (#[trigger] cur[v]).facet.index
                < (#[trigger] cur[w]).facet.index by {
                assert(cur[v] == prev[v]);
                assert(oriented_witness(mesh, owners, a, b, prev[v]));
                if w < prev.len() {
                    assert(cur[w] == prev[w]);
                }
            }
            assert(oriented_witnesses(mesh, owners, a, b, cur, n));
        } else {
            assert forall|w: int| 0 <= w < prev.len() implies #[trigger] oriented_witness(
                mesh,
                owners,
                a,
                b,
                prev[w],
            ) && prev[w].facet.index < n by {
                assert(oriented_witness(mesh, owners, a, b, prev[w]));
            }
            assert(oriented_witnesses(mesh, owners, a, b, prev, n));
        }
    }
}

/// Witness `t` lies on a facet of the mesh between its two incident cells,
/// the first owned by Domain `a` and the second by Domain `b`.
pub open spec fn oriented_witness(
    mesh: MeshTopology,
    owners: Seq<RawId>,
    a: RawId,
    b: RawId,
    t: TraceFacet,
) -> bool {
    let sides = mesh.facet_sides(t.facet.index as int);
    &&& t.facet.index < mesh.facet_count()
    &&& t.facet.dimension + 1 == mesh.dimension
    &&& sides.len() == 2
    &&& ((t.first == sides[0] && t.second == sides[1]) || (t.first == sides[1] && t.second
        == sides[0]))
    &&& owners[t.first.entity.index as int] == a
    &&& owners[t.second.entity.index as int] == b
    &&& a != b
}

/// Every witness of a quotient joins a cell of its first Domain, on the first
/// side, to a cell of its second Domain, on the second side, across one facet
/// of the mesh; witnesses follow the facet order, each facet at most once.
pub proof fn lemma_quotient_witnesses_oriented(
    mesh: MeshTopology,
    owners: Seq<RawId>,
    q: ConformingTraceQuotient,
)
    requires
        mesh.dimension > 0,
        mesh.facet_count() <= usize::MAX,
    ensures
        oriented_witnesses(
            mesh,
            owners,
            q.first.domain,
            q.second.domain,
            quotient_facets(mesh, owners, q),
            mesh.facet_count() as int,
        ),
{
    lemma_trace_facets_oriented(
        mesh,
        owners,
        q.first.domain,
        q.second.domain,
        mesh.facet_count() as int,
    );
}

/// Every facet before `n` between a cell of Domain `a` and a cell of Domain
/// `b`, in either incidence order, has a witness.
proof fn lemma_trace_facets_complete(
    mesh: MeshTopology,
    owners: Seq<RawId>,
    a: RawId,
    b: RawId,
    n: int,
)
    requires
        n <= usize::MAX,
    ensures
        forall|f: int|
            0 <= f < n && #[trigger] crosses(mesh, owners, f, a, b) ==> exists|w: int|
                0 <= w < trace_facets(mesh, owners, a, b, n).len() && trace_facets(
                    mesh,
                    owners,
                    a,
                    b,
                    n,
                )[w].facet.index == f,
    decreases n,
{
    if n > 0 {
        lemma_trace_facets_complete(mesh, owners, a, b, n - 1);
        let prev = trace_facets(mesh, owners, a, b, n - 1);
        let cur = trace_facets(mesh, owners, a, b, n);
        assert forall|f: int| 0 <= f < n && #[trigger] crosses(mesh, owners, f, a, b) implies exists|w: int|
            0 <= w < cur.len() && cur[w].facet.index == f by {
            if f < n - 1 {
                let w = choose|w: int| 0 <= w < prev.len() && prev[w].facet.index == f;
                if crosses(mesh, owners, n - 1, a, b) {
                    assert(cur == prev.push(oriented_facet(mesh, owners, n - 1, a)));
                    assert(cur[w] == prev[w]);
                } else {
                    assert(cur == prev);
                }
            } else {
                assert(cur == prev.push(oriented_facet(mesh, owners, n - 1, a)));
                assert(cur[prev.len() as int].facet.index == f);
            }
        }
    }
}

/// Witnesses are complete: every facet of the mesh between a cell of the
/// quotient's first Domain and a cell of its second Domain, whichever of the
/// two the mesh lists first, is a witness of the quotient, with the cell of
/// the first Domain on the first side.
pub proof fn lemma_quotient_witnesses_complete(
    mesh: MeshTopology,
    owners: Seq<RawId>,
    q: ConformingTraceQuotient,
    f: int,
)
    requires
        mesh.dimension > 0,
        mesh.facet_count() <= usize::MAX,
        0 <= f < mesh.facet_count(),
        mesh.facet_sides(f).len() == 2,
        q.first.domain != q.second.domain,
        ({
            let o0 = owners[mesh.facet_sides(f)[0].entity.index as int];
            let o1 = owners[mesh.facet_sides(f)[1].entity.index as int];
            (o0 == q.first.domain && o1 == q.second.domain) || (o0 == q.second.domain && o1
                == q.first.domain)
        }),
    ensures
        exists|w: int|
            0 <= w < quotient_facets(mesh, owners, q).len() && (#[trigger] quotient_facets(
                mesh,
                owners,
                q,
            )[w]).facet.index == f && owners[quotient_facets(mesh, owners, q)[w].first.entity.index as int]
                == q.first.domain && owners[quotient_facets(
                mesh,
                owners,
                q,
            )[w].second.entity.index as int] == q.second.domain,
{
    assert(crosses(mesh, owners, f, q.first.domain, q.second.domain));
    lemma_trace_facets_complete(
        mesh,
        owners,
        q.first.domain,
        q.second.domain,
        mesh.facet_count() as int,
    );
    lemma_quotient_witnesses_oriented(mesh, owners, q);
    let s = quotient_facets(mesh, owners, q);
    let w = choose|w: int| 0 <= w < s.len() && s[w].facet.index == f;
    assert(oriented_witness(mesh, owners, q.first.domain, q.second.domain, s[w]));
}

/// Bind every mesh cell to exactly one Domain and every trace quotient to its
/// complete set of cross-Region facet witnesses.
///
/// Membership order carries no meaning, but each cell must be named exactly
/// once. Facets must be manifold (one or two incident cells of the cell
/// stratum). Quotients must be pairwise distinct, each must be witnessed by
/// at least one cross-Region facet, and every cross-Region facet must be
/// witnessed by some quotient. The first failing check is reported.
pub fn bind_region_topology(
    mesh: &MeshTopology,
    membership: &[(usize, RawId)],
    quotients: &[ConformingTraceQuotient],
) -> (result: Result<(Vec<RawId>, Vec<TraceBinding>), Diagnostic>)
    ensures
        result is Ok <==> binding_fault(*mesh, membership@, quotients@) is None,
        result matches Err(e) ==> binding_fault(*mesh, membership@, quotients@) == Some(e),
        result matches Ok((owned, traces)) ==> {
            &&& owned@ == owners(*mesh, membership@)
            &&& binds_traces(*mesh, owned@, quotients@, traces@)
        },
{
    let dimension = mesh.dimension;
    let count = mesh.cell_vertices.len();
    if dimension == 0 || count == 0 {
        return Err(Diagnostic::EmptyCellStratum);
    }
    let ghost m = membership@;
    // Exact owner of every cell named by the entries seen so far.
    let mut assigned: Vec<Option<RawId>> = Vec::new();
    let mut c: usize = 0;
    while c < count
        invariant
            c <= count,
            assigned@.len() == c,
            forall|k: int| 0 <= k < c ==> (#[trigger] assigned@[k]) is None,
        decreases count - c,
    {
        assigned.push(None);
        c = c + 1;
    }
    assert(m.take(0) =~= Seq::<(usize, RawId)>::empty());
    let mut i: usize = 0;
    while i < membership.len()
        invariant
            0 <= i <= membership.len(),
            m == membership@,
            count == mesh.cell_count(),
            assigned@.len() == count,
            forall|k: int| 0 <= k < count ==> #[trigger] assigned@[k] == owner_of(m.take(i as int), k as usize),
            first_membership_fault(*mesh, m, 0) == first_membership_fault(*mesh, m, i as int),
            dimension == mesh.dimension,
            dimension != 0,
            count > 0,
        decreases membership.len() - i,
    {
        let (cell, domain) = membership[i];
        assert(m[i as int] == (cell, domain));
        if cell >= count {
            assert(membership_fault(*mesh, m, i as int) == Some(Diagnostic::CellOutsideMesh));
            assert(first_membership_fault(*mesh, m, i as int) == Some(Diagnostic::CellOutsideMesh));
            return Err(Diagnostic::CellOutsideMesh);
        }
        if assigned[cell].is_some() {
            assert(membership_fault(*mesh, m, i as int) == Some(Diagnostic::CellAssignedTwice));
            assert(first_membership_fault(*mesh, m, i as int) == Some(Diagnostic::CellAssignedTwice));
            return Err(Diagnostic::CellAssignedTwice);
        }
        assert(membership_fault(*mesh, m, i as int) is None);
        assigned.set(cell, Some(domain));
        assert(m.take(i + 1).drop_last() =~= m.take(i as int));
        i = i + 1;
    }
    assert(m.take(m.len() as int) =~= m);
    assert(first_membership_fault(*mesh, m, 0) is None);
    let mut owned: Vec<RawId> = Vec::new();
    let mut c: usize = 0;
    while c < count
        invariant
            c <= count,
            m == membership@,
            count == mesh.cell_count(),
            assigned@.len() == count,
            forall|k: int| 0 <= k < count ==> #[trigger] assigned@[k] == owner_of(m, k as usize),
            owned@.len() == c,
            forall|k: int| 0 <= k < c ==> #[trigger] owned@[k] == owners(*mesh, m)[k],
            forall|k: usize| k < c ==> #[trigger] owner_of(m, k) is Some,
            dimension == mesh.dimension,
            dimension != 0,
            count > 0,
            first_membership_fault(*mesh, m, 0) is None,
        decreases count - c,
    {
        match assigned[c] {
            Some(domain) => {
                owned.push(domain);
            },
            None => {
                assert(owner_of(m, c) is None);
                assert(omits_cell(*mesh, m));
                return Err(Diagnostic::CellOmitted);
            },
        }
        c = c + 1;
    }
    assert(owned@ =~= owners(*mesh, m));
    assert(!omits_cell(*mesh, m));
    let ghost own = owned@;
    let facet_count = mesh.facet_cells.len();
    let mut f: usize = 0;
    while f < facet_count
        invariant
            f <= facet_count,
            facet_count == mesh.facet_count(),
            count == mesh.cell_count(),
            dimension == mesh.dimension,
            first_facet_fault(*mesh, 0) == first_facet_fault(*mesh, f as int),
            forall|g: int| 0 <= g < f ==> #[trigger] facet_fault(*mesh, g) is None,
            m == membership@,
            dimension != 0,
            count > 0,
            first_membership_fault(*mesh, m, 0) is None,
            !omits_cell(*mesh, m),
            own == owners(*mesh, m),
        decreases facet_count - f,
    {
        let sides = &mesh.facet_cells[f];
        if sides.len() == 0 || sides.len() > 2 {
            assert(facet_fault(*mesh, f as int) == Some(Diagnostic::NonManifoldFacet));
            assert(first_facet_fault(*mesh, f as int) == Some(Diagnostic::NonManifoldFacet));
            return Err(Diagnostic::NonManifoldFacet);
        }
        let mut k: usize = 0;
        while k < sides.len()
            invariant
                sides@ == mesh.facet_sides(f as int),
                1 <= sides@.len() <= 2,
                k <= sides@.len(),
                count == mesh.cell_count(),
                dimension == mesh.dimension,
                forall|j: int| 0 <= j < k ==> side_fault(*mesh, #[trigger] sides@[j]) is None,
                first_facet_fault(*mesh, 0) == first_facet_fault(*mesh, f as int),
                f < facet_count,
                facet_count == mesh.facet_count(),
                m == membership@,
                dimension != 0,
                count > 0,
                first_membership_fault(*mesh, m, 0) is None,
                !omits_cell(*mesh, m),
                own == owners(*mesh, m),
            decreases sides@.len() - k,
        {
            let side = sides[k];
            if side.entity.dimension != dimension {
                assert(facet_fault(*mesh, f as int) == Some(Diagnostic::FacetOutsideCellStratum));
                assert(first_facet_fault(*mesh, f as int) == Some(Diagnostic::FacetOutsideCellStratum));
                return Err(Diagnostic::FacetOutsideCellStratum);
            }
            if side.entity.index >= count {
                assert(facet_fault(*mesh, f as int) == Some(Diagnostic::FacetReferencesAbsentCell));
                assert(first_facet_fault(*mesh, f as int) == Some(Diagnostic::FacetReferencesAbsentCell));
                return Err(Diagnostic::FacetReferencesAbsentCell);
            }
            k = k + 1;
        }
        assert(side_fault(*mesh, sides@[0]) is None);
        assert(facet_fault(*mesh, f as int) is None);
        f = f + 1;
    }
    assert(first_facet_fault(*mesh, 0) is None);
    let mut traces: Vec<TraceBinding> = Vec::new();
    let mut i: usize = 0;
    while i < quotients.len()
        invariant
            0 <= i <= quotients.len(),
            facet_count == mesh.facet_count(),
            count == mesh.cell_count(),
            dimension == mesh.dimension,
            dimension > 0,
            owned@ == own,
            own.len() == count,
            forall|g: int| 0 <= g < facet_count ==> #[trigger] facet_fault(*mesh, g) is None,
            first_quotient_fault(*mesh, own, quotients@, 0) == first_quotient_fault(
                *mesh,
                own,
                quotients@,
                i as int,
            ),
            traces@.len() == i,
            m == membership@,
            dimension != 0,
            count > 0,
            first_membership_fault(*mesh, m, 0) is None,
            !omits_cell(*mesh, m),
            own == owners(*mesh, m),
            first_facet_fault(*mesh, 0) is None,
            forall|j: int|
                0 <= j < i ==> {
                    &&& (#[trigger] traces@[j]).quotient == quotients@[j]
                    &&& traces@[j].facets@ == quotient_facets(*mesh, own, quotients@[j])
                },
        decreases quotients.len() - i,
    {
        let q = quotients[i];
        assert(q == quotients@[i as int]);
        let mut j: usize = 0;
        while j < i
            invariant
                j <= i < quotients.len(),
                q == quotients@[i as int],
                forall|k: int| 0 <= k < j ==> !#[trigger] same_identity(quotients@[k], q),
                first_quotient_fault(*mesh, own, quotients@, 0) == first_quotient_fault(
                    *mesh,
                    own,
                    quotients@,
                    i as int,
                ),
                first_facet_fault(*mesh, 0) is None,
                dimension == mesh.dimension,
                count == mesh.cell_count(),
                m == membership@,
                dimension != 0,
                count > 0,
                first_membership_fault(*mesh, m, 0) is None,
                !omits_cell(*mesh, m),
                own == owners(*mesh, m),
            decreases i - j,
        {
            let p = quotients[j];
            if p.connection == q.connection && p.first.field == q.first.field && p.second.field
                == q.second.field {
                assert(same_identity(quotients@[j as int], quotients@[i as int]));
                assert(quotient_fault(*mesh, own, quotients@, i as int) == Some(Diagnostic::RepeatedTraceQuotient));
                assert(first_quotient_fault(*mesh, own, quotients@, i as int) == Some(Diagnostic::RepeatedTraceQuotient));
                return Err(Diagnostic::RepeatedTraceQuotient);
            }
            j = j + 1;
        }
        let a = q.first.domain;
        let b = q.second.domain;
        let mut facets: Vec<TraceFacet> = Vec::new();
        let mut g: usize = 0;
        while g < facet_count
            invariant
                g <= facet_count,
                facet_count == mesh.facet_count(),
                count == mesh.cell_count(),
                dimension == mesh.dimension,
                dimension > 0,
                owned@ == own,
                own.len() == count,
                forall|h: int| 0 <= h < facet_count ==> #[trigger] facet_fault(*mesh, h) is None,
                facets@ == trace_facets(*mesh, own, a, b, g as int),
            decreases facet_count - g,
        {
            let sides = &mesh.facet_cells[g];
            assert(facet_fault(*mesh, g as int) is None);
            if sides.len() == 2 {
                let s0 = sides[0];
                let s1 = sides[1];
                let o0 = owned[s0.entity.index];
                let o1 = owned[s1.entity.index];
                if o0 != o1 && ((o0 == a && o1 == b) || (o0 == b && o1 == a)) {
                    let facet = MeshEntity { dimension: dimension - 1, index: g };
                    if o0 == a {
                        facets.push(TraceFacet { facet, first: s0, second: s1 });
                    } else {
                        facets.push(TraceFacet { facet, first: s1, second: s0 });
                    }
                }
            }
            g = g + 1;
        }
        assert(!exists|j: int| 0 <= j < i && #[trigger] same_identity(quotients@[j], quotients@[i as int]));
        assert(facets@ == quotient_facets(*mesh, own, quotients@[i as int]));
        if facets.len() == 0 {
            assert(quotient_fault(*mesh, own, quotients@, i as int) == Some(Diagnostic::QuotientWithoutFacetCoverage));
            assert(first_quotient_fault(*mesh, own, quotients@, i as int) == Some(Diagnostic::QuotientWithoutFacetCoverage));
            return Err(Diagnostic::QuotientWithoutFacetCoverage);
        }
        assert(quotient_fault(*mesh, own, quotients@, i as int) is None);
        traces.push(TraceBinding { quotient: q, facets });
        i = i + 1;
    }
    assert(first_quotient_fault(*mesh, own, quotients@, 0) is None);
    let mut f: usize = 0;
    while f < facet_count
        invariant
            f <= facet_count,
            facet_count == mesh.facet_count(),
            count == mesh.cell_count(),
            owned@ == own,
            own.len() == count,
            forall|g: int| 0 <= g < facet_count ==> #[trigger] facet_fault(*mesh, g) is None,
            forall|g: int|
                0 <= g < f && #[trigger] is_cross_facet(*mesh, own, g) ==> exists|k: int|
                    0 <= k < quotients@.len() && crosses(
                        *mesh,
                        own,
                        g,
                        #[trigger] quotients@[k].first.domain,
                        quotients@[k].second.domain,
                    ),
            m == membership@,
            dimension != 0,
            count > 0,
            first_membership_fault(*mesh, m, 0) is None,
            !omits_cell(*mesh, m),
            own == owners(*mesh, m),
            first_facet_fault(*mesh, 0) is None,
            first_quotient_fault(*mesh, own, quotients@, 0) is None,
            dimension == mesh.dimension,
        decreases facet_count - f,
    {
        let sides = &mesh.facet_cells[f];
        assert(facet_fault(*mesh, f as int) is None);
        if sides.len() == 2 {
            let o0 = owned[sides[0].entity.index];
            let o1 = owned[sides[1].entity.index];
            if o0 != o1 {
                let mut k: usize = 0;
                let mut found = false;
                while k < quotients.len()
                    invariant
                        k <= quotients.len(),
                        sides@ == mesh.facet_sides(f as int),
                        sides@.len() == 2,
                        facet_fault(*mesh, f as int) is None,
                        f < facet_count,
                        facet_count == mesh.facet_count(),
                        count == mesh.cell_count(),
                        own.len() == count,
                        o0 != o1,
                        o0 == own[sides@[0].entity.index as int],
                        o1 == own[sides@[1].entity.index as int],
                        dimension == mesh.dimension,
                        first_facet_fault(*mesh, 0) is None,
                        first_quotient_fault(*mesh, own, quotients@, 0) is None,
                        m == membership@,
                        dimension != 0,
                        count > 0,
                        first_membership_fault(*mesh, m, 0) is None,
                        !omits_cell(*mesh, m),
                        own == owners(*mesh, m),

                        found ==> exists|j: int|
                            0 <= j < quotients@.len() && crosses(
                                *mesh,
                                own,
                                f as int,
                                #[trigger] quotients@[j].first.domain,
                                quotients@[j].second.domain,
                            ),
                        !found ==> forall|j: int|
                            0 <= j < k ==> !crosses(
                                *mesh,
                                own,
                                f as int,
                                #[trigger] quotients@[j].first.domain,
                                quotients@[j].second.domain,
                            ),
                    decreases quotients.len() - k,
                {
                    let a = quotients[k].first.domain;
                    let b = quotients[k].second.domain;
                    if (o0 == a && o1 == b) || (o0 == b && o1 == a) {
                        found = true;
                        assert(crosses(*mesh, own, f as int, quotients@[k as int].first.domain, quotients@[k as int].second.domain));
                    }
                    k = k + 1;
                }
                if !found {
                    assert(is_cross_facet(*mesh, own, f as int));
                    assert(uncovered_facet(*mesh, own, quotients@));
                    return Err(Diagnostic::IncompleteQuotientCoverage);
                }
            }
        }
        f = f + 1;
    }
    assert(!uncovered_facet(*mesh, own, quotients@));
    Ok((owned, traces))
}

} // verus!
