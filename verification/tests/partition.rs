use eqiora_numerics::connectivity::{region_vertices, require_connected_cells};
use eqiora_numerics::contract::{
    require_mesh_dimension, validate_fixed_exterior, FixedReferenceFsiBoundary,
};
use eqiora_numerics::motion::require_motion_inventory;
use eqiora_numerics::partition::FixedReferenceFsiPartition;
use eqiora_numerics::projection::{
    cell_vertex_indices, facet_vertex_indices, interface_facet_indices, material_boundary_sides,
    pressure_position, velocity_scalar_dofs, RetainedFacetSide,
};
use eqiora_numerics::topology::{
    bind_region_topology, ConformingTraceQuotient, EntityIncidence, MeshEntity, MeshTopology,
    TraceEndpoint,
};
use eqiora_numerics::Diagnostic;

const FLUID: u64 = 1;
const SOLID: u64 = 2;
const FLUID_VELOCITY: u64 = 10;
const SOLID_VELOCITY: u64 = 11;
const INTERFACE: u64 = 100;

/// Planar triangle mesh: every edge is a facet, numbered in order of first
/// appearance, and each incident cell is recorded with the edge's
/// orientation relative to the cell.
fn planar_mesh(vertex_count: usize, boundary: &[usize], cells: &[[usize; 3]]) -> MeshTopology {
    let mut facet_vertices: Vec<Vec<usize>> = Vec::new();
    let mut facet_cells: Vec<Vec<EntityIncidence>> = Vec::new();
    let mut cell_facets = Vec::new();
    for (c, cell) in cells.iter().enumerate() {
        let mut facets = Vec::new();
        for (a, b) in [(cell[0], cell[1]), (cell[1], cell[2]), (cell[2], cell[0])] {
            let key = vec![a.min(b), a.max(b)];
            let orientation = if a < b { 1 } else { -1 };
            let f = match facet_vertices.iter().position(|v| *v == key) {
                Some(f) => f,
                None => {
                    facet_vertices.push(key);
                    facet_cells.push(Vec::new());
                    facet_vertices.len() - 1
                }
            };
            facet_cells[f].push(EntityIncidence {
                entity: MeshEntity { dimension: 2, index: c },
                orientation,
            });
            facets.push(f);
        }
        cell_facets.push(facets);
    }
    MeshTopology {
        dimension: 2,
        coordinate_dimensions: vec![2; vertex_count],
        vertex_on_boundary: (0..vertex_count).map(|v| boundary.contains(&v)).collect(),
        cell_vertices: cells.iter().map(|c| c.to_vec()).collect(),
        cell_facets,
        facet_vertices,
        facet_cells,
    }
}

/// Two by two squares of [0, 2] x [0, 1], each split into two triangles;
/// vertex `row * 3 + column` sits at `(column, row / 2)`.
fn two_domain_mesh() -> MeshTopology {
    let mut cells = Vec::new();
    for row in 0..2 {
        for column in 0..2 {
            let lower_left = row * 3 + column;
            cells.push([lower_left, lower_left + 1, lower_left + 4]);
            cells.push([lower_left, lower_left + 4, lower_left + 3]);
        }
    }
    planar_mesh(9, &[0, 1, 2, 3, 5, 6, 7, 8], &cells)
}

fn fluid_cells() -> Vec<usize> {
    vec![0, 1, 4, 5]
}

fn solid_cells() -> Vec<usize> {
    vec![2, 3, 6, 7]
}

fn quotient() -> ConformingTraceQuotient {
    ConformingTraceQuotient {
        connection: INTERFACE,
        first: TraceEndpoint { domain: FLUID, field: FLUID_VELOCITY },
        second: TraceEndpoint { domain: SOLID, field: SOLID_VELOCITY },
    }
}

fn facet_of(mesh: &MeshTopology, a: usize, b: usize) -> usize {
    mesh.facet_vertices
        .iter()
        .position(|v| *v == vec![a.min(b), a.max(b)])
        .unwrap()
}

fn partition(mesh: &MeshTopology) -> FixedReferenceFsiPartition<2> {
    FixedReferenceFsiPartition::<2>::new(
        mesh,
        vec![(FLUID, fluid_cells()), (SOLID, solid_cells())],
        &[quotient()],
    )
    .unwrap()
}

#[test]
fn exact_partition_requires_complete_domains_and_quotient() {
    let mesh = two_domain_mesh();
    let fixture = partition(&mesh);
    let fluid = fixture.domain_cells(FLUID).unwrap().to_vec();
    let solid = fixture.domain_cells(SOLID).unwrap().to_vec();
    assert!(FixedReferenceFsiPartition::<2>::new(
        &mesh,
        vec![(FLUID, fluid.clone()), (SOLID, solid.clone())],
        &[],
    )
    .is_err());
    let mut incomplete = fluid;
    incomplete.pop();
    assert!(FixedReferenceFsiPartition::<2>::new(
        &mesh,
        vec![(FLUID, incomplete), (SOLID, solid)],
        &[quotient()],
    )
    .is_err());
}

#[test]
fn partition_exposes_canonical_domains_closures_and_owners() {
    let mesh = two_domain_mesh();
    let p = partition(&mesh);
    assert_eq!(p.domains(), vec![FLUID, SOLID]);
    assert_eq!(p.domain_cells(FLUID).unwrap(), &vec![0, 1, 4, 5]);
    assert_eq!(p.domain_cells(SOLID).unwrap(), &vec![2, 3, 6, 7]);
    assert_eq!(p.domain_vertices(FLUID).unwrap(), &vec![0, 1, 3, 4, 6, 7]);
    assert_eq!(p.domain_vertices(SOLID).unwrap(), &vec![1, 2, 4, 5, 7, 8]);
    assert!(p.domain_cells(3).is_none());
    assert!(p.domain_vertices(3).is_none());
    assert_eq!(p.cell_count(), 8);
    assert_eq!(
        p.cell_domains(),
        &vec![FLUID, FLUID, SOLID, SOLID, FLUID, FLUID, SOLID, SOLID]
    );
    assert_eq!(p.quotients(), vec![quotient()]);
    let traces = p.traces();
    assert_eq!(traces.len(), 1);
    let lower = facet_of(&mesh, 1, 4);
    let upper = facet_of(&mesh, 4, 7);
    let facets: Vec<usize> = traces[0].facets.iter().map(|w| w.facet.index).collect();
    let mut expected = vec![lower, upper];
    expected.sort();
    assert_eq!(facets, expected);
}

#[test]
fn facet_sides_order_cells_by_quotient_endpoints() {
    let mesh = two_domain_mesh();
    let p = partition(&mesh);
    let lower = facet_of(&mesh, 1, 4);
    let ((first_domain, first), (second_domain, second)) =
        p.facet_sides(INTERFACE, lower).unwrap();
    assert_eq!(first_domain, FLUID);
    assert_eq!(second_domain, SOLID);
    assert_eq!(first.entity, MeshEntity { dimension: 2, index: 0 });
    assert_eq!(second.entity, MeshEntity { dimension: 2, index: 3 });
    assert_eq!(p.cell_domains()[first.entity.index], first_domain);
    assert_eq!(p.cell_domains()[second.entity.index], second_domain);
    let upper = facet_of(&mesh, 4, 7);
    let ((_, first), (_, second)) = p.facet_sides(INTERFACE, upper).unwrap();
    assert_eq!(first.entity.index, 4);
    assert_eq!(second.entity.index, 7);
    let exterior = facet_of(&mesh, 0, 1);
    assert!(p.facet_sides(INTERFACE, exterior).is_none());
    assert!(p.facet_sides(INTERFACE + 1, lower).is_none());
}

#[test]
fn partition_ignores_inventory_order() {
    let mesh = two_domain_mesh();
    let expected = partition(&mesh);
    let mut fluid = fluid_cells();
    fluid.reverse();
    let mut solid = solid_cells();
    solid.swap(0, 3);
    let reordered =
        FixedReferenceFsiPartition::<2>::new(&mesh, vec![(SOLID, solid), (FLUID, fluid)], &[quotient()])
            .unwrap();
    assert_eq!(reordered.domains(), expected.domains());
    for domain in [FLUID, SOLID] {
        assert_eq!(reordered.domain_cells(domain), expected.domain_cells(domain));
        assert_eq!(reordered.domain_vertices(domain), expected.domain_vertices(domain));
    }
    assert_eq!(reordered.cell_domains(), expected.cell_domains());
    assert_eq!(reordered.quotients(), expected.quotients());
    assert_eq!(reordered.traces()[0].facets, expected.traces()[0].facets);
}

#[test]
fn partition_rejects_faulty_inventories_with_their_diagnostics() {
    let mesh = two_domain_mesh();
    let new = |domains: Vec<(u64, Vec<usize>)>, quotients: &[ConformingTraceQuotient]| {
        FixedReferenceFsiPartition::<2>::new(&mesh, domains, quotients).err()
    };
    let q = [quotient()];
    assert_eq!(
        new(vec![(FLUID, vec![]), (SOLID, solid_cells())], &q),
        Some(Diagnostic::RegionCellsEmptyOrRepeated)
    );
    assert_eq!(
        new(vec![(FLUID, vec![0, 1, 4, 4, 5]), (SOLID, solid_cells())], &q),
        Some(Diagnostic::RegionCellsEmptyOrRepeated)
    );
    assert_eq!(
        new(vec![(FLUID, fluid_cells()), (FLUID, solid_cells())], &q),
        Some(Diagnostic::RepeatedDomain)
    );
    assert_eq!(
        new(vec![(FLUID, vec![0, 1, 4, 5, 2]), (SOLID, solid_cells())], &q),
        Some(Diagnostic::CellAssignedTwice)
    );
    assert_eq!(
        new(vec![(FLUID, vec![0, 1, 4, 5, 8]), (SOLID, solid_cells())], &q),
        Some(Diagnostic::CellOutsideMesh)
    );
    assert_eq!(
        new(vec![(FLUID, vec![0, 1, 4]), (SOLID, solid_cells())], &q),
        Some(Diagnostic::CellOmitted)
    );
    assert_eq!(
        new(vec![(FLUID, fluid_cells()), (SOLID, solid_cells())], &[]),
        Some(Diagnostic::IncompleteQuotientCoverage)
    );
    let foreign = ConformingTraceQuotient {
        connection: INTERFACE + 1,
        first: TraceEndpoint { domain: FLUID, field: FLUID_VELOCITY },
        second: TraceEndpoint { domain: 3, field: SOLID_VELOCITY },
    };
    assert_eq!(
        new(vec![(FLUID, fluid_cells()), (SOLID, solid_cells())], &[quotient(), foreign]),
        Some(Diagnostic::QuotientWithoutFacetCoverage)
    );
    assert_eq!(
        new(vec![(FLUID, fluid_cells()), (SOLID, solid_cells())], &[quotient(), quotient()]),
        Some(Diagnostic::RepeatedTraceQuotient)
    );
    // Two squares that touch only at the centre vertex form no facet-connected Region.
    assert_eq!(
        new(vec![(FLUID, vec![0, 1, 6, 7]), (SOLID, vec![2, 3, 4, 5])], &q),
        Some(Diagnostic::RegionNotConnected)
    );
    assert_eq!(
        FixedReferenceFsiPartition::<3>::new(&mesh, vec![(FLUID, fluid_cells()), (SOLID, solid_cells())], &q)
            .err(),
        Some(Diagnostic::MeshDimensionMismatch)
    );
    assert_eq!(
        FixedReferenceFsiPartition::<4>::new(&mesh, vec![(FLUID, fluid_cells()), (SOLID, solid_cells())], &q)
            .err(),
        Some(Diagnostic::UnsupportedDimension)
    );
}

#[test]
fn partition_rejects_a_connection_between_different_domain_pairs() {
    // Three vertical strips: fluid | solid | wall, the solid in the middle.
    let mut cells = Vec::new();
    for column in 0..3 {
        cells.push([column, column + 1, column + 5]);
        cells.push([column, column + 5, column + 4]);
    }
    let mesh = planar_mesh(8, &[0, 1, 2, 3, 4, 5, 6, 7], &cells);
    let wall = 3;
    let fluid_solid = quotient();
    let solid_wall = ConformingTraceQuotient {
        connection: INTERFACE,
        first: TraceEndpoint { domain: SOLID, field: 12 },
        second: TraceEndpoint { domain: wall, field: 13 },
    };
    let domains = vec![(FLUID, vec![0, 1]), (SOLID, vec![2, 3]), (wall, vec![4, 5])];
    assert_eq!(
        FixedReferenceFsiPartition::<2>::new(&mesh, domains.clone(), &[fluid_solid, solid_wall])
            .err(),
        Some(Diagnostic::ConnectionDomainsDiffer)
    );
    let separate = ConformingTraceQuotient { connection: INTERFACE + 1, ..solid_wall };
    let p = FixedReferenceFsiPartition::<2>::new(&mesh, domains, &[separate, fluid_solid]).unwrap();
    // Bindings follow quotient identity order, whatever the input order.
    assert_eq!(p.quotients(), vec![fluid_solid, separate]);
}

#[test]
fn region_binding_reports_malformed_topology() {
    let mesh = two_domain_mesh();
    let membership: Vec<(usize, u64)> = (0..8).map(|c| (c, if [0, 1, 4, 5].contains(&c) { FLUID } else { SOLID })).collect();
    let (owners, traces) = bind_region_topology(&mesh, &membership, &[quotient()]).unwrap();
    assert_eq!(owners, vec![FLUID, FLUID, SOLID, SOLID, FLUID, FLUID, SOLID, SOLID]);
    assert_eq!(traces[0].quotient, quotient());
    assert_eq!(traces[0].facets.len(), 2);
    let mut empty = mesh.clone();
    empty.cell_vertices.clear();
    empty.cell_facets.clear();
    assert_eq!(
        bind_region_topology(&empty, &[], &[]).err(),
        Some(Diagnostic::EmptyCellStratum)
    );
    let mut dangling = mesh.clone();
    dangling.facet_cells[0].clear();
    assert_eq!(
        bind_region_topology(&dangling, &membership, &[quotient()]).err(),
        Some(Diagnostic::NonManifoldFacet)
    );
    let mut stratum = mesh.clone();
    stratum.facet_cells[0][0].entity.dimension = 1;
    assert_eq!(
        bind_region_topology(&stratum, &membership, &[quotient()]).err(),
        Some(Diagnostic::FacetOutsideCellStratum)
    );
    let mut absent = mesh.clone();
    absent.facet_cells[0][0].entity.index = 8;
    assert_eq!(
        bind_region_topology(&absent, &membership, &[quotient()]).err(),
        Some(Diagnostic::FacetReferencesAbsentCell)
    );
}

#[test]
fn connectivity_follows_shared_facets() {
    let mesh = two_domain_mesh();
    assert_eq!(require_connected_cells(&mesh, &vec![0, 1, 4, 5]), Ok(()));
    assert_eq!(require_connected_cells(&mesh, &vec![5]), Ok(()));
    assert_eq!(
        require_connected_cells(&mesh, &vec![0, 7]),
        Err(Diagnostic::RegionNotConnected)
    );
    assert_eq!(
        require_connected_cells(&mesh, &vec![0, 1, 6, 7]),
        Err(Diagnostic::RegionNotConnected)
    );
    assert_eq!(region_vertices(&mesh, &vec![0]), vec![0, 1, 4]);
    assert_eq!(region_vertices(&mesh, &vec![7, 0]), vec![0, 1, 4, 7, 8]);
}

#[test]
fn homogeneous_exterior_fixes_exactly_the_exterior_vertices() {
    let mesh = two_domain_mesh();
    let boundary = FixedReferenceFsiBoundary::<2>::homogeneous_exterior(&mesh).unwrap();
    assert_eq!(boundary.fixed_zero_velocity_vertices(), &vec![0, 1, 2, 3, 5, 6, 7, 8]);
    assert_eq!(
        FixedReferenceFsiBoundary::<3>::homogeneous_exterior(&mesh).err(),
        Some(Diagnostic::MeshDimensionMismatch)
    );
    assert_eq!(
        FixedReferenceFsiBoundary::<1>::homogeneous_exterior(&mesh).err(),
        Some(Diagnostic::UnsupportedDimension)
    );
    assert_eq!(require_mesh_dimension::<2>(&mesh), Ok(()));
    let mut mixed = mesh.clone();
    mixed.coordinate_dimensions[4] = 3;
    assert_eq!(require_mesh_dimension::<2>(&mixed), Err(Diagnostic::MeshDimensionMismatch));
}

#[test]
fn fixed_exterior_requires_each_exterior_vertex_once() {
    let mesh = two_domain_mesh();
    assert_eq!(validate_fixed_exterior(&mesh, &vec![8, 7, 6, 5, 3, 2, 1, 0]), Ok(()));
    assert_eq!(validate_fixed_exterior(&mesh, &vec![0, 1, 2, 3, 4, 5, 6, 7, 8]), Ok(()));
    assert_eq!(
        validate_fixed_exterior(&mesh, &vec![0, 1, 2, 3, 5, 6, 7]),
        Err(Diagnostic::ExteriorNotHomogeneous)
    );
    assert_eq!(
        validate_fixed_exterior(&mesh, &vec![0, 0, 1, 2, 3, 5, 6, 7, 8]),
        Err(Diagnostic::FixedVertexInventoryInvalid)
    );
    assert_eq!(
        validate_fixed_exterior(&mesh, &vec![0, 1, 2, 3, 5, 6, 7, 8, 9]),
        Err(Diagnostic::FixedVertexInventoryInvalid)
    );
}

#[test]
fn motion_inventory_requires_exact_domains_and_interface() {
    let mesh = two_domain_mesh();
    let p = partition(&mesh);
    assert_eq!(require_motion_inventory(&p, FLUID, SOLID, INTERFACE), Ok(()));
    assert_eq!(require_motion_inventory(&p, SOLID, FLUID, INTERFACE), Ok(()));
    assert_eq!(
        require_motion_inventory(&p, FLUID, SOLID, INTERFACE + 1),
        Err(Diagnostic::MotionInventoryMismatch)
    );
    assert_eq!(
        require_motion_inventory(&p, FLUID, 3, INTERFACE),
        Err(Diagnostic::MotionInventoryMismatch)
    );
}

#[test]
fn material_boundary_sides_retain_facets_with_one_material_cell() {
    let mesh = two_domain_mesh();
    let sides = material_boundary_sides(&mesh, &fluid_cells()).unwrap();
    // The fluid half is bounded by four exterior edges and two interface edges.
    assert_eq!(sides.len(), 6);
    assert!(sides.windows(2).all(|pair| pair[0].facet < pair[1].facet));
    let interface = facet_of(&mesh, 1, 4);
    assert!(sides.contains(&RetainedFacetSide { facet: interface, cell: 0 }));
    let inner = facet_of(&mesh, 0, 4);
    assert!(sides.iter().all(|side| side.facet != inner));
    let all: Vec<usize> = (0..8).collect();
    // The whole mesh is bounded by its eight exterior edges.
    assert_eq!(material_boundary_sides(&mesh, &all).unwrap().len(), 8);
    assert_eq!(
        material_boundary_sides(&mesh, &vec![]),
        Err(Diagnostic::NoRetainedBoundaryFacet)
    );
}

#[test]
fn interface_facets_and_vertex_indices_follow_the_mesh() {
    let mesh = two_domain_mesh();
    let p = partition(&mesh);
    let mut expected = vec![facet_of(&mesh, 1, 4), facet_of(&mesh, 4, 7)];
    expected.sort();
    assert_eq!(interface_facet_indices(&p, INTERFACE), expected);
    assert_eq!(interface_facet_indices(&p, INTERFACE + 1), Vec::<usize>::new());
    assert_eq!(cell_vertex_indices(&mesh, 3), Ok([1, 5, 4]));
    assert_eq!(cell_vertex_indices(&mesh, 8), Err(Diagnostic::AbsentCell));
    let mut quad = mesh.clone();
    quad.cell_vertices[3].push(8);
    assert_eq!(cell_vertex_indices(&quad, 3), Err(Diagnostic::CellNotTriangle));
    let f = facet_of(&mesh, 4, 7);
    assert_eq!(facet_vertex_indices(&mesh, f), Ok([4, 7]));
    assert_eq!(
        facet_vertex_indices(&mesh, mesh.facet_vertices.len()),
        Err(Diagnostic::AbsentFacet)
    );
    let mut triangle = mesh.clone();
    triangle.facet_vertices[f].push(0);
    assert_eq!(facet_vertex_indices(&triangle, f), Err(Diagnostic::FacetNotEdge));
}

#[test]
fn scalar_positions_follow_the_fluid_closure_and_cells() {
    let mesh = two_domain_mesh();
    let p = partition(&mesh);
    assert_eq!(pressure_position(&p, FLUID, 0), Ok(0));
    assert_eq!(pressure_position(&p, FLUID, 4), Ok(3));
    assert_eq!(pressure_position(&p, FLUID, 7), Ok(5));
    assert_eq!(
        pressure_position(&p, FLUID, 8),
        Err(Diagnostic::VertexOutsidePressureSpace)
    );
    assert_eq!(velocity_scalar_dofs(&mesh, &p, FLUID, 4, false), Ok(vec![3, 4, 7]));
    // Fluid cells are 0, 1, 4, 5: cell 4 owns the third bubble, after the nine vertices.
    assert_eq!(velocity_scalar_dofs(&mesh, &p, FLUID, 4, true), Ok(vec![3, 4, 7, 11]));
    assert_eq!(
        velocity_scalar_dofs(&mesh, &p, FLUID, 2, true),
        Err(Diagnostic::CellWithoutBubble)
    );
    assert_eq!(velocity_scalar_dofs(&mesh, &p, FLUID, 2, false), Ok(vec![1, 2, 5]));
    assert_eq!(
        velocity_scalar_dofs(&mesh, &p, FLUID, 9, true),
        Err(Diagnostic::AbsentCell)
    );
}

#[test]
fn replaying_an_admitted_partition_reproduces_it() {
    let mesh = two_domain_mesh();
    let mut fluid = fluid_cells();
    fluid.reverse();
    let p = FixedReferenceFsiPartition::<2>::new(
        &mesh,
        vec![(SOLID, solid_cells()), (FLUID, fluid)],
        &[quotient()],
    )
    .unwrap();
    let replayed_entries: Vec<(u64, Vec<usize>)> = p
        .domains()
        .into_iter()
        .map(|domain| (domain, p.domain_cells(domain).unwrap().clone()))
        .collect();
    let replayed =
        FixedReferenceFsiPartition::<2>::new(&mesh, replayed_entries, &p.quotients()).unwrap();
    assert_eq!(replayed.domains(), p.domains());
    for domain in p.domains() {
        assert_eq!(replayed.domain_cells(domain), p.domain_cells(domain));
        assert_eq!(replayed.domain_vertices(domain), p.domain_vertices(domain));
    }
    assert_eq!(replayed.cell_domains(), p.cell_domains());
    assert_eq!(replayed.quotients(), p.quotients());
    assert_eq!(replayed.traces()[0].facets, p.traces()[0].facets);
}

#[test]
fn region_binding_ignores_membership_order() {
    let mesh = two_domain_mesh();
    let membership: Vec<(usize, u64)> =
        (0..8).map(|c| (c, if [0, 1, 4, 5].contains(&c) { FLUID } else { SOLID })).collect();
    let mut shuffled = membership.clone();
    shuffled.reverse();
    shuffled.swap(1, 5);
    let (owners, traces) = bind_region_topology(&mesh, &membership, &[quotient()]).unwrap();
    let (shuffled_owners, shuffled_traces) =
        bind_region_topology(&mesh, &shuffled, &[quotient()]).unwrap();
    assert_eq!(owners, shuffled_owners);
    assert_eq!(traces[0].facets, shuffled_traces[0].facets);
    let mut repeated = membership.clone();
    repeated.push((3, FLUID));
    assert_eq!(
        bind_region_topology(&mesh, &repeated, &[quotient()]).err(),
        Some(Diagnostic::CellAssignedTwice)
    );
}
