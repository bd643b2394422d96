//! Exact index support of the planar ALE remesh projection: retained
//! material boundary sides, interface facets and scalar degree-of-freedom
//! positions.

use vstd::prelude::*;

use crate::diagnostic::Diagnostic;
use crate::partition::FixedReferenceFsiPartition;
use crate::sorted::{contains_index, insert_sorted_unique, sorted_position, strictly_increasing};
use crate::topology::{EntityIncidence, MeshTopology, RawId};

verus! {

/// A boundary facet of a material cell subset together with the one cell of
/// the subset incident on it.
#[derive(Debug, Clone, Copy, PartialEq, Eq, Structural)]
pub struct RetainedFacetSide {
    pub facet: usize,
    pub cell: usize,
}

/// Cells incident through `parents` that belong to `cells`, in incidence order.
pub open spec fn selected_parents(parents: Seq<EntityIncidence>, cells: Seq<usize>) -> Seq<usize>
    decreases parents.len(),
{
    if parents.len() == 0 {
        Seq::empty()
    } else {
        let prev = selected_parents(parents.drop_last(), cells);
        let c = parents.last().entity.index;
        if cells.contains(c) {
            prev.push(c)
        } else {
            prev
        }
    }
}

/// Retained sides, in facet order, of every facet before `n` with exactly
/// one incident cell in `cells`.
pub open spec fn retained_sides(mesh: MeshTopology, cells: Seq<usize>, n: int) -> Seq<
    RetainedFacetSide,
>
    decreases n,
{
    if n <= 0 {
        Seq::empty()
    } else {
        let prev = retained_sides(mesh, cells, n - 1);
        let selected = selected_parents(mesh.facet_sides(n - 1), cells);
        if selected.len() == 1 {
            prev.push(RetainedFacetSide { facet: (n - 1) as usize, cell: selected[0] })
        } else {
            prev
        }
    }
}

/// The selected parents are exactly the incident cells in `cells`, in
/// incidence order.
proof fn lemma_selected_parents(parents: Seq<EntityIncidence>, cells: Seq<usize>)
    ensures
        forall|k: int|
            0 <= k < selected_parents(parents, cells).len() ==> exists|i: int|
                0 <= i < parents.len() && parents[i].entity.index == #[trigger] selected_parents(
                    parents,
                    cells,
                )[k] && cells.contains(parents[i].entity.index),
        selected_parents(parents, cells).len() == 1 ==> exists|i: int|
            0 <= i < parents.len() && parents[i].entity.index == selected_parents(parents, cells)[0]
                && forall|j: int|
                0 <= j < parents.len() && j != i ==> !cells.contains(#[trigger] parents[j].entity.index),
        selected_parents(parents, cells).len() == 0 ==> forall|j: int|
            0 <= j < parents.len() ==> !cells.contains(#[trigger] parents[j].entity.index),
        selected_parents(parents, cells).len() >= 2 ==> exists|i: int, j: int|
            0 <= i < j < parents.len() && cells.contains(parents[i].entity.index) && cells.contains(
                parents[j].entity.index,
            ),
    decreases parents.len(),
{
    if parents.len() > 0 {
        let t = parents.drop_last();
        lemma_selected_parents(t, cells);
        let prev = selected_parents(t, cells);
        let cur = selected_parents(parents, cells);
        let last = parents.len() - 1;
        assert forall|k: int| 0 <= k < cur.len() implies exists|i: int|
            0 <= i < parents.len() && parents[i].entity.index == #[trigger] cur[k] && cells.contains(
                parents[i].entity.index,
            ) by {
            if k < prev.len() {
                let i = choose|i: int|
                    0 <= i < t.len() && t[i].entity.index == prev[k] && cells.contains(t[i].entity.index);
                assert(parents[i] == t[i]);
            } else {
                assert(parents[last].entity.index == cur[k]);
            }
        }
        if cur.len() == 1 {
            if prev.len() == 1 {
                let i = choose|i: int|
                    0 <= i < t.len() && t[i].entity.index == prev[0] && forall|j: int|
                        0 <= j < t.len() && j != i ==> !cells.contains(#[trigger] t[j].entity.index);
                assert(parents[i] == t[i]);
                assert forall|j: int| 0 <= j < parents.len() && j != i implies !cells.contains(
                    #[trigger] parents[j].entity.index,
                ) by {
                    if j < last {
                        assert(parents[j] == t[j]);
                    }
                }
            } else {
                assert forall|j: int| 0 <= j < parents.len() && j != last implies !cells.contains(
                    #[trigger] parents[j].entity.index,
                ) by {
                    assert(parents[j] == t[j]);
                }
            }
        }
        if cur.len() >= 2 {
            if prev.len() >= 2 {
                let (i, j) = choose|i: int, j: int|
                    0 <= i < j < t.len() && cells.contains(t[i].entity.index) && cells.contains(
                        t[j].entity.index,
                    );
                assert(parents[i] == t[i] && parents[j] == t[j]);
            } else {
                assert(prev.len() == 1);
                let i = choose|i: int|
                    0 <= i < t.len() && t[i].entity.index == prev[0] && cells.contains(t[i].entity.index);
                assert(parents[i] == t[i]);
                assert(cells.contains(parents[last].entity.index));
            }
        }
        if cur.len() == 0 {
            assert forall|j: int| 0 <= j < parents.len() implies !cells.contains(
                #[trigger] parents[j].entity.index,
            ) by {
                if j < last {
                    assert(parents[j] == t[j]);
                }
            }
        }
    }
}

/// Facet `f` has exactly one incidence on a cell of `cells`, the incidence on `cell`.
pub open spec fn single_material_side(mesh: MeshTopology, cells: Seq<usize>, f: int, cell: usize) -> bool {
    exists|i: int|
        0 <= i < mesh.facet_sides(f).len() && mesh.facet_sides(f)[i].entity.index == cell
            && cells.contains(cell) && forall|j: int|
            0 <= j < mesh.facet_sides(f).len() && j != i ==> !cells.contains(
                #[trigger] mesh.facet_sides(f)[j].entity.index,
            )
}

/// Retained sides before facet `n` are sound and complete: each lies on a
/// facet with exactly one incidence on a material cell, and names that cell;
/// and every facet with exactly one such incidence is retained. Facets
/// strictly increase along the sides.
proof fn lemma_retained_sides_meaning(mesh: MeshTopology, cells: Seq<usize>, n: int)
    requires
        n <= usize::MAX,
    ensures
        forall|k: int|
            0 <= k < retained_sides(mesh, cells, n).len() ==> {
                let side = #[trigger] retained_sides(mesh, cells, n)[k];
                &&& side.facet < n
                &&& single_material_side(mesh, cells, side.facet as int, side.cell)
            },
        forall|f: int, c: usize|
            0 <= f < n && #[trigger] single_material_side(mesh, cells, f, c) ==> retained_sides(
                mesh,
                cells,
                n,
            ).contains(RetainedFacetSide { facet: f as usize, cell: c }),
        forall|a: int, b: int|
            0 <= a < b < retained_sides(mesh, cells, n).len() ==> (#[trigger] retained_sides(
                mesh,
                cells,
                n,
            )[a]).facet < (#[trigger] retained_sides(mesh, cells, n)[b]).facet,
    decreases n,
{
    if n > 0 {
        lemma_retained_sides_meaning(mesh, cells, n - 1);
        let prev = retained_sides(mesh, cells, n - 1);
        let cur = retained_sides(mesh, cells, n);
        let parents = mesh.facet_sides(n - 1);
        let selected = selected_parents(parents, cells);
        lemma_selected_parents(parents, cells);
        if selected.len() == 1 {
            let side = RetainedFacetSide { facet: (n - 1) as usize, cell: selected[0] };
            assert(cur == prev.push(side));
            let i = choose|i: int|
                0 <= i < parents.len() && parents[i].entity.index == selected[0] && forall|j: int|
                    0 <= j < parents.len() && j != i ==> !cells.contains(#[trigger] parents[j].entity.index);
            assert(selected.contains(selected[0]));
            let i2 = choose|i2: int|
                0 <= i2 < parents.len() && parents[i2].entity.index == selected[0] && cells.contains(
                    parents[i2].entity.index,
                );
            assert(cells.contains(selected[0])) by {
                if i2 != i {
                    assert(!cells.contains(parents[i2].entity.index));
                }
            }
            assert(single_material_side(mesh, cells, n - 1, selected[0]));
            assert forall|k: int| 0 <= k < cur.len() implies {
                let s = #[trigger] cur[k];
                &&& s.facet < n
                &&& single_material_side(mesh, cells, s.facet as int, s.cell)
            } by {
                if k < prev.len() {
                    assert(cur[k] == prev[k]);
                }
            }
            assert forall|f: int, c: usize|
                0 <= f < n && #[trigger] single_material_side(mesh, cells, f, c) implies cur.contains(
                RetainedFacetSide { facet: f as usize, cell: c },
            ) by {
                if f < n - 1 {
                    let k = choose|k: int| 0 <= k < prev.len() && prev[k] == RetainedFacetSide { facet: f as usize, cell: c };
                    assert(cur[k] == prev[k]);
                } else {
                    let x = choose|x: int|
                        0 <= x < parents.len() && parents[x].entity.index == c && cells.contains(c)
                            && forall|j: int|
                            0 <= j < parents.len() && j != x ==> !cells.contains(
                                #[trigger] parents[j].entity.index,
                            );
                    if x != i {
                        assert(!cells.contains(parents[i].entity.index));
                    }
                    assert(cur[prev.len() as int] == side);
                }
            }
            assert forall|a: int, b: int| 0 <= a < b < cur.len() implies (#[trigger] cur[a]).facet
                < (#[trigger] cur[b]).facet by {
                assert(cur[a] == prev[a]);
                if b < prev.len() {
                    assert(cur[b] == prev[b]);
                }
            }
        } else {
            assert(cur == prev);
            assert forall|f: int, c: usize|
                0 <= f < n && #[trigger] single_material_side(mesh, cells, f, c) implies cur.contains(
                RetainedFacetSide { facet: f as usize, cell: c },
            ) by {
                if f == n - 1 {
                    let x = choose|x: int|
                        0 <= x < parents.len() && parents[x].entity.index == c && cells.contains(c)
                            && forall|j: int|
                            0 <= j < parents.len() && j != x ==> !cells.contains(
                                #[trigger] parents[j].entity.index,
                            );
                    if selected.len() == 0 {
                        assert(!cells.contains(parents[x].entity.index));
                    } else {
                        // Two selected cells come from two distinct incidences.
                        assert(selected.len() >= 2);
                        let (i0, j0) = choose|i: int, j: int|
                            0 <= i < j < parents.len() && cells.contains(parents[i].entity.index)
                                && cells.contains(parents[j].entity.index);
                        if i0 != x {
                            assert(!cells.contains(parents[i0].entity.index));
                        } else {
                            assert(!cells.contains(parents[j0].entity.index));
                        }
                    }
                }
            }
        }
    }
}

/// Material boundary sides are sound and complete: every returned side lies
/// on a facet with exactly one incidence on a cell of the subset and names
/// that cell, every such facet is returned with its cell, and the facets
/// strictly increase.
pub proof fn lemma_material_boundary_sides_meaning(mesh: MeshTopology, cells: Seq<usize>)
    requires
        mesh.facet_count() <= usize::MAX,
    ensures
        forall|k: int|
            0 <= k < retained_sides(mesh, cells, mesh.facet_count() as int).len() ==> {
                let side = #[trigger] retained_sides(mesh, cells, mesh.facet_count() as int)[k];
                &&& side.facet < mesh.facet_count()
                &&& cells.contains(side.cell)
                &&& single_material_side(mesh, cells, side.facet as int, side.cell)
            },
        forall|f: int, c: usize|
            0 <= f < mesh.facet_count() && #[trigger] single_material_side(mesh, cells, f, c)
                ==> retained_sides(mesh, cells, mesh.facet_count() as int).contains(
                RetainedFacetSide { facet: f as usize, cell: c },
            ),
        forall|a: int, b: int|
            0 <= a < b < retained_sides(mesh, cells, mesh.facet_count() as int).len()
                ==> (#[trigger] retained_sides(mesh, cells, mesh.facet_count() as int)[a]).facet
                < (#[trigger] retained_sides(mesh, cells, mesh.facet_count() as int)[b]).facet,
{
    lemma_retained_sides_meaning(mesh, cells, mesh.facet_count() as int);
    let s = retained_sides(mesh, cells, mesh.facet_count() as int);
    assert forall|k: int| 0 <= k < s.len() implies {
        let side = #[trigger] s[k];
        &&& side.facet < mesh.facet_count()
        &&& cells.contains(side.cell)
        &&& single_material_side(mesh, cells, side.facet as int, side.cell)
    } by {
        assert(single_material_side(mesh, cells, s[k].facet as int, s[k].cell));
    }
}

/// Every facet with exactly one incident cell in the material subset `cells`,
/// in facet order, with that cell. A subset without such a facet is rejected.
pub fn material_boundary_sides(mesh: &MeshTopology, cells: &Vec<usize>) -> (result: Result<
    Vec<RetainedFacetSide>,
    Diagnostic,
>)
    ensures
        result is Ok <==> retained_sides(*mesh, cells@, mesh.facet_count() as int).len() > 0,
        result matches Ok(sides) ==> sides@ == retained_sides(
            *mesh,
            cells@,
            mesh.facet_count() as int,
        ),
        result is Err ==> result == Err::<Vec<RetainedFacetSide>, Diagnostic>(
            Diagnostic::NoRetainedBoundaryFacet,
        ),
{
    let facet_count = mesh.facet_cells.len();
    let mut sides: Vec<RetainedFacetSide> = Vec::new();
    let mut index: usize = 0;
    while index < facet_count
        invariant
            index <= facet_count,
            facet_count == mesh.facet_count(),
            sides@ == retained_sides(*mesh, cells@, index as int),
        decreases facet_count - index,
    {
        let parents = &mesh.facet_cells[index];
        assert(parents@ == mesh.facet_sides(index as int));
        let mut selected: Vec<usize> = Vec::new();
        let mut j: usize = 0;
        while j < parents.len()
            invariant
                j <= parents@.len(),
                selected@ == selected_parents(parents@.take(j as int), cells@),
            decreases parents@.len() - j,
        {
            let c = parents[j].entity.index;
            assert(parents@.take(j + 1).drop_last() =~= parents@.take(j as int));
            if contains_index(cells, c) {
                selected.push(c);
            }
            j = j + 1;
        }
        assert(parents@.take(parents@.len() as int) =~= parents@);
        if selected.len() == 1 {
            sides.push(RetainedFacetSide { facet: index, cell: selected[0] });
        }
        index = index + 1;
    }
    if sides.len() == 0 {
        return Err(Diagnostic::NoRetainedBoundaryFacet);
    }
    Ok(sides)
}

/// Some witness of a trace binding of Connection `interface` lies on facet `f`.
pub open spec fn interface_facet<const D: usize>(
    partition: FixedReferenceFsiPartition<D>,
    interface: RawId,
    f: usize,
) -> bool {
    exists|i: int, w: int|
        0 <= i < partition.bindings().len() && 0 <= w < partition.bindings()[i].facets@.len()
            && partition.bindings()[i].quotient.connection == interface && (#[trigger] partition.bindings()[i].facets@[w]).facet.index == f
}

/// Facets, in increasing order, witnessed by the trace bindings of
/// Connection `interface`.
pub fn interface_facet_indices<const D: usize>(
    partition: &FixedReferenceFsiPartition<D>,
    interface: RawId,
) -> (facets: Vec<usize>)
    ensures
        strictly_increasing(facets@),
        forall|f: usize| #[trigger] facets@.contains(f) <==> interface_facet(*partition, interface, f),
{
    let traces = partition.traces();
    let mut facets: Vec<usize> = Vec::new();
    let mut i: usize = 0;
    while i < traces.len()
        invariant
            i <= traces@.len(),
            traces@ == partition.bindings(),
            strictly_increasing(facets@),
            forall|f: usize| #[trigger] facets@.contains(f) <==> exists|a: int, w: int|
                0 <= a < i && 0 <= w < traces@[a].facets@.len() && traces@[a].quotient.connection
                    == interface && (#[trigger] traces@[a].facets@[w]).facet.index == f,
        decreases traces@.len() - i,
    {
        let trace = &traces[i];
        if trace.quotient.connection == interface {
            let ghost before = facets@;
            let mut w: usize = 0;
            while w < trace.facets.len()
                invariant
                    w <= trace.facets@.len(),
                    i < traces@.len(),
                    *trace == traces@[i as int],
                    trace.quotient.connection == interface,
                    strictly_increasing(facets@),
                    forall|f: usize| #[trigger] facets@.contains(f) <==> (before.contains(f) || exists|x: int|
                        0 <= x < w && (#[trigger] trace.facets@[x]).facet.index == f),
                decreases trace.facets@.len() - w,
            {
                let f = trace.facets[w].facet.index;
                insert_sorted_unique(&mut facets, f);
                proof {
                    assert forall|g: usize| #[trigger] facets@.contains(g) <==> (before.contains(g)
                        || exists|x: int| 0 <= x < w + 1 && (#[trigger] trace.facets@[x]).facet.index == g) by {
                        if g == f {
                            assert(trace.facets@[w as int].facet.index == g);
                        }
                        if exists|x: int| 0 <= x < w + 1 && (#[trigger] trace.facets@[x]).facet.index == g {
                            let x = choose|x: int| 0 <= x < w + 1 && (#[trigger] trace.facets@[x]).facet.index == g;
                            if x < w {
                                assert(exists|y: int| 0 <= y < w && (#[trigger] trace.facets@[y]).facet.index == g);
                            }
                        }
                    }
                }
                w = w + 1;
            }
            proof {
                assert forall|f: usize| #[trigger] facets@.contains(f) <==> exists|a: int, w: int|
                    0 <= a < i + 1 && 0 <= w < traces@[a].facets@.len() && traces@[a].quotient.connection
                        == interface && (#[trigger] traces@[a].facets@[w]).facet.index == f by {
                    if facets@.contains(f) && !before.contains(f) {
                        let x = choose|x: int| 0 <= x < trace.facets@.len() && (#[trigger] trace.facets@[x]).facet.index == f;
                        assert(traces@[i as int].facets@[x].facet.index == f);
                    }
                    if exists|a: int, w: int|
                        0 <= a < i + 1 && 0 <= w < traces@[a].facets@.len() && traces@[a].quotient.connection
                            == interface && (#[trigger] traces@[a].facets@[w]).facet.index == f {
                        let (a, x) = choose|a: int, w: int|
                            0 <= a < i + 1 && 0 <= w < traces@[a].facets@.len() && traces@[a].quotient.connection
                                == interface && (#[trigger] traces@[a].facets@[w]).facet.index == f;
                        if a == i {
                            assert(trace.facets@[x].facet.index == f);
                        } else {
                            assert(before.contains(f));
                        }
                    }
                }
            }
        } else {
            proof {
                assert forall|f: usize| #[trigger] facets@.contains(f) <==> exists|a: int, w: int|
                    0 <= a < i + 1 && 0 <= w < traces@[a].facets@.len() && traces@[a].quotient.connection
                        == interface && (#[trigger] traces@[a].facets@[w]).facet.index == f by {
                    if exists|a: int, w: int|
                        0 <= a < i + 1 && 0 <= w < traces@[a].facets@.len() && traces@[a].quotient.connection
                            == interface && (#[trigger] traces@[a].facets@[w]).facet.index == f {
                        let (a, x) = choose|a: int, w: int|
                            0 <= a < i + 1 && 0 <= w < traces@[a].facets@.len() && traces@[a].quotient.connection
                                == interface && (#[trigger] traces@[a].facets@[w]).facet.index == f;
                        assert(a != i);
                    }
                }
            }
        }
        i = i + 1;
    }
    facets
}

/// Vertices of triangle `cell` of a planar mesh.
pub fn cell_vertex_indices(mesh: &MeshTopology, cell: usize) -> (result: Result<[usize; 3], Diagnostic>)
    ensures
        cell >= mesh.cell_count() ==> result == Err::<[usize; 3], Diagnostic>(Diagnostic::AbsentCell),
        cell < mesh.cell_count() && mesh.cell_vertices@[cell as int]@.len() != 3 ==> result == Err::<
            [usize; 3],
            Diagnostic,
        >(Diagnostic::CellNotTriangle),
        result matches Ok(vertices) ==> cell < mesh.cell_count() && vertices@
            == mesh.cell_vertices@[cell as int]@,
        result is Ok <==> cell < mesh.cell_count() && mesh.cell_vertices@[cell as int]@.len() == 3,
{
    if cell >= mesh.cell_vertices.len() {
        return Err(Diagnostic::AbsentCell);
    }
    let vertices = &mesh.cell_vertices[cell];
    if vertices.len() != 3 {
        return Err(Diagnostic::CellNotTriangle);
    }
    let result = [vertices[0], vertices[1], vertices[2]];
    assert(result@ =~= vertices@);
    Ok(result)
}

/// Vertices of edge `facet` of a planar mesh.
pub fn facet_vertex_indices(mesh: &MeshTopology, facet: usize) -> (result: Result<
    [usize; 2],
    Diagnostic,
>)
    requires
        mesh.well_formed(),
    ensures
        facet >= mesh.facet_count() ==> result == Err::<[usize; 2], Diagnostic>(Diagnostic::AbsentFacet),
        facet < mesh.facet_count() && mesh.facet_vertices@[facet as int]@.len() != 2 ==> result
            == Err::<[usize; 2], Diagnostic>(Diagnostic::FacetNotEdge),
        result matches Ok(vertices) ==> facet < mesh.facet_count() && vertices@
            == mesh.facet_vertices@[facet as int]@,
        result is Ok <==> facet < mesh.facet_count() && mesh.facet_vertices@[facet as int]@.len() == 2,
{
    if facet >= mesh.facet_vertices.len() {
        return Err(Diagnostic::AbsentFacet);
    }
    let vertices = &mesh.facet_vertices[facet];
    if vertices.len() != 2 {
        return Err(Diagnostic::FacetNotEdge);
    }
    let result = [vertices[0], vertices[1]];
    assert(result@ =~= vertices@);
    Ok(result)
}

/// Position of fluid vertex `vertex` in the P1 pressure space, the vertex
/// closure of the fluid Domain in increasing order.
pub fn pressure_position<const D: usize>(
    partition: &FixedReferenceFsiPartition<D>,
    fluid_domain: RawId,
    vertex: usize,
) -> (result: Result<usize, Diagnostic>)
    requires
        exists|k: int|
            0 <= k < partition.inventory().len() && (#[trigger] partition.inventory()[k]).0
                == fluid_domain,
    ensures
        exists|k: int|
            0 <= k < partition.inventory().len() && (#[trigger] partition.inventory()[k]).0
                == fluid_domain && match result {
                Ok(position) => position < partition.closures()[k].len()
                    && partition.closures()[k][position as int] == vertex,
                Err(e) => e == Diagnostic::VertexOutsidePressureSpace && !partition.closures()[k].contains(
                    vertex,
                ),
            },
{
    let closure = match partition.domain_vertices(fluid_domain) {
        Some(closure) => closure,
        None => {
            assert(false);
            return Err(Diagnostic::VertexOutsidePressureSpace);
        },
    };
    match sorted_position(closure, vertex) {
        Some(position) => Ok(position),
        None => Err(Diagnostic::VertexOutsidePressureSpace),
    }
}

/// Scalar velocity degrees of freedom of triangle `cell`: its three vertices
/// and, with `bubble`, the MINI bubble that follows every vertex, placed by
/// the cell's position among the fluid Domain's cells.
pub fn velocity_scalar_dofs<const D: usize>(
    mesh: &MeshTopology,
    partition: &FixedReferenceFsiPartition<D>,
    fluid_domain: RawId,
    cell: usize,
    bubble: bool,
) -> (result: Result<Vec<usize>, Diagnostic>)
    requires
        exists|k: int|
            0 <= k < partition.inventory().len() && (#[trigger] partition.inventory()[k]).0
                == fluid_domain && mesh.vertex_count() + partition.inventory()[k].1.len()
                <= usize::MAX,
    ensures
        cell >= mesh.cell_count() ==> result == Err::<Vec<usize>, Diagnostic>(Diagnostic::AbsentCell),
        cell < mesh.cell_count() && mesh.cell_vertices@[cell as int]@.len() != 3 ==> result == Err::<
            Vec<usize>,
            Diagnostic,
        >(Diagnostic::CellNotTriangle),
        exists|k: int|
            0 <= k < partition.inventory().len() && (#[trigger] partition.inventory()[k]).0
                == fluid_domain && {
                let cells = partition.inventory()[k].1;
                &&& (cell < mesh.cell_count() && mesh.cell_vertices@[cell as int]@.len() == 3
                    && bubble && !cells.contains(cell)) ==> result == Err::<Vec<usize>, Diagnostic>(
                    Diagnostic::CellWithoutBubble,
                )
                &&& result is Ok <==> (cell < mesh.cell_count()
                    && mesh.cell_vertices@[cell as int]@.len() == 3 && (bubble ==> cells.contains(cell)))
                &&& result matches Ok(dofs) ==> {
                    &&& !bubble ==> dofs@ == mesh.cell_vertices@[cell as int]@
                    &&& bubble ==> exists|position: int|
                        0 <= position < cells.len() && cells[position] == cell && dofs@
                            == mesh.cell_vertices@[cell as int]@.push(
                            (mesh.vertex_count() + position) as usize,
                        )
                }
            },
{
    let vertices = cell_vertex_indices(mesh, cell)?;
    let mut dofs: Vec<usize> = Vec::new();
    dofs.push(vertices[0]);
    dofs.push(vertices[1]);
    dofs.push(vertices[2]);
    assert(dofs@ =~= mesh.cell_vertices@[cell as int]@);
    let cells = match partition.domain_cells(fluid_domain) {
        Some(cells) => cells,
        None => {
            assert(false);
            return Err(Diagnostic::CellWithoutBubble);
        },
    };
    if bubble {
        let position = match sorted_position(cells, cell) {
            Some(position) => position,
            None => return Err(Diagnostic::CellWithoutBubble),
        };
        dofs.push(mesh.coordinate_dimensions.len() + position);
    }
    Ok(dofs)
}

} // verus!
