//! Dimension, load and boundary contracts of the fixed-reference FSI step.

use vstd::prelude::*;

use crate::diagnostic::Diagnostic;
use crate::topology::MeshTopology;

verus! {

/// Bounded load vocabulary for the first CPU reference realization.
#[derive(Debug, Clone, Copy, PartialEq, Eq, Structural)]
pub enum FixedReferenceFsiLoad {
    /// No fluid body force, solid body force, or prescribed traction.
    Zero,
}

impl Default for FixedReferenceFsiLoad {
    fn default() -> (load: Self)
        ensures
            load == FixedReferenceFsiLoad::Zero,
    {
        FixedReferenceFsiLoad::Zero
    }
}

/// The fixed-reference contracts admit ambient dimensions two and three.
pub open spec fn supported_dimension(d: usize) -> bool {
    d == 2 || d == 3
}

/// Reject every ambient dimension other than two and three.
pub fn require_supported_dimension<const D: usize>() -> (result: Result<(), Diagnostic>)
    ensures
        result is Ok <==> supported_dimension(D),
        result is Err ==> result == Err::<(), Diagnostic>(Diagnostic::UnsupportedDimension),
{
    if D == 2 || D == 3 {
        Ok(())
    } else {
        Err(Diagnostic::UnsupportedDimension)
    }
}

/// The mesh is intrinsically `d`-dimensional: its cells have dimension `d`
/// and every vertex stores exactly `d` coordinates.
pub open spec fn intrinsic_dimension(mesh: MeshTopology, d: usize) -> bool {
    &&& mesh.dimension == d
    &&& forall|v: int| 0 <= v < mesh.vertex_count() ==> #[trigger] mesh.coordinate_dimensions@[v] == d
}

/// Require one intrinsic `D`-dimensional affine-simplex mesh with `D` in {2, 3}.
pub fn require_mesh_dimension<const D: usize>(mesh: &MeshTopology) -> (result: Result<(), Diagnostic>)
    ensures
        result is Ok <==> supported_dimension(D) && intrinsic_dimension(*mesh, D),
        !supported_dimension(D) ==> result == Err::<(), Diagnostic>(Diagnostic::UnsupportedDimension),
        supported_dimension(D) && !intrinsic_dimension(*mesh, D) ==> result == Err::<(), Diagnostic>(
            Diagnostic::MeshDimensionMismatch,
        ),
{
    require_supported_dimension::<D>()?;
    if mesh.dimension != D {
        return Err(Diagnostic::MeshDimensionMismatch);
    }
    let mut v: usize = 0;
    while v < mesh.coordinate_dimensions.len()
        invariant
            v <= mesh.coordinate_dimensions@.len(),
            mesh.dimension == D,
            supported_dimension(D),
            forall|w: int| 0 <= w < v ==> #[trigger] mesh.coordinate_dimensions@[w] == D,
        decreases mesh.coordinate_dimensions@.len() - v,
    {
        if mesh.coordinate_dimensions[v] != D {
            return Err(Diagnostic::MeshDimensionMismatch);
        }
        v = v + 1;
    }
    Ok(())
}

/// Vertices of the physical exterior, in increasing order.
pub open spec fn exterior_vertices(mesh: MeshTopology) -> Seq<usize> {
    Seq::new(mesh.vertex_count(), |v: int| v as usize).filter(|v: usize| mesh.vertex_on_boundary@[v as int])
}

/// Homogeneous essential velocity closure of the fixed-reference step.
#[derive(Debug, Clone)]
pub struct FixedReferenceFsiBoundary<const D: usize> {
    fixed_zero_velocity_vertices: Vec<usize>,
}

impl<const D: usize> FixedReferenceFsiBoundary<D> {
    /// Vertices carrying an exact zero velocity trace.
    pub closed spec fn fixed_vertices(&self) -> Seq<usize> {
        self.fixed_zero_velocity_vertices@
    }

    /// Construct the complete homogeneous exterior-velocity closure: every
    /// vertex on the physical exterior, in increasing order.
    ///
    /// The interface remains live. An interface endpoint that also belongs
    /// to the exterior is constrained once by this inventory.
    pub fn homogeneous_exterior(mesh: &MeshTopology) -> (result: Result<Self, Diagnostic>)
        requires
            mesh.well_formed(),
        ensures
            result is Ok <==> supported_dimension(D) && intrinsic_dimension(*mesh, D),
            result matches Err(e) ==> require_mesh_dimension_fault::<D>(*mesh) == Some(e),
            result matches Ok(boundary) ==> boundary.fixed_vertices() == exterior_vertices(*mesh),
    {
        require_mesh_dimension::<D>(mesh)?;
        let n = mesh.vertex_on_boundary.len();
        let mut fixed: Vec<usize> = Vec::new();
        let mut v: usize = 0;
        while v < n
            invariant
                v <= n,
                n == mesh.vertex_count(),
                mesh.well_formed(),
                fixed@ == Seq::new(v as nat, |w: int| w as usize).filter(
                    |w: usize| mesh.vertex_on_boundary@[w as int],
                ),
            decreases n - v,
        {
            let ghost prefix = Seq::new(v as nat, |w: int| w as usize);
            let ghost next = Seq::new((v + 1) as nat, |w: int| w as usize);
            assert(next.drop_last() =~= prefix);
            if mesh.vertex_on_boundary[v] {
                fixed.push(v);
            }
            proof {
                reveal_with_fuel(Seq::filter, 1);
            }
            v = v + 1;
        }
        assert(Seq::new(n as nat, |w: int| w as usize) =~= Seq::new(mesh.vertex_count(), |w: int| w as usize));
        Ok(FixedReferenceFsiBoundary { fixed_zero_velocity_vertices: fixed })
    }

    /// Vertices carrying an exact zero velocity trace.
    pub fn fixed_zero_velocity_vertices(&self) -> (vertices: &Vec<usize>)
        ensures
            vertices@ == self.fixed_vertices(),
    {
        &self.fixed_zero_velocity_vertices
    }
}

/// Fault reported by `require_mesh_dimension`, if any.
pub open spec fn require_mesh_dimension_fault<const D: usize>(mesh: MeshTopology) -> Option<Diagnostic> {
    if !supported_dimension(D) {
        Some(Diagnostic::UnsupportedDimension)
    } else if !intrinsic_dimension(mesh, D) {
        Some(Diagnostic::MeshDimensionMismatch)
    } else {
        None
    }
}

/// `fixed` names each vertex at most once, and only vertices of the mesh.
pub open spec fn unique_valid_vertices(mesh: MeshTopology, fixed: Seq<usize>) -> bool {
    &&& fixed.no_duplicates()
    &&& forall|i: int| 0 <= i < fixed.len() ==> #[trigger] fixed[i] < mesh.vertex_count()
}

/// Every exterior vertex of the mesh is fixed.
pub open spec fn covers_exterior(mesh: MeshTopology, fixed: Seq<usize>) -> bool {
    forall|v: int|
        0 <= v < mesh.vertex_count() && #[trigger] mesh.vertex_on_boundary@[v] ==> fixed.contains(
            v as usize,
        )
}

/// Check a fixed-velocity vertex inventory against the homogeneous exterior
/// closure: unique valid vertices that cover the complete exterior.
pub fn validate_fixed_exterior(mesh: &MeshTopology, fixed: &Vec<usize>) -> (result: Result<
    (),
    Diagnostic,
>)
    requires
        mesh.well_formed(),
    ensures
        result is Ok <==> unique_valid_vertices(*mesh, fixed@) && covers_exterior(*mesh, fixed@),
        !unique_valid_vertices(*mesh, fixed@) ==> result == Err::<(), Diagnostic>(
            Diagnostic::FixedVertexInventoryInvalid,
        ),
        unique_valid_vertices(*mesh, fixed@) && !covers_exterior(*mesh, fixed@) ==> result == Err::<
            (),
            Diagnostic,
        >(Diagnostic::ExteriorNotHomogeneous),
{
    let n = mesh.vertex_on_boundary.len();
    let mut seen: Vec<bool> = Vec::new();
    let mut v: usize = 0;
    while v < n
        invariant
            v <= n,
            seen@.len() == v,
            forall|w: int| 0 <= w < v ==> !#[trigger] seen@[w],
        decreases n - v,
    {
        seen.push(false);
        v = v + 1;
    }
    let mut i: usize = 0;
    while i < fixed.len()
        invariant
            i <= fixed@.len(),
            n == mesh.vertex_count(),
            mesh.well_formed(),
            seen@.len() == n,
            forall|k: int| 0 <= k < i ==> #[trigger] fixed@[k] < n,
            forall|k: int, l: int| 0 <= k < l < i ==> fixed@[k] != fixed@[l],
            forall|w: int| 0 <= w < n ==> (#[trigger] seen@[w] <==> fixed@.take(i as int).contains(w as usize)),
        decreases fixed@.len() - i,
    {
        let x = fixed[i];
        if x >= n {
            return Err(Diagnostic::FixedVertexInventoryInvalid);
        }
        if seen[x] {
            proof {
                let k = choose|k: int| 0 <= k < i && fixed@.take(i as int)[k] == x;
                assert(fixed@[k] == fixed@[i as int]);
            }
            return Err(Diagnostic::FixedVertexInventoryInvalid);
        }
        proof {
            assert forall|k: int| 0 <= k < i implies fixed@[k] != x by {
                assert(fixed@.take(i as int)[k] == fixed@[k]);
            }
        }
        seen.set(x, true);
        proof {
            let next = fixed@.take(i + 1);
            let prev = fixed@.take(i as int);
            assert forall|w: int| 0 <= w < n implies (#[trigger] seen@[w] <==> next.contains(w as usize)) by {
                if next.contains(w as usize) {
                    let k = choose|k: int| 0 <= k < next.len() && next[k] == w as usize;
                    if k < i {
                        assert(prev[k] == w as usize);
                    }
                }
                if prev.contains(w as usize) {
                    let k = choose|k: int| 0 <= k < prev.len() && prev[k] == w as usize;
                    assert(next[k] == w as usize);
                }
                if w == x {
                    assert(next[i as int] == x);
                }
            }
        }
        i = i + 1;
    }
    assert(fixed@.take(fixed@.len() as int) =~= fixed@);
    let mut v: usize = 0;
    while v < n
        invariant
            v <= n,
            n == mesh.vertex_count(),
            mesh.well_formed(),
            seen@.len() == n,
            unique_valid_vertices(*mesh, fixed@),
            forall|w: int| 0 <= w < n ==> (#[trigger] seen@[w] <==> fixed@.contains(w as usize)),
            forall|w: int| 0 <= w < v && #[trigger] mesh.vertex_on_boundary@[w] ==> fixed@.contains(w as usize),
        decreases n - v,
    {
        if mesh.vertex_on_boundary[v] && !seen[v] {
            return Err(Diagnostic::ExteriorNotHomogeneous);
        }
        v = v + 1;
    }
    Ok(())
}

/// The homogeneous exterior closure is an admissible fixed-velocity
/// inventory: unique valid vertices covering the complete exterior, so the
/// boundary built by `homogeneous_exterior` passes `validate_fixed_exterior`.
pub proof fn lemma_homogeneous_exterior_is_admissible(mesh: MeshTopology)
    requires
        mesh.well_formed(),
    ensures
        unique_valid_vertices(mesh, exterior_vertices(mesh)),
        covers_exterior(mesh, exterior_vertices(mesh)),
{
    let all = Seq::new(mesh.vertex_count(), |v: int| v as usize);
    let pred = |v: usize| mesh.vertex_on_boundary@[v as int];
    lemma_filter_ascending(all, pred, mesh.vertex_count());
    let ext = exterior_vertices(mesh);
    assert(ext == all.filter(pred));
    assert forall|i: int, j: int| 0 <= i < ext.len() && 0 <= j < ext.len() && i != j implies ext[i] != ext[j] by {
        if i < j {
        } else {
        }
    }
    assert forall|v: int| 0 <= v < mesh.vertex_count() && #[trigger] mesh.vertex_on_boundary@[v] implies ext.contains(v as usize) by {
        assert(all[v] == v as usize);
        assert(pred(all[v]));
        all.lemma_filter_contains(pred, v);
    }
}

/// Filtering the ascending index sequence below `n` keeps it ascending and in range.
proof fn lemma_filter_ascending(all: Seq<usize>, pred: spec_fn(usize) -> bool, n: nat)
    requires
        all == Seq::new(n, |v: int| v as usize),
        n <= usize::MAX + 1,
    ensures
        forall|i: int, j: int| 0 <= i < j < all.filter(pred).len() ==> all.filter(pred)[i] < all.filter(pred)[j],
        forall|i: int| 0 <= i < all.filter(pred).len() ==> (#[trigger] all.filter(pred)[i]) < n,
    decreases n,
{
    reveal_with_fuel(Seq::filter, 1);
    if n > 0 {
        let prefix = Seq::new((n - 1) as nat, |v: int| v as usize);
        assert(all.drop_last() =~= prefix);
        lemma_filter_ascending(prefix, pred, (n - 1) as nat);
        let f = all.filter(pred);
        let fp = prefix.filter(pred);
        if pred(all.last()) {
            assert(f == fp.push(all.last()));
            assert forall|i: int, j: int| 0 <= i < j < f.len() implies f[i] < f[j] by {
                if j == f.len() - 1 {
                    assert(f[i] == fp[i]);
                    assert(fp[i] < n - 1);
                } else {
                    assert(f[i] == fp[i] && f[j] == fp[j]);
                }
            }
            assert forall|i: int| 0 <= i < f.len() implies (#[trigger] f[i]) < n by {
                if i < f.len() - 1 {
                    assert(f[i] == fp[i]);
                }
            }
        } else {
            assert(f == fp);
        }
    }
}

} // verus!
