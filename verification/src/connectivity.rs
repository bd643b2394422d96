//! Facet connectivity and vertex closures of Region cell sets.

use vstd::prelude::*;

use crate::diagnostic::Diagnostic;
use crate::sorted::{insert_sorted_unique, strictly_increasing};
use crate::topology::{facet_fault, MeshTopology};

verus! {

/// The `l`-th incidence of the `k`-th facet of cell `p` exists.
pub open spec fn has_neighbor(mesh: MeshTopology, p: int, k: int, l: int) -> bool {
    &&& 0 <= p < mesh.cell_facets@.len()
    &&& 0 <= k < mesh.cell_facets@[p]@.len()
    &&& 0 <= l < mesh.facet_sides(mesh.cell_facets@[p]@[k] as int).len()
}

/// Cell on the `l`-th side of the `k`-th facet of cell `p`.
pub open spec fn facet_neighbor(mesh: MeshTopology, p: int, k: int, l: int) -> int {
    mesh.facet_sides(mesh.cell_facets@[p]@[k] as int)[l].entity.index as int
}

/// Cell `c` is reached from the first cell of `cells` in at most `n` steps
/// across shared facets without leaving `cells`.
pub open spec fn reaches(mesh: MeshTopology, cells: Seq<usize>, c: int, n: nat) -> bool
    decreases n,
{
    if n == 0 {
        cells.len() > 0 && c == cells[0] as int
    } else {
        reaches(mesh, cells, c, (n - 1) as nat) || (0 <= c && cells.contains(c as usize) && exists|
            p: int,
            k: int,
            l: int,
        |
            reaches(mesh, cells, p, (n - 1) as nat) && has_neighbor(mesh, p, k, l)
                && #[trigger] facet_neighbor(mesh, p, k, l) == c)
    }
}

/// Cell `c` is reached from the first cell of `cells` within `cells`.
pub open spec fn reached(mesh: MeshTopology, cells: Seq<usize>, c: int) -> bool {
    exists|n: nat| #[trigger] reaches(mesh, cells, c, n)
}

/// Every cell of `cells` is reached from its first cell across shared facets.
pub open spec fn facet_connected(mesh: MeshTopology, cells: Seq<usize>) -> bool {
    forall|i: int| 0 <= i < cells.len() ==> #[trigger] reached(mesh, cells, cells[i] as int)
}

/// Number of `false` entries.
pub open spec fn count_false(s: Seq<bool>) -> nat
    decreases s.len(),
{
    if s.len() == 0 {
        0
    } else {
        count_false(s.drop_last()) + if s.last() {
            0nat
        } else {
            1nat
        }
    }
}

proof fn lemma_count_false_bound(s: Seq<bool>)
    ensures
        count_false(s) <= s.len(),
    decreases s.len(),
{
    if s.len() > 0 {
        lemma_count_false_bound(s.drop_last());
    }
}

proof fn lemma_count_false_mark(s: Seq<bool>, i: int)
    requires
        0 <= i < s.len(),
        !s[i],
    ensures
        count_false(s.update(i, true)) + 1 == count_false(s),
    decreases s.len(),
{
    let t = s.update(i, true);
    if i == s.len() - 1 {
        assert(t.drop_last() =~= s.drop_last());
    } else {
        assert(t.drop_last() =~= s.drop_last().update(i, true));
        lemma_count_false_mark(s.drop_last(), i);
    }
}

proof fn lemma_all_false(n: nat)
    ensures
        count_false(Seq::new(n, |i: int| false)) == n,
    decreases n,
{
    if n > 0 {
        assert(Seq::new(n, |i: int| false).drop_last() =~= Seq::new((n - 1) as nat, |i: int| false));
        lemma_all_false((n - 1) as nat);
    }
}

/// Every in-set neighbor of processed cell `p` is visited.
pub open spec fn closed_at(mesh: MeshTopology, member: Seq<bool>, visited: Seq<bool>, p: int) -> bool {
    forall|k: int, l: int|
        has_neighbor(mesh, p, k, l) && #[trigger] member[facet_neighbor(mesh, p, k, l)]
            ==> visited[facet_neighbor(mesh, p, k, l)]
}

proof fn lemma_complete(
    mesh: MeshTopology,
    cells: Seq<usize>,
    member: Seq<bool>,
    visited: Seq<bool>,
    c: int,
    n: nat,
)
    requires
        cells.len() > 0,
        member.len() == visited.len(),
        cells[0] < visited.len(),
        visited[cells[0] as int],
        forall|q: int| 0 <= q < member.len() ==> (#[trigger] member[q] <==> cells.contains(q as usize)),
        forall|p: int| 0 <= p < visited.len() && #[trigger] visited[p] ==> closed_at(mesh, member, visited, p),
        forall|p: int, k: int, l: int|
            has_neighbor(mesh, p, k, l) ==> 0 <= #[trigger] facet_neighbor(mesh, p, k, l) < visited.len(),
        reaches(mesh, cells, c, n),
        0 <= c < visited.len(),
    ensures
        visited[c],
    decreases n,
{
    if n > 0 {
        if reaches(mesh, cells, c, (n - 1) as nat) {
            lemma_complete(mesh, cells, member, visited, c, (n - 1) as nat);
        } else {
            let (p, k, l) = choose|p: int, k: int, l: int|
                reaches(mesh, cells, p, (n - 1) as nat) && has_neighbor(mesh, p, k, l)
                    && #[trigger] facet_neighbor(mesh, p, k, l) == c;
            assert(0 <= p < visited.len());
            lemma_complete(mesh, cells, member, visited, p, (n - 1) as nat);
            assert(closed_at(mesh, member, visited, p));
            assert(member[facet_neighbor(mesh, p, k, l)]);
        }
    }
}

/// Accept a nonempty Region cell set only when it is facet-connected.
pub fn require_connected_cells(mesh: &MeshTopology, cells: &Vec<usize>) -> (result: Result<
    (),
    Diagnostic,
>)
    requires
        mesh.well_formed(),
        cells@.len() > 0,
        forall|i: int| 0 <= i < cells@.len() ==> #[trigger] cells@[i] < mesh.cell_count(),
        forall|f: int| 0 <= f < mesh.facet_count() ==> #[trigger] facet_fault(*mesh, f) is None,
    ensures
        result is Ok <==> facet_connected(*mesh, cells@),
        result is Err ==> result == Err::<(), Diagnostic>(Diagnostic::RegionNotConnected),
{
    let count = mesh.cell_vertices.len();
    let ghost cs = cells@;
    proof {
        assert forall|p: int, k: int, l: int|
            has_neighbor(*mesh, p, k, l) implies 0 <= #[trigger] facet_neighbor(*mesh, p, k, l) < count by {
            let f = mesh.cell_facets@[p]@[k] as int;
            assert(facet_fault(*mesh, f) is None);
        }
    }
    let mut member: Vec<bool> = Vec::new();
    let mut visited: Vec<bool> = Vec::new();
    let mut c: usize = 0;
    while c < count
        invariant
            c <= count,
            member@.len() == c,
            visited@.len() == c,
            forall|q: int| 0 <= q < c ==> !#[trigger] member@[q],
            visited@ == Seq::new(c as nat, |i: int| false),
        decreases count - c,
    {
        member.push(false);
        visited.push(false);
        c = c + 1;
    }
    proof {
        lemma_all_false(count as nat);
    }
    let mut i: usize = 0;
    while i < cells.len()
        invariant
            i <= cs.len(),
            cs == cells@,
            count == mesh.cell_count(),
            member@.len() == count,
            forall|j: int| 0 <= j < cs.len() ==> #[trigger] cs[j] < count,
            forall|q: int| 0 <= q < count ==> (#[trigger] member@[q] <==> cs.take(i as int).contains(q as usize)),
            visited@ == Seq::new(count as nat, |j: int| false),
        decreases cs.len() - i,
    {
        let x = cells[i];
        member.set(x, true);
        proof {
            let prev = cs.take(i as int);
            let next = cs.take(i + 1);
            assert forall|q: int| 0 <= q < count implies (#[trigger] member@[q] <==> next.contains(q as usize)) by {
                if next.contains(q as usize) {
                    let j = choose|j: int| 0 <= j < next.len() && next[j] == q as usize;
                    if j < i {
                        assert(prev[j] == q as usize);
                    }
                }
                if prev.contains(q as usize) {
                    let j = choose|j: int| 0 <= j < prev.len() && prev[j] == q as usize;
                    assert(next[j] == q as usize);
                }
                if q == x {
                    assert(next[i as int] == x);
                }
            }
        }
        i = i + 1;
    }
    assert(cs.take(cs.len() as int) =~= cs);
    let start = cells[0];
    proof {
        lemma_count_false_mark(visited@, start as int);
        assert(reaches(*mesh, cs, start as int, 0));
    }
    visited.set(start, true);
    let mut order: Vec<usize> = Vec::new();
    order.push(start);
    proof {
        assert(order@[0] == start);
        assert forall|q: int| 0 <= q < count && #[trigger] visited@[q] implies order@.contains(q as usize) by {
            assert(q == start as int);
        }
        assert forall|q: int| 0 <= q < count && #[trigger] visited@[q] implies member@[q] && reached(*mesh, cs, q) by {
            assert(q == start as int);
            assert(cs[0] == start);
            assert(reaches(*mesh, cs, q, 0));
        }
    }
    let mut head: usize = 0;
    while head < order.len()
        invariant
            cs == cells@,
            cs.len() > 0,
            start == cs[0],
            count == mesh.cell_count(),
            mesh.well_formed(),
            forall|f: int| 0 <= f < mesh.facet_count() ==> #[trigger] facet_fault(*mesh, f) is None,
            forall|p: int, k: int, l: int|
                has_neighbor(*mesh, p, k, l) ==> 0 <= #[trigger] facet_neighbor(*mesh, p, k, l) < count,
            member@.len() == count,
            visited@.len() == count,
            visited@[start as int],
                    start < count,
            forall|q: int| 0 <= q < count ==> (#[trigger] member@[q] <==> cs.contains(q as usize)),
            forall|j: int| 0 <= j < order@.len() ==> #[trigger] order@[j] < count && visited@[order@[j] as int],
            forall|q: int| 0 <= q < count && #[trigger] visited@[q] ==> order@.contains(q as usize),
            forall|q: int| 0 <= q < count && #[trigger] visited@[q] ==> member@[q] && reached(*mesh, cs, q),
            forall|j: int| 0 <= j < head ==> closed_at(*mesh, member@, visited@, #[trigger] order@[j] as int),
            order@.len() + count_false(visited@) == count,
            head <= order@.len(),
        decreases count - head,
    {
        proof {
            lemma_count_false_bound(visited@);
        }
        let p = order[head];
        let facets = &mesh.cell_facets[p];
        let ghost n_p = choose|n: nat| #[trigger] reaches(*mesh, cs, p as int, n);
        let ghost visited_at_head = visited@;
        let mut k: usize = 0;
        while k < facets.len()
            invariant
                cs == cells@,
                cs.len() > 0,
                start == cs[0],
                count == mesh.cell_count(),
                mesh.well_formed(),
                p < count,
                facets@ == mesh.cell_facets@[p as int]@,
                reaches(*mesh, cs, p as int, n_p),
                forall|f: int| 0 <= f < mesh.facet_count() ==> #[trigger] facet_fault(*mesh, f) is None,
                forall|p2: int, k2: int, l2: int|
                    has_neighbor(*mesh, p2, k2, l2) ==> 0 <= #[trigger] facet_neighbor(*mesh, p2, k2, l2) < count,
                member@.len() == count,
                visited@.len() == count,
                visited@[start as int],
                    start < count,
                forall|q: int| 0 <= q < count ==> (#[trigger] member@[q] <==> cs.contains(q as usize)),
                forall|j: int| 0 <= j < order@.len() ==> #[trigger] order@[j] < count && visited@[order@[j] as int],
                forall|q: int| 0 <= q < count && #[trigger] visited@[q] ==> order@.contains(q as usize),
                forall|q: int| 0 <= q < count && #[trigger] visited@[q] ==> member@[q] && reached(*mesh, cs, q),
                forall|j: int| 0 <= j < head ==> closed_at(*mesh, member@, visited@, #[trigger] order@[j] as int),
                visited_at_head.len() == count,
                forall|q: int| 0 <= q < count && #[trigger] visited_at_head[q] ==> visited@[q],
                forall|k2: int, l2: int|
                    0 <= k2 < k && has_neighbor(*mesh, p as int, k2, l2) && #[trigger] member@[facet_neighbor(*mesh, p as int, k2, l2)]
                        ==> visited@[facet_neighbor(*mesh, p as int, k2, l2)],
                order@.len() + count_false(visited@) == count,
                head < order@.len(),
                order@[head as int] == p,
                k <= facets@.len(),
            decreases facets@.len() - k,
        {
            let f = facets[k];
            let sides = &mesh.facet_cells[f];
            let mut l: usize = 0;
            while l < sides.len()
                invariant
                    cs == cells@,
                    cs.len() > 0,
                    start == cs[0],
                    count == mesh.cell_count(),
                    mesh.well_formed(),
                    p < count,
                    facets@ == mesh.cell_facets@[p as int]@,
                    k < facets@.len(),
                    f == facets@[k as int],
                    sides@ == mesh.facet_sides(f as int),
                    reaches(*mesh, cs, p as int, n_p),
                    forall|p2: int, k2: int, l2: int|
                        has_neighbor(*mesh, p2, k2, l2) ==> 0 <= #[trigger] facet_neighbor(*mesh, p2, k2, l2) < count,
                    member@.len() == count,
                    visited@.len() == count,
                    visited@[start as int],
                    start < count,
                    forall|q: int| 0 <= q < count ==> (#[trigger] member@[q] <==> cs.contains(q as usize)),
                    forall|j: int| 0 <= j < order@.len() ==> #[trigger] order@[j] < count && visited@[order@[j] as int],
                    forall|q: int| 0 <= q < count && #[trigger] visited@[q] ==> order@.contains(q as usize),
                    forall|q: int| 0 <= q < count && #[trigger] visited@[q] ==> member@[q] && reached(*mesh, cs, q),
                    forall|j: int| 0 <= j < head ==> closed_at(*mesh, member@, visited@, #[trigger] order@[j] as int),
                    visited_at_head.len() == count,
                forall|q: int| 0 <= q < count && #[trigger] visited_at_head[q] ==> visited@[q],
                    forall|k2: int, l2: int|
                        0 <= k2 < k && has_neighbor(*mesh, p as int, k2, l2) && #[trigger] member@[facet_neighbor(*mesh, p as int, k2, l2)]
                            ==> visited@[facet_neighbor(*mesh, p as int, k2, l2)],
                    forall|l2: int|
                        0 <= l2 < l && has_neighbor(*mesh, p as int, k as int, l2) && #[trigger] member@[facet_neighbor(*mesh, p as int, k as int, l2)]
                            ==> visited@[facet_neighbor(*mesh, p as int, k as int, l2)],
                    order@.len() + count_false(visited@) == count,
                    head < order@.len(),
                    order@[head as int] == p,
                    l <= sides@.len(),
                decreases sides@.len() - l,
            {
                let q = sides[l].entity.index;
                assert(has_neighbor(*mesh, p as int, k as int, l as int));
                assert(facet_neighbor(*mesh, p as int, k as int, l as int) == q);
                if member[q] && !visited[q] {
                    proof {
                        lemma_count_false_mark(visited@, q as int);
                        assert(reaches(*mesh, cs, q as int, n_p + 1));
                    }
                    let ghost old_order = order@;
                    let ghost old_visited = visited@;
                    visited.set(q, true);
                    order.push(q);
                    proof {
                        assert(order@[order@.len() - 1] == q);
                        assert forall|r: int| 0 <= r < count && #[trigger] visited@[r] implies order@.contains(r as usize) by {
                            if r != q {
                                assert(old_visited[r]);
                                let j = choose|j: int| 0 <= j < old_order.len() && old_order[j] == r as usize;
                                assert(order@[j] == r as usize);
                            }
                        }
                    }
                }
                l = l + 1;
            }
            k = k + 1;
        }
        assert(closed_at(*mesh, member@, visited@, p as int));
        head = head + 1;
    }
    let mut i: usize = 0;
    while i < cells.len()
        invariant
            i <= cs.len(),
            cs == cells@,
            cs.len() > 0,
            start == cs[0],
            count == mesh.cell_count(),
            visited@.len() == count,
            member@.len() == count,
            visited@[start as int],
                    start < count,
            forall|j: int| 0 <= j < cs.len() ==> #[trigger] cs[j] < count,
            forall|p: int, k: int, l: int|
                has_neighbor(*mesh, p, k, l) ==> 0 <= #[trigger] facet_neighbor(*mesh, p, k, l) < count,
            forall|q: int| 0 <= q < count ==> (#[trigger] member@[q] <==> cs.contains(q as usize)),
            forall|q: int| 0 <= q < count && #[trigger] visited@[q] ==> member@[q] && reached(*mesh, cs, q),
            forall|q: int| 0 <= q < count && #[trigger] visited@[q] ==> closed_at(*mesh, member@, visited@, q),
            forall|j: int| 0 <= j < i ==> #[trigger] reached(*mesh, cs, cs[j] as int),
        decreases cs.len() - i,
    {
        if !visited[cells[i]] {
            proof {
                let c = cs[i as int] as int;
                if reached(*mesh, cs, c) {
                    let n = choose|n: nat| #[trigger] reaches(*mesh, cs, c, n);
                    lemma_complete(*mesh, cs, member@, visited@, c, n);
                }
            }
            return Err(Diagnostic::RegionNotConnected);
        }
        i = i + 1;
    }
    Ok(())
}

/// `v` is a vertex of some cell of `cells`.
pub open spec fn closure_vertex(mesh: MeshTopology, cells: Seq<usize>, v: usize) -> bool {
    exists|i: int, k: int|
        0 <= i < cells.len() && 0 <= k < mesh.cell_vertices@[cells[i] as int]@.len()
            && #[trigger] mesh.cell_vertices@[cells[i] as int]@[k] == v
}

/// Vertex closure of a Region cell set, in increasing order.
pub fn region_vertices(mesh: &MeshTopology, cells: &Vec<usize>) -> (vertices: Vec<usize>)
    requires
        forall|i: int| 0 <= i < cells@.len() ==> #[trigger] cells@[i] < mesh.cell_count(),
    ensures
        strictly_increasing(vertices@),
        forall|v: usize| #[trigger] vertices@.contains(v) <==> closure_vertex(*mesh, cells@, v),
{
    let mut vertices: Vec<usize> = Vec::new();
    let mut i: usize = 0;
    while i < cells.len()
        invariant
            i <= cells@.len(),
            forall|j: int| 0 <= j < cells@.len() ==> #[trigger] cells@[j] < mesh.cell_count(),
            strictly_increasing(vertices@),
            forall|v: usize|
                #[trigger] vertices@.contains(v) <==> closure_vertex(*mesh, cells@.take(i as int), v),
        decreases cells@.len() - i,
    {
        let cell_vertices = &mesh.cell_vertices[cells[i]];
        let ghost before = vertices@;
        let mut k: usize = 0;
        while k < cell_vertices.len()
            invariant
                i < cells@.len(),
                cell_vertices@ == mesh.cell_vertices@[cells@[i as int] as int]@,
                k <= cell_vertices@.len(),
                strictly_increasing(vertices@),
                forall|v: usize|
                    #[trigger] vertices@.contains(v) <==> (before.contains(v) || exists|j: int|
                        0 <= j < k && cell_vertices@[j] == v),
            decreases cell_vertices@.len() - k,
        {
            let ghost prev = vertices@;
            insert_sorted_unique(&mut vertices, cell_vertices[k]);
            proof {
                assert forall|v: usize|
                    #[trigger] vertices@.contains(v) <==> (before.contains(v) || exists|j: int|
                        0 <= j < k + 1 && cell_vertices@[j] == v) by {
                    if v == cell_vertices@[k as int] {
                        assert(cell_vertices@[k as int] == v);
                    }
                }
            }
            k = k + 1;
        }
        proof {
            let prev_cells = cells@.take(i as int);
            let next_cells = cells@.take(i + 1);
            assert forall|v: usize|
                #[trigger] vertices@.contains(v) <==> closure_vertex(*mesh, next_cells, v) by {
                if closure_vertex(*mesh, next_cells, v) {
                    let (a, b) = choose|a: int, b: int|
                        0 <= a < next_cells.len() && 0 <= b < mesh.cell_vertices@[next_cells[a] as int]@.len()
                            && #[trigger] mesh.cell_vertices@[next_cells[a] as int]@[b] == v;
                    if a < i {
                        assert(prev_cells[a] == next_cells[a]);
                        assert(mesh.cell_vertices@[prev_cells[a] as int]@[b] == v);
                    } else {
                        assert(cell_vertices@[b] == v);
                    }
                }
                if closure_vertex(*mesh, prev_cells, v) {
                    let (a, b) = choose|a: int, b: int|
                        0 <= a < prev_cells.len() && 0 <= b < mesh.cell_vertices@[prev_cells[a] as int]@.len()
                            && #[trigger] mesh.cell_vertices@[prev_cells[a] as int]@[b] == v;
                    assert(next_cells[a] == prev_cells[a]);
                    assert(mesh.cell_vertices@[next_cells[a] as int]@[b] == v);
                }
                if exists|j: int| 0 <= j < cell_vertices@.len() && cell_vertices@[j] == v {
                    let j = choose|j: int| 0 <= j < cell_vertices@.len() && cell_vertices@[j] == v;
                    assert(next_cells[i as int] == cells@[i as int]);
                    assert(mesh.cell_vertices@[next_cells[i as int] as int]@[j] == v);
                }
            }
        }
        i = i + 1;
    }
    assert(cells@.take(cells@.len() as int) =~= cells@);
    vertices
}

} // verus!
