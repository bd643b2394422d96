//! Exact Domain cell ownership and Connection-relative simplex incidence.

use vstd::prelude::*;

use crate::diagnostic::Diagnostic;
use crate::sorted::{contains_index, insert_sorted_unique, lemma_sorted_set, sorted_set, strictly_increasing};
use crate::connectivity::{closure_vertex, facet_connected, region_vertices, require_connected_cells};
use crate::contract::{require_mesh_dimension, require_mesh_dimension_fault};
use crate::topology::{
    EntityIncidence, bind_region_topology, binding_fault, binds_traces, crosses, facet_fault,
    first_facet_fault, is_cross_facet, uncovered_facet,
    first_membership_fault, first_quotient_fault, lemma_quotient_witnesses_oriented, membership_fault,
    oriented_witnesses, owners, quotient_facets,
    quotient_fault, same_identity, trace_facets, ConformingTraceQuotient, MeshTopology, RawId,
    TraceBinding, TraceFacet,
};

verus! {

/// Fault of the `i`-th Domain inventory entry: an empty or repeating cell
/// list, or a Domain already named by an earlier entry.
pub open spec fn inventory_fault(entries: Seq<(RawId, Vec<usize>)>, i: int) -> Option<Diagnostic> {
    let cells = entries[i].1@;
    if cells.len() == 0 || !cells.no_duplicates() {
        Some(Diagnostic::RegionCellsEmptyOrRepeated)
    } else if exists|j: int| 0 <= j < i && (#[trigger] entries[j]).0 == entries[i].0 {
        Some(Diagnostic::RepeatedDomain)
    } else {
        None
    }
}

/// First inventory fault at or after entry `i`.
pub open spec fn first_inventory_fault(entries: Seq<(RawId, Vec<usize>)>, i: int) -> Option<
    Diagnostic,
>
    decreases entries.len() - i,
{
    if i < 0 || i >= entries.len() {
        None
    } else if inventory_fault(entries, i) is Some {
        inventory_fault(entries, i)
    } else {
        first_inventory_fault(entries, i + 1)
    }
}

/// `owned` is the canonical form of `entries`: the same Domains in strictly
/// increasing order, each with the same cell set in strictly increasing order.
pub open spec fn canonical_inventory(
    entries: Seq<(RawId, Vec<usize>)>,
    owned: Seq<(RawId, Vec<usize>)>,
) -> bool {
    &&& forall|i: int, j: int| 0 <= i < j < owned.len() ==> owned[i].0 < owned[j].0
    &&& forall|k: int| 0 <= k < owned.len() ==> strictly_increasing(#[trigger] owned[k].1@)
    &&& forall|i: int| 0 <= i < entries.len() ==> #[trigger] has_canonical(owned, entries[i])
    &&& forall|k: int| 0 <= k < owned.len() ==> #[trigger] from_inventory(entries, owned[k], entries.len() as int)
}

/// Some canonical entry stands for inventory entry `e`.
pub open spec fn has_canonical(owned: Seq<(RawId, Vec<usize>)>, e: (RawId, Vec<usize>)) -> bool {
    exists|k: int| 0 <= k < owned.len() && #[trigger] entry_matches(owned[k], e)
}

/// Canonical entry `o` stands for one of the first `n` inventory entries.
pub open spec fn from_inventory(entries: Seq<(RawId, Vec<usize>)>, o: (RawId, Vec<usize>), n: int) -> bool {
    exists|a: int| 0 <= a < n && #[trigger] entry_matches(o, entries[a])
}

/// Canonical entry `o` stands for inventory entry `e`.
#[verifier::opaque]
pub open spec fn entry_matches(o: (RawId, Vec<usize>), e: (RawId, Vec<usize>)) -> bool {
    o.0 == e.0 && same_cells(o.1@, e.1@)
}

/// Two cell lists name the same cells.
pub open spec fn same_cells(a: Seq<usize>, b: Seq<usize>) -> bool {
    forall|c: usize| #[trigger] a.contains(c) <==> b.contains(c)
}

/// Domains and cell lists of an inventory, without their containers.
pub open spec fn inventory_view(owned: Seq<(RawId, Vec<usize>)>) -> Seq<(RawId, Seq<usize>)> {
    owned.map_values(|e: (RawId, Vec<usize>)| (e.0, e.1@))
}

/// Canonical view `o` stands for inventory entry `e`.
pub open spec fn view_matches(o: (RawId, Seq<usize>), e: (RawId, Vec<usize>)) -> bool {
    o.0 == e.0 && same_cells(o.1, e.1@)
}

/// Some canonical view stands for inventory entry `e`.
pub open spec fn has_view(v: Seq<(RawId, Seq<usize>)>, e: (RawId, Vec<usize>)) -> bool {
    exists|k: int| 0 <= k < v.len() && #[trigger] view_matches(v[k], e)
}

/// Canonical view `o` stands for some inventory entry.
pub open spec fn view_from_inventory(entries: Seq<(RawId, Vec<usize>)>, o: (RawId, Seq<usize>)) -> bool {
    exists|a: int| 0 <= a < entries.len() && #[trigger] view_matches(o, entries[a])
}

/// `v` is the canonical form of `entries`: the same Domains in strictly
/// increasing order, each with its cell set in strictly increasing order.
pub open spec fn canonical_view(entries: Seq<(RawId, Vec<usize>)>, v: Seq<(RawId, Seq<usize>)>) -> bool {
    &&& forall|i: int, j: int| 0 <= i < j < v.len() ==> v[i].0 < v[j].0
    &&& forall|k: int| 0 <= k < v.len() ==> strictly_increasing(#[trigger] v[k].1)
    &&& forall|i: int| 0 <= i < entries.len() ==> #[trigger] has_view(v, entries[i])
    &&& forall|k: int| 0 <= k < v.len() ==> #[trigger] view_from_inventory(entries, v[k])
}

/// The canonical form of a Domain inventory.
pub open spec fn canonical_form(entries: Seq<(RawId, Vec<usize>)>) -> Seq<(RawId, Seq<usize>)> {
    choose|v: Seq<(RawId, Seq<usize>)>| canonical_view(entries, v)
}

/// Cell memberships of a canonical inventory, Domain by Domain and cell by cell.
pub open spec fn inventory_membership(form: Seq<(RawId, Seq<usize>)>) -> Seq<(usize, RawId)>
    decreases form.len(),
{
    if form.len() == 0 {
        Seq::empty()
    } else {
        let last = form.last();
        inventory_membership(form.drop_last()) + last.1.map_values(|c: usize| (c, last.0))
    }
}

proof fn lemma_strict_unique_usize(s: Seq<usize>, t: Seq<usize>)
    requires
        strictly_increasing(s),
        strictly_increasing(t),
        forall|x: usize| #![trigger s.contains(x)] #![trigger t.contains(x)] s.contains(x) <==> t.contains(x),
    ensures
        s == t,
    decreases s.len(),
{
    if s.len() == 0 {
        if t.len() > 0 {
            assert(t.contains(t[0]));
        }
        assert(s =~= t);
    } else {
        assert(s.contains(s[0]));
        assert(t.len() > 0);
        assert(t.contains(t[0]));
        let j = choose|j: int| 0 <= j < t.len() && t[j] == s[0];
        let i = choose|i: int| 0 <= i < s.len() && s[i] == t[0];
        assert(s[0] == t[0]);
        let s1 = s.drop_first();
        let t1 = t.drop_first();
        assert forall|x: usize| #![trigger s1.contains(x)] #![trigger t1.contains(x)] s1.contains(x) <==> t1.contains(x) by {
            if s1.contains(x) {
                let a = choose|a: int| 0 <= a < s1.len() && s1[a] == x;
                assert(s[a + 1] == x);
                assert(s.contains(x));
                let b = choose|b: int| 0 <= b < t.len() && t[b] == x;
                assert(b != 0);
                assert(t1[b - 1] == x);
            }
            if t1.contains(x) {
                let a = choose|a: int| 0 <= a < t1.len() && t1[a] == x;
                assert(t[a + 1] == x);
                assert(t.contains(x));
                let b = choose|b: int| 0 <= b < s.len() && s[b] == x;
                assert(b != 0);
                assert(s1[b - 1] == x);
            }
        }
        lemma_strict_unique_usize(s1, t1);
        assert(s.len() == t.len());
        assert forall|i: int| 0 <= i < s.len() implies s[i] == t[i] by {
            if i > 0 {
                assert(s[i] == s1[i - 1]);
                assert(t[i] == t1[i - 1]);
            }
        }
        assert(s =~= t);
    }
}

proof fn lemma_strict_unique_keys(s: Seq<RawId>, t: Seq<RawId>)
    requires
        forall|i: int, j: int| 0 <= i < j < s.len() ==> s[i] < s[j],
        forall|i: int, j: int| 0 <= i < j < t.len() ==> t[i] < t[j],
        forall|x: RawId| #![trigger s.contains(x)] #![trigger t.contains(x)] s.contains(x) <==> t.contains(x),
    ensures
        s == t,
    decreases s.len(),
{
    if s.len() == 0 {
        if t.len() > 0 {
            assert(t.contains(t[0]));
        }
        assert(s =~= t);
    } else {
        assert(s.contains(s[0]));
        assert(t.len() > 0);
        assert(t.contains(t[0]));
        let j = choose|j: int| 0 <= j < t.len() && t[j] == s[0];
        let i = choose|i: int| 0 <= i < s.len() && s[i] == t[0];
        assert(s[0] == t[0]);
        let s1 = s.drop_first();
        let t1 = t.drop_first();
        assert forall|x: RawId| #![trigger s1.contains(x)] #![trigger t1.contains(x)] s1.contains(x) <==> t1.contains(x) by {
            if s1.contains(x) {
                let a = choose|a: int| 0 <= a < s1.len() && s1[a] == x;
                assert(s[a + 1] == x);
                assert(s.contains(x));
                let b = choose|b: int| 0 <= b < t.len() && t[b] == x;
                assert(b != 0);
                assert(t1[b - 1] == x);
            }
            if t1.contains(x) {
                let a = choose|a: int| 0 <= a < t1.len() && t1[a] == x;
                assert(t[a + 1] == x);
                assert(t.contains(x));
                let b = choose|b: int| 0 <= b < s.len() && s[b] == x;
                assert(b != 0);
                assert(s1[b - 1] == x);
            }
        }
        lemma_strict_unique_keys(s1, t1);
        assert(s.len() == t.len());
        assert forall|i: int| 0 <= i < s.len() implies s[i] == t[i] by {
            if i > 0 {
                assert(s[i] == s1[i - 1]);
                assert(t[i] == t1[i - 1]);
            }
        }
        assert(s =~= t);
    }
}

proof fn lemma_no_fault_at(entries: Seq<(RawId, Vec<usize>)>, i: int, b: int)
    requires
        0 <= i <= b < entries.len(),
        first_inventory_fault(entries, i) is None,
    ensures
        inventory_fault(entries, b) is None,
    decreases b - i,
{
    assert(inventory_fault(entries, i) is None);
    if i < b {
        lemma_no_fault_at(entries, i + 1, b);
    }
}

/// Without inventory faults the canonical form is unique.
proof fn lemma_canonical_unique(
    entries: Seq<(RawId, Vec<usize>)>,
    v1: Seq<(RawId, Seq<usize>)>,
    v2: Seq<(RawId, Seq<usize>)>,
)
    requires
        first_inventory_fault(entries, 0) is None,
        canonical_view(entries, v1),
        canonical_view(entries, v2),
    ensures
        v1 == v2,
{
    assert forall|a: int, b: int| 0 <= a < b < entries.len() implies entries[a].0 != entries[b].0 by {
        lemma_no_fault_at(entries, 0, b);
        if entries[a].0 == entries[b].0 {
            assert(inventory_fault(entries, b) == Some(Diagnostic::RepeatedDomain));
        }
    }
    let k1 = v1.map_values(|e: (RawId, Seq<usize>)| e.0);
    let k2 = v2.map_values(|e: (RawId, Seq<usize>)| e.0);
    assert forall|x: RawId| #![trigger k1.contains(x)] #![trigger k2.contains(x)] k1.contains(x) <==> k2.contains(x) by {
        if k1.contains(x) {
            let k = choose|k: int| 0 <= k < k1.len() && k1[k] == x;
            assert(view_from_inventory(entries, v1[k]));
            let a = choose|a: int| 0 <= a < entries.len() && #[trigger] view_matches(v1[k], entries[a]);
            assert(has_view(v2, entries[a]));
            let m = choose|m: int| 0 <= m < v2.len() && #[trigger] view_matches(v2[m], entries[a]);
            assert(k2[m] == x);
        }
        if k2.contains(x) {
            let k = choose|k: int| 0 <= k < k2.len() && k2[k] == x;
            assert(view_from_inventory(entries, v2[k]));
            let a = choose|a: int| 0 <= a < entries.len() && #[trigger] view_matches(v2[k], entries[a]);
            assert(has_view(v1, entries[a]));
            let m = choose|m: int| 0 <= m < v1.len() && #[trigger] view_matches(v1[m], entries[a]);
            assert(k1[m] == x);
        }
    }
    lemma_strict_unique_keys(k1, k2);
    assert(v1.len() == v2.len());
    assert forall|k: int| 0 <= k < v1.len() implies v1[k] == v2[k] by {
        assert(k1[k] == k2[k]);
        assert(view_from_inventory(entries, v1[k]));
        assert(view_from_inventory(entries, v2[k]));
        let a = choose|a: int| 0 <= a < entries.len() && #[trigger] view_matches(v1[k], entries[a]);
        let b = choose|b: int| 0 <= b < entries.len() && #[trigger] view_matches(v2[k], entries[b]);
        assert(a == b);
        assert forall|x: usize| #![trigger v1[k].1.contains(x)] #![trigger v2[k].1.contains(x)] v1[k].1.contains(x) <==> v2[k].1.contains(x) by {
            assert(same_cells(v1[k].1, entries[a].1@));
            assert(same_cells(v2[k].1, entries[a].1@));
        }
        lemma_strict_unique_usize(v1[k].1, v2[k].1);
    }
    assert(v1 =~= v2);
}

/// Canonical set of a cell list, or `None` when the list repeats a cell.
fn canonical_cells(cells: &Vec<usize>) -> (result: Option<Vec<usize>>)
    ensures
        result is Some <==> cells@.no_duplicates(),
        result matches Some(set) ==> strictly_increasing(set@) && same_cells(set@, cells@),
{
    let mut set: Vec<usize> = Vec::new();
    let mut j: usize = 0;
    while j < cells.len()
        invariant
            j <= cells@.len(),
            strictly_increasing(set@),
            forall|c: usize| #[trigger] set@.contains(c) <==> cells@.take(j as int).contains(c),
            cells@.take(j as int).no_duplicates(),
        decreases cells@.len() - j,
    {
        let ghost prev = cells@.take(j as int);
        let ghost next = cells@.take(j + 1);
        assert(next =~= prev.push(cells@[j as int]));
        if !insert_sorted_unique(&mut set, cells[j]) {
            proof {
                let k = choose|k: int| 0 <= k < prev.len() && prev[k] == cells@[j as int];
                assert(cells@[k] == cells@[j as int]);
            }
            return None;
        }
        proof {
            assert forall|c: usize| #[trigger] set@.contains(c) <==> next.contains(c) by {
                if next.contains(c) {
                    let k = choose|k: int| 0 <= k < next.len() && next[k] == c;
                    if k < j {
                        assert(prev[k] == c);
                    }
                }
                if prev.contains(c) {
                    let k = choose|k: int| 0 <= k < prev.len() && prev[k] == c;
                    assert(next[k] == c);
                }
                if c == cells@[j as int] {
                    assert(next[j as int] == c);
                }
            }
            assert forall|a: int, b: int| 0 <= a < b < next.len() implies next[a] != next[b] by {
                if b == j {
                    assert(prev[a] == next[a]);
                    assert(prev.contains(next[a]));
                } else {
                    assert(prev[a] == next[a] && prev[b] == next[b]);
                }
            }
        }
        j = j + 1;
    }
    assert(cells@.take(cells@.len() as int) =~= cells@);
    Some(set)
}

/// `after` is `before` with `entry` inserted at position `p`.
pub open spec fn inserted_at<A>(before: Seq<A>, after: Seq<A>, p: int, entry: A) -> bool {
    &&& 0 <= p <= before.len()
    &&& after.len() == before.len() + 1
    &&& after[p] == entry
    &&& forall|k: int| 0 <= k < p ==> #[trigger] after[k] == before[k]
    &&& forall|k: int| p < k < after.len() ==> #[trigger] after[k] == before[k - 1]
}

/// Domain order and canonical cell sets survive inserting an entry at its
/// canonical position.
proof fn lemma_insert_sorted(
    before: Seq<(RawId, Vec<usize>)>,
    after: Seq<(RawId, Vec<usize>)>,
    p: int,
    entry: (RawId, Vec<usize>),
)
    requires
        inserted_at(before, after, p, entry),
        strictly_increasing(entry.1@),
        forall|k: int| 0 <= k < p ==> before[k].0 < entry.0,
        p < before.len() ==> before[p].0 > entry.0,
        forall|a: int, b: int| 0 <= a < b < before.len() ==> before[a].0 < before[b].0,
        forall|k: int| 0 <= k < before.len() ==> strictly_increasing(#[trigger] before[k].1@),
    ensures
        forall|a: int, b: int| 0 <= a < b < after.len() ==> after[a].0 < after[b].0,
        forall|k: int| 0 <= k < after.len() ==> strictly_increasing(#[trigger] after[k].1@),
{
    assert forall|a: int, b: int| 0 <= a < b < after.len() implies after[a].0 < after[b].0 by {
        if b < p {
            assert(after[a] == before[a] && after[b] == before[b]);
        } else if b == p {
            assert(after[a] == before[a]);
        } else if a < p {
            assert(after[a] == before[a]);
            assert(after[b] == before[b - 1]);
            assert(before[b - 1].0 >= before[p].0);
        } else if a == p {
            assert(after[b] == before[b - 1]);
            assert(before[b - 1].0 >= before[p].0);
        } else {
            assert(after[a] == before[a - 1]);
            assert(after[b] == before[b - 1]);
        }
    }
    assert forall|k: int| 0 <= k < after.len() implies strictly_increasing(#[trigger] after[k].1@) by {
        if k < p {
            assert(after[k] == before[k]);
        } else if k > p {
            assert(after[k] == before[k - 1]);
        }
    }
}

/// Inventory coverage after inserting entry `i` at position `p`.
proof fn lemma_insert_matches(
    es: Seq<(RawId, Vec<usize>)>,
    i: int,
    before: Seq<(RawId, Vec<usize>)>,
    after: Seq<(RawId, Vec<usize>)>,
    p: int,
    entry: (RawId, Vec<usize>),
)
    requires
        0 <= i < es.len(),
        inserted_at(before, after, p, entry),
        entry_matches(entry, es[i]),
        forall|a: int| 0 <= a < i ==> #[trigger] has_canonical(before, es[a]),
        forall|k: int| 0 <= k < before.len() ==> #[trigger] from_inventory(es, before[k], i),
    ensures
        forall|a: int| 0 <= a < i + 1 ==> #[trigger] has_canonical(after, es[a]),
        forall|k: int| 0 <= k < after.len() ==> #[trigger] from_inventory(es, after[k], i + 1),
{
    assert forall|a: int| 0 <= a < i + 1 implies #[trigger] has_canonical(after, es[a]) by {
        if a == i {
            assert(entry_matches(after[p], es[a]));
        } else {
            assert(has_canonical(before, es[a]));
            let k = choose|k: int| 0 <= k < before.len() && #[trigger] entry_matches(before[k], es[a]);
            if k < p {
                assert(after[k] == before[k]);
                assert(entry_matches(after[k], es[a]));
            } else {
                assert(after[k + 1] == before[k]);
                assert(entry_matches(after[k + 1], es[a]));
            }
        }
    }
    assert forall|k: int| 0 <= k < after.len() implies #[trigger] from_inventory(es, after[k], i + 1) by {
        if k == p {
            assert(entry_matches(after[k], es[i]));
        } else {
            let bk = if k < p {
                k
            } else {
                k - 1
            };
            assert(after[k] == before[bk]);
            assert(from_inventory(es, before[bk], i));
            let a = choose|a: int| 0 <= a < i && #[trigger] entry_matches(before[bk], es[a]);
            assert(entry_matches(after[k], es[a]));
        }
    }
}

/// Check every Domain inventory entry and return its canonical form.
fn canonicalize_inventory(entries: &Vec<(RawId, Vec<usize>)>) -> (result: Result<
    Vec<(RawId, Vec<usize>)>,
    Diagnostic,
>)
    ensures
        result is Ok <==> first_inventory_fault(entries@, 0) is None,
        result matches Err(e) ==> first_inventory_fault(entries@, 0) == Some(e),
        result matches Ok(owned) ==> canonical_inventory(entries@, owned@),
        result matches Ok(owned) ==> inventory_view(owned@) == canonical_form(entries@),
{
    let ghost es = entries@;
    let mut owned: Vec<(RawId, Vec<usize>)> = Vec::new();
    let mut i: usize = 0;
    while i < entries.len()
        invariant
            i <= es.len(),
            es == entries@,
            first_inventory_fault(es, 0) == first_inventory_fault(es, i as int),
            forall|a: int, b: int| 0 <= a < b < owned@.len() ==> owned@[a].0 < owned@[b].0,
            forall|k: int| 0 <= k < owned@.len() ==> strictly_increasing(#[trigger] owned@[k].1@),
            forall|a: int| 0 <= a < i ==> #[trigger] has_canonical(owned@, es[a]),
            forall|k: int| 0 <= k < owned@.len() ==> #[trigger] from_inventory(es, owned@[k], i as int),
        decreases es.len() - i,
    {
        let domain = entries[i].0;
        let cells = &entries[i].1;
        assert(es[i as int].1@ == cells@);
        let set = match canonical_cells(cells) {
            Some(set) => set,
            None => {
                assert(inventory_fault(es, i as int) == Some(Diagnostic::RegionCellsEmptyOrRepeated));
                return Err(Diagnostic::RegionCellsEmptyOrRepeated);
            },
        };
        if cells.len() == 0 {
            assert(inventory_fault(es, i as int) == Some(Diagnostic::RegionCellsEmptyOrRepeated));
            return Err(Diagnostic::RegionCellsEmptyOrRepeated);
        }
        // Canonical position of this Domain; a repeated Domain is rejected.
        let mut p: usize = 0;
        while p < owned.len() && owned[p].0 < domain
            invariant
                p <= owned@.len(),
                forall|k: int| 0 <= k < p ==> owned@[k].0 < domain,
            decreases owned@.len() - p,
        {
            p = p + 1;
        }
        if p < owned.len() && owned[p].0 == domain {
            proof {
                reveal(entry_matches);
                assert(from_inventory(es, owned@[p as int], i as int));
                let a = choose|a: int| 0 <= a < i && #[trigger] entry_matches(owned@[p as int], es[a]);
                assert(es[a].0 == es[i as int].0);
                assert(inventory_fault(es, i as int) == Some(Diagnostic::RepeatedDomain));
            }
            return Err(Diagnostic::RepeatedDomain);
        }
        proof {
            reveal(entry_matches);
            assert forall|a: int| 0 <= a < i implies (#[trigger] es[a]).0 != domain by {
                assert(has_canonical(owned@, es[a]));
                let k = choose|k: int|
                    0 <= k < owned@.len() && #[trigger] entry_matches(owned@[k], es[a]);
                if k < p {
                } else {
                    assert(owned@[p as int].0 > domain);
                    assert(owned@[k].0 >= owned@[p as int].0);
                }
            }
            assert(inventory_fault(es, i as int) is None);
        }
        let ghost before = owned@;
        let ghost entry = (domain, set);
        proof {
            reveal(entry_matches);
            assert(entry_matches(entry, es[i as int]));
        }
        owned.insert(p, (domain, set));
        proof {
            before.insert_ensures(p as int, entry);
            assert(inserted_at(before, owned@, p as int, entry));
            lemma_insert_sorted(before, owned@, p as int, entry);
            lemma_insert_matches(es, i as int, before, owned@, p as int, entry);
        }
        i = i + 1;
    }
    proof {
        lemma_view_canonical(es, owned@);
        lemma_canonical_unique(es, inventory_view(owned@), canonical_form(es));
    }
    Ok(owned)
}

/// A canonical inventory has a canonical view.
proof fn lemma_view_canonical(entries: Seq<(RawId, Vec<usize>)>, owned: Seq<(RawId, Vec<usize>)>)
    requires
        canonical_inventory(entries, owned),
    ensures
        canonical_view(entries, inventory_view(owned)),
        canonical_view(entries, canonical_form(entries)),
{
    let v = inventory_view(owned);
    reveal(entry_matches);
    assert forall|i: int| 0 <= i < entries.len() implies #[trigger] has_view(v, entries[i]) by {
        assert(has_canonical(owned, entries[i]));
        let k = choose|k: int| 0 <= k < owned.len() && #[trigger] entry_matches(owned[k], entries[i]);
        assert(view_matches(v[k], entries[i]));
    }
    assert forall|k: int| 0 <= k < v.len() implies #[trigger] view_from_inventory(entries, v[k]) by {
        assert(from_inventory(entries, owned[k], entries.len() as int));
        let a = choose|a: int| 0 <= a < entries.len() && #[trigger] entry_matches(owned[k], entries[a]);
        assert(view_matches(v[k], entries[a]));
    }
    assert forall|k: int| 0 <= k < v.len() implies strictly_increasing(#[trigger] v[k].1) by {
        assert(strictly_increasing(owned[k].1@));
    }
    assert(canonical_view(entries, v));
}

/// Position of the first canonical entry whose Domain is not below `key`.
pub open spec fn key_position(v: Seq<(RawId, Seq<usize>)>, key: RawId) -> int
    decreases v.len(),
{
    if v.len() == 0 || !(v[0].0 < key) {
        0
    } else {
        1 + key_position(v.drop_first(), key)
    }
}

proof fn lemma_key_position(v: Seq<(RawId, Seq<usize>)>, key: RawId)
    requires
        forall|a: int, b: int| 0 <= a < b < v.len() ==> v[a].0 < v[b].0,
    ensures
        0 <= key_position(v, key) <= v.len(),
        forall|k: int| 0 <= k < key_position(v, key) ==> v[k].0 < key,
        key_position(v, key) < v.len() ==> v[key_position(v, key)].0 >= key,
    decreases v.len(),
{
    if v.len() > 0 && v[0].0 < key {
        let t = v.drop_first();
        assert forall|a: int, b: int| 0 <= a < b < t.len() implies t[a].0 < t[b].0 by {
            assert(t[a] == v[a + 1] && t[b] == v[b + 1]);
        }
        lemma_key_position(t, key);
        assert forall|k: int| 0 <= k < key_position(v, key) implies v[k].0 < key by {
            if k > 0 {
                assert(v[k] == t[k - 1]);
            }
        }
        if key_position(v, key) < v.len() {
            assert(v[key_position(v, key)] == t[key_position(t, key)]);
        }
    }
}

/// Canonical view `o` stands for one of the first `n` inventory entries.
pub open spec fn view_from_prefix(entries: Seq<(RawId, Vec<usize>)>, o: (RawId, Seq<usize>), n: int) -> bool {
    exists|a: int| 0 <= a < n && #[trigger] view_matches(o, entries[a])
}

/// `v` is the canonical form of the first `n` inventory entries.
pub open spec fn canonical_prefix(
    entries: Seq<(RawId, Vec<usize>)>,
    v: Seq<(RawId, Seq<usize>)>,
    n: int,
) -> bool {
    &&& forall|i: int, j: int| 0 <= i < j < v.len() ==> v[i].0 < v[j].0
    &&& forall|k: int| 0 <= k < v.len() ==> strictly_increasing(#[trigger] v[k].1)
    &&& forall|i: int| 0 <= i < n ==> #[trigger] has_view(v, entries[i])
    &&& forall|k: int| 0 <= k < v.len() ==> #[trigger] view_from_prefix(entries, v[k], n)
}

/// Inserting the canonical view of entry `i` at its Domain's position extends
/// a canonical prefix by that entry.
proof fn lemma_insert_view(
    es: Seq<(RawId, Vec<usize>)>,
    i: int,
    v: Seq<(RawId, Seq<usize>)>,
    p: int,
    entry: (RawId, Seq<usize>),
)
    requires
        0 <= i < es.len(),
        canonical_prefix(es, v, i),
        0 <= p <= v.len(),
        forall|k: int| 0 <= k < p ==> v[k].0 < entry.0,
        p < v.len() ==> v[p].0 > entry.0,
        strictly_increasing(entry.1),
        view_matches(entry, es[i]),
    ensures
        canonical_prefix(es, v.insert(p, entry), i + 1),
{
    let after = v.insert(p, entry);
    v.insert_ensures(p, entry);
    assert forall|a: int, b: int| 0 <= a < b < after.len() implies after[a].0 < after[b].0 by {
        if b < p {
        } else if b == p {
        } else if a < p {
            assert(after[b] == v[b - 1]);
            assert(v[b - 1].0 >= v[p].0);
        } else if a == p {
            assert(after[b] == v[b - 1]);
            assert(v[b - 1].0 >= v[p].0);
        } else {
            assert(after[a] == v[a - 1]);
            assert(after[b] == v[b - 1]);
        }
    }
    assert forall|k: int| 0 <= k < after.len() implies strictly_increasing(#[trigger] after[k].1) by {
        if k < p {
            assert(after[k] == v[k]);
        } else if k > p {
            assert(after[k] == v[k - 1]);
        }
    }
    assert forall|a: int| 0 <= a < i + 1 implies #[trigger] has_view(after, es[a]) by {
        if a == i {
            assert(view_matches(after[p], es[a]));
        } else {
            assert(has_view(v, es[a]));
            let k = choose|k: int| 0 <= k < v.len() && #[trigger] view_matches(v[k], es[a]);
            if k < p {
                assert(after[k] == v[k]);
                assert(view_matches(after[k], es[a]));
            } else {
                assert(after[k + 1] == v[k]);
                assert(view_matches(after[k + 1], es[a]));
            }
        }
    }
    assert forall|k: int| 0 <= k < after.len() implies #[trigger] view_from_prefix(es, after[k], i + 1) by {
        if k == p {
            assert(view_matches(after[k], es[i]));
        } else {
            let vk = if k < p {
                k
            } else {
                k - 1
            };
            assert(after[k] == v[vk]);
            assert(view_from_prefix(es, v[vk], i));
            let a = choose|a: int| 0 <= a < i && #[trigger] view_matches(v[vk], es[a]);
            assert(view_matches(after[k], es[a]));
        }
    }
}

/// A canonical form of the first `n` entries of a fault-free inventory.
proof fn lemma_canonical_prefix_exists(es: Seq<(RawId, Vec<usize>)>, n: int) -> (v: Seq<
    (RawId, Seq<usize>),
>)
    requires
        0 <= n <= es.len(),
        first_inventory_fault(es, 0) is None,
    ensures
        canonical_prefix(es, v, n),
    decreases n,
{
    if n == 0 {
        Seq::empty()
    } else {
        let prev = lemma_canonical_prefix_exists(es, n - 1);
        let e = es[n - 1];
        let set = sorted_set(e.1@);
        lemma_sorted_set(e.1@);
        lemma_key_position(prev, e.0);
        let p = key_position(prev, e.0);
        lemma_no_fault_at(es, 0, n - 1);
        if p < prev.len() && prev[p].0 == e.0 {
            assert(view_from_prefix(es, prev[p], n - 1));
            let a = choose|a: int| 0 <= a < n - 1 && #[trigger] view_matches(prev[p], es[a]);
            assert(es[a].0 == es[n - 1].0);
            assert(inventory_fault(es, n - 1) == Some(Diagnostic::RepeatedDomain));
        }
        assert(view_matches((e.0, set), es[n - 1]));
        lemma_insert_view(es, n - 1, prev, p, (e.0, set));
        prev.insert(p, (e.0, set))
    }
}

/// A fault-free inventory has a canonical form.
proof fn lemma_canonical_form_exists(es: Seq<(RawId, Vec<usize>)>)
    requires
        first_inventory_fault(es, 0) is None,
    ensures
        canonical_view(es, canonical_form(es)),
{
    let v = lemma_canonical_prefix_exists(es, es.len() as int);
    assert forall|k: int| 0 <= k < v.len() implies #[trigger] view_from_inventory(es, v[k]) by {
        assert(view_from_prefix(es, v[k], es.len() as int));
    }
    assert(canonical_view(es, v));
}

/// Inventory entries `a` and `b` name the same Domain with the same cells.
pub open spec fn entries_agree(a: (RawId, Vec<usize>), b: (RawId, Vec<usize>)) -> bool {
    a.0 == b.0 && same_cells(a.1@, b.1@)
}

/// Each entry of either inventory agrees with some entry of the other.
pub open spec fn same_inventory(e1: Seq<(RawId, Vec<usize>)>, e2: Seq<(RawId, Vec<usize>)>) -> bool {
    &&& forall|i: int|
        #![trigger e1[i]]
        0 <= i < e1.len() ==> exists|j: int| 0 <= j < e2.len() && #[trigger] entries_agree(e1[i], e2[j])
    &&& forall|j: int|
        #![trigger e2[j]]
        0 <= j < e2.len() ==> exists|i: int| 0 <= i < e1.len() && #[trigger] entries_agree(e1[i], e2[j])
}

/// A Domain inventory is read as a set of Domains, each with a set of cells.
///
/// Listing the same Domains with the same cells in another order, or any cell
/// list in another order, changes neither the canonical inventory, nor whether
/// and with which diagnostic the partition is refused, nor the partition that
/// is admitted.
pub proof fn lemma_partition_ignores_inventory_order<const D: usize>(
    mesh: MeshTopology,
    e1: Seq<(RawId, Vec<usize>)>,
    e2: Seq<(RawId, Vec<usize>)>,
    quotients: Seq<ConformingTraceQuotient>,
)
    requires
        same_inventory(e1, e2),
        first_inventory_fault(e1, 0) is None,
        first_inventory_fault(e2, 0) is None,
    ensures
        canonical_form(e1) == canonical_form(e2),
        partition_fault::<D>(mesh, e1, quotients) == partition_fault::<D>(mesh, e2, quotients),
        forall|p: FixedReferenceFsiPartition<D>|
            #[trigger] admitted_partition(mesh, e1, quotients, p) <==> admitted_partition(
                mesh,
                e2,
                quotients,
                p,
            ),
{
    lemma_canonical_form_exists(e1);
    lemma_canonical_form_exists(e2);
    let v = canonical_form(e1);
    assert forall|j: int| 0 <= j < e2.len() implies #[trigger] has_view(v, e2[j]) by {
        let i = choose|i: int| 0 <= i < e1.len() && #[trigger] entries_agree(e1[i], e2[j]);
        assert(has_view(v, e1[i]));
        let k = choose|k: int| 0 <= k < v.len() && #[trigger] view_matches(v[k], e1[i]);
        assert(view_matches(v[k], e2[j]));
    }
    assert forall|k: int| 0 <= k < v.len() implies #[trigger] view_from_inventory(e2, v[k]) by {
        assert(view_from_inventory(e1, v[k]));
        let a = choose|a: int| 0 <= a < e1.len() && #[trigger] view_matches(v[k], e1[a]);
        let b = choose|b: int| 0 <= b < e2.len() && #[trigger] entries_agree(e1[a], e2[b]);
        assert(view_matches(v[k], e2[b]));
    }
    assert(canonical_view(e2, v));
    lemma_canonical_unique(e2, v, canonical_form(e2));
}

/// An inventory without a fault at any entry from `i` on has no first fault there.
proof fn lemma_inventory_sound_from(entries: Seq<(RawId, Vec<usize>)>, i: int)
    requires
        0 <= i,
        forall|j: int| i <= j < entries.len() ==> #[trigger] inventory_fault(entries, j) is None,
    ensures
        first_inventory_fault(entries, i) is None,
    decreases entries.len() - i,
{
    if i < entries.len() {
        assert(inventory_fault(entries, i) is None);
        lemma_inventory_sound_from(entries, i + 1);
    }
}

/// An inventory whose view is the canonical form of a fault-free inventory is
/// fault-free and is its own canonical form.
proof fn lemma_replay_inventory(entries: Seq<(RawId, Vec<usize>)>, replayed: Seq<(RawId, Vec<usize>)>)
    requires
        first_inventory_fault(entries, 0) is None,
        inventory_view(replayed) == canonical_form(entries),
    ensures
        first_inventory_fault(replayed, 0) is None,
        canonical_form(replayed) == canonical_form(entries),
{
    lemma_canonical_form_exists(entries);
    let form = canonical_form(entries);
    assert(replayed.len() == form.len());
    assert forall|i: int| 0 <= i < replayed.len() implies #[trigger] inventory_fault(replayed, i) is None by {
        assert(inventory_view(replayed)[i] == form[i]);
        assert(replayed[i].1@ == form[i].1);
        assert(view_from_inventory(entries, form[i]));
        let a = choose|a: int| 0 <= a < entries.len() && #[trigger] view_matches(form[i], entries[a]);
        lemma_no_fault_at(entries, 0, a);
        assert(entries[a].1@.contains(entries[a].1@[0]));
        assert(form[i].1.contains(entries[a].1@[0]));
        assert(form[i].1.len() > 0);
        assert(form[i].1.no_duplicates()) by {
            assert(strictly_increasing(form[i].1));
        }
        assert forall|j: int| 0 <= j < i implies (#[trigger] replayed[j]).0 != replayed[i].0 by {
            assert(inventory_view(replayed)[j] == form[j]);
        }
    }
    lemma_inventory_sound_from(replayed, 0);
    assert forall|i: int| 0 <= i < replayed.len() implies #[trigger] has_view(form, replayed[i]) by {
        assert(inventory_view(replayed)[i] == form[i]);
        assert(view_matches(form[i], replayed[i]));
    }
    assert forall|k: int| 0 <= k < form.len() implies #[trigger] view_from_inventory(replayed, form[k]) by {
        assert(inventory_view(replayed)[k] == form[k]);
        assert(view_matches(form[k], replayed[k]));
    }
    assert(canonical_view(replayed, form));
    lemma_canonical_form_exists(replayed);
    lemma_canonical_unique(replayed, form, canonical_form(replayed));
}

/// Each quotient of either list occurs in the other.
pub open spec fn same_quotients(a: Seq<ConformingTraceQuotient>, b: Seq<ConformingTraceQuotient>) -> bool {
    &&& forall|i: int| 0 <= i < a.len() ==> b.contains(#[trigger] a[i])
    &&& forall|j: int| 0 <= j < b.len() ==> a.contains(#[trigger] b[j])
}

/// Quotients in strictly increasing identity order.
pub open spec fn identity_sorted(qs: Seq<ConformingTraceQuotient>) -> bool {
    forall|i: int, j: int| 0 <= i < j < qs.len() ==> identity_less(qs[i], qs[j])
}

/// A quotient list without a fault at any entry from `i` on has no first fault there.
proof fn lemma_quotients_sound_from(
    mesh: MeshTopology,
    owned: Seq<RawId>,
    quotients: Seq<ConformingTraceQuotient>,
    i: int,
)
    requires
        0 <= i,
        forall|j: int| i <= j < quotients.len() ==> #[trigger] quotient_fault(mesh, owned, quotients, j) is None,
    ensures
        first_quotient_fault(mesh, owned, quotients, i) is None,
    decreases quotients.len() - i,
{
    if i < quotients.len() {
        assert(quotient_fault(mesh, owned, quotients, i) is None);
        lemma_quotients_sound_from(mesh, owned, quotients, i + 1);
    }
}

/// The quotient checks of a partition hold of any identity-sorted list of
/// the same admitted quotients.
proof fn lemma_replay_quotients(
    mesh: MeshTopology,
    form: Seq<(RawId, Seq<usize>)>,
    membership: Seq<(usize, RawId)>,
    quotients: Seq<ConformingTraceQuotient>,
    replayed: Seq<ConformingTraceQuotient>,
)
    requires
        binding_fault(mesh, membership, quotients) is None,
        consistent_connections(quotients),
        shares_only_quotient_vertices(mesh, form, owners(mesh, membership), quotients),
        same_quotients(quotients, replayed),
        identity_sorted(replayed),
    ensures
        binding_fault(mesh, membership, replayed) is None,
        consistent_connections(replayed),
        shares_only_quotient_vertices(mesh, form, owners(mesh, membership), replayed),
{
    let owned = owners(mesh, membership);
    lemma_quotients_sound(mesh, owned, quotients, 0);
    assert forall|i: int| 0 <= i < replayed.len() implies #[trigger] quotient_fault(
        mesh,
        owned,
        replayed,
        i,
    ) is None by {
        assert(quotients.contains(replayed[i]));
        let j = choose|j: int| 0 <= j < quotients.len() && quotients[j] == replayed[i];
        assert(quotient_fault(mesh, owned, quotients, j) is None);
        assert forall|k: int| 0 <= k < i implies !same_identity(#[trigger] replayed[k], replayed[i]) by {
            assert(identity_less(replayed[k], replayed[i]));
        }
    }
    lemma_quotients_sound_from(mesh, owned, replayed, 0);
    if uncovered_facet(mesh, owned, replayed) {
        let f = choose|f: int|
            0 <= f < mesh.facet_count() && #[trigger] is_cross_facet(mesh, owned, f) && forall|i: int|
                0 <= i < replayed.len() ==> !crosses(
                    mesh,
                    owned,
                    f,
                    #[trigger] replayed[i].first.domain,
                    replayed[i].second.domain,
                );
        assert(!uncovered_facet(mesh, owned, quotients));
        let i = choose|i: int|
            0 <= i < quotients.len() && crosses(
                mesh,
                owned,
                f,
                #[trigger] quotients[i].first.domain,
                quotients[i].second.domain,
            );
        assert(replayed.contains(quotients[i]));
        let k = choose|k: int| 0 <= k < replayed.len() && replayed[k] == quotients[i];
        assert(!crosses(mesh, owned, f, replayed[k].first.domain, replayed[k].second.domain));
    }
    assert forall|i: int, j: int|
        0 <= i < replayed.len() && 0 <= j < replayed.len() && (#[trigger] replayed[i]).connection
            == (#[trigger] replayed[j]).connection implies domain_pair(replayed[i]) == domain_pair(
        replayed[j],
    ) by {
        assert(quotients.contains(replayed[i]));
        assert(quotients.contains(replayed[j]));
        let a = choose|a: int| 0 <= a < quotients.len() && quotients[a] == replayed[i];
        let b = choose|b: int| 0 <= b < quotients.len() && quotients[b] == replayed[j];
        assert(domain_pair(quotients[a]) == domain_pair(quotients[b]));
    }
    assert forall|i: int, j: int| 0 <= i < j < form.len() implies #[trigger] pair_agrees(
        mesh,
        form,
        owned,
        replayed,
        i,
        j,
    ) by {
        assert(pair_agrees(mesh, form, owned, quotients, i, j));
        assert forall|v: usize|
            #![trigger supports(mesh, owned, replayed, form[i].0, form[j].0, v)]
            supports(mesh, owned, replayed, form[i].0, form[j].0, v) <==> supports(
                mesh,
                owned,
                quotients,
                form[i].0,
                form[j].0,
                v,
            ) by {
            if supports(mesh, owned, replayed, form[i].0, form[j].0, v) {
                let k = choose|k: int|
                    0 <= k < replayed.len() && joins(replayed[k], form[i].0, form[j].0)
                        && #[trigger] quotient_supports(mesh, owned, replayed[k], v);
                assert(quotients.contains(replayed[k]));
                let a = choose|a: int| 0 <= a < quotients.len() && quotients[a] == replayed[k];
                assert(quotient_supports(mesh, owned, quotients[a], v));
            }
            if supports(mesh, owned, quotients, form[i].0, form[j].0, v) {
                let a = choose|a: int|
                    0 <= a < quotients.len() && joins(quotients[a], form[i].0, form[j].0)
                        && #[trigger] quotient_supports(mesh, owned, quotients[a], v);
                assert(replayed.contains(quotients[a]));
                let k = choose|k: int| 0 <= k < replayed.len() && replayed[k] == quotients[a];
                assert(quotient_supports(mesh, owned, replayed[k], v));
            }
        }
    }
}

/// Memberships of a canonical inventory, Domain by Domain.
fn membership_of(owned: &Vec<(RawId, Vec<usize>)>) -> (m: Vec<(usize, RawId)>)
    ensures
        m@ == inventory_membership(inventory_view(owned@)),
{
    let ghost form = inventory_view(owned@);
    let mut m: Vec<(usize, RawId)> = Vec::new();
    let mut i: usize = 0;
    assert(form.take(0) =~= Seq::<(RawId, Seq<usize>)>::empty());
    while i < owned.len()
        invariant
            i <= owned@.len(),
            form == inventory_view(owned@),
            m@ == inventory_membership(form.take(i as int)),
        decreases owned@.len() - i,
    {
        let domain = owned[i].0;
        let cells = &owned[i].1;
        let ghost base = m@;
        let mut j: usize = 0;
        while j < cells.len()
            invariant
                j <= cells@.len(),
                m@ == base + cells@.take(j as int).map_values(|c: usize| (c, domain)),
            decreases cells@.len() - j,
        {
            m.push((cells[j], domain));
            assert(cells@.take(j + 1).map_values(|c: usize| (c, domain)) =~= cells@.take(
                j as int,
            ).map_values(|c: usize| (c, domain)).push((cells@[j as int], domain)));
            j = j + 1;
        }
        assert(cells@.take(cells@.len() as int) =~= cells@);
        assert(form.take(i + 1).drop_last() =~= form.take(i as int));
        assert(form.take(i + 1).last() == (domain, cells@));
        i = i + 1;
    }
    assert(form.take(owned@.len() as int) =~= form);
    m
}

/// Every cell of every canonical Domain appears, with its Domain, in the
/// canonical membership.
proof fn lemma_membership_contains(form: Seq<(RawId, Seq<usize>)>, k: int, t: int)
    requires
        0 <= k < form.len(),
        0 <= t < form[k].1.len(),
    ensures
        inventory_membership(form).contains((form[k].1[t], form[k].0)),
    decreases form.len(),
{
    let m = inventory_membership(form);
    let last = form.last();
    let prefix = inventory_membership(form.drop_last());
    let tail = last.1.map_values(|c: usize| (c, last.0));
    assert(m == prefix + tail);
    if k == form.len() - 1 {
        assert(m[prefix.len() + t] == tail[t]);
    } else {
        lemma_membership_contains(form.drop_last(), k, t);
        let idx = choose|idx: int| 0 <= idx < prefix.len() && prefix[idx] == (form[k].1[t], form[k].0);
        assert(m[idx] == prefix[idx]);
    }
}

proof fn lemma_membership_in_range(mesh: MeshTopology, m: Seq<(usize, RawId)>, i: int)
    requires
        0 <= i <= m.len(),
        first_membership_fault(mesh, m, i) is None,
    ensures
        forall|j: int| i <= j < m.len() ==> (#[trigger] m[j]).0 < mesh.cell_count(),
    decreases m.len() - i,
{
    if i < m.len() {
        assert(membership_fault(mesh, m, i) is None);
        lemma_membership_in_range(mesh, m, i + 1);
    }
}

proof fn lemma_facets_sound(mesh: MeshTopology, f: int)
    requires
        0 <= f <= mesh.facet_count(),
        first_facet_fault(mesh, f) is None,
    ensures
        forall|g: int| f <= g < mesh.facet_count() ==> #[trigger] facet_fault(mesh, g) is None,
    decreases mesh.facet_count() - f,
{
    if f < mesh.facet_count() {
        assert(facet_fault(mesh, f) is None);
        lemma_facets_sound(mesh, f + 1);
    }
}

proof fn lemma_quotients_sound(
    mesh: MeshTopology,
    owned: Seq<RawId>,
    quotients: Seq<ConformingTraceQuotient>,
    i: int,
)
    requires
        0 <= i <= quotients.len(),
        first_quotient_fault(mesh, owned, quotients, i) is None,
    ensures
        forall|j: int| i <= j < quotients.len() ==> #[trigger] quotient_fault(mesh, owned, quotients, j) is None,
    decreases quotients.len() - i,
{
    if i < quotients.len() {
        assert(quotient_fault(mesh, owned, quotients, i) is None);
        lemma_quotients_sound(mesh, owned, quotients, i + 1);
    }
}

/// Without quotient faults, quotient identities are pairwise distinct.
proof fn lemma_identities_distinct(
    mesh: MeshTopology,
    owned: Seq<RawId>,
    quotients: Seq<ConformingTraceQuotient>,
)
    requires
        first_quotient_fault(mesh, owned, quotients, 0) is None,
    ensures
        forall|a: int, b: int|
            0 <= a < quotients.len() && 0 <= b < quotients.len() && a != b ==> !same_identity(
                #[trigger] quotients[a],
                #[trigger] quotients[b],
            ),
{
    lemma_quotients_sound(mesh, owned, quotients, 0);
    assert forall|a: int, b: int|
        0 <= a < quotients.len() && 0 <= b < quotients.len() && a != b implies !same_identity(
            #[trigger] quotients[a],
            #[trigger] quotients[b],
        ) by {
        if a < b {
            assert(quotient_fault(mesh, owned, quotients, b) is None);
        } else {
            assert(quotient_fault(mesh, owned, quotients, a) is None);
            assert(!same_identity(quotients[b], quotients[a]));
        }
    }
}

/// Every witness among the first `n` facets names a facet below `n`.
proof fn lemma_trace_facets_in_range(
    mesh: MeshTopology,
    owned: Seq<RawId>,
    a: RawId,
    b: RawId,
    n: int,
)
    requires
        n <= usize::MAX,
    ensures
        forall|t: int|
            0 <= t < trace_facets(mesh, owned, a, b, n).len() ==> (#[trigger] trace_facets(
                mesh,
                owned,
                a,
                b,
                n,
            )[t]).facet.index < n,
    decreases n,
{
    if n > 0 {
        lemma_trace_facets_in_range(mesh, owned, a, b, n - 1);
        let prev = trace_facets(mesh, owned, a, b, n - 1);
        let cur = trace_facets(mesh, owned, a, b, n);
        assert forall|t: int| 0 <= t < cur.len() implies (#[trigger] cur[t]).facet.index < n by {
            if t < prev.len() {
                assert(cur[t] == prev[t]);
            }
        }
    }
}

/// Domains joined by a quotient, in increasing order.
pub open spec fn domain_pair(q: ConformingTraceQuotient) -> (RawId, RawId) {
    if q.first.domain <= q.second.domain {
        (q.first.domain, q.second.domain)
    } else {
        (q.second.domain, q.first.domain)
    }
}

/// One Connection never joins different Domain pairs.
pub open spec fn consistent_connections(quotients: Seq<ConformingTraceQuotient>) -> bool {
    forall|i: int, j: int|
        0 <= i < quotients.len() && 0 <= j < quotients.len() && (#[trigger] quotients[i]).connection
            == (#[trigger] quotients[j]).connection ==> domain_pair(quotients[i]) == domain_pair(
            quotients[j],
        )
}

/// Quotients `p` and `q` join the same two Domains, in either endpoint order.
pub open spec fn same_domain_pair(p: ConformingTraceQuotient, q: ConformingTraceQuotient) -> bool {
    ||| p.first.domain == q.first.domain && p.second.domain == q.second.domain
    ||| p.first.domain == q.second.domain && p.second.domain == q.first.domain
}

/// A Connection's Domain pair is unordered: the quotients pass the
/// Connection check of the partition (no `ConnectionDomainsDiffer`) exactly
/// when any two quotients of one Connection join the same two Domains,
/// whichever endpoint each Domain stands on.
pub proof fn lemma_connection_pairs_unordered(quotients: Seq<ConformingTraceQuotient>)
    ensures
        consistent_connections(quotients) <==> forall|i: int, j: int|
            0 <= i < quotients.len() && 0 <= j < quotients.len() && (#[trigger] quotients[i]).connection
                == (#[trigger] quotients[j]).connection ==> same_domain_pair(quotients[i], quotients[j]),
{
    assert forall|i: int, j: int|
        0 <= i < quotients.len() && 0 <= j < quotients.len() && (#[trigger] quotients[i]).connection
            == (#[trigger] quotients[j]).connection implies (domain_pair(quotients[i]) == domain_pair(
        quotients[j],
    ) <==> same_domain_pair(quotients[i], quotients[j])) by {
    }
}

fn check_connections(quotients: &[ConformingTraceQuotient]) -> (consistent: bool)
    ensures
        consistent == consistent_connections(quotients@),
{
    let mut i: usize = 0;
    while i < quotients.len()
        invariant
            i <= quotients@.len(),
            forall|a: int, b: int|
                0 <= a < i && 0 <= b < quotients@.len() && (#[trigger] quotients@[a]).connection
                    == (#[trigger] quotients@[b]).connection ==> domain_pair(quotients@[a])
                    == domain_pair(quotients@[b]),
        decreases quotients@.len() - i,
    {
        let p = quotients[i];
        let (p0, p1) = if p.first.domain <= p.second.domain {
            (p.first.domain, p.second.domain)
        } else {
            (p.second.domain, p.first.domain)
        };
        let mut j: usize = 0;
        while j < quotients.len()
            invariant
                i < quotients@.len(),
                j <= quotients@.len(),
                p == quotients@[i as int],
                (p0, p1) == domain_pair(p),
                forall|a: int, b: int|
                    0 <= a < i && 0 <= b < quotients@.len() && (#[trigger] quotients@[a]).connection
                        == (#[trigger] quotients@[b]).connection ==> domain_pair(quotients@[a])
                        == domain_pair(quotients@[b]),
                forall|b: int|
                    0 <= b < j && p.connection == (#[trigger] quotients@[b]).connection ==> domain_pair(p)
                        == domain_pair(quotients@[b]),
            decreases quotients@.len() - j,
        {
            let q = quotients[j];
            let (q0, q1) = if q.first.domain <= q.second.domain {
                (q.first.domain, q.second.domain)
            } else {
                (q.second.domain, q.first.domain)
            };
            if p.connection == q.connection && (p0 != q0 || p1 != q1) {
                assert(quotients@[j as int] == q);
                assert(!consistent_connections(quotients@));
                return false;
            }
            j = j + 1;
        }
        i = i + 1;
    }
    true
}

/// Vertex `v` lies on the facet witnessed by `tf`.
pub open spec fn facet_has_vertex(mesh: MeshTopology, tf: TraceFacet, v: usize) -> bool {
    mesh.facet_vertices@[tf.facet.index as int]@.contains(v)
}

/// Vertex `v` lies on some facet witnessing quotient `q`.
pub open spec fn quotient_supports(
    mesh: MeshTopology,
    owners: Seq<RawId>,
    q: ConformingTraceQuotient,
    v: usize,
) -> bool {
    exists|t: int|
        0 <= t < quotient_facets(mesh, owners, q).len() && #[trigger] facet_has_vertex(
            mesh,
            quotient_facets(mesh, owners, q)[t],
            v,
        )
}

/// Quotient `q` joins Domains `a` and `b`.
pub open spec fn joins(q: ConformingTraceQuotient, a: RawId, b: RawId) -> bool {
    (q.first.domain == a && q.second.domain == b) || (q.first.domain == b && q.second.domain == a)
}

/// Vertex `v` lies on a facet of some quotient joining Domains `a` and `b`.
pub open spec fn supports(
    mesh: MeshTopology,
    owners: Seq<RawId>,
    quotients: Seq<ConformingTraceQuotient>,
    a: RawId,
    b: RawId,
    v: usize,
) -> bool {
    exists|j: int|
        0 <= j < quotients.len() && joins(quotients[j], a, b) && #[trigger] quotient_supports(
            mesh,
            owners,
            quotients[j],
            v,
        )
}

/// The closures of canonical Domains `i` and `j` share exactly the vertices
/// of the quotient facets between them.
pub open spec fn pair_agrees(
    mesh: MeshTopology,
    form: Seq<(RawId, Seq<usize>)>,
    owners: Seq<RawId>,
    quotients: Seq<ConformingTraceQuotient>,
    i: int,
    j: int,
) -> bool {
    forall|v: usize|
        #![trigger supports(mesh, owners, quotients, form[i].0, form[j].0, v)]
        #![trigger closure_vertex(mesh, form[i].1, v), closure_vertex(mesh, form[j].1, v)]
        (closure_vertex(mesh, form[i].1, v) && closure_vertex(mesh, form[j].1, v)) <==> supports(
            mesh,
            owners,
            quotients,
            form[i].0,
            form[j].0,
            v,
        )
}

/// Region closures touch only along their exact quotient facets.
pub open spec fn shares_only_quotient_vertices(
    mesh: MeshTopology,
    form: Seq<(RawId, Seq<usize>)>,
    owners: Seq<RawId>,
    quotients: Seq<ConformingTraceQuotient>,
) -> bool {
    forall|i: int, j: int|
        0 <= i < j < form.len() ==> #[trigger] pair_agrees(mesh, form, owners, quotients, i, j)
}

/// Vertex `v` lies on a facet of some quotient among the first `k` joining
/// Domains `a` and `b`.
pub open spec fn supports_upto(
    mesh: MeshTopology,
    owners: Seq<RawId>,
    quotients: Seq<ConformingTraceQuotient>,
    a: RawId,
    b: RawId,
    v: usize,
    k: int,
) -> bool {
    exists|j: int|
        0 <= j < k && joins(quotients[j], a, b) && #[trigger] quotient_supports(
            mesh,
            owners,
            quotients[j],
            v,
        )
}

/// Vertices of every facet of every quotient joining Domains `a` and `b`.
fn supported_vertices(
    mesh: &MeshTopology,
    traces: &Vec<TraceBinding>,
    a: RawId,
    b: RawId,
    Ghost(owned): Ghost<Seq<RawId>>,
    Ghost(quotients): Ghost<Seq<ConformingTraceQuotient>>,
) -> (supported: Vec<usize>)
    requires
        mesh.well_formed(),
        binds_traces(*mesh, owned, quotients, traces@),
    ensures
        strictly_increasing(supported@),
        forall|v: usize| #[trigger] supported@.contains(v) <==> supports(*mesh, owned, quotients, a, b, v),
{
    let mut supported: Vec<usize> = Vec::new();
    let facet_count = mesh.facet_cells.len();
    let mut k: usize = 0;
    while k < traces.len()
        invariant
            k <= traces@.len(),
            mesh.well_formed(),
            facet_count == mesh.facet_count(),
            binds_traces(*mesh, owned, quotients, traces@),
            strictly_increasing(supported@),
            forall|v: usize|
                #[trigger] supported@.contains(v) <==> supports_upto(*mesh, owned, quotients, a, b, v, k as int),
        decreases traces@.len() - k,
    {
        let q = traces[k].quotient;
        let facets = &traces[k].facets;
        assert(q == quotients[k as int]);
        assert(facets@ == quotient_facets(*mesh, owned, q));
        proof {
            lemma_trace_facets_in_range(*mesh, owned, q.first.domain, q.second.domain, mesh.facet_count() as int);
        }
        if (q.first.domain == a && q.second.domain == b) || (q.first.domain == b && q.second.domain == a) {
            let ghost base = supported@;
            let mut t: usize = 0;
            while t < facets.len()
                invariant
                    t <= facets@.len(),
                    mesh.well_formed(),
                    facets@ == quotient_facets(*mesh, owned, q),
                    forall|u: int| 0 <= u < facets@.len() ==> (#[trigger] facets@[u]).facet.index < mesh.facet_count(),
                    strictly_increasing(supported@),
                    forall|v: usize|
                        #[trigger] supported@.contains(v) <==> (base.contains(v) || exists|u: int|
                            0 <= u < t && #[trigger] facet_has_vertex(*mesh, facets@[u], v)),
                decreases facets@.len() - t,
            {
                let fv = &mesh.facet_vertices[facets[t].facet.index];
                let ghost inner = supported@;
                let mut w: usize = 0;
                while w < fv.len()
                    invariant
                        w <= fv@.len(),
                        t < facets@.len(),
                        fv@ == mesh.facet_vertices@[facets@[t as int].facet.index as int]@,
                        strictly_increasing(supported@),
                        forall|v: usize|
                            #[trigger] supported@.contains(v) <==> (inner.contains(v) || exists|x: int|
                                0 <= x < w && fv@[x] == v),
                    decreases fv@.len() - w,
                {
                    insert_sorted_unique(&mut supported, fv[w]);
                    proof {
                        assert forall|v: usize|
                            #[trigger] supported@.contains(v) <==> (inner.contains(v) || exists|x: int|
                                0 <= x < w + 1 && fv@[x] == v) by {
                            if v == fv@[w as int] {
                                assert(fv@[w as int] == v);
                            }
                        }
                    }
                    w = w + 1;
                }
                proof {
                    assert forall|v: usize|
                        #[trigger] supported@.contains(v) <==> (base.contains(v) || exists|u: int|
                            0 <= u < t + 1 && #[trigger] facet_has_vertex(*mesh, facets@[u], v)) by {
                        if exists|x: int| 0 <= x < fv@.len() && fv@[x] == v {
                            let x = choose|x: int| 0 <= x < fv@.len() && fv@[x] == v;
                            assert(facet_has_vertex(*mesh, facets@[t as int], v));
                        }
                        if facet_has_vertex(*mesh, facets@[t as int], v) {
                            let x = choose|x: int| 0 <= x < fv@.len() && fv@[x] == v;
                        }
                    }
                }
                t = t + 1;
            }
            proof {
                assert forall|v: usize|
                    #[trigger] supported@.contains(v) <==> supports_upto(*mesh, owned, quotients, a, b, v, k + 1) by {
                    if supports_upto(*mesh, owned, quotients, a, b, v, k + 1) {
                        let j = choose|j: int|
                            0 <= j < k + 1 && joins(quotients[j], a, b) && #[trigger] quotient_supports(
                                *mesh,
                                owned,
                                quotients[j],
                                v,
                            );
                        if j == k {
                            let u = choose|u: int|
                                0 <= u < quotient_facets(*mesh, owned, q).len() && #[trigger] facet_has_vertex(
                                    *mesh,
                                    quotient_facets(*mesh, owned, q)[u],
                                    v,
                                );
                            assert(facet_has_vertex(*mesh, facets@[u], v));
                        } else {
                            assert(supports_upto(*mesh, owned, quotients, a, b, v, k as int));
                        }
                    }
                    if supported@.contains(v) && !base.contains(v) {
                        let u = choose|u: int| 0 <= u < facets@.len() && #[trigger] facet_has_vertex(*mesh, facets@[u], v);
                        assert(quotient_supports(*mesh, owned, quotients[k as int], v));
                    }
                    if base.contains(v) {
                        let j = choose|j: int|
                            0 <= j < k && joins(quotients[j], a, b) && #[trigger] quotient_supports(
                                *mesh,
                                owned,
                                quotients[j],
                                v,
                            );
                        assert(supports_upto(*mesh, owned, quotients, a, b, v, k + 1));
                    }
                }
            }
        } else {
            proof {
                assert forall|v: usize|
                    #[trigger] supported@.contains(v) <==> supports_upto(*mesh, owned, quotients, a, b, v, k + 1) by {
                    if supports_upto(*mesh, owned, quotients, a, b, v, k + 1) {
                        let j = choose|j: int|
                            0 <= j < k + 1 && joins(quotients[j], a, b) && #[trigger] quotient_supports(
                                *mesh,
                                owned,
                                quotients[j],
                                v,
                            );
                        assert(j != k);
                        assert(supports_upto(*mesh, owned, quotients, a, b, v, k as int));
                    }
                    if supports_upto(*mesh, owned, quotients, a, b, v, k as int) {
                        let j = choose|j: int|
                            0 <= j < k && joins(quotients[j], a, b) && #[trigger] quotient_supports(
                                *mesh,
                                owned,
                                quotients[j],
                                v,
                            );
                        assert(supports_upto(*mesh, owned, quotients, a, b, v, k + 1));
                    }
                }
            }
        }
        k = k + 1;
    }
    proof {
        assert forall|v: usize| #[trigger] supported@.contains(v) <==> supports(*mesh, owned, quotients, a, b, v) by {
            if supports(*mesh, owned, quotients, a, b, v) {
                let j = choose|j: int|
                    0 <= j < quotients.len() && joins(quotients[j], a, b) && #[trigger] quotient_supports(
                        *mesh,
                        owned,
                        quotients[j],
                        v,
                    );
                assert(supports_upto(*mesh, owned, quotients, a, b, v, traces@.len() as int));
            }
            if supports_upto(*mesh, owned, quotients, a, b, v, traces@.len() as int) {
                let j = choose|j: int|
                    0 <= j < traces@.len() && joins(quotients[j], a, b) && #[trigger] quotient_supports(
                        *mesh,
                        owned,
                        quotients[j],
                        v,
                    );
                assert(supports(*mesh, owned, quotients, a, b, v));
            }
        }
    }
    supported
}

/// Whether the common elements of `left` and `right` are exactly `supported`.
fn sets_agree(left: &Vec<usize>, right: &Vec<usize>, supported: &Vec<usize>) -> (agree: bool)
    ensures
        agree == forall|v: usize|
            #![trigger left@.contains(v)]
            #![trigger supported@.contains(v)]
            (left@.contains(v) && right@.contains(v)) <==> supported@.contains(v),
{
    let mut i: usize = 0;
    while i < left.len()
        invariant
            i <= left@.len(),
            forall|k: int|
                0 <= k < i && right@.contains(#[trigger] left@[k]) ==> supported@.contains(left@[k]),
        decreases left@.len() - i,
    {
        let v = left[i];
        if contains_index(right, v) && !contains_index(supported, v) {
            assert(left@.contains(v));
            return false;
        }
        i = i + 1;
    }
    let mut i: usize = 0;
    while i < supported.len()
        invariant
            i <= supported@.len(),
            forall|k: int|
                0 <= k < left@.len() && right@.contains(#[trigger] left@[k]) ==> supported@.contains(left@[k]),
            forall|k: int|
                0 <= k < i ==> left@.contains(#[trigger] supported@[k]) && right@.contains(supported@[k]),
        decreases supported@.len() - i,
    {
        let v = supported[i];
        if !(contains_index(left, v) && contains_index(right, v)) {
            assert(supported@.contains(v));
            return false;
        }
        i = i + 1;
    }
    assert forall|v: usize| #![trigger left@.contains(v)] #![trigger supported@.contains(v)]
        (left@.contains(v) && right@.contains(v)) <==> supported@.contains(v) by {
        if left@.contains(v) && right@.contains(v) {
            let k = choose|k: int| 0 <= k < left@.len() && left@[k] == v;
        }
        if supported@.contains(v) {
            let k = choose|k: int| 0 <= k < supported@.len() && supported@[k] == v;
        }
    }
    true
}

/// Whether every pair of Region closures touches only along quotient facets.
fn check_shared_vertices(
    mesh: &MeshTopology,
    owned: &Vec<(RawId, Vec<usize>)>,
    vertices: &Vec<Vec<usize>>,
    traces: &Vec<TraceBinding>,
    Ghost(owners): Ghost<Seq<RawId>>,
    Ghost(quotients): Ghost<Seq<ConformingTraceQuotient>>,
) -> (agree: bool)
    requires
        mesh.well_formed(),
        binds_traces(*mesh, owners, quotients, traces@),
        vertices@.len() == owned@.len(),
        forall|k: int, v: usize|
            0 <= k < owned@.len() ==> (#[trigger] vertices@[k]@.contains(v) <==> closure_vertex(
                *mesh,
                inventory_view(owned@)[k].1,
                v,
            )),
    ensures
        agree == shares_only_quotient_vertices(*mesh, inventory_view(owned@), owners, quotients),
{
    let ghost form = inventory_view(owned@);
    let mut i: usize = 0;
    while i < owned.len()
        invariant
            i <= owned@.len(),
            form == inventory_view(owned@),
            mesh.well_formed(),
            binds_traces(*mesh, owners, quotients, traces@),
            vertices@.len() == owned@.len(),
            forall|k: int, v: usize|
                0 <= k < owned@.len() ==> (#[trigger] vertices@[k]@.contains(v) <==> closure_vertex(
                    *mesh,
                    form[k].1,
                    v,
                )),
            forall|a: int, b: int|
                0 <= a < i && a < b < form.len() ==> #[trigger] pair_agrees(*mesh, form, owners, quotients, a, b),
        decreases owned@.len() - i,
    {
        let mut j: usize = i + 1;
        while j < owned.len()
            invariant
                i < owned@.len(),
                i + 1 <= j <= owned@.len(),
                form == inventory_view(owned@),
                mesh.well_formed(),
                binds_traces(*mesh, owners, quotients, traces@),
                vertices@.len() == owned@.len(),
                forall|k: int, v: usize|
                    0 <= k < owned@.len() ==> (#[trigger] vertices@[k]@.contains(v) <==> closure_vertex(
                        *mesh,
                        form[k].1,
                        v,
                    )),
                forall|a: int, b: int|
                    0 <= a < i && a < b < form.len() ==> #[trigger] pair_agrees(*mesh, form, owners, quotients, a, b),
                forall|b: int| i < b < j ==> #[trigger] pair_agrees(*mesh, form, owners, quotients, i as int, b),
            decreases owned@.len() - j,
        {
            let a = owned[i].0;
            let b = owned[j].0;
            let supported = supported_vertices(mesh, traces, a, b, Ghost(owners), Ghost(quotients));
            let agree = sets_agree(&vertices[i], &vertices[j], &supported);
            proof {
                assert(form[i as int].0 == a && form[j as int].0 == b);
                if agree {
                    assert forall|v: usize|
                        #![trigger supports(*mesh, owners, quotients, form[i as int].0, form[j as int].0, v)]
                        #![trigger closure_vertex(*mesh, form[i as int].1, v), closure_vertex(*mesh, form[j as int].1, v)]
                        (closure_vertex(*mesh, form[i as int].1, v) && closure_vertex(*mesh, form[j as int].1, v))
                            <==> supports(*mesh, owners, quotients, form[i as int].0, form[j as int].0, v) by {
                        assert(vertices@[i as int]@.contains(v) == closure_vertex(*mesh, form[i as int].1, v));
                        assert(vertices@[j as int]@.contains(v) == closure_vertex(*mesh, form[j as int].1, v));
                        assert(supported@.contains(v) == supports(*mesh, owners, quotients, a, b, v));
                    }
                    assert(pair_agrees(*mesh, form, owners, quotients, i as int, j as int));
                } else {
                    let v = choose|v: usize|
                        !((vertices@[i as int]@.contains(v) && vertices@[j as int]@.contains(v)) <==> supported@.contains(v));
                    assert(vertices@[i as int]@.contains(v) == closure_vertex(*mesh, form[i as int].1, v));
                    assert(vertices@[j as int]@.contains(v) == closure_vertex(*mesh, form[j as int].1, v));
                    assert(supported@.contains(v) == supports(*mesh, owners, quotients, a, b, v));
                    assert(!pair_agrees(*mesh, form, owners, quotients, i as int, j as int));
                }
            }
            if !agree {
                return false;
            }
            j = j + 1;
        }
        i = i + 1;
    }
    true
}

/// Quotient identities ordered by Connection, then first Field, then second Field.
pub open spec fn identity_less(p: ConformingTraceQuotient, q: ConformingTraceQuotient) -> bool {
    ||| p.connection < q.connection
    ||| p.connection == q.connection && p.first.field < q.first.field
    ||| p.connection == q.connection && p.first.field == q.first.field && p.second.field
        < q.second.field
}

/// Binding `t` is the complete witness of quotient `j`, for some `j` in `[lo, quotients.len())`.
pub open spec fn bound_from(
    mesh: MeshTopology,
    owners: Seq<RawId>,
    quotients: Seq<ConformingTraceQuotient>,
    t: TraceBinding,
    lo: int,
) -> bool {
    exists|j: int|
        lo <= j < quotients.len() && t.quotient == #[trigger] quotients[j] && t.facets@
            == quotient_facets(mesh, owners, quotients[j])
}

/// Quotient `q` is bound by some binding of `traces`.
pub open spec fn listed(traces: Seq<TraceBinding>, q: ConformingTraceQuotient) -> bool {
    exists|i: int| 0 <= i < traces.len() && (#[trigger] traces[i]).quotient == q
}

/// `traces` binds every quotient once, in strictly increasing identity order.
pub open spec fn sorted_bindings(
    mesh: MeshTopology,
    owners: Seq<RawId>,
    quotients: Seq<ConformingTraceQuotient>,
    traces: Seq<TraceBinding>,
) -> bool {
    &&& traces.len() == quotients.len()
    &&& forall|i: int, j: int|
        0 <= i < j < traces.len() ==> identity_less(traces[i].quotient, traces[j].quotient)
    &&& forall|i: int| 0 <= i < traces.len() ==> #[trigger] bound_from(mesh, owners, quotients, traces[i], 0)
    &&& forall|j: int| 0 <= j < quotients.len() ==> #[trigger] listed(traces, quotients[j])
}

fn identity_is_less(p: &ConformingTraceQuotient, q: &ConformingTraceQuotient) -> (less: bool)
    ensures
        less == identity_less(*p, *q),
{
    p.connection < q.connection || (p.connection == q.connection && p.first.field < q.first.field)
        || (p.connection == q.connection && p.first.field == q.first.field && p.second.field
        < q.second.field)
}

/// Sorted-binding invariant after inserting binding `t` of quotient `n` at
/// its identity position.
proof fn lemma_insert_binding(
    mesh: MeshTopology,
    owners: Seq<RawId>,
    quotients: Seq<ConformingTraceQuotient>,
    before: Seq<TraceBinding>,
    after: Seq<TraceBinding>,
    p: int,
    t: TraceBinding,
    n: int,
)
    requires
        inserted_at(before, after, p, t),
        0 <= n < quotients.len(),
        t.quotient == quotients[n],
        t.facets@ == quotient_facets(mesh, owners, quotients[n]),
        forall|k: int| 0 <= k < p ==> identity_less(before[k].quotient, t.quotient),
        p < before.len() ==> identity_less(t.quotient, before[p].quotient),
        forall|i: int, j: int|
            0 <= i < j < before.len() ==> identity_less(before[i].quotient, before[j].quotient),
        forall|i: int| 0 <= i < before.len() ==> #[trigger] bound_from(mesh, owners, quotients, before[i], n + 1),
        forall|j: int| n + 1 <= j < quotients.len() ==> #[trigger] listed(before, quotients[j]),
    ensures
        forall|i: int, j: int|
            0 <= i < j < after.len() ==> identity_less(after[i].quotient, after[j].quotient),
        forall|i: int| 0 <= i < after.len() ==> #[trigger] bound_from(mesh, owners, quotients, after[i], n),
        forall|j: int| n <= j < quotients.len() ==> #[trigger] listed(after, quotients[j]),
{
    assert forall|i: int, j: int| 0 <= i < j < after.len() implies identity_less(
        after[i].quotient,
        after[j].quotient,
    ) by {
        if j < p {
            assert(after[i] == before[i] && after[j] == before[j]);
        } else if j == p {
            assert(after[i] == before[i]);
        } else if i < p {
            assert(after[i] == before[i]);
            assert(after[j] == before[j - 1]);
            if j - 1 > p {
                assert(identity_less(before[p].quotient, before[j - 1].quotient));
            }
        } else if i == p {
            assert(after[j] == before[j - 1]);
            if j - 1 > p {
                assert(identity_less(before[p].quotient, before[j - 1].quotient));
            }
        } else {
            assert(after[i] == before[i - 1]);
            assert(after[j] == before[j - 1]);
        }
    }
    assert forall|i: int| 0 <= i < after.len() implies #[trigger] bound_from(mesh, owners, quotients, after[i], n) by {
        if i == p {
            assert(quotients[n] == t.quotient);
        } else {
            let bi = if i < p {
                i
            } else {
                i - 1
            };
            assert(after[i] == before[bi]);
            assert(bound_from(mesh, owners, quotients, before[bi], n + 1));
            let j = choose|j: int|
                n + 1 <= j < quotients.len() && before[bi].quotient == #[trigger] quotients[j]
                    && before[bi].facets@ == quotient_facets(mesh, owners, quotients[j]);
            assert(after[i].quotient == quotients[j]);
        }
    }
    assert forall|j: int| n <= j < quotients.len() implies #[trigger] listed(after, quotients[j]) by {
        if j == n {
            assert(after[p].quotient == quotients[j]);
        } else {
            assert(listed(before, quotients[j]));
            let i = choose|i: int| 0 <= i < before.len() && (#[trigger] before[i]).quotient == quotients[j];
            if i < p {
                assert(after[i] == before[i]);
            } else {
                assert(after[i + 1] == before[i]);
            }
        }
    }
}

/// Order trace bindings by quotient identity.
fn sort_traces(
    traces: Vec<TraceBinding>,
    Ghost(mesh): Ghost<MeshTopology>,
    Ghost(owners): Ghost<Seq<RawId>>,
    Ghost(quotients): Ghost<Seq<ConformingTraceQuotient>>,
) -> (sorted: Vec<TraceBinding>)
    requires
        binds_traces(mesh, owners, quotients, traces@),
        forall|a: int, b: int|
            0 <= a < quotients.len() && 0 <= b < quotients.len() && a != b ==> !same_identity(
                #[trigger] quotients[a],
                #[trigger] quotients[b],
            ),
    ensures
        sorted_bindings(mesh, owners, quotients, sorted@),
{
    let ghost orig = traces@;
    let mut rest = traces;
    let mut sorted: Vec<TraceBinding> = Vec::new();
    while rest.len() > 0
        invariant
            binds_traces(mesh, owners, quotients, orig),
            forall|a: int, b: int|
                0 <= a < quotients.len() && 0 <= b < quotients.len() && a != b ==> !same_identity(
                    #[trigger] quotients[a],
                    #[trigger] quotients[b],
                ),
            rest@.len() <= orig.len(),
            rest@ == orig.take(rest@.len() as int),
            sorted@.len() + rest@.len() == orig.len(),
            forall|i: int, j: int|
                0 <= i < j < sorted@.len() ==> identity_less(sorted@[i].quotient, sorted@[j].quotient),
            forall|i: int|
                0 <= i < sorted@.len() ==> #[trigger] bound_from(mesh, owners, quotients, sorted@[i], rest@.len() as int),
            forall|j: int| rest@.len() <= j < quotients.len() ==> #[trigger] listed(sorted@, quotients[j]),
        decreases rest@.len(),
    {
        let ghost n = rest@.len() - 1;
        let t = rest.pop().unwrap();
        assert(orig.take(n + 1)[n] == orig[n]);
        assert(rest@ =~= orig.take(n));
        assert(t == orig[n]);
        assert(t.quotient == quotients[n]);
        let mut p: usize = 0;
        while p < sorted.len() && identity_is_less(&sorted[p].quotient, &t.quotient)
            invariant
                p <= sorted@.len(),
                forall|k: int| 0 <= k < p ==> identity_less(sorted@[k].quotient, t.quotient),
            decreases sorted@.len() - p,
        {
            p = p + 1;
        }
        proof {
            if p < sorted@.len() {
                assert(bound_from(mesh, owners, quotients, sorted@[p as int], n + 1));
                let j = choose|j: int|
                    n + 1 <= j < quotients.len() && sorted@[p as int].quotient == #[trigger] quotients[j]
                        && sorted@[p as int].facets@ == quotient_facets(mesh, owners, quotients[j]);
                assert(!same_identity(quotients[j], quotients[n]));
                assert(identity_less(t.quotient, sorted@[p as int].quotient));
            }
        }
        let ghost before = sorted@;
        sorted.insert(p, t);
        proof {
            before.insert_ensures(p as int, t);
            assert(inserted_at(before, sorted@, p as int, t));
            lemma_insert_binding(mesh, owners, quotients, before, sorted@, p as int, t, n);
        }
        proof {
            assert forall|i: int| 0 <= i < sorted@.len() implies #[trigger] bound_from(mesh, owners, quotients, sorted@[i], rest@.len() as int) by {
                assert(rest@.len() == n);
            }
        }
    }
    proof {
        assert forall|i: int| 0 <= i < sorted@.len() implies #[trigger] bound_from(mesh, owners, quotients, sorted@[i], 0) by {
            assert(bound_from(mesh, owners, quotients, sorted@[i], rest@.len() as int));
        }
    }
    sorted
}

/// The first check of the partition admission that rejects, if any.
pub open spec fn partition_fault<const D: usize>(
    mesh: MeshTopology,
    entries: Seq<(RawId, Vec<usize>)>,
    quotients: Seq<ConformingTraceQuotient>,
) -> Option<Diagnostic> {
    let form = canonical_form(entries);
    let membership = inventory_membership(form);
    if require_mesh_dimension_fault::<D>(mesh) is Some {
        require_mesh_dimension_fault::<D>(mesh)
    } else if first_inventory_fault(entries, 0) is Some {
        first_inventory_fault(entries, 0)
    } else if binding_fault(mesh, membership, quotients) is Some {
        binding_fault(mesh, membership, quotients)
    } else if !consistent_connections(quotients) {
        Some(Diagnostic::ConnectionDomainsDiffer)
    } else if exists|k: int| 0 <= k < form.len() && !facet_connected(mesh, #[trigger] form[k].1) {
        Some(Diagnostic::RegionNotConnected)
    } else if !shares_only_quotient_vertices(mesh, form, owners(mesh, membership), quotients) {
        Some(Diagnostic::SharedVerticesOutsideQuotient)
    } else {
        None
    }
}

/// Complete exact Region partition of one conforming simplex mesh.
///
/// Equation and state roles belong to the Plan. This owner retains only
/// actual Domain membership and the admitted Connection-relative topology.
#[derive(Debug)]
pub struct FixedReferenceFsiPartition<const D: usize> {
    domains: Vec<(RawId, Vec<usize>)>,
    vertices: Vec<Vec<usize>>,
    cell_domains: Vec<RawId>,
    traces: Vec<TraceBinding>,
}

/// The partition is the admitted form of `entries` and `quotients` on `mesh`.
pub open spec fn admitted_partition<const D: usize>(
    mesh: MeshTopology,
    entries: Seq<(RawId, Vec<usize>)>,
    quotients: Seq<ConformingTraceQuotient>,
    p: FixedReferenceFsiPartition<D>,
) -> bool {
    let form = canonical_form(entries);
    let owned = owners(mesh, inventory_membership(form));
    &&& p.inventory() == form
    &&& p.owner_domains() == owned
    &&& p.closures().len() == form.len()
    &&& forall|k: int| 0 <= k < form.len() ==> strictly_increasing(#[trigger] p.closures()[k])
    &&& forall|k: int, v: usize|
        0 <= k < form.len() ==> (#[trigger] p.closures()[k].contains(v) <==> closure_vertex(
            mesh,
            form[k].1,
            v,
        ))
    &&& sorted_bindings(mesh, owned, quotients, p.bindings())
}

/// Facts that a passed Region binding provides about the canonical inventory.
proof fn lemma_binding_passed(
    mesh: MeshTopology,
    entries: Seq<(RawId, Vec<usize>)>,
    quotients: Seq<ConformingTraceQuotient>,
)
    requires
        first_inventory_fault(entries, 0) is None,
        canonical_view(entries, canonical_form(entries)),
        binding_fault(mesh, inventory_membership(canonical_form(entries)), quotients) is None,
    ensures
        ({
            let form = canonical_form(entries);
            &&& forall|k: int, t: int|
                0 <= k < form.len() && 0 <= t < form[k].1.len() ==> #[trigger] form[k].1[t]
                    < mesh.cell_count()
            &&& forall|k: int| 0 <= k < form.len() ==> (#[trigger] form[k].1).len() > 0
            &&& forall|f: int| 0 <= f < mesh.facet_count() ==> #[trigger] facet_fault(mesh, f) is None
            &&& forall|a: int, b: int|
                0 <= a < quotients.len() && 0 <= b < quotients.len() && a != b ==> !same_identity(
                    #[trigger] quotients[a],
                    #[trigger] quotients[b],
                )
        }),
{
    let form = canonical_form(entries);
    let m = inventory_membership(form);
    lemma_membership_in_range(mesh, m, 0);
    assert forall|k: int, t: int|
        0 <= k < form.len() && 0 <= t < form[k].1.len() implies #[trigger] form[k].1[t] < mesh.cell_count() by {
        lemma_membership_contains(form, k, t);
        let idx = choose|idx: int| 0 <= idx < m.len() && m[idx] == (form[k].1[t], form[k].0);
        assert(m[idx].0 < mesh.cell_count());
    }
    assert forall|k: int| 0 <= k < form.len() implies (#[trigger] form[k].1).len() > 0 by {
        assert(view_from_inventory(entries, form[k]));
        let a = choose|a: int| 0 <= a < entries.len() && #[trigger] view_matches(form[k], entries[a]);
        lemma_no_fault_at(entries, 0, a);
        assert(entries[a].1@.len() > 0);
        assert(entries[a].1@.contains(entries[a].1@[0]));
        assert(form[k].1.contains(entries[a].1@[0]));
    }
    lemma_facets_sound(mesh, 0);
    lemma_identities_distinct(mesh, owners(mesh, m), quotients);
}

/// In an admitted partition every trace binding lists its facet witnesses in
/// increasing facet order, each joining a cell of the quotient's first Domain,
/// on the first side, to a cell of its second Domain, on the second side,
/// across one facet of the mesh.
pub proof fn lemma_admitted_witnesses_oriented<const D: usize>(
    mesh: MeshTopology,
    entries: Seq<(RawId, Vec<usize>)>,
    quotients: Seq<ConformingTraceQuotient>,
    p: FixedReferenceFsiPartition<D>,
    i: int,
)
    requires
        mesh.facet_count() <= usize::MAX,
        partition_fault::<D>(mesh, entries, quotients) is None,
        admitted_partition::<D>(mesh, entries, quotients, p),
        0 <= i < p.bindings().len(),
    ensures
        oriented_witnesses(
            mesh,
            p.owner_domains(),
            p.bindings()[i].quotient.first.domain,
            p.bindings()[i].quotient.second.domain,
            p.bindings()[i].facets@,
            mesh.facet_count() as int,
        ),
{
    let owned = owners(mesh, inventory_membership(canonical_form(entries)));
    assert(bound_from(mesh, owned, quotients, p.bindings()[i], 0));
    let j = choose|j: int|
        0 <= j < quotients.len() && p.bindings()[i].quotient == #[trigger] quotients[j]
            && p.bindings()[i].facets@ == quotient_facets(mesh, owned, quotients[j]);
    lemma_quotient_witnesses_oriented(mesh, owned, quotients[j]);
}

/// Two identity-sorted lists of the same quotients are equal.
proof fn lemma_identity_sorted_unique(s: Seq<ConformingTraceQuotient>, t: Seq<ConformingTraceQuotient>)
    requires
        identity_sorted(s),
        identity_sorted(t),
        same_quotients(s, t),
    ensures
        s == t,
    decreases s.len(),
{
    if s.len() == 0 {
        if t.len() > 0 {
            assert(s.contains(t[0]));
        }
        assert(s =~= t);
    } else {
        assert(t.contains(s[0]));
        assert(t.len() > 0);
        assert(s.contains(t[0]));
        let j = choose|j: int| 0 <= j < t.len() && t[j] == s[0];
        let i = choose|i: int| 0 <= i < s.len() && s[i] == t[0];
        if i > 0 && j > 0 {
            assert(identity_less(s[0], s[i]));
            assert(identity_less(t[0], t[j]));
        } else if i > 0 {
            assert(identity_less(s[0], s[i]));
        } else if j > 0 {
            assert(identity_less(t[0], t[j]));
        }
        assert(s[0] == t[0]);
        let s1 = s.drop_first();
        let t1 = t.drop_first();
        assert forall|a: int| 0 <= a < s1.len() implies t1.contains(#[trigger] s1[a]) by {
            assert(s1[a] == s[a + 1]);
            assert(t.contains(s[a + 1]));
            let b = choose|b: int| 0 <= b < t.len() && t[b] == s[a + 1];
            if b == 0 {
                assert(identity_less(s[0], s[a + 1]));
            }
            assert(t1[b - 1] == s1[a]);
        }
        assert forall|b: int| 0 <= b < t1.len() implies s1.contains(#[trigger] t1[b]) by {
            assert(t1[b] == t[b + 1]);
            assert(s.contains(t[b + 1]));
            let a = choose|a: int| 0 <= a < s.len() && s[a] == t[b + 1];
            if a == 0 {
                assert(identity_less(t[0], t[b + 1]));
            }
            assert(s1[a - 1] == t1[b]);
        }
        lemma_identity_sorted_unique(s1, t1);
        assert forall|k: int| 0 <= k < s.len() implies s[k] == t[k] by {
            if k > 0 {
                assert(s[k] == s1[k - 1]);
                assert(t[k] == t1[k - 1]);
            }
        }
        assert(s =~= t);
    }
}

/// Two partitions hold the same Domains and cells, closures, cell owners and
/// trace bindings.
pub open spec fn same_partition<const D: usize>(
    p: FixedReferenceFsiPartition<D>,
    q: FixedReferenceFsiPartition<D>,
) -> bool {
    &&& q.inventory() == p.inventory()
    &&& q.closures() == p.closures()
    &&& q.owner_domains() == p.owner_domains()
    &&& q.quotient_list() == p.quotient_list()
    &&& q.bindings().len() == p.bindings().len()
    &&& forall|i: int| 0 <= i < p.bindings().len() ==> (#[trigger] q.bindings()[i]).facets@
        == p.bindings()[i].facets@
}

/// Replaying an admitted partition, its Domains with their cells in
/// canonical order and its quotients in identity order, admits it again, as
/// the same partition.
pub proof fn lemma_partition_replay<const D: usize>(
    mesh: MeshTopology,
    entries: Seq<(RawId, Vec<usize>)>,
    quotients: Seq<ConformingTraceQuotient>,
    p: FixedReferenceFsiPartition<D>,
    replayed: Seq<(RawId, Vec<usize>)>,
)
    requires
        partition_fault::<D>(mesh, entries, quotients) is None,
        admitted_partition::<D>(mesh, entries, quotients, p),
        inventory_view(replayed) == p.inventory(),
    ensures
        partition_fault::<D>(mesh, replayed, p.quotient_list()) is None,
        forall|q: FixedReferenceFsiPartition<D>|
            #[trigger] admitted_partition::<D>(mesh, replayed, p.quotient_list(), q) ==> same_partition(
                p,
                q,
            ),
{
    let form = canonical_form(entries);
    let membership = inventory_membership(form);
    let owned = owners(mesh, membership);
    let qs = p.quotient_list();
    lemma_replay_inventory(entries, replayed);
    assert(same_quotients(quotients, qs)) by {
        assert forall|i: int| 0 <= i < quotients.len() implies qs.contains(#[trigger] quotients[i]) by {
            assert(listed(p.bindings(), quotients[i]));
            let k = choose|k: int| 0 <= k < p.bindings().len() && (#[trigger] p.bindings()[k]).quotient == quotients[i];
            assert(qs[k] == quotients[i]);
        }
        assert forall|k: int| 0 <= k < qs.len() implies quotients.contains(#[trigger] qs[k]) by {
            assert(bound_from(mesh, owned, quotients, p.bindings()[k], 0));
        }
    }
    lemma_replay_quotients(mesh, form, membership, quotients, qs);
    assert(partition_fault::<D>(mesh, replayed, qs) is None);
    assert forall|q: FixedReferenceFsiPartition<D>|
        #[trigger] admitted_partition::<D>(mesh, replayed, qs, q) implies same_partition(p, q) by {
        assert forall|k: int| 0 <= k < form.len() implies q.closures()[k] == p.closures()[k] by {
            assert forall|v: usize| #![trigger q.closures()[k].contains(v)] #![trigger p.closures()[k].contains(v)]
                q.closures()[k].contains(v) <==> p.closures()[k].contains(v) by {
                assert(q.closures()[k].contains(v) <==> closure_vertex(mesh, form[k].1, v));
                assert(p.closures()[k].contains(v) <==> closure_vertex(mesh, form[k].1, v));
            }
            lemma_strict_unique_usize(q.closures()[k], p.closures()[k]);
        }
        assert(q.closures() =~= p.closures());
        let qq = q.quotient_list();
        assert(same_quotients(qs, qq)) by {
            assert forall|i: int| 0 <= i < qs.len() implies qq.contains(#[trigger] qs[i]) by {
                assert(listed(q.bindings(), qs[i]));
                let k = choose|k: int| 0 <= k < q.bindings().len() && (#[trigger] q.bindings()[k]).quotient == qs[i];
                assert(qq[k] == qs[i]);
            }
            assert forall|k: int| 0 <= k < qq.len() implies qs.contains(#[trigger] qq[k]) by {
                assert(bound_from(mesh, owned, qs, q.bindings()[k], 0));
            }
        }
        lemma_identity_sorted_unique(qs, qq);
        assert forall|i: int| 0 <= i < p.bindings().len() implies (#[trigger] q.bindings()[i]).facets@
            == p.bindings()[i].facets@ by {
            assert(bound_from(mesh, owned, quotients, p.bindings()[i], 0));
            assert(bound_from(mesh, owned, qs, q.bindings()[i], 0));
            assert(qq[i] == qs[i]);
        }
    }
}

impl<const D: usize> FixedReferenceFsiPartition<D> {
    /// Domains in strictly increasing order, each with its cells and its
    /// vertex closure as strictly increasing sets.
    #[verifier::type_invariant]
    spec fn canonical_layout(&self) -> bool {
        &&& self.vertices@.len() == self.domains@.len()
        &&& forall|a: int, b: int|
            0 <= a < b < self.domains@.len() ==> self.domains@[a].0 < self.domains@[b].0
        &&& forall|k: int|
            0 <= k < self.domains@.len() ==> strictly_increasing(#[trigger] self.domains@[k].1@)
        &&& forall|k: int|
            0 <= k < self.vertices@.len() ==> strictly_increasing(#[trigger] self.vertices@[k]@)
    }

    /// Admitted Domains with their cells, in canonical order.
    pub closed spec fn inventory(&self) -> Seq<(RawId, Seq<usize>)> {
        inventory_view(self.domains@)
    }

    /// Admitted Domain identities, in canonical order.
    pub open spec fn domain_ids(&self) -> Seq<RawId> {
        self.inventory().map_values(|e: (RawId, Seq<usize>)| e.0)
    }

    /// Admitted quotients, in identity order.
    pub open spec fn quotient_list(&self) -> Seq<ConformingTraceQuotient> {
        self.bindings().map_values(|t: TraceBinding| t.quotient)
    }

    /// Vertex closure of each admitted Domain, in inventory order.
    pub closed spec fn closures(&self) -> Seq<Seq<usize>> {
        self.vertices@.map_values(|v: Vec<usize>| v@)
    }

    /// Owning Domain of every mesh cell.
    pub closed spec fn owner_domains(&self) -> Seq<RawId> {
        self.cell_domains@
    }

    /// Admitted trace bindings, in quotient identity order.
    pub closed spec fn bindings(&self) -> Seq<TraceBinding> {
        self.traces@
    }

    /// Authenticate a complete Domain inventory and every cross-Region quotient.
    ///
    /// Input order carries no ownership meaning; duplicates, missing cells,
    /// disconnected Regions and inexact quotient coverage reject. Regions
    /// may share vertices only along the facets of their quotients.
    pub fn new(
        mesh: &MeshTopology,
        domains: Vec<(RawId, Vec<usize>)>,
        quotients: &[ConformingTraceQuotient],
    ) -> (result: Result<Self, Diagnostic>)
        requires
            mesh.well_formed(),
        ensures
            result is Ok <==> partition_fault::<D>(*mesh, domains@, quotients@) is None,
            result matches Err(e) ==> partition_fault::<D>(*mesh, domains@, quotients@) == Some(e),
            result matches Ok(p) ==> admitted_partition::<D>(*mesh, domains@, quotients@, p),
    {
        let ghost entries = domains@;
        let ghost form = canonical_form(entries);
        let ghost membership = inventory_membership(form);
        require_mesh_dimension::<D>(mesh)?;
        assert(require_mesh_dimension_fault::<D>(*mesh) is None);
        let owned = canonicalize_inventory(&domains)?;
        proof {
            lemma_view_canonical(entries, owned@);
        }
        let m = membership_of(&owned);
        assert(m@ == membership);
        let (cell_domains, traces) = bind_region_topology(mesh, m.as_slice(), quotients)?;
        let ghost own = cell_domains@;
        proof {
            lemma_binding_passed(*mesh, entries, quotients@);
        }
        if !check_connections(quotients) {
            return Err(Diagnostic::ConnectionDomainsDiffer);
        }
        let mut vertices: Vec<Vec<usize>> = Vec::new();
        let mut k: usize = 0;
        while k < owned.len()
            invariant
                k <= owned@.len(),
                form == inventory_view(owned@),
                form == canonical_form(entries),
                membership == inventory_membership(form),
                entries == domains@,
                require_mesh_dimension_fault::<D>(*mesh) is None,
                first_inventory_fault(entries, 0) is None,
                binding_fault(*mesh, membership, quotients@) is None,
                consistent_connections(quotients@),
                mesh.well_formed(),
                forall|a: int, t: int|
                    0 <= a < form.len() && 0 <= t < form[a].1.len() ==> #[trigger] form[a].1[t]
                        < mesh.cell_count(),
                forall|a: int| 0 <= a < form.len() ==> (#[trigger] form[a].1).len() > 0,
                forall|f: int| 0 <= f < mesh.facet_count() ==> #[trigger] facet_fault(*mesh, f) is None,
                forall|a: int| 0 <= a < k ==> facet_connected(*mesh, #[trigger] form[a].1),
                vertices@.len() == k,
                forall|a: int| 0 <= a < k ==> strictly_increasing(#[trigger] vertices@[a]@),
                forall|a: int, v: usize|
                    0 <= a < k ==> (#[trigger] vertices@[a]@.contains(v) <==> closure_vertex(
                        *mesh,
                        form[a].1,
                        v,
                    )),
            decreases owned@.len() - k,
        {
            let cells = &owned[k].1;
            assert(cells@ == form[k as int].1);
            assert forall|i: int| 0 <= i < cells@.len() implies #[trigger] cells@[i] < mesh.cell_count() by {
                assert(form[k as int].1[i] < mesh.cell_count());
            }
            if require_connected_cells(mesh, cells).is_err() {
                assert(!facet_connected(*mesh, form[k as int].1));
                return Err(Diagnostic::RegionNotConnected);
            }
            let closure = region_vertices(mesh, cells);
            vertices.push(closure);
            k = k + 1;
        }
        if !check_shared_vertices(mesh, &owned, &vertices, &traces, Ghost(own), Ghost(quotients@)) {
            return Err(Diagnostic::SharedVerticesOutsideQuotient);
        }
        let sorted = sort_traces(traces, Ghost(*mesh), Ghost(own), Ghost(quotients@));
        let partition = FixedReferenceFsiPartition {
            domains: owned,
            vertices,
            cell_domains,
            traces: sorted,
        };
        proof {
            assert(partition.closures() =~= vertices@.map_values(|v: Vec<usize>| v@));
        }
        Ok(partition)
    }
}

/// Trace `i` is the first binding of Connection `connection`.
pub open spec fn first_binding_of(traces: Seq<TraceBinding>, connection: RawId, i: int) -> bool {
    &&& 0 <= i < traces.len()
    &&& traces[i].quotient.connection == connection
    &&& forall|j: int| 0 <= j < i ==> (#[trigger] traces[j]).quotient.connection != connection
}

/// Witness `w` of trace `t` is its first witness of facet `facet`.
pub open spec fn first_witness_of(t: TraceBinding, facet: usize, w: int) -> bool {
    &&& 0 <= w < t.facets@.len()
    &&& t.facets@[w].facet.index == facet
    &&& forall|x: int| 0 <= x < w ==> (#[trigger] t.facets@[x]).facet.index != facet
}

impl<const D: usize> FixedReferenceFsiPartition<D> {
    /// Exact admitted Domain identities in canonical order.
    pub fn domains(&self) -> (domains: Vec<RawId>)
        ensures
            domains@ == self.domain_ids(),
    {
        let mut domains: Vec<RawId> = Vec::new();
        let mut k: usize = 0;
        while k < self.domains.len()
            invariant
                k <= self.domains@.len(),
                domains@ == self.inventory().take(k as int).map_values(|e: (RawId, Seq<usize>)| e.0),
            decreases self.domains@.len() - k,
        {
            domains.push(self.domains[k].0);
            assert(self.inventory().take(k + 1).map_values(|e: (RawId, Seq<usize>)| e.0)
                =~= self.inventory().take(k as int).map_values(|e: (RawId, Seq<usize>)| e.0).push(
                self.domains@[k as int].0,
            ));
            k = k + 1;
        }
        assert(self.inventory().take(self.domains@.len() as int) =~= self.inventory());
        domains
    }

    fn position(&self, domain: RawId) -> (k: Option<usize>)
        ensures
            k matches Some(k) ==> k < self.inventory().len() && self.inventory()[k as int].0 == domain,
            k matches Some(k) ==> forall|j: int|
                0 <= j < self.inventory().len() && (#[trigger] self.inventory()[j]).0 == domain ==> j == k,
            k is None ==> forall|j: int| 0 <= j < self.inventory().len() ==> (#[trigger] self.inventory()[j]).0 != domain,
    {
        proof {
            use_type_invariant(self);
        }
        let mut k: usize = 0;
        while k < self.domains.len()
            invariant
                k <= self.domains@.len(),
                forall|a: int, b: int|
                    0 <= a < b < self.domains@.len() ==> self.domains@[a].0 < self.domains@[b].0,
                forall|j: int| 0 <= j < k ==> (#[trigger] self.inventory()[j]).0 != domain,
            decreases self.domains@.len() - k,
        {
            if self.domains[k].0 == domain {
                return Some(k);
            }
            k = k + 1;
        }
        None
    }

    /// Complete cell support of one exact Domain.
    pub fn domain_cells(&self, domain: RawId) -> (cells: Option<&Vec<usize>>)
        ensures
            cells matches Some(cells) ==> exists|k: int|
                0 <= k < self.inventory().len() && (#[trigger] self.inventory()[k]).0 == domain
                    && cells@ == self.inventory()[k].1,
            cells matches Some(cells) ==> strictly_increasing(cells@),
            cells matches Some(cells) ==> forall|k: int|
                0 <= k < self.inventory().len() && (#[trigger] self.inventory()[k]).0 == domain
                    ==> cells@ == self.inventory()[k].1,
            cells is None ==> forall|k: int|
                0 <= k < self.inventory().len() ==> (#[trigger] self.inventory()[k]).0 != domain,
    {
        proof {
            use_type_invariant(self);
        }
        match self.position(domain) {
            Some(k) => Some(&self.domains[k].1),
            None => None,
        }
    }

    /// Complete vertex closure of one exact Domain, in increasing order.
    pub fn domain_vertices(&self, domain: RawId) -> (vertices: Option<&Vec<usize>>)
        ensures
            vertices matches Some(vertices) ==> exists|k: int|
                0 <= k < self.inventory().len() && (#[trigger] self.inventory()[k]).0 == domain
                    && vertices@ == self.closures()[k],
            vertices matches Some(vertices) ==> strictly_increasing(vertices@),
            vertices matches Some(vertices) ==> forall|k: int|
                0 <= k < self.inventory().len() && (#[trigger] self.inventory()[k]).0 == domain
                    ==> vertices@ == self.closures()[k],
            vertices is None ==> forall|k: int|
                0 <= k < self.inventory().len() ==> (#[trigger] self.inventory()[k]).0 != domain,
    {
        proof {
            use_type_invariant(self);
        }
        match self.position(domain) {
            Some(k) => Some(&self.vertices[k]),
            None => None,
        }
    }

    /// Every admitted exact trace quotient, in identity order.
    pub fn quotients(&self) -> (quotients: Vec<ConformingTraceQuotient>)
        ensures
            quotients@ == self.quotient_list(),
    {
        let mut quotients: Vec<ConformingTraceQuotient> = Vec::new();
        let mut k: usize = 0;
        while k < self.traces.len()
            invariant
                k <= self.traces@.len(),
                quotients@ == self.bindings().take(k as int).map_values(|t: TraceBinding| t.quotient),
            decreases self.traces@.len() - k,
        {
            quotients.push(self.traces[k].quotient);
            assert(self.bindings().take(k + 1).map_values(|t: TraceBinding| t.quotient)
                =~= self.bindings().take(k as int).map_values(|t: TraceBinding| t.quotient).push(
                self.traces@[k as int].quotient,
            ));
            k = k + 1;
        }
        assert(self.bindings().take(self.traces@.len() as int) =~= self.bindings());
        quotients
    }

    /// Exact oriented cell incidence of a Connection facet, ordered by the
    /// endpoints of the first quotient of that Connection.
    pub fn facet_sides(&self, connection: RawId, facet: usize) -> (sides: Option<
        ((RawId, EntityIncidence), (RawId, EntityIncidence)),
    >)
        ensures
            sides matches Some(pair) ==> exists|i: int, w: int|
                first_binding_of(self.bindings(), connection, i) && #[trigger] first_witness_of(
                    self.bindings()[i],
                    facet,
                    w,
                ) && pair == (
                    (self.bindings()[i].quotient.first.domain, self.bindings()[i].facets@[w].first),
                    (self.bindings()[i].quotient.second.domain, self.bindings()[i].facets@[w].second),
                ),
            sides is None ==> (forall|i: int|
                0 <= i < self.bindings().len() ==> (#[trigger] self.bindings()[i]).quotient.connection
                    != connection) || exists|i: int|
                first_binding_of(self.bindings(), connection, i) && forall|w: int|
                    0 <= w < (#[trigger] self.bindings()[i]).facets@.len()
                        ==> self.bindings()[i].facets@[w].facet.index != facet,
    {
        let mut i: usize = 0;
        while i < self.traces.len()
            invariant
                i <= self.traces@.len(),
                forall|j: int| 0 <= j < i ==> (#[trigger] self.traces@[j]).quotient.connection != connection,
            decreases self.traces@.len() - i,
        {
            let trace = &self.traces[i];
            if trace.quotient.connection == connection {
                assert(first_binding_of(self.bindings(), connection, i as int));
                let mut w: usize = 0;
                while w < trace.facets.len()
                    invariant
                        w <= trace.facets@.len(),
                        i < self.traces@.len(),
                        *trace == self.traces@[i as int],
                        first_binding_of(self.bindings(), connection, i as int),
                        forall|x: int| 0 <= x < w ==> (#[trigger] trace.facets@[x]).facet.index != facet,
                    decreases trace.facets@.len() - w,
                {
                    let witness = trace.facets[w];
                    if witness.facet.index == facet {
                        assert(first_witness_of(self.bindings()[i as int], facet, w as int));
                        return Some(
                            (
                                (trace.quotient.first.domain, witness.first),
                                (trace.quotient.second.domain, witness.second),
                            ),
                        );
                    }
                    w = w + 1;
                }
                return None;
            }
            i = i + 1;
        }
        None
    }

    /// Number of mesh cells owned by the partition.
    pub fn cell_count(&self) -> (count: usize)
        ensures
            count == self.owner_domains().len(),
    {
        self.cell_domains.len()
    }

    /// Owning Domain of every mesh cell.
    pub fn cell_domains(&self) -> (owners: &Vec<RawId>)
        ensures
            owners@ == self.owner_domains(),
    {
        &self.cell_domains
    }

    /// Admitted trace bindings, in quotient identity order.
    pub fn traces(&self) -> (traces: &Vec<TraceBinding>)
        ensures
            traces@ == self.bindings(),
    {
        &self.traces
    }
}

} // verus!
