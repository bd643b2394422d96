//! Exact FSI projection roles, derived from the equation roles and the
//! admitted Plan inventory.

use vstd::prelude::*;

use crate::diagnostic::Diagnostic;
use crate::topology::{ConformingTraceQuotient, RawId, TraceEndpoint};

verus! {

/// Discrete space of one Field in one Domain.
#[derive(Debug, Clone, Copy, PartialEq, Eq, Structural)]
pub enum DiscreteSpace {
    /// Continuous Lagrange space of the given polynomial degree.
    ContinuousLagrange { degree: u16 },
    /// Simplex P1 space enriched by the cubic cell bubble.
    SimplexP1Bubble,
    /// Any other admitted space.
    Other,
}

/// Role of one equation relation.
#[derive(Debug, Clone, Copy, PartialEq, Eq, Structural)]
pub enum RelationRole {
    /// The relation defines the rate of a state Field.
    Kinematic { state: RawId, rate: RawId },
    /// The relation is a residual tested by a Field.
    Residual { tested: RawId },
    /// Any other relation.
    Other,
}

/// Roles of the equations of a program.
///
/// `relations` and `constraints` list the roles of the relations and the
/// `(constrained, tested)` Field pairs of the constraints, in identity order;
/// `fields` lists each Field with its owning Domain.
#[derive(Debug, Clone)]
pub struct EquationRoles {
    pub relations: Vec<RelationRole>,
    pub constraints: Vec<(RawId, RawId)>,
    pub fields: Vec<(RawId, RawId)>,
}

/// One Field bound to its discrete space.
#[derive(Debug, Clone, Copy, PartialEq, Eq, Structural)]
pub struct FieldSpaceBinding {
    pub field: RawId,
    pub space: DiscreteSpace,
}

/// The Fields of one Domain with their discrete spaces.
#[derive(Debug, Clone)]
pub struct DomainFields {
    pub domain: RawId,
    pub fields: Vec<FieldSpaceBinding>,
}

/// What the roles read of a coupled realization Plan: its Domains with their
/// Field spaces, its eliminated state and rate, and its trace quotients.
#[derive(Debug, Clone)]
pub struct RolePlan {
    pub domains: Vec<DomainFields>,
    pub state: RawId,
    pub rate: RawId,
    pub quotients: Vec<ConformingTraceQuotient>,
}

/// Projection roles of one FSI step: the Connection, the fluid velocity,
/// pressure and solid velocity Fields, and each bound Field's Domain and
/// space, in increasing Field order.
#[derive(Debug, Clone)]
pub struct FsiRoles {
    pub connection: RawId,
    pub fluid_velocity: RawId,
    pub pressure: RawId,
    pub solid_velocity: RawId,
    pub bindings: Vec<(RawId, (RawId, DiscreteSpace))>,
}

/// Value of the last entry of `s` with key `key`.
pub open spec fn last_value<V>(s: Seq<(RawId, V)>, key: RawId) -> Option<V>
    decreases s.len(),
{
    if s.len() == 0 {
        None
    } else if s.last().0 == key {
        Some(s.last().1)
    } else {
        last_value(s.drop_last(), key)
    }
}

/// Keys of `s` strictly increase.
pub open spec fn keys_increasing<V>(s: Seq<(RawId, V)>) -> bool {
    forall|i: int, j: int| 0 <= i < j < s.len() ==> s[i].0 < s[j].0
}

/// Every Field binding of the Plan, Domain by Domain, with its Domain.
pub open spec fn field_bindings(domains: Seq<DomainFields>) -> Seq<(RawId, (RawId, DiscreteSpace))>
    decreases domains.len(),
{
    if domains.len() == 0 {
        Seq::empty()
    } else {
        let last = domains.last();
        field_bindings(domains.drop_last()) + last.fields@.map_values(
            |b: FieldSpaceBinding| (b.field, (last.domain, b.space)),
        )
    }
}

/// State/rate pairs of the kinematic relations, in relation order.
pub open spec fn kinematic_pairs(relations: Seq<RelationRole>) -> Seq<(RawId, RawId)>
    decreases relations.len(),
{
    if relations.len() == 0 {
        Seq::empty()
    } else {
        let prev = kinematic_pairs(relations.drop_last());
        match relations.last() {
            RelationRole::Kinematic { state, rate } => prev.push((state, rate)),
            _ => prev,
        }
    }
}

/// Fields that test some residual relation.
pub open spec fn tested_fields(relations: Seq<RelationRole>) -> Set<RawId> {
    Set::new(
        |f: RawId| exists|i: int| 0 <= i < relations.len() && relations[i] == (RelationRole::Residual { tested: f }),
    )
}

/// Fields that test a constraint on `velocity`.
pub open spec fn constraint_tests(constraints: Seq<(RawId, RawId)>, velocity: RawId) -> Set<RawId> {
    Set::new(|t: RawId| exists|i: int| 0 <= i < constraints.len() && constraints[i] == (velocity, t))
}

/// Fields bound by the Plan.
pub open spec fn bound_fields(domains: Seq<DomainFields>) -> Set<RawId> {
    Set::new(|f: RawId| last_value(field_bindings(domains), f) is Some)
}

/// Quotient endpoint carrying the state rate: the first one that does.
pub open spec fn solid_endpoint(q: ConformingTraceQuotient, rate: RawId) -> TraceEndpoint {
    if q.first.field == rate {
        q.first
    } else {
        q.second
    }
}

/// Quotient endpoint carrying another velocity: the first one that does.
pub open spec fn fluid_endpoint(q: ConformingTraceQuotient, rate: RawId) -> TraceEndpoint {
    if q.first.field != rate {
        q.first
    } else {
        q.second
    }
}

/// The one Field testing the constraints on the fluid velocity.
pub open spec fn unique_pressure(equations: EquationRoles, plan: RolePlan) -> RawId {
    let fluid = fluid_endpoint(plan.quotients@[0], plan.rate);
    choose|p: RawId| constraint_tests(equations.constraints@, fluid.field) == set![p]
}

/// Field `field` is bound in `domain` with `space`, and the equations give
/// it the owner `domain`.
pub open spec fn role_fits(
    equations: EquationRoles,
    plan: RolePlan,
    field: RawId,
    domain: RawId,
    space: DiscreteSpace,
) -> bool {
    &&& last_value(field_bindings(plan.domains@), field) == Some((domain, space))
    &&& last_value(equations.fields@, field) == Some(domain)
}

/// The first check of the role derivation that rejects, if any.
pub open spec fn roles_fault(equations: EquationRoles, plan: RolePlan) -> Option<Diagnostic> {
    let rate = plan.rate;
    if kinematic_pairs(equations.relations@) != seq![(plan.state, rate)] {
        Some(Diagnostic::StateRateMismatch)
    } else if plan.quotients@.len() != 1 {
        Some(Diagnostic::PluralTraceQuotients)
    } else if plan.quotients@[0].first.field != rate && plan.quotients@[0].second.field != rate {
        Some(Diagnostic::QuotientOmitsStateRate)
    } else if plan.quotients@[0].first.field == rate && plan.quotients@[0].second.field == rate {
        Some(Diagnostic::NoCoupledVelocity)
    } else {
        let q = plan.quotients@[0];
        let fluid = fluid_endpoint(q, rate);
        let solid = solid_endpoint(q, rate);
        if !(exists|p: RawId| constraint_tests(equations.constraints@, fluid.field) == set![p]) {
            Some(Diagnostic::PressureConstraintNotUnique)
        } else {
            let pressure = unique_pressure(equations, plan);
            let expected = set![fluid.field, pressure, solid.field];
            if bound_fields(plan.domains@) != expected || tested_fields(equations.relations@)
                != expected {
                Some(Diagnostic::AdditionalFieldRoles)
            } else if !role_fits(
                equations,
                plan,
                fluid.field,
                fluid.domain,
                DiscreteSpace::SimplexP1Bubble,
            ) || !role_fits(
                equations,
                plan,
                pressure,
                fluid.domain,
                DiscreteSpace::ContinuousLagrange { degree: 1 },
            ) || !role_fits(
                equations,
                plan,
                solid.field,
                solid.domain,
                DiscreteSpace::ContinuousLagrange { degree: 1 },
            ) {
                Some(Diagnostic::RoleSpaceMismatch)
            } else {
                None
            }
        }
    }
}

/// No key of `s` occurs twice.
pub open spec fn distinct_keys<V>(s: Seq<(RawId, V)>) -> bool {
    forall|i: int, j: int| 0 <= i < j < s.len() ==> s[i].0 != s[j].0
}

/// When no key occurs twice, the value of a key is that of its one entry.
proof fn lemma_last_value_distinct<V>(s: Seq<(RawId, V)>, key: RawId)
    requires
        distinct_keys(s),
    ensures
        last_value(s, key) is None <==> forall|i: int| 0 <= i < s.len() ==> s[i].0 != key,
        forall|i: int| 0 <= i < s.len() && s[i].0 == key ==> last_value(s, key) == Some(s[i].1),
    decreases s.len(),
{
    if s.len() > 0 {
        let t = s.drop_last();
        assert forall|i: int, j: int| 0 <= i < j < t.len() implies t[i].0 != t[j].0 by {
            assert(t[i] == s[i] && t[j] == s[j]);
        }
        lemma_last_value_distinct(t, key);
        assert forall|i: int| 0 <= i < s.len() && s[i].0 == key implies last_value(s, key) == Some(s[i].1) by {
            if i < s.len() - 1 {
                assert(s[i] == t[i]);
                assert(s[i].0 != s[s.len() - 1].0);
            }
        }
        if last_value(s, key) is None {
            assert forall|i: int| 0 <= i < s.len() implies s[i].0 != key by {
                if i < s.len() - 1 {
                    assert(s[i] == t[i]);
                }
            }
        }
    }
}

/// In a map with strictly increasing keys, the value of a key is that of its
/// one entry.
proof fn lemma_last_value_unique<V>(s: Seq<(RawId, V)>, key: RawId)
    requires
        keys_increasing(s),
    ensures
        last_value(s, key) is None <==> forall|i: int| 0 <= i < s.len() ==> s[i].0 != key,
        forall|i: int| 0 <= i < s.len() && s[i].0 == key ==> last_value(s, key) == Some(s[i].1),
{
    lemma_last_value_distinct(s, key);
}

/// Appending an entry rebinds its key and leaves every other key unchanged.
proof fn lemma_last_value_push<V>(s: Seq<(RawId, V)>, x: (RawId, V), key: RawId)
    ensures
        last_value(s.push(x), key) == if x.0 == key {
            Some(x.1)
        } else {
            last_value(s, key)
        },
{
    assert(s.push(x).drop_last() =~= s);
}

/// Value of the last entry of `s` with key `key`.
fn last_lookup<V: Copy>(s: &Vec<(RawId, V)>, key: RawId) -> (value: Option<V>)
    ensures
        value == last_value(s@, key),
{
    let mut value: Option<V> = None;
    let mut k: usize = 0;
    while k < s.len()
        invariant
            k <= s@.len(),
            value == last_value(s@.take(k as int), key),
        decreases s@.len() - k,
    {
        proof {
            assert(s@.take(k + 1) =~= s@.take(k as int).push(s@[k as int]));
            lemma_last_value_push(s@.take(k as int), s@[k as int], key);
        }
        if s[k].0 == key {
            value = Some(s[k].1);
        }
        k = k + 1;
    }
    assert(s@.take(s@.len() as int) =~= s@);
    value
}

/// Bind `key` to `value` in the map `map` with strictly increasing keys.
fn map_insert<V: Copy>(map: &mut Vec<(RawId, V)>, key: RawId, value: V)
    requires
        keys_increasing(old(map)@),
    ensures
        keys_increasing(final(map)@),
        forall|k: RawId| #[trigger] last_value(final(map)@, k) == if k == key {
            Some(value)
        } else {
            last_value(old(map)@, k)
        },
{
    let ghost before = map@;
    let mut p: usize = 0;
    while p < map.len() && map[p].0 < key
        invariant
            map@ == before,
            p <= before.len(),
            forall|i: int| 0 <= i < p ==> before[i].0 < key,
        decreases before.len() - p,
    {
        p = p + 1;
    }
    if p < map.len() && map[p].0 == key {
        map.set(p, (key, value));
    } else {
        map.insert(p, (key, value));
        proof {
            before.insert_ensures(p as int, (key, value));
        }
    }
    let ghost after = map@;
    assert(keys_increasing(after)) by {
        assert forall|i: int, j: int| 0 <= i < j < after.len() implies after[i].0 < after[j].0 by {
            if after.len() == before.len() {
                if i != p && j != p {
                    assert(after[i] == before[i] && after[j] == before[j]);
                } else if i == p {
                    assert(after[j] == before[j]);
                } else {
                    assert(after[i] == before[i]);
                }
            } else if j < p {
                assert(after[i] == before[i] && after[j] == before[j]);
            } else if j == p {
                assert(after[i] == before[i]);
            } else if i < p {
                assert(after[i] == before[i]);
                assert(after[j] == before[j - 1]);
                assert(before[j - 1].0 >= before[p as int].0);
            } else if i == p {
                assert(after[j] == before[j - 1]);
                assert(before[j - 1].0 >= before[p as int].0);
            } else {
                assert(after[i] == before[i - 1]);
                assert(after[j] == before[j - 1]);
            }
        }
    }
    assert forall|k: RawId| #[trigger] last_value(after, k) == if k == key {
        Some(value)
    } else {
        last_value(before, k)
    } by {
        lemma_last_value_unique(before, k);
        lemma_last_value_unique(after, k);
        if k == key {
            assert(after[p as int] == (key, value));
        } else if after.len() == before.len() {
            assert forall|i: int| 0 <= i < after.len() implies (after[i].0 == k <==> before[i].0 == k)
                && (after[i].0 == k ==> after[i] == before[i]) by {
                if i != p {
                    assert(after[i] == before[i]);
                }
            }
            if last_value(before, k) is Some {
                let i = choose|i: int| 0 <= i < before.len() && before[i].0 == k;
                assert(after[i] == before[i]);
            }
        } else {
            if last_value(before, k) is Some {
                let i = choose|i: int| 0 <= i < before.len() && before[i].0 == k;
                if i < p {
                    assert(after[i] == before[i]);
                } else {
                    assert(after[i + 1] == before[i]);
                }
            }
            if last_value(after, k) is Some {
                let i = choose|i: int| 0 <= i < after.len() && after[i].0 == k;
                if i < p {
                    assert(after[i] == before[i]);
                } else if i > p {
                    assert(after[i] == before[i - 1]);
                }
            }
        }
    }
}

/// State/rate pairs of the kinematic relations, in relation order.
fn kinematic_pairs_of(relations: &Vec<RelationRole>) -> (pairs: Vec<(RawId, RawId)>)
    ensures
        pairs@ == kinematic_pairs(relations@),
{
    let mut pairs: Vec<(RawId, RawId)> = Vec::new();
    let mut i: usize = 0;
    while i < relations.len()
        invariant
            i <= relations@.len(),
            pairs@ == kinematic_pairs(relations@.take(i as int)),
        decreases relations@.len() - i,
    {
        assert(relations@.take(i + 1).drop_last() =~= relations@.take(i as int));
        match relations[i] {
            RelationRole::Kinematic { state, rate } => {
                pairs.push((state, rate));
            },
            _ => {},
        }
        i = i + 1;
    }
    assert(relations@.take(relations@.len() as int) =~= relations@);
    pairs
}

/// The one Field testing constraints on `velocity`, if exactly one does.
fn unique_constraint_test(constraints: &Vec<(RawId, RawId)>, velocity: RawId) -> (tested: Option<
    RawId,
>)
    ensures
        tested matches Some(p) ==> constraint_tests(constraints@, velocity) == set![p],
        tested is None ==> !(exists|p: RawId| constraint_tests(constraints@, velocity) == set![p]),
{
    let mut found: Option<RawId> = None;
    let mut plural = false;
    let mut i: usize = 0;
    while i < constraints.len()
        invariant
            i <= constraints@.len(),
            found is None ==> !plural && constraint_tests(constraints@.take(i as int), velocity)
                == Set::<RawId>::empty(),
            !plural ==> (found matches Some(p) ==> constraint_tests(
                constraints@.take(i as int),
                velocity,
            ) == set![p]),
            plural ==> found is Some && exists|t: RawId|
                constraint_tests(constraints@.take(i as int), velocity).contains(t) && t != found->0,
            found matches Some(p) ==> constraint_tests(constraints@.take(i as int), velocity).contains(p),
        decreases constraints@.len() - i,
    {
        let ghost prev_s = constraints@.take(i as int);
        let ghost next_s = constraints@.take(i + 1);
        let ghost prev = constraint_tests(prev_s, velocity);
        let ghost next = constraint_tests(next_s, velocity);
        assert forall|t: RawId| next.contains(t) <==> (prev.contains(t) || constraints@[i as int] == (
            velocity,
            t,
        )) by {
            if next.contains(t) {
                let a = choose|a: int| 0 <= a < next_s.len() && next_s[a] == (velocity, t);
                if a < i {
                    assert(prev_s[a] == (velocity, t));
                }
            }
            if prev.contains(t) {
                let a = choose|a: int| 0 <= a < prev_s.len() && prev_s[a] == (velocity, t);
                assert(next_s[a] == (velocity, t));
            }
            if constraints@[i as int] == (velocity, t) {
                assert(next_s[i as int] == (velocity, t));
            }
        }
        let (constrained, t) = constraints[i];
        proof {
            if plural {
                let w = choose|w: RawId| prev.contains(w) && w != found->0;
                assert(next.contains(w));
            }
        }
        if constrained == velocity {
            match found {
                None => {
                    found = Some(t);
                    assert(next =~= set![t]);
                },
                Some(p) => {
                    if p != t {
                        plural = true;
                        assert(next.contains(t));
                    }
                    if !plural {
                        assert(next =~= set![p]);
                    }
                },
            }
        } else {
            assert(next =~= prev);
        }
        i = i + 1;
    }
    assert(constraints@.take(constraints@.len() as int) =~= constraints@);
    if plural {
        proof {
            let tests = constraint_tests(constraints@, velocity);
            if exists|p: RawId| tests == set![p] {
                let p = choose|p: RawId| tests == set![p];
                let t = choose|t: RawId| tests.contains(t) && t != found->0;
                assert(tests.contains(found->0));
            }
        }
        return None;
    }
    proof {
        if found is None {
            let tests = constraint_tests(constraints@, velocity);
            if exists|p: RawId| tests == set![p] {
                let p = choose|p: RawId| tests == set![p];
                assert(set![p].contains(p));
            }
        }
    }
    found
}

/// The Plan's Field bindings as a map with strictly increasing Field keys; a
/// Field bound twice keeps its last binding.
fn bind_fields(domains: &Vec<DomainFields>) -> (bindings: Vec<(RawId, (RawId, DiscreteSpace))>)
    ensures
        keys_increasing(bindings@),
        forall|f: RawId| #[trigger] last_value(bindings@, f) == last_value(field_bindings(domains@), f),
{
    let mut bindings: Vec<(RawId, (RawId, DiscreteSpace))> = Vec::new();
    let mut d: usize = 0;
    while d < domains.len()
        invariant
            d <= domains@.len(),
            keys_increasing(bindings@),
            forall|f: RawId| #[trigger] last_value(bindings@, f) == last_value(
                field_bindings(domains@.take(d as int)),
                f,
            ),
        decreases domains@.len() - d,
    {
        let domain = &domains[d];
        let ghost base = field_bindings(domains@.take(d as int));
        let ghost mapped = domain.fields@.map_values(
            |b: FieldSpaceBinding| (b.field, (domain.domain, b.space)),
        );
        let mut j: usize = 0;
        assert(base + mapped.take(0) =~= base);
        while j < domain.fields.len()
            invariant
                j <= domain.fields@.len(),
                mapped.len() == domain.fields@.len(),
                mapped == domain.fields@.map_values(
                    |b: FieldSpaceBinding| (b.field, (domain.domain, b.space)),
                ),
                keys_increasing(bindings@),
                forall|f: RawId| #[trigger] last_value(bindings@, f) == last_value(
                    base + mapped.take(j as int),
                    f,
                ),
            decreases domain.fields@.len() - j,
        {
            let b = domain.fields[j];
            let ghost prev = base + mapped.take(j as int);
            map_insert(&mut bindings, b.field, (domain.domain, b.space));
            proof {
                assert(base + mapped.take(j + 1) =~= prev.push((b.field, (domain.domain, b.space))));
                assert forall|f: RawId| #[trigger] last_value(bindings@, f) == last_value(
                    base + mapped.take(j + 1),
                    f,
                ) by {
                    lemma_last_value_push(prev, (b.field, (domain.domain, b.space)), f);
                }
            }
            j = j + 1;
        }
        proof {
            assert(mapped.take(mapped.len() as int) =~= mapped);
            assert(domains@.take(d + 1).drop_last() =~= domains@.take(d as int));
            assert(domains@.take(d + 1).last() == *domain);
        }
        d = d + 1;
    }
    assert(domains@.take(domains@.len() as int) =~= domains@);
    bindings
}

/// Whether the keys of the map `bindings` are exactly `a`, `b` and `c`.
fn keys_are(bindings: &Vec<(RawId, (RawId, DiscreteSpace))>, a: RawId, b: RawId, c: RawId) -> (same: bool)
    requires
        keys_increasing(bindings@),
    ensures
        same <==> Set::new(|f: RawId| last_value(bindings@, f) is Some) == set![a, b, c],
{
    let ghost keys = Set::new(|f: RawId| last_value(bindings@, f) is Some);
    proof {
        assert forall|f: RawId| keys.contains(f) <==> exists|i: int| 0 <= i < bindings@.len() && bindings@[i].0 == f by {
            lemma_last_value_unique(bindings@, f);
        }
    }
    let mut k: usize = 0;
    while k < bindings.len()
        invariant
            k <= bindings@.len(),
            keys_increasing(bindings@),
            keys == Set::new(|f: RawId| last_value(bindings@, f) is Some),
            forall|i: int| 0 <= i < k ==> #[trigger] bindings@[i].0 == a || bindings@[i].0 == b || bindings@[i].0 == c,
        decreases bindings@.len() - k,
    {
        let f = bindings[k].0;
        if f != a && f != b && f != c {
            proof {
                lemma_last_value_unique(bindings@, f);
                assert(bindings@[k as int].0 == f);
                assert(keys.contains(f));
                assert(!set![a, b, c].contains(f));
            }
            return false;
        }
        k = k + 1;
    }
    let found_a = last_lookup(bindings, a).is_some();
    let found_b = last_lookup(bindings, b).is_some();
    let found_c = last_lookup(bindings, c).is_some();
    proof {
        if found_a && found_b && found_c {
            assert forall|f: RawId| keys.contains(f) <==> set![a, b, c].contains(f) by {
                if keys.contains(f) {
                    let i = choose|i: int| 0 <= i < bindings@.len() && bindings@[i].0 == f;
                    assert(bindings@[i].0 == a || bindings@[i].0 == b || bindings@[i].0 == c);
                }
            }
            assert(keys =~= set![a, b, c]);
        } else if keys == set![a, b, c] {
            assert(set![a, b, c].contains(a) && set![a, b, c].contains(b) && set![a, b, c].contains(c));
        }
    }
    found_a && found_b && found_c
}

/// A residual relation is tested by `a`, `b` or `c`.
pub open spec fn residual_among(r: RelationRole, a: RawId, b: RawId, c: RawId) -> bool {
    match r {
        RelationRole::Residual { tested } => tested == a || tested == b || tested == c,
        _ => true,
    }
}

/// Whether the Fields testing residual relations are exactly `a`, `b` and `c`.
fn tested_are(relations: &Vec<RelationRole>, a: RawId, b: RawId, c: RawId) -> (same: bool)
    ensures
        same <==> tested_fields(relations@) == set![a, b, c],
{
    let ghost tested = tested_fields(relations@);
    let mut seen_a = false;
    let mut seen_b = false;
    let mut seen_c = false;
    let mut i: usize = 0;
    while i < relations.len()
        invariant
            i <= relations@.len(),
            tested == tested_fields(relations@),
            forall|k: int| 0 <= k < i ==> residual_among(#[trigger] relations@[k], a, b, c),
            seen_a <==> exists|k: int| 0 <= k < i && relations@[k] == (RelationRole::Residual { tested: a }),
            seen_b <==> exists|k: int| 0 <= k < i && relations@[k] == (RelationRole::Residual { tested: b }),
            seen_c <==> exists|k: int| 0 <= k < i && relations@[k] == (RelationRole::Residual { tested: c }),
        decreases relations@.len() - i,
    {
        match relations[i] {
            RelationRole::Residual { tested: t } => {
                if t != a && t != b && t != c {
                    proof {
                        assert(relations@[i as int] == (RelationRole::Residual { tested: t }));
                        assert(tested.contains(t));
                        assert(!set![a, b, c].contains(t));
                    }
                    return false;
                }
                if t == a {
                    seen_a = true;
                }
                if t == b {
                    seen_b = true;
                }
                if t == c {
                    seen_c = true;
                }
            },
            _ => {},
        }
        i = i + 1;
    }
    proof {
        if seen_a && seen_b && seen_c {
            assert forall|t: RawId| tested.contains(t) <==> set![a, b, c].contains(t) by {
                if tested.contains(t) {
                    let k = choose|k: int| 0 <= k < relations@.len() && relations@[k] == (RelationRole::Residual { tested: t });
                    assert(residual_among(relations@[k], a, b, c));
                }
            }
            assert(tested =~= set![a, b, c]);
        } else if tested == set![a, b, c] {
            assert(set![a, b, c].contains(a) && set![a, b, c].contains(b) && set![a, b, c].contains(c));
        }
    }
    seen_a && seen_b && seen_c
}

/// `roles` are the projection roles that `equations` and `plan` determine.
pub open spec fn derived_roles(equations: EquationRoles, plan: RolePlan, roles: FsiRoles) -> bool {
    let q = plan.quotients@[0];
    &&& roles.connection == q.connection
    &&& roles.fluid_velocity == fluid_endpoint(q, plan.rate).field
    &&& roles.solid_velocity == solid_endpoint(q, plan.rate).field
    &&& roles.pressure == unique_pressure(equations, plan)
    &&& keys_increasing(roles.bindings@)
    &&& forall|f: RawId| #[trigger] last_value(roles.bindings@, f) == last_value(
        field_bindings(plan.domains@),
        f,
    )
}

impl FsiRoles {
    /// Derive the projection roles of one FSI step.
    ///
    /// The equations must carry exactly the kinematic relation of the Plan's
    /// eliminated state and rate, and the Plan exactly one trace quotient,
    /// one endpoint of which carries the state rate (the solid velocity) and
    /// the other another velocity (the fluid velocity). Exactly one Field
    /// must test the constraints on the fluid velocity (the pressure). These
    /// three Fields must be exactly the Fields bound by the Plan and exactly
    /// the Fields testing residuals; the fluid velocity must live in the
    /// MINI space and the pressure in P1 on the fluid Domain, the solid
    /// velocity in P1 on the solid Domain, each owned there by the equations.
    /// The first failing check is reported.
    pub fn derive(equations: &EquationRoles, plan: &RolePlan) -> (result: Result<FsiRoles, Diagnostic>)
        ensures
            result is Ok <==> roles_fault(*equations, *plan) is None,
            result matches Err(e) ==> roles_fault(*equations, *plan) == Some(e),
            result matches Ok(roles) ==> derived_roles(*equations, *plan, roles),
    {
        let rate = plan.rate;
        let pairs = kinematic_pairs_of(&equations.relations);
        if !(pairs.len() == 1 && pairs[0].0 == plan.state && pairs[0].1 == rate) {
            proof {
                if kinematic_pairs(equations.relations@) == seq![(plan.state, rate)] {
                    assert(pairs@[0] == (plan.state, rate));
                }
            }
            return Err(Diagnostic::StateRateMismatch);
        }
        assert(pairs@ =~= seq![(plan.state, rate)]);
        if plan.quotients.len() != 1 {
            return Err(Diagnostic::PluralTraceQuotients);
        }
        let quotient = plan.quotients[0];
        if quotient.first.field != rate && quotient.second.field != rate {
            return Err(Diagnostic::QuotientOmitsStateRate);
        }
        if quotient.first.field == rate && quotient.second.field == rate {
            return Err(Diagnostic::NoCoupledVelocity);
        }
        let solid = if quotient.first.field == rate {
            quotient.first
        } else {
            quotient.second
        };
        let fluid = if quotient.first.field != rate {
            quotient.first
        } else {
            quotient.second
        };
        let pressure = match unique_constraint_test(&equations.constraints, fluid.field) {
            Some(pressure) => pressure,
            None => return Err(Diagnostic::PressureConstraintNotUnique),
        };
        proof {
            let tests = constraint_tests(equations.constraints@, fluid.field);
            assert(tests == set![unique_pressure(*equations, *plan)]);
            assert(set![pressure].contains(unique_pressure(*equations, *plan)));
        }
        let bindings = bind_fields(&plan.domains);
        proof {
            assert(Set::new(|f: RawId| last_value(bindings@, f) is Some) =~= bound_fields(plan.domains@));
        }
        if !keys_are(&bindings, fluid.field, pressure, solid.field) || !tested_are(
            &equations.relations,
            fluid.field,
            pressure,
            solid.field,
        ) {
            return Err(Diagnostic::AdditionalFieldRoles);
        }
        let p1 = DiscreteSpace::ContinuousLagrange { degree: 1 };
        let fits_fluid = fits(equations, &bindings, fluid.field, fluid.domain, DiscreteSpace::SimplexP1Bubble);
        let fits_pressure = fits(equations, &bindings, pressure, fluid.domain, p1);
        let fits_solid = fits(equations, &bindings, solid.field, solid.domain, p1);
        if !fits_fluid || !fits_pressure || !fits_solid {
            return Err(Diagnostic::RoleSpaceMismatch);
        }
        Ok(FsiRoles {
            connection: quotient.connection,
            fluid_velocity: fluid.field,
            pressure,
            solid_velocity: solid.field,
            bindings,
        })
    }
}

/// Whether `field` is bound in `domain` with `space` and owned by `domain`
/// in the equations.
fn fits(
    equations: &EquationRoles,
    bindings: &Vec<(RawId, (RawId, DiscreteSpace))>,
    field: RawId,
    domain: RawId,
    space: DiscreteSpace,
) -> (fit: bool)
    ensures
        fit <==> last_value(bindings@, field) == Some((domain, space)) && last_value(
            equations.fields@,
            field,
        ) == Some(domain),
{
    let bound = match last_lookup(bindings, field) {
        Some((d, s)) => d == domain && s == space,
        None => false,
    };
    let owned = match last_lookup(&equations.fields, field) {
        Some(owner) => owner == domain,
        None => false,
    };
    bound && owned
}

/// Each entry of either sequence occurs in the other.
pub open spec fn same_entries<A>(s: Seq<A>, t: Seq<A>) -> bool {
    &&& forall|i: int| 0 <= i < s.len() ==> t.contains(#[trigger] s[i])
    &&& forall|j: int| 0 <= j < t.len() ==> s.contains(#[trigger] t[j])
}

/// The roles read the Plan's Field bindings as a map.
///
/// Two Plans with the same eliminated state, rate and trace quotients that
/// bind the same Fields to the same Domains and spaces, each Field once,
/// listed in any Domain order and any Field order, give the same verdict and
/// the same roles.
pub proof fn lemma_roles_ignore_inventory_order(
    equations: EquationRoles,
    p1: RolePlan,
    p2: RolePlan,
)
    requires
        p1.state == p2.state,
        p1.rate == p2.rate,
        p1.quotients@ == p2.quotients@,
        distinct_keys(field_bindings(p1.domains@)),
        distinct_keys(field_bindings(p2.domains@)),
        same_entries(field_bindings(p1.domains@), field_bindings(p2.domains@)),
    ensures
        roles_fault(equations, p1) == roles_fault(equations, p2),
        forall|roles: FsiRoles|
            #[trigger] derived_roles(equations, p1, roles) <==> derived_roles(equations, p2, roles),
{
    let b1 = field_bindings(p1.domains@);
    let b2 = field_bindings(p2.domains@);
    assert forall|f: RawId| #[trigger] last_value(b1, f) == last_value(b2, f) by {
        lemma_last_value_distinct(b1, f);
        lemma_last_value_distinct(b2, f);
        if last_value(b1, f) is Some {
            let i = choose|i: int| 0 <= i < b1.len() && b1[i].0 == f;
            assert(b2.contains(b1[i]));
            let j = choose|j: int| 0 <= j < b2.len() && b2[j] == b1[i];
        } else if last_value(b2, f) is Some {
            let j = choose|j: int| 0 <= j < b2.len() && b2[j].0 == f;
            assert(b1.contains(b2[j]));
            let i = choose|i: int| 0 <= i < b1.len() && b1[i] == b2[j];
        }
    }
    assert(bound_fields(p1.domains@) =~= bound_fields(p2.domains@));
    assert(unique_pressure(equations, p1) == unique_pressure(equations, p2));
}

/// What admitted roles mean. When the derivation succeeds:
/// the equations carry exactly one kinematic relation, the Plan's state and
/// rate; the Plan has exactly one quotient, with exactly one endpoint on the
/// state rate; the roles name its Connection, that endpoint's Field as the
/// solid velocity and the other endpoint's Field as the fluid velocity; the
/// pressure is the one Field testing constraints on the fluid velocity; the
/// fluid velocity is bound in MINI and the pressure in P1 on the fluid
/// endpoint's Domain, the solid velocity in P1 on the solid endpoint's
/// Domain, each owned there by the equations; and these three Fields are
/// exactly the bound Fields and exactly the Fields testing residuals.
pub proof fn lemma_derived_roles_meaning(equations: EquationRoles, plan: RolePlan, roles: FsiRoles)
    requires
        roles_fault(equations, plan) is None,
        derived_roles(equations, plan, roles),
    ensures
        ({
            let q = plan.quotients@[0];
            let p1 = DiscreteSpace::ContinuousLagrange { degree: 1 };
            let bound = field_bindings(plan.domains@);
            let (solid, fluid) = if q.first.field == plan.rate {
                (q.first, q.second)
            } else {
                (q.second, q.first)
            };
            &&& kinematic_pairs(equations.relations@) == seq![(plan.state, plan.rate)]
            &&& plan.quotients@.len() == 1
            &&& (q.first.field == plan.rate) != (q.second.field == plan.rate)
            &&& roles.connection == q.connection
            &&& roles.solid_velocity == plan.rate && roles.solid_velocity == solid.field
            &&& roles.fluid_velocity == fluid.field && roles.fluid_velocity != plan.rate
            &&& forall|t: RawId|
                #[trigger] equations.constraints@.contains((roles.fluid_velocity, t)) <==> t
                    == roles.pressure
            &&& last_value(bound, roles.fluid_velocity) == Some((fluid.domain, DiscreteSpace::SimplexP1Bubble))
            &&& last_value(bound, roles.pressure) == Some((fluid.domain, p1))
            &&& last_value(bound, roles.solid_velocity) == Some((solid.domain, p1))
            &&& last_value(equations.fields@, roles.fluid_velocity) == Some(fluid.domain)
            &&& last_value(equations.fields@, roles.pressure) == Some(fluid.domain)
            &&& last_value(equations.fields@, roles.solid_velocity) == Some(solid.domain)
            &&& forall|f: RawId|
                #[trigger] last_value(bound, f) is Some <==> (f == roles.fluid_velocity || f
                    == roles.pressure || f == roles.solid_velocity)
            &&& forall|f: RawId|
                #[trigger] equations.relations@.contains((RelationRole::Residual { tested: f }))
                    <==> (f == roles.fluid_velocity || f == roles.pressure || f == roles.solid_velocity)
            &&& forall|f: RawId| #[trigger] last_value(roles.bindings@, f) == last_value(bound, f)
        }),
{
    let q = plan.quotients@[0];
    let fluid = fluid_endpoint(q, plan.rate);
    let p = unique_pressure(equations, plan);
    let tests = constraint_tests(equations.constraints@, fluid.field);
    assert(tests == set![p]);
    assert forall|t: RawId|
        #[trigger] equations.constraints@.contains((roles.fluid_velocity, t)) <==> t == roles.pressure by {
        assert(tests.contains(t) <==> set![p].contains(t));
    }
    let expected = set![fluid.field, p, solid_endpoint(q, plan.rate).field];
    assert forall|f: RawId| #[trigger] last_value(field_bindings(plan.domains@), f) is Some <==> (f
        == roles.fluid_velocity || f == roles.pressure || f == roles.solid_velocity) by {
        assert(bound_fields(plan.domains@).contains(f) <==> expected.contains(f));
    }
    assert forall|f: RawId|
        #[trigger] equations.relations@.contains((RelationRole::Residual { tested: f })) <==> (f
            == roles.fluid_velocity || f == roles.pressure || f == roles.solid_velocity) by {
        assert(tested_fields(equations.relations@).contains(f) <==> expected.contains(f));
    }
}

} // verus!
