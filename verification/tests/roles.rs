use eqiora_numerics::roles::{
    DiscreteSpace, DomainFields, EquationRoles, FieldSpaceBinding, FsiRoles, RelationRole,
    RolePlan,
};
use eqiora_numerics::topology::{ConformingTraceQuotient, TraceEndpoint};
use eqiora_numerics::Diagnostic;

const FLUID: u64 = 1;
const SOLID: u64 = 2;
const FLUID_VELOCITY: u64 = 10;
const SOLID_VELOCITY: u64 = 11;
const PRESSURE: u64 = 12;
const DISPLACEMENT: u64 = 13;
const INTERFACE: u64 = 100;

const P1: DiscreteSpace = DiscreteSpace::ContinuousLagrange { degree: 1 };

fn quotient() -> ConformingTraceQuotient {
    ConformingTraceQuotient {
        connection: INTERFACE,
        first: TraceEndpoint { domain: FLUID, field: FLUID_VELOCITY },
        second: TraceEndpoint { domain: SOLID, field: SOLID_VELOCITY },
    }
}

fn fixture() -> (EquationRoles, RolePlan) {
    let equations = EquationRoles {
        relations: vec![
            RelationRole::Residual { tested: FLUID_VELOCITY },
            RelationRole::Residual { tested: PRESSURE },
            RelationRole::Kinematic { state: DISPLACEMENT, rate: SOLID_VELOCITY },
            RelationRole::Residual { tested: SOLID_VELOCITY },
            RelationRole::Other,
        ],
        constraints: vec![(FLUID_VELOCITY, PRESSURE)],
        fields: vec![
            (FLUID_VELOCITY, FLUID),
            (SOLID_VELOCITY, SOLID),
            (PRESSURE, FLUID),
            (DISPLACEMENT, SOLID),
        ],
    };
    let plan = RolePlan {
        domains: vec![
            DomainFields {
                domain: FLUID,
                fields: vec![
                    FieldSpaceBinding { field: FLUID_VELOCITY, space: DiscreteSpace::SimplexP1Bubble },
                    FieldSpaceBinding { field: PRESSURE, space: P1 },
                ],
            },
            DomainFields {
                domain: SOLID,
                fields: vec![FieldSpaceBinding { field: SOLID_VELOCITY, space: P1 }],
            },
        ],
        state: DISPLACEMENT,
        rate: SOLID_VELOCITY,
        quotients: vec![quotient()],
    };
    (equations, plan)
}

fn same_roles(a: &FsiRoles, b: &FsiRoles) -> bool {
    a.connection == b.connection
        && a.fluid_velocity == b.fluid_velocity
        && a.pressure == b.pressure
        && a.solid_velocity == b.solid_velocity
        && a.bindings == b.bindings
}

#[test]
fn roles_follow_exact_equations_and_permuted_plan_inventory() {
    let (equations, plan) = fixture();
    let expected = FsiRoles::derive(&equations, &plan).unwrap();
    let mut reversed = plan.clone();
    reversed.domains.reverse();
    for domain in &mut reversed.domains {
        domain.fields.reverse();
    }
    assert!(same_roles(&expected, &FsiRoles::derive(&equations, &reversed).unwrap()));
    assert_eq!(expected.solid_velocity, plan.rate);
    assert_ne!(expected.fluid_velocity, expected.pressure);
}

#[test]
fn derived_roles_name_each_field_and_its_binding() {
    let (equations, plan) = fixture();
    let roles = FsiRoles::derive(&equations, &plan).unwrap();
    assert_eq!(roles.connection, INTERFACE);
    assert_eq!(roles.fluid_velocity, FLUID_VELOCITY);
    assert_eq!(roles.pressure, PRESSURE);
    assert_eq!(roles.solid_velocity, SOLID_VELOCITY);
    assert_eq!(
        roles.bindings,
        vec![
            (FLUID_VELOCITY, (FLUID, DiscreteSpace::SimplexP1Bubble)),
            (SOLID_VELOCITY, (SOLID, P1)),
            (PRESSURE, (FLUID, P1)),
        ]
    );
    // The endpoint carrying the state rate is the solid side, wherever it stands.
    let mut swapped = plan.clone();
    swapped.quotients[0] = ConformingTraceQuotient {
        connection: INTERFACE,
        first: quotient().second,
        second: quotient().first,
    };
    let roles = FsiRoles::derive(&equations, &swapped).unwrap();
    assert_eq!(roles.fluid_velocity, FLUID_VELOCITY);
    assert_eq!(roles.solid_velocity, SOLID_VELOCITY);
}

#[test]
fn roles_reject_stale_missing_equations_layout_and_plural_projection() {
    let (equations, plan) = fixture();
    let roles = FsiRoles::derive(&equations, &plan).unwrap();
    let mut stale = equations.clone();
    for (field, owner) in &mut stale.fields {
        if *field == roles.fluid_velocity {
            *owner = 77;
        }
    }
    assert!(FsiRoles::derive(&stale, &plan).is_err());
    let mut missing = equations.clone();
    missing.fields.retain(|(field, _)| *field != roles.pressure);
    assert!(FsiRoles::derive(&missing, &plan).is_err());
    let mut extra_role = equations.clone();
    extra_role.relations.push(RelationRole::Residual { tested: 99 });
    assert!(FsiRoles::derive(&extra_role, &plan).is_err());
    let mut foreign_scalar_residual = equations.clone();
    foreign_scalar_residual.constraints.clear();
    assert!(FsiRoles::derive(&foreign_scalar_residual, &plan).is_err());
    let mut missing_rate = equations.clone();
    missing_rate
        .relations
        .retain(|r| !matches!(r, RelationRole::Kinematic { .. }));
    assert!(FsiRoles::derive(&missing_rate, &plan).is_err());
    let mut quadratic = plan.clone();
    for domain in &mut quadratic.domains {
        for binding in &mut domain.fields {
            if binding.field == roles.pressure {
                binding.space = DiscreteSpace::ContinuousLagrange { degree: 2 };
            }
        }
    }
    assert!(FsiRoles::derive(&equations, &quadratic).is_err());
    let mut plural = plan.clone();
    plural.quotients.push(ConformingTraceQuotient { connection: 101, ..quotient() });
    assert!(FsiRoles::derive(&equations, &plural).is_err());
}

#[test]
fn role_derivation_reports_each_failing_check() {
    let (equations, plan) = fixture();
    let derive = |e: &EquationRoles, p: &RolePlan| FsiRoles::derive(e, p).err();
    let mut twice = equations.clone();
    twice.relations.push(RelationRole::Kinematic { state: DISPLACEMENT, rate: SOLID_VELOCITY });
    assert_eq!(derive(&twice, &plan), Some(Diagnostic::StateRateMismatch));
    let mut other_state = plan.clone();
    other_state.state = 14;
    assert_eq!(derive(&equations, &other_state), Some(Diagnostic::StateRateMismatch));
    let mut none = plan.clone();
    none.quotients.clear();
    assert_eq!(derive(&equations, &none), Some(Diagnostic::PluralTraceQuotients));
    let mut omitted = plan.clone();
    omitted.quotients[0].second.field = 15;
    assert_eq!(derive(&equations, &omitted), Some(Diagnostic::QuotientOmitsStateRate));
    let mut same = plan.clone();
    same.quotients[0].first.field = SOLID_VELOCITY;
    assert_eq!(derive(&equations, &same), Some(Diagnostic::NoCoupledVelocity));
    let mut two_pressures = equations.clone();
    two_pressures.constraints.push((FLUID_VELOCITY, 16));
    assert_eq!(derive(&two_pressures, &plan), Some(Diagnostic::PressureConstraintNotUnique));
    let mut repeated = equations.clone();
    repeated.constraints.push((FLUID_VELOCITY, PRESSURE));
    repeated.constraints.push((SOLID_VELOCITY, 16));
    assert!(derive(&repeated, &plan).is_none());
    let mut extra_field = plan.clone();
    extra_field.domains[1].fields.push(FieldSpaceBinding { field: DISPLACEMENT, space: P1 });
    assert_eq!(derive(&equations, &extra_field), Some(Diagnostic::AdditionalFieldRoles));
    let mut untested = equations.clone();
    untested.relations.retain(|r| *r != RelationRole::Residual { tested: PRESSURE });
    assert_eq!(derive(&untested, &plan), Some(Diagnostic::AdditionalFieldRoles));
    let mut moved = plan.clone();
    moved.domains[0].domain = 3;
    assert_eq!(derive(&equations, &moved), Some(Diagnostic::RoleSpaceMismatch));
    let mut p1_velocity = plan.clone();
    p1_velocity.domains[0].fields[0].space = P1;
    assert_eq!(derive(&equations, &p1_velocity), Some(Diagnostic::RoleSpaceMismatch));
    let mut solid_owner = equations.clone();
    solid_owner.fields[1].1 = FLUID;
    assert_eq!(derive(&solid_owner, &plan), Some(Diagnostic::RoleSpaceMismatch));
}

#[test]
fn a_field_bound_twice_takes_its_last_binding() {
    let (equations, plan) = fixture();
    let mut rebound = plan.clone();
    rebound.domains[1]
        .fields
        .push(FieldSpaceBinding { field: PRESSURE, space: P1 });
    // The later binding places the pressure in the solid Domain.
    assert_eq!(
        FsiRoles::derive(&equations, &rebound).err(),
        Some(Diagnostic::RoleSpaceMismatch)
    );
    rebound.domains.reverse();
    assert!(FsiRoles::derive(&equations, &rebound).is_ok());
}
