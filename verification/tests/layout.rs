use eqiora_numerics::ale_fields::{fluid_local_size, fluid_pressure_offset, solid_local_size};
use eqiora_numerics::contract::{require_supported_dimension, FixedReferenceFsiLoad};
use eqiora_numerics::evidence::validate_interface_order;
use eqiora_numerics::mini_transient;
use eqiora_numerics::motion::{require_dense_motion_budget, MAX_DENSE_MOTION_COEFFICIENTS};
use eqiora_numerics::navier_stokes::{
    local_velocity, require_pressure_policy, PacketEvaluations, PressureReferenceKind2d,
    COMPONENTS,
};
use eqiora_numerics::sorted::{contains_index, insert_sorted_unique, sorted_position};
use eqiora_numerics::Diagnostic;

#[test]
fn ale_field_layout_places_pressure_after_velocity() {
    assert_eq!(fluid_pressure_offset::<2>(), 8);
    assert_eq!(fluid_local_size::<2>(), 11);
    assert_eq!(solid_local_size::<2>(), 6);
    assert_eq!(fluid_pressure_offset::<3>(), 15);
    assert_eq!(fluid_local_size::<3>(), 19);
    assert_eq!(solid_local_size::<3>(), 12);
    // Velocity rows come first, then one pressure row per vertex.
    assert_eq!(fluid_local_size::<2>() - fluid_pressure_offset::<2>(), 3);
}

#[test]
fn local_velocity_interleaves_components() {
    assert_eq!(COMPONENTS, 2);
    assert_eq!(local_velocity(0, 0), 0);
    assert_eq!(local_velocity(3, 1), 7);
    assert_eq!(mini_transient::local_velocity::<3>(2, 2), 8);
    assert_eq!(mini_transient::local_velocity::<2>(3, 1), 7);
}

#[test]
fn supported_dimensions_are_two_and_three() {
    assert_eq!(require_supported_dimension::<2>(), Ok(()));
    assert_eq!(require_supported_dimension::<3>(), Ok(()));
    assert_eq!(require_supported_dimension::<1>(), Err(Diagnostic::UnsupportedDimension));
    assert_eq!(require_supported_dimension::<4>(), Err(Diagnostic::UnsupportedDimension));
    assert_eq!(FixedReferenceFsiLoad::default(), FixedReferenceFsiLoad::Zero);
}

#[test]
fn pressure_policy_requires_gauge_exactly_for_zero_integral() {
    assert_eq!(require_pressure_policy(PressureReferenceKind2d::ZeroIntegral, true), Ok(()));
    assert_eq!(require_pressure_policy(PressureReferenceKind2d::BoundaryTraction, false), Ok(()));
    assert_eq!(
        require_pressure_policy(PressureReferenceKind2d::ZeroIntegral, false),
        Err(Diagnostic::PressureClosureMismatch)
    );
    assert_eq!(
        require_pressure_policy(PressureReferenceKind2d::BoundaryTraction, true),
        Err(Diagnostic::PressureClosureMismatch)
    );
}

#[test]
fn packet_evaluations_count_by_class_and_reset() {
    let mut evaluations = PacketEvaluations::new();
    assert_eq!(evaluations.packet_evaluations(), [0, 0, 0]);
    // Cells 0..2, constraints 2..5, gauges from 5 on.
    for packet in [0, 1, 2, 5, 6, 1] {
        evaluations.record(packet, 2, 5);
    }
    assert_eq!(evaluations.packet_evaluations(), [3, 1, 2]);
    evaluations.reset_packet_evaluations();
    assert_eq!(evaluations.packet_evaluations(), [0, 0, 0]);
}

#[test]
fn dense_motion_budget_bounds_peak_storage() {
    // 2 * 100^2 + 2 * 100 * 10 coefficients.
    assert_eq!(require_dense_motion_budget(100, 10), Ok(22_000));
    assert_eq!(require_dense_motion_budget(0, 5), Err(Diagnostic::NoFluidInterior));
    assert_eq!(require_dense_motion_budget(2000, 0), Ok(MAX_DENSE_MOTION_COEFFICIENTS));
    assert_eq!(
        require_dense_motion_budget(2000, 1),
        Err(Diagnostic::DenseMotionBudgetExceeded)
    );
    assert_eq!(
        require_dense_motion_budget(usize::MAX, 1),
        Err(Diagnostic::DenseWidthOverflow)
    );
}

#[test]
fn interface_order_requires_strictly_increasing_vertices() {
    assert_eq!(validate_interface_order(&[1, 4, 7]), Ok(()));
    assert_eq!(validate_interface_order(&[4]), Ok(()));
    assert_eq!(validate_interface_order(&[]), Err(Diagnostic::InterfaceOrderInvalid));
    assert_eq!(validate_interface_order(&[1, 4, 4]), Err(Diagnostic::InterfaceOrderInvalid));
    assert_eq!(validate_interface_order(&[4, 1]), Err(Diagnostic::InterfaceOrderInvalid));
}

#[test]
fn sorted_sets_insert_and_locate_indices() {
    let mut set = Vec::new();
    for x in [5, 1, 9, 5, 3] {
        insert_sorted_unique(&mut set, x);
    }
    assert_eq!(set, vec![1, 3, 5, 9]);
    assert!(!insert_sorted_unique(&mut set, 9));
    assert!(insert_sorted_unique(&mut set, 0));
    assert_eq!(set, vec![0, 1, 3, 5, 9]);
    assert!(contains_index(&set, 3));
    assert!(!contains_index(&set, 4));
    assert_eq!(sorted_position(&set, 0), Some(0));
    assert_eq!(sorted_position(&set, 9), Some(4));
    assert_eq!(sorted_position(&set, 5), Some(3));
    assert_eq!(sorted_position(&set, 4), None);
    assert_eq!(sorted_position(&vec![], 4), None);
}
