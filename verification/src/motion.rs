//! Admission checks of the sealed P1 harmonic ALE mesh motion.
//!
//! Solid displacement drives the fluid mesh through one conforming interface;
//! the bounded dense reference action stores the interior stiffness and the
//! interior/driver influence columns.

use vstd::prelude::*;

use crate::diagnostic::Diagnostic;
use crate::partition::FixedReferenceFsiPartition;
use crate::topology::{ConformingTraceQuotient, RawId};

verus! {

/// Peak number of dense coefficients the reference motion action may hold.
pub const MAX_DENSE_MOTION_COEFFICIENTS: usize = 8_000_000;

/// The partition consists of exactly the fluid and solid Domains of the
/// policy, glued by at least one quotient, every one of them on the policy's
/// interface Connection.
pub open spec fn motion_inventory(
    domains: Seq<RawId>,
    quotients: Seq<ConformingTraceQuotient>,
    fluid: RawId,
    solid: RawId,
    interface: RawId,
) -> bool {
    &&& domains.len() == 2
    &&& forall|k: int| 0 <= k < domains.len() ==> #[trigger] domains[k] == fluid || domains[k] == solid
    &&& quotients.len() > 0
    &&& forall|k: int| 0 <= k < quotients.len() ==> (#[trigger] quotients[k]).connection == interface
}

/// Require that a partition carries exactly the Domain/Connection inventory
/// of one harmonic motion policy.
pub fn require_motion_inventory<const D: usize>(
    partition: &FixedReferenceFsiPartition<D>,
    fluid: RawId,
    solid: RawId,
    interface: RawId,
) -> (result: Result<(), Diagnostic>)
    ensures
        result is Ok <==> motion_inventory(
            partition.domain_ids(),
            partition.quotient_list(),
            fluid,
            solid,
            interface,
        ),
        result is Err ==> result == Err::<(), Diagnostic>(Diagnostic::MotionInventoryMismatch),
{
    let domains = partition.domains();
    let quotients = partition.quotients();
    let ghost ds = partition.domain_ids();
    let ghost qs = partition.quotient_list();
    assert(domains@ == ds);
    assert(quotients@ == qs);
    if domains.len() != 2 || quotients.len() == 0 {
        return Err(Diagnostic::MotionInventoryMismatch);
    }
    let mut k: usize = 0;
    while k < domains.len()
        invariant
            k <= domains@.len(),
            domains@ == ds,
            quotients@ == qs,
            ds == partition.domain_ids(),
            qs == partition.quotient_list(),
            forall|j: int| 0 <= j < k ==> #[trigger] domains@[j] == fluid || domains@[j] == solid,
        decreases domains@.len() - k,
    {
        if domains[k] != fluid && domains[k] != solid {
            assert(!(domains@[k as int] == fluid || domains@[k as int] == solid));
            return Err(Diagnostic::MotionInventoryMismatch);
        }
        k = k + 1;
    }
    let mut k: usize = 0;
    while k < quotients.len()
        invariant
            k <= quotients@.len(),
            domains@ == ds,
            quotients@ == qs,
            ds == partition.domain_ids(),
            qs == partition.quotient_list(),
            domains@.len() == 2,
            quotients@.len() > 0,
            forall|j: int| 0 <= j < domains@.len() ==> #[trigger] domains@[j] == fluid || domains@[j] == solid,
            forall|j: int| 0 <= j < k ==> (#[trigger] quotients@[j]).connection == interface,
        decreases quotients@.len() - k,
    {
        if quotients[k].connection != interface {
            assert(quotients@[k as int].connection != interface);
            return Err(Diagnostic::MotionInventoryMismatch);
        }
        k = k + 1;
    }
    Ok(())
}

/// Peak dense storage of the reference action: the interior stiffness and
/// its factor, plus the driver stiffness and the influence columns.
pub open spec fn peak_coefficients(interior: nat, drivers: nat) -> nat {
    2 * (interior * interior) + 2 * (interior * drivers)
}

/// Admit the bounded dense reference action for `interior` solved fluid
/// vertices and `drivers` interface driver vertices, and return its peak
/// coefficient count.
pub fn require_dense_motion_budget(interior: usize, drivers: usize) -> (result: Result<
    usize,
    Diagnostic,
>)
    ensures
        interior == 0 ==> result == Err::<usize, Diagnostic>(Diagnostic::NoFluidInterior),
        interior > 0 && interior * interior > usize::MAX ==> result == Err::<usize, Diagnostic>(
            Diagnostic::DenseWidthOverflow,
        ),
        interior > 0 && interior * interior <= usize::MAX && interior * drivers > usize::MAX
            ==> result == Err::<usize, Diagnostic>(Diagnostic::InfluenceWidthOverflow),
        interior > 0 && interior * interior <= usize::MAX && interior * drivers <= usize::MAX
            && peak_coefficients(interior as nat, drivers as nat) > usize::MAX ==> result == Err::<
            usize,
            Diagnostic,
        >(Diagnostic::DenseStorageOverflow),
        interior > 0 && peak_coefficients(interior as nat, drivers as nat) <= usize::MAX
            && peak_coefficients(interior as nat, drivers as nat) > MAX_DENSE_MOTION_COEFFICIENTS
            ==> result == Err::<usize, Diagnostic>(Diagnostic::DenseMotionBudgetExceeded),
        interior > 0 && peak_coefficients(interior as nat, drivers as nat)
            <= MAX_DENSE_MOTION_COEFFICIENTS ==> result == Ok::<usize, Diagnostic>(
            peak_coefficients(interior as nat, drivers as nat) as usize,
        ),
{
    if interior == 0 {
        return Err(Diagnostic::NoFluidInterior);
    }
    let square = match interior.checked_mul(interior) {
        Some(square) => square,
        None => {
            return Err(Diagnostic::DenseWidthOverflow);
        },
    };
    let coupling = match interior.checked_mul(drivers) {
        Some(coupling) => coupling,
        None => {
            proof {
                assert(interior * interior <= usize::MAX);
            }
            return Err(Diagnostic::InfluenceWidthOverflow);
        },
    };
    let doubled_square = match square.checked_mul(2) {
        Some(value) => value,
        None => {
            return Err(Diagnostic::DenseStorageOverflow);
        },
    };
    let doubled_coupling = match coupling.checked_mul(2) {
        Some(value) => value,
        None => {
            return Err(Diagnostic::DenseStorageOverflow);
        },
    };
    let peak = match doubled_square.checked_add(doubled_coupling) {
        Some(value) => value,
        None => {
            return Err(Diagnostic::DenseStorageOverflow);
        },
    };
    if peak > MAX_DENSE_MOTION_COEFFICIENTS {
        return Err(Diagnostic::DenseMotionBudgetExceeded);
    }
    Ok(peak)
}

/// An admitted motion inventory has exactly two Domains, the fluid and the
/// solid Domain of the policy (so they differ), at least one quotient, and
/// every quotient of the partition lies on the interface Connection.
pub proof fn lemma_motion_inventory_meaning<const D: usize>(
    partition: FixedReferenceFsiPartition<D>,
    fluid: RawId,
    solid: RawId,
    interface: RawId,
)
    requires
        motion_inventory(partition.domain_ids(), partition.quotient_list(), fluid, solid, interface),
    ensures
        partition.quotient_list().len() > 0,
        forall|k: int|
            0 <= k < partition.quotient_list().len() ==> (#[trigger] partition.bindings()[k]).quotient.connection
                == interface,
        partition.domain_ids().len() == 2,
        forall|d: RawId| #[trigger] partition.domain_ids().contains(d) ==> d == fluid || d == solid,
{
    assert forall|k: int| 0 <= k < partition.quotient_list().len() implies (#[trigger] partition.bindings()[k]).quotient.connection
        == interface by {
        assert(partition.quotient_list()[k] == partition.bindings()[k].quotient);
    }
}

} // verus!
