//! Verified index, topology and partition logic of the simplicial
//! fluid-structure interaction discretizations.

mod diagnostic;
pub mod ale_fields;
pub mod topology;
pub mod sorted;
pub mod contract;
pub mod connectivity;
pub mod partition;
pub mod navier_stokes;
pub mod mini_transient;
pub mod remesh;
pub mod projection;
pub mod motion;
pub mod evidence;
pub mod roles;

pub use diagnostic::Diagnostic;
