//! Order of the interface actions carried by the evidence of an accepted
//! fixed-topology ALE FSI step.

use vstd::prelude::*;

use crate::diagnostic::Diagnostic;
use crate::sorted::strictly_increasing;

verus! {

/// Require interface actions, given by their vertices, to be non-empty and
/// in strictly increasing vertex order.
pub fn validate_interface_order(vertices: &[usize]) -> (result: Result<(), Diagnostic>)
    ensures
        result is Ok <==> vertices@.len() > 0 && strictly_increasing(vertices@),
        result is Err ==> result == Err::<(), Diagnostic>(Diagnostic::InterfaceOrderInvalid),
{
    if vertices.len() == 0 {
        return Err(Diagnostic::InterfaceOrderInvalid);
    }
    let mut k: usize = 1;
    while k < vertices.len()
        invariant
            1 <= k <= vertices@.len(),
            forall|a: int, b: int| 0 <= a < b < k ==> vertices@[a] < vertices@[b],
        decreases vertices@.len() - k,
    {
        if vertices[k - 1] >= vertices[k] {
            return Err(Diagnostic::InterfaceOrderInvalid);
        }
        k = k + 1;
    }
    Ok(())
}

} // verus!
