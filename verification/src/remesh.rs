//! Shape checks of the dense reference operators of the ALE remesh projection.

use vstd::prelude::*;

use crate::diagnostic::Diagnostic;

verus! {

/// `value` is the square of a positive integer.
pub open spec fn is_positive_square(value: nat) -> bool {
    exists|root: nat| root > 0 && #[trigger] (root * root) == value
}

proof fn lemma_square_monotone(a: nat, b: nat)
    requires
        a <= b,
    ensures
        a * a <= b * b,
{
    assert(a * a <= b * b) by (nonlinear_arith)
        requires
            a <= b,
    ;
}

/// Side of a square dense matrix stored with `value` coefficients.
pub fn integer_sqrt(value: usize) -> (result: Result<usize, Diagnostic>)
    ensures
        result is Ok <==> is_positive_square(value as nat),
        result matches Ok(root) ==> root > 0 && root * root == value,
        result is Err ==> result == Err::<usize, Diagnostic>(Diagnostic::DenseShapeNotSquare),
{
    // Largest `lo` with `lo * lo <= value`, searched in `[lo, hi)`.
    let v: u128 = value as u128;
    let mut lo: u128 = 0;
    let mut hi: u128 = v + 1;
    proof {
        assert((v + 1) * (v + 1) > v) by (nonlinear_arith)
            requires
                v >= 0,
        ;
    }
    while hi - lo > 1
        invariant
            v == value,
            lo < hi,
            hi <= v + 1,
            lo * lo <= v,
            hi * hi > v,
        decreases hi - lo,
    {
        let mid: u128 = lo + (hi - lo) / 2;
        assert(mid * mid <= v * v) by (nonlinear_arith)
            requires
                mid <= v,
                0 <= mid,
        ;
        assert(v * v <= 0xffff_ffff_ffff_ffff * 0xffff_ffff_ffff_ffff) by (nonlinear_arith)
            requires
                v <= 0xffff_ffff_ffff_ffff,
                0 <= v,
        ;
        if mid * mid <= v {
            lo = mid;
        } else {
            hi = mid;
        }
    }
    assert(hi == lo + 1);
    let root = lo as usize;
    assert(lo * lo <= v * v) by (nonlinear_arith)
        requires
            lo <= v,
            0 <= lo,
    ;
    assert(v * v <= 0xffff_ffff_ffff_ffff * 0xffff_ffff_ffff_ffff) by (nonlinear_arith)
        requires
            v <= 0xffff_ffff_ffff_ffff,
            0 <= v,
    ;
    if lo * lo == v && lo > 0 {
        proof {
            assert(((lo as nat) * (lo as nat)) == value as nat);
        }
        Ok(root)
    } else {
        proof {
            if is_positive_square(value as nat) {
                let r = choose|r: nat| r > 0 && #[trigger] (r * r) == value as nat;
                if r <= lo {
                    if r < lo {
                        assert(r * r < lo * lo) by (nonlinear_arith)
                            requires
                                r < lo,
                                0 <= r,
                        ;
                    }
                } else {
                    lemma_square_monotone(hi as nat, r);
                }
            }
        }
        Err(Diagnostic::DenseShapeNotSquare)
    }
}

/// Zeroed square dense matrix of side `dimension`, stored row by row.
///
/// The request fails before the coefficient count `dimension * dimension`
/// could overflow.
pub fn dense_zeroed<T: Default + Clone>(dimension: usize) -> (result: Result<Vec<T>, Diagnostic>)
    ensures
        result is Ok <==> dimension * dimension <= usize::MAX,
        result matches Ok(matrix) ==> matrix@.len() == dimension * dimension,
        result matches Ok(matrix) ==> exists|zero: T|
            call_ensures(T::default, (), zero) && forall|i: int|
                0 <= i < matrix@.len() ==> cloned::<T>(zero, #[trigger] matrix@[i]),
        result is Err ==> result matches Err(Diagnostic::DenseShapeOverflow),
{
    let count = match dimension.checked_mul(dimension) {
        Some(count) => count,
        None => {
            return Err(Diagnostic::DenseShapeOverflow);
        },
    };
    let zero = T::default();
    Ok(vec![zero; count])
}

/// The coefficient count of a dense square matrix of positive side `d` is a
/// positive square whose only positive root is `d`: the side that
/// `integer_sqrt` recovers from a matrix of `dense_zeroed(d)` is `d`.
pub proof fn lemma_dense_side_round_trip(d: nat, root: nat)
    requires
        d > 0,
    ensures
        is_positive_square(d * d),
        root > 0 && root * root == d * d ==> root == d,
{
    assert(d * d == d * d);
    if root > 0 && root * root == d * d {
        if root < d {
            assert(root * root < d * d) by (nonlinear_arith)
                requires
                    root < d,
            ;
        } else if root > d {
            assert(d * d < root * root) by (nonlinear_arith)
                requires
                    d < root,
            ;
        }
    }
}

} // verus!
