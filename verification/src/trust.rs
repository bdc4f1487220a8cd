//! Fixed-point trust weights and the blended threshold shared by the
//! threshold-based engines.

use vstd::prelude::*;

verus! {

/// Number of fixed-point steps in one whole unit of trust: a trust weight of
/// `TRUST_UNIT` means full reliance on the prediction, `0` means none.
///
/// Trust weights are conceptually in `[0, TRUST_UNIT]`, but the stateless
/// engines use the caller-supplied value as given; an out-of-range weight
/// linearly extrapolates the blended threshold.
pub const TRUST_UNIT: i32 = 1000;

/// Numerator of the trust-blended threshold `(1 - trust) * base + trust * prediction`,
/// scaled by `TRUST_UNIT` (the denominator of the fixed-point trust weight).
pub open spec fn blend_num(base: int, prediction: int, trust: int) -> int {
    (TRUST_UNIT - trust) * base + trust * prediction
}

/// A value clamped to the trust range `[0, TRUST_UNIT]`.
pub open spec fn clamp_trust(t: int) -> int {
    if t < 0 {
        0
    } else if t > TRUST_UNIT as int {
        TRUST_UNIT as int
    } else {
        t
    }
}

/// With zero trust the prediction does not enter the blended threshold at all.
pub proof fn lemma_zero_trust_ignores_prediction(base: int, p1: int, p2: int)
    ensures
        blend_num(base, p1, 0) == blend_num(base, p2, 0),
{
}

/// Bounds a product from bounds on its factors: what the threshold
/// engines need to evaluate a blended threshold in fixed-width integers.
pub(crate) proof fn lemma_abs_mul_bound(a: int, b: int, ca: int, cb: int)
    by (nonlinear_arith)
    requires
        -ca <= a <= ca,
        -cb <= b <= cb,
    ensures
        -(ca * cb) <= a * b <= ca * cb,
{
}

} // verus!
