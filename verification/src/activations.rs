//! The squashing functions.
use vstd::prelude::*;
use crate::scalar::{power_of, quotient_of, sum_of, tangent_of, Arithmetic, Scalar};

verus! {

/// The squashing function applied where a node fires.
#[derive(Clone, Copy, Debug, PartialEq, Eq, Structural)]
pub enum ActivationKind {
    Sigmoid,
    Tanh,
    Linear,
    Relu,
}

/// What [`relu`] returns: `v` where zero is at most `v`, else zero.
pub open spec fn relu_spec(v: Scalar) -> Scalar {
    if Scalar::zero().at_most(v) {
        v
    } else {
        Scalar::zero()
    }
}

/// `r` is what the logistic function `1 / (1 + e^(-s))` comes to under `ops`:
/// `ops` raises Euler's number to `-s`, adds one, and divides one by the sum.
pub open spec fn logistic<A: Arithmetic>(ops: &A, s: Scalar, r: Scalar) -> bool {
    exists|e: Scalar, d: Scalar|
        #![trigger sum_of(ops, Scalar::one(), e, d)]
        power_of(ops, s.negated(), e) && sum_of(ops, Scalar::one(), e, d) && quotient_of(
            ops,
            Scalar::one(),
            d,
            r,
        )
}

/// `r` is what the function that `kind` names comes to on `v` under `ops`.
pub open spec fn squashed<A: Arithmetic>(ops: &A, kind: ActivationKind, v: Scalar, r: Scalar) -> bool {
    match kind {
        ActivationKind::Sigmoid => logistic(ops, v, r),
        ActivationKind::Tanh => tangent_of(ops, v, r),
        ActivationKind::Linear => r == v,
        ActivationKind::Relu => r == relu_spec(v),
    }
}

/// Applies the function that `kind` names to `v`.
pub fn activate<A: Arithmetic>(kind: ActivationKind, v: Scalar, ops: &A) -> (r: Scalar)
    ensures
        kind == ActivationKind::Linear ==> r == v,
        kind == ActivationKind::Relu ==> r == relu_spec(v),
        squashed(ops, kind, v, r),
{
    match kind {
        ActivationKind::Sigmoid => sigmoid(v, ops),
        ActivationKind::Tanh => tanh(v, ops),
        ActivationKind::Linear => linear(v),
        ActivationKind::Relu => relu(v),
    }
}

/// The logistic function `1 / (1 + e^(-s))`, computed by `ops`.
pub fn sigmoid<A: Arithmetic>(s: Scalar, ops: &A) -> (r: Scalar)
    ensures
        logistic(ops, s, r),
{
    let one = Scalar::one();
    let e = ops.exp(s.negate());
    let d = ops.plus(one, e);
    let r = ops.over(one, d);
    assert(power_of(ops, s.negated(), e) && sum_of(ops, Scalar::one(), e, d) && quotient_of(
        ops,
        Scalar::one(),
        d,
        r,
    ));
    r
}

/// The hyperbolic tangent, computed by `ops`.
pub fn tanh<A: Arithmetic>(s: Scalar, ops: &A) -> (r: Scalar)
    ensures
        tangent_of(ops, s, r),
{
    ops.tanh(s)
}

/// The identity.
pub fn linear(v: Scalar) -> (r: Scalar)
    ensures
        r == v,
{
    v
}

/// The positive part: `v` itself where it is zero or more, zero where it is
/// less or not a number.
pub fn relu(v: Scalar) -> (r: Scalar)
    ensures
        r == relu_spec(v),
{
    if Scalar::zero().le(v) {
        v
    } else {
        Scalar::zero()
    }
}

} // verus!
