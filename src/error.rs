use vstd::prelude::*;

verus! {

/// The ways in which a field or curve operation can fail.
#[derive(Debug, Clone, Copy, PartialEq, Eq, Structural)]
pub enum EccError {
    /// A field element's residue does not lie in `[0, prime)`.
    Range,
    /// Two field elements (or the points built from them) belong to different fields.
    MismatchedField,
    /// Division by the zero element of a field.
    DivisionByZero,
    /// The coordinates do not satisfy the curve equation.
    NotOnCurve,
    /// Two points lie on curves with different coefficients.
    MismatchedCurve,
    /// The addition law met an input it does not cover, such as a zero slope denominator.
    InvalidOperation,
}

} // verus!
