//! The engine's error type.
//!
//! [`EngineError`] is returned for expected failures that depend on input: an
//! unknown variable, division by zero, a math-domain violation, source text the
//! lexer cannot tokenize, a token the parser did not expect, or a singular
//! matrix in the linear solver.

use vstd::prelude::*;

verus! {

#[derive(Debug)]
pub enum EngineError {
    /// A `Var` node's name is not among the inputs.
    UnknownVariable(String),
    /// `div(a, b)` with `b == 0`.
    DivByZero,
    /// `ln(x <= 0)`, `pow(negative, fractional)`, ...; the message says which.
    DomainError(String),
    /// The lexer met a character that cannot start any token.
    UnexpectedChar(char),
    /// A numeric run that is not a decimal number, e.g. `1.2.3`.
    InvalidNumber(String),
    /// The parser or the lowering met something it did not expect.
    UnexpectedToken { expected: String, found: String },
    /// A pivot stayed (near) zero during LU decomposition.
    SingularMatrix,
}

} // verus!
