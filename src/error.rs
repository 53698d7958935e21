use vstd::prelude::*;
use crate::token::Token;

verus! {

/// What went wrong at run time.
#[derive(Clone, Copy, Debug, PartialEq, Eq, Structural)]
pub enum RuntimeErrorKind {
    /// A read or an assignment of a name that no scope binds.
    UndefinedVariable,
    /// An operator applied to values of types it does not take.
    OperandTypeError,
    /// Division by zero.
    DivisionByZero,
    /// An `if` whose condition is not a boolean.
    ConditionTypeError,
    /// An arithmetic result whose numerator or denominator does not fit in 64 bits.
    NumberOverflow,
    /// A token in operator position that is no operator of its node.
    UnsupportedOperator,
    /// A `while` loop that ran past the interpreter's iteration limit.
    StepLimitExceeded,
}

/// A runtime error: its kind, and the token it arose at, where there is one.
#[derive(Clone, Debug)]
pub struct RuntimeError {
    pub token: Option<Token>,
    pub kind: RuntimeErrorKind,
}

impl RuntimeError {
    pub fn new(token: &Token, kind: RuntimeErrorKind) -> (r: RuntimeError)
        ensures
            r == (RuntimeError { token: Some(*token), kind }),
    {
        RuntimeError { token: Some(token.duplicate()), kind }
    }

    /// A runtime error that no token marks.
    pub fn at_no_token(kind: RuntimeErrorKind) -> (r: RuntimeError)
        ensures
            r == (RuntimeError { token: None, kind }),
    {
        RuntimeError { token: None, kind }
    }
}

} // verus!
