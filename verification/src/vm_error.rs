use vstd::prelude::*;

use crate::value_stack::ValueStackError;

verus! {

/// Various errors that are raised when executing java bytecode.
#[derive(Debug, PartialEq, Eq, Clone)]
pub enum VmError {
    ClassLoadingError(String),
    NullPointerException,
    ClassNotFoundException(String),
    MethodNotFoundException(String, String, String),
    FieldNotFoundException(String, String),
    /// An overly generic error, meaning "something unexpected happened", mostly
    /// conditions that a class file verifier would have rejected.
    ValidationException,
    ArithmeticException,
    NotImplemented,
    ArrayIndexOutOfBoundsException,
    ClassCastException,
}

/// Any misuse of the operand stack means that the bytecode is not valid.
impl From<ValueStackError> for VmError {
    fn from(value: ValueStackError) -> (res: Self) {
        VmError::ValidationException
    }
}

impl vstd::std_specs::convert::FromSpecImpl<ValueStackError> for VmError {
    open spec fn obeys_from_spec() -> bool {
        true
    }

    open spec fn from_spec(v: ValueStackError) -> VmError {
        VmError::ValidationException
    }
}

} // verus!
