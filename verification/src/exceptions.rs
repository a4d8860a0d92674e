use vstd::prelude::*;

use crate::abstract_object::AbstractObject;
use crate::value_stack::ValueStackError;
use crate::vm_error::VmError;

verus! {

/// Models the fact that a method execution has failed.
#[derive(Debug, PartialEq, Eq)]
pub enum MethodCallFailed {
    InternalError(VmError),
    ExceptionThrown(JavaException),
}

impl From<VmError> for MethodCallFailed {
    fn from(value: VmError) -> (res: Self) {
        Self::InternalError(value)
    }
}

impl vstd::std_specs::convert::FromSpecImpl<VmError> for MethodCallFailed {
    open spec fn obeys_from_spec() -> bool {
        true
    }

    open spec fn from_spec(v: VmError) -> MethodCallFailed {
        MethodCallFailed::InternalError(v)
    }
}

/// A misuse of the operand stack means that the bytecode is not valid.
impl From<ValueStackError> for MethodCallFailed {
    fn from(value: ValueStackError) -> (res: Self) {
        Self::InternalError(VmError::ValidationException)
    }
}

impl vstd::std_specs::convert::FromSpecImpl<ValueStackError> for MethodCallFailed {
    open spec fn obeys_from_spec() -> bool {
        true
    }

    open spec fn from_spec(v: ValueStackError) -> MethodCallFailed {
        MethodCallFailed::InternalError(VmError::ValidationException)
    }
}

/// Newtype that wraps a java exception.
#[derive(Debug, PartialEq, Eq)]
pub struct JavaException(pub AbstractObject);

} // verus!
