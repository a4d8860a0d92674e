use rjvm_vm::value::Value;
use rjvm_vm::value_stack::{ValueStack, ValueStackError};

#[test]
fn can_do_push_pop_and_indexing() {
    let mut stack = ValueStack::with_max_size(3);
    stack.push(Value::Int(1)).expect("should be able to push");
    stack.push(Value::Int(2)).expect("should be able to push");
    stack.push(Value::Int(3)).expect("should be able to push");

    assert_eq!(Ok(Value::Int(3)), stack.pop());
    assert_eq!(Some(&Value::Int(1)), stack.get(0));
    assert_eq!(Value::Int(2), *stack.index(1));
    assert_eq!(2, stack.len());

    stack.truncate(1).expect("should be able to truncate");
    assert_eq!(1, stack.len());
    assert_eq!(Ok(Value::Int(1)), stack.pop());
}

#[test]
fn cannot_push_above_capacity() {
    let mut stack = ValueStack::with_max_size(1);
    stack.push(Value::Int(1)).expect("should be able to push");
    assert!(stack.push(Value::Int(2)).is_err());
}

#[test]
fn can_invoke_dup() {
    let mut stack = ValueStack::with_max_size(2);
    stack.push(Value::Int(1)).expect("should be able to push");
    stack.dup().expect("should be able to dup");
    assert_eq!(2, stack.len());
    assert_eq!(Ok(Value::Int(1)), stack.pop());
    assert_eq!(Ok(Value::Int(1)), stack.pop());
}

#[test]
fn can_invoke_dup_x1() {
    let mut stack = ValueStack::with_max_size(3);
    stack.push(Value::Int(2)).expect("should be able to push");
    stack.push(Value::Int(1)).expect("should be able to push");
    stack.dup_x1().expect("should be able to dup_x1");
    assert_eq!(3, stack.len());
    assert_eq!(Ok(Value::Int(1)), stack.pop());
    assert_eq!(Ok(Value::Int(2)), stack.pop());
    assert_eq!(Ok(Value::Int(1)), stack.pop());
}

#[test]
fn can_invoke_dup_x2() {
    let mut stack = ValueStack::with_max_size(4);
    stack.push(Value::Int(3)).expect("should be able to push");
    stack.push(Value::Int(2)).expect("should be able to push");
    stack.push(Value::Int(1)).expect("should be able to push");
    stack.dup_x2().expect("should be able to dup_x2");
    assert_eq!(4, stack.len());
    assert_eq!(Ok(Value::Int(1)), stack.pop());
    assert_eq!(Ok(Value::Int(2)), stack.pop());
    assert_eq!(Ok(Value::Int(3)), stack.pop());
    assert_eq!(Ok(Value::Int(1)), stack.pop());
}

#[test]
fn can_invoke_dup2() {
    let mut stack = ValueStack::with_max_size(4);
    stack.push(Value::Int(2)).expect("should be able to push");
    stack.push(Value::Int(1)).expect("should be able to push");
    stack.dup2().expect("should be able to dup2");
    assert_eq!(4, stack.len());
    assert_eq!(Ok(Value::Int(1)), stack.pop());
    assert_eq!(Ok(Value::Int(2)), stack.pop());
    assert_eq!(Ok(Value::Int(1)), stack.pop());
    assert_eq!(Ok(Value::Int(2)), stack.pop());
}

#[test]
fn can_invoke_dup2_x1() {
    let mut stack = ValueStack::with_max_size(5);
    stack.push(Value::Int(3)).expect("should be able to push");
    stack.push(Value::Int(2)).expect("should be able to push");
    stack.push(Value::Int(1)).expect("should be able to push");
    stack.dup2_x1().expect("should be able to dup2_x1");
    assert_eq!(5, stack.len());
    assert_eq!(Ok(Value::Int(1)), stack.pop());
    assert_eq!(Ok(Value::Int(2)), stack.pop());
    assert_eq!(Ok(Value::Int(3)), stack.pop());
    assert_eq!(Ok(Value::Int(1)), stack.pop());
    assert_eq!(Ok(Value::Int(2)), stack.pop());
}

#[test]
fn can_invoke_dup2_x2() {
    let mut stack = ValueStack::with_max_size(6);
    stack.push(Value::Int(4)).expect("should be able to push");
    stack.push(Value::Int(3)).expect("should be able to push");
    stack.push(Value::Int(2)).expect("should be able to push");
    stack.push(Value::Int(1)).expect("should be able to push");
    stack.dup2_x2().expect("should be able to dup2_x2");
    assert_eq!(6, stack.len());
    assert_eq!(Ok(Value::Int(1)), stack.pop());
    assert_eq!(Ok(Value::Int(2)), stack.pop());
    assert_eq!(Ok(Value::Int(3)), stack.pop());
    assert_eq!(Ok(Value::Int(4)), stack.pop());
    assert_eq!(Ok(Value::Int(1)), stack.pop());
    assert_eq!(Ok(Value::Int(2)), stack.pop());
}

#[test]
fn can_invoke_pop2() {
    let mut stack = ValueStack::with_max_size(4);
    stack
        .push(Value::Double(0f64.to_bits()))
        .expect("should be able to push");
    stack.push(Value::Int(1)).expect("should be able to push");
    stack.push(Value::Int(2)).expect("should be able to push");
    stack.push(Value::Long(3)).expect("should be able to push");
    assert_eq!(Ok(Value::Long(3)), stack.pop2());
    assert_eq!(3, stack.len());
    assert_eq!(Ok(Value::Int(2)), stack.pop2());
    assert_eq!(1, stack.len());
    assert_eq!(Ok(Value::Double(0f64.to_bits())), stack.pop2());
}

#[test]
fn can_invoke_swap() {
    let mut stack = ValueStack::with_max_size(2);
    stack.push(Value::Int(1)).expect("should be able to push");
    stack.push(Value::Int(2)).expect("should be able to push");
    stack.swap().expect("should be able to swap");
    assert_eq!(2, stack.len());
    assert_eq!(Ok(Value::Int(1)), stack.pop());
    assert_eq!(Ok(Value::Int(2)), stack.pop());
}

#[test]
fn pop_from_empty_stack_fails() {
    let mut stack = ValueStack::with_max_size(2);
    assert_eq!(Err(ValueStackError::CannotPopFromEmptyStack), stack.pop());
    assert_eq!(Err(ValueStackError::CannotPopFromEmptyStack), stack.dup());
    assert_eq!("cannot pop from an empty stack", ValueStackError::CannotPopFromEmptyStack.message());
}

#[test]
fn truncate_above_capacity_fails() {
    let mut stack = ValueStack::with_max_size(2);
    stack.push(Value::Int(7)).expect("should be able to push");
    assert_eq!(Err(ValueStackError::MaximumCapacityReached), stack.truncate(3));
    assert_eq!(1, stack.len());
    assert_eq!(
        "trying to grow stack beyond maximum capacity",
        ValueStackError::MaximumCapacityReached.message()
    );
}

#[test]
fn pop_then_push_gives_back_the_stack() {
    let mut stack = ValueStack::with_max_size(3);
    stack.push(Value::Long(-5)).expect("should be able to push");
    stack.push(Value::Null).expect("should be able to push");
    let top = stack.pop().expect("should be able to pop");
    stack.push(top).expect("should be able to push");
    assert_eq!(&[Value::Long(-5), Value::Null][..], stack.iter());
}

#[test]
fn pop2_of_a_single_narrow_value_fails() {
    let mut stack = ValueStack::with_max_size(2);
    stack.push(Value::Int(1)).expect("should be able to push");
    assert_eq!(Err(ValueStackError::CannotPopFromEmptyStack), stack.pop2());
    assert_eq!(0, stack.len());
}
