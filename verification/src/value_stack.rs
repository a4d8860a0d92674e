use vstd::prelude::*;

use crate::value::Value;

verus! {

/// The operand stack of a call frame, bounded by the maximum size that the method's
/// code declares.
#[derive(Debug)]
pub struct ValueStack {
    stack: Vec<Value>,
    max_size: usize,
}

#[derive(Debug, PartialEq, Eq, Clone, Copy, Structural)]
pub enum ValueStackError {
    MaximumCapacityReached,
    CannotPopFromEmptyStack,
}

impl ValueStackError {
    /// The message that describes the error.
    pub fn message(&self) -> (s: &'static str)
        ensures
            *self == ValueStackError::MaximumCapacityReached ==> s@
                == "trying to grow stack beyond maximum capacity"@,
            *self == ValueStackError::CannotPopFromEmptyStack ==> s@
                == "cannot pop from an empty stack"@,
    {
        proof {
            reveal_strlit("trying to grow stack beyond maximum capacity");
            reveal_strlit("cannot pop from an empty stack");
        }
        match self {
            ValueStackError::MaximumCapacityReached => "trying to grow stack beyond maximum capacity",
            ValueStackError::CannotPopFromEmptyStack => "cannot pop from an empty stack",
        }
    }
}

impl View for ValueStack {
    type V = Seq<Value>;

    /// The stack's content, bottom first.
    closed spec fn view(&self) -> Seq<Value> {
        self.stack@
    }
}

/// The `i`-th value from the top of `s` (0 is the top).
pub open spec fn from_top(s: Seq<Value>, i: int) -> Value {
    s[s.len() - 1 - i]
}

/// Outcome of popping `k` values and then pushing `pushed` one by one, on a stack `s`
/// bounded by `max`: the popping stops at the first empty pop, and the pushing at the
/// first push that exceeds the capacity, with the values moved so far kept.
pub open spec fn shuffle_outcome(s: Seq<Value>, max: int, k: int, pushed: Seq<Value>) -> (
    Result<(), ValueStackError>,
    Seq<Value>,
) {
    if s.len() < k {
        (Err(ValueStackError::CannotPopFromEmptyStack), Seq::empty())
    } else {
        push_all_outcome(s.take(s.len() - k), max, pushed)
    }
}

/// Outcome of pushing `pushed` one by one on a stack `s` bounded by `max`, stopping at the
/// first push that exceeds the capacity.
pub open spec fn push_all_outcome(s: Seq<Value>, max: int, pushed: Seq<Value>) -> (
    Result<(), ValueStackError>,
    Seq<Value>,
) {
    if pushed.len() == 0 || s.len() + pushed.len() <= max {
        (Ok(()), s + pushed)
    } else {
        let room = if s.len() < max {
            max - s.len()
        } else {
            0
        };
        (Err(ValueStackError::MaximumCapacityReached), s + pushed.take(room))
    }
}

/// Popping right after a push gives back the pushed value and the stack as it was.
pub proof fn law_pop_after_push(s: Seq<Value>, v: Value)
    ensures
        s.push(v).len() > 0,
        s.push(v).last() == v,
        s.push(v).drop_last() == s,
{
    assert(s.push(v).drop_last() =~= s);
}

/// A stack within its capacity stays within it whatever values are moved: the
/// operations that pop and push never exceed the maximum size.
pub proof fn law_shuffle_within_capacity(s: Seq<Value>, max: int, k: int, pushed: Seq<Value>)
    requires
        s.len() <= max,
        0 <= k,
    ensures
        shuffle_outcome(s, max, k, pushed).1.len() <= max,
        push_all_outcome(s, max, pushed).1.len() <= max,
{
}

impl ValueStack {
    /// The maximum number of values that the stack can hold.
    pub closed spec fn max_size(&self) -> nat {
        self.max_size as nat
    }

    pub fn with_max_size(max_size: usize) -> (s: Self)
        ensures
            s@ == Seq::<Value>::empty(),
            s.max_size() == max_size,
    {
        Self { stack: Vec::with_capacity(max_size), max_size }
    }

    /// The number of values on the stack, never above the maximum size.
    pub fn len(&self) -> (n: usize)
        ensures
            n == self@.len(),
    {
        self.stack.len()
    }

    pub fn push(&mut self, value: Value) -> (res: Result<(), ValueStackError>)
        ensures
            final(self).max_size() == old(self).max_size(),
            old(self)@.len() < old(self).max_size() ==> res is Ok && final(self)@ == old(self)@.push(
                value,
            ),
            old(self)@.len() >= old(self).max_size() ==> res == Err::<(), _>(
                ValueStackError::MaximumCapacityReached,
            ) && final(self)@ == old(self)@,
    {
        if self.stack.len() < self.max_size {
            self.stack.push(value);
            Ok(())
        } else {
            Err(ValueStackError::MaximumCapacityReached)
        }
    }

    pub fn pop(&mut self) -> (res: Result<Value, ValueStackError>)
        ensures
            final(self).max_size() == old(self).max_size(),
            old(self)@.len() > 0 ==> res == Ok::<Value, ValueStackError>(old(self)@.last())
                && final(self)@ == old(self)@.drop_last(),
            old(self)@.len() == 0 ==> res == Err::<Value, _>(
                ValueStackError::CannotPopFromEmptyStack,
            ) && final(self)@ == old(self)@,
    {
        match self.stack.pop() {
            Some(v) => Ok(v),
            None => Err(ValueStackError::CannotPopFromEmptyStack),
        }
    }

    /// Pops one category-2 value (`long` or `double`), or two category-1 values; the
    /// result is the topmost value popped.
    pub fn pop2(&mut self) -> (res: Result<Value, ValueStackError>)
        ensures
            final(self).max_size() == old(self).max_size(),
            ({
                let s = old(self)@;
                if s.len() == 0 {
                    res == Err::<Value, _>(ValueStackError::CannotPopFromEmptyStack)
                        && final(self)@ == s
                } else if s.last().is_wide() {
                    res == Ok::<Value, ValueStackError>(s.last()) && final(self)@ == s.drop_last()
                } else if s.len() == 1 {
                    res == Err::<Value, _>(ValueStackError::CannotPopFromEmptyStack)
                        && final(self)@ == Seq::<Value>::empty()
                } else {
                    res == Ok::<Value, ValueStackError>(s.last()) && final(self)@ == s.take(
                        s.len() - 2,
                    )
                }
            }),
    {
        let value = self.pop()?;
        match value {
            Value::Long(_) | Value::Double(_) => Ok(value),
            _ => {
                let r = self.pop();
                match r {
                    Ok(_) => {
                        assert(old(self)@.drop_last().drop_last() =~= old(self)@.take(
                            old(self)@.len() - 2,
                        ));
                        Ok(value)
                    },
                    Err(e) => Err(e),
                }
            },
        }
    }

    pub fn truncate(&mut self, len: usize) -> (res: Result<(), ValueStackError>)
        ensures
            final(self).max_size() == old(self).max_size(),
            len > old(self).max_size() ==> res == Err::<(), _>(
                ValueStackError::MaximumCapacityReached,
            ) && final(self)@ == old(self)@,
            len <= old(self).max_size() ==> res is Ok && final(self)@ == (if len
                < old(self)@.len() {
                old(self)@.take(len as int)
            } else {
                old(self)@
            }),
    {
        if len > self.max_size {
            Err(ValueStackError::MaximumCapacityReached)
        } else {
            self.stack.truncate(len);
            Ok(())
        }
    }

    pub fn get(&self, index: usize) -> (res: Option<&Value>)
        ensures
            index < self@.len() ==> res == Some(&self@[index as int]),
            index >= self@.len() ==> res is None,
    {
        if index < self.stack.len() {
            Some(&self.stack[index])
        } else {
            None
        }
    }

    /// The value at `index`, counting from the bottom of the stack.
    pub fn index(&self, index: usize) -> (res: &Value)
        requires
            index < self@.len(),
        ensures
            *res == self@[index as int],
    {
        &self.stack[index]
    }

    /// The stack's content, bottom first.
    pub fn iter(&self) -> (res: &[Value])
        ensures
            res@ == self@,
    {
        self.stack.as_slice()
    }

    /// The stack's content, bottom first, to be changed in place.
    pub fn iter_mut(&mut self) -> (res: &mut [Value])
        ensures
            res@ == old(self)@,
            final(self)@ == final(res)@,
            final(self).max_size() == old(self).max_size(),
    {
        self.stack.as_mut_slice()
    }

    /// Replaces the value at `index` (used to update references after a collection).
    pub fn set(&mut self, index: usize, value: Value)
        requires
            index < old(self)@.len(),
        ensures
            final(self).max_size() == old(self).max_size(),
            final(self)@ == old(self)@.update(index as int, value),
    {
        self.stack.set(index, value);
    }

    /// Pushes `values` in order, stopping at the first push that exceeds the capacity.
    fn push_all(&mut self, values: &[Value]) -> (res: Result<(), ValueStackError>)
        ensures
            final(self).max_size() == old(self).max_size(),
            (res, final(self)@) == push_all_outcome(
                old(self)@,
                old(self).max_size() as int,
                values@,
            ),
    {
        let mut i: usize = 0;
        while i < values.len()
            invariant
                i <= values@.len(),
                self.max_size() == old(self).max_size(),
                i == 0 || old(self)@.len() + i <= old(self).max_size(),
                self@ == old(self)@ + values@.take(i as int),
            decreases values@.len() - i,
        {
            let r = self.push(values[i]);
            if r.is_err() {
                return r;
            }
            assert(values@.take(i + 1) =~= values@.take(i as int).push(values@[i as int]));
            i = i + 1;
        }
        assert(values@.take(i as int) =~= values@);
        Ok(())
    }

    /// Duplicates the top value.
    pub fn dup(&mut self) -> (res: Result<(), ValueStackError>)
        ensures
            final(self).max_size() == old(self).max_size(),
            old(self)@.len() == 0 ==> res == Err::<(), _>(
                ValueStackError::CannotPopFromEmptyStack,
            ) && final(self)@ == old(self)@,
            0 < old(self)@.len() < old(self).max_size() ==> res is Ok && final(self)@ == old(
                self,
            )@.push(old(self)@.last()),
            0 < old(self)@.len() && old(self)@.len() >= old(self).max_size() ==> res == Err::<
                (),
                _,
            >(ValueStackError::MaximumCapacityReached) && final(self)@ == old(self)@,
    {
        let n = self.stack.len();
        if n == 0 {
            Err(ValueStackError::CannotPopFromEmptyStack)
        } else {
            let head = self.stack[n - 1];
            self.push(head)
        }
    }

    /// Duplicates the top value and inserts the copy below the second value.
    pub fn dup_x1(&mut self) -> (res: Result<(), ValueStackError>)
        ensures
            final(self).max_size() == old(self).max_size(),
            (res, final(self)@) == shuffle_outcome(
                old(self)@,
                old(self).max_size() as int,
                2,
                seq![from_top(old(self)@, 0), from_top(old(self)@, 1), from_top(old(self)@, 0)],
            ),
    {
        let ghost s = self@;
        let value1 = self.pop()?;
        let value2 = match self.pop() {
            Ok(v) => v,
            Err(e) => {
                assert(self@ =~= Seq::<Value>::empty());
                return Err(e);
            },
        };
        assert(self@ =~= s.take(s.len() - 2));
        let r = self.push_all(&[value1, value2, value1]);
        assert(seq![value1, value2, value1] =~= seq![from_top(s, 0), from_top(s, 1), from_top(s, 0)]);
        r
    }

    /// Duplicates the top value and inserts the copy below the third value.
    pub fn dup_x2(&mut self) -> (res: Result<(), ValueStackError>)
        ensures
            final(self).max_size() == old(self).max_size(),
            (res, final(self)@) == shuffle_outcome(
                old(self)@,
                old(self).max_size() as int,
                3,
                seq![from_top(old(self)@, 0), from_top(old(self)@, 2), from_top(old(self)@, 1), from_top(old(self)@, 0)],
            ),
    {
        let ghost s = self@;
        let value1 = self.pop()?;
        let value2 = match self.pop() {
            Ok(v) => v,
            Err(e) => {
                assert(self@ =~= Seq::<Value>::empty());
                return Err(e);
            },
        };
        let value3 = match self.pop() {
            Ok(v) => v,
            Err(e) => {
                assert(self@ =~= Seq::<Value>::empty());
                return Err(e);
            },
        };
        assert(self@ =~= s.take(s.len() - 3));
        let r = self.push_all(&[value1, value3, value2, value1]);
        assert(seq![value1, value3, value2, value1] =~= seq![from_top(s, 0), from_top(s, 2), from_top(s, 1), from_top(s, 0)]);
        r
    }

    /// Duplicates the two top values.
    pub fn dup2(&mut self) -> (res: Result<(), ValueStackError>)
        ensures
            final(self).max_size() == old(self).max_size(),
            (res, final(self)@) == shuffle_outcome(
                old(self)@,
                old(self).max_size() as int,
                2,
                seq![from_top(old(self)@, 1), from_top(old(self)@, 0), from_top(old(self)@, 1), from_top(old(self)@, 0)],
            ),
    {
        let ghost s = self@;
        let value1 = self.pop()?;
        let value2 = match self.pop() {
            Ok(v) => v,
            Err(e) => {
                assert(self@ =~= Seq::<Value>::empty());
                return Err(e);
            },
        };
        assert(self@ =~= s.take(s.len() - 2));
        let r = self.push_all(&[value2, value1, value2, value1]);
        assert(seq![value2, value1, value2, value1] =~= seq![from_top(s, 1), from_top(s, 0), from_top(s, 1), from_top(s, 0)]);
        r
    }

    /// Duplicates the two top values and inserts the copies below the third value.
    pub fn dup2_x1(&mut self) -> (res: Result<(), ValueStackError>)
        ensures
            final(self).max_size() == old(self).max_size(),
            (res, final(self)@) == shuffle_outcome(
                old(self)@,
                old(self).max_size() as int,
                3,
                seq![from_top(old(self)@, 1), from_top(old(self)@, 0), from_top(old(self)@, 2), from_top(old(self)@, 1), from_top(old(self)@, 0)],
            ),
    {
        let ghost s = self@;
        let value1 = self.pop()?;
        let value2 = match self.pop() {
            Ok(v) => v,
            Err(e) => {
                assert(self@ =~= Seq::<Value>::empty());
                return Err(e);
            },
        };
        let value3 = match self.pop() {
            Ok(v) => v,
            Err(e) => {
                assert(self@ =~= Seq::<Value>::empty());
                return Err(e);
            },
        };
        assert(self@ =~= s.take(s.len() - 3));
        let r = self.push_all(&[value2, value1, value3, value2, value1]);
        assert(seq![value2, value1, value3, value2, value1] =~= seq![from_top(s, 1), from_top(s, 0), from_top(s, 2), from_top(s, 1), from_top(s, 0)]);
        r
    }

    /// Duplicates the two top values and inserts the copies below the fourth value.
    pub fn dup2_x2(&mut self) -> (res: Result<(), ValueStackError>)
        ensures
            final(self).max_size() == old(self).max_size(),
            (res, final(self)@) == shuffle_outcome(
                old(self)@,
                old(self).max_size() as int,
                4,
                seq![from_top(old(self)@, 1), from_top(old(self)@, 0), from_top(old(self)@, 3), from_top(old(self)@, 2), from_top(old(self)@, 1), from_top(old(self)@, 0)],
            ),
    {
        let ghost s = self@;
        let value1 = self.pop()?;
        let value2 = match self.pop() {
            Ok(v) => v,
            Err(e) => {
                assert(self@ =~= Seq::<Value>::empty());
                return Err(e);
            },
        };
        let value3 = match self.pop() {
            Ok(v) => v,
            Err(e) => {
                assert(self@ =~= Seq::<Value>::empty());
                return Err(e);
            },
        };
        let value4 = match self.pop() {
            Ok(v) => v,
            Err(e) => {
                assert(self@ =~= Seq::<Value>::empty());
                return Err(e);
            },
        };
        assert(self@ =~= s.take(s.len() - 4));
        let r = self.push_all(&[value2, value1, value4, value3, value2, value1]);
        assert(seq![value2, value1, value4, value3, value2, value1] =~= seq![from_top(s, 1), from_top(s, 0), from_top(s, 3), from_top(s, 2), from_top(s, 1), from_top(s, 0)]);
        r
    }

    /// Swaps the two top values.
    pub fn swap(&mut self) -> (res: Result<(), ValueStackError>)
        ensures
            final(self).max_size() == old(self).max_size(),
            (res, final(self)@) == shuffle_outcome(
                old(self)@,
                old(self).max_size() as int,
                2,
                seq![from_top(old(self)@, 0), from_top(old(self)@, 1)],
            ),
    {
        let ghost s = self@;
        let value1 = self.pop()?;
        let value2 = match self.pop() {
            Ok(v) => v,
            Err(e) => {
                assert(self@ =~= Seq::<Value>::empty());
                return Err(e);
            },
        };
        assert(self@ =~= s.take(s.len() - 2));
        let r = self.push_all(&[value1, value2]);
        assert(seq![value1, value2] =~= seq![from_top(s, 0), from_top(s, 1)]);
        r
    }
}

} // verus!
