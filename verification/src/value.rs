use vstd::prelude::*;

use crate::abstract_object::{hdr_kind, AbstractObject, ObjectKind};
use crate::array_entry_type::{decode_entry_type, ArrayEntryType};
use crate::class::Class;
use crate::class_manager::{
    class_of, class_wf, declares_supertype, has_class, is_subclass, last_named, law_subclass_of_declared,
    law_subclass_reflexive, table_wf, ClassManager,
};
use crate::field_type::{BaseType, FieldType};
use crate::gc::ObjectAllocator;
use crate::vm_error::VmError;

verus! {

/// A value of the java virtual machine. `float` and `double` values are carried as
/// their IEEE-754 bit patterns, since the machine only ever moves them around.
#[derive(Debug, Clone, Copy, PartialEq, Eq, Structural)]
pub enum Value {
    Uninitialized,
    Int(i32),
    Long(i64),
    Float(u32),
    Double(u64),
    Object(AbstractObject),
    Null,
}

impl Default for Value {
    fn default() -> (v: Self)
        ensures
            v == Value::Uninitialized,
    {
        Value::Uninitialized
    }
}

impl Value {
    /// Whether the value takes two slots of the operand stack (category 2).
    pub open spec fn is_wide(self) -> bool {
        self is Long || self is Double
    }
}

/// The 32 upper bits of a heap word.
pub const HIGH_HALF: u64 = 0xffff_ffff_0000_0000;

/// The word that holds `v` after it is written over `old`. Values of 32 bits only
/// replace the lower half of the word (the heap is little-endian), the other values
/// replace the whole word; `null` and uninitialized values are stored as 0.
pub open spec fn write_value_word(old: u64, v: Value) -> u64 {
    match v {
        Value::Int(i) => (old & HIGH_HALF) | (i as u32) as u64,
        Value::Long(l) => l as u64,
        Value::Float(f) => (old & HIGH_HALF) | f as u64,
        Value::Double(d) => d,
        Value::Uninitialized | Value::Null => 0,
        Value::Object(o) => o.address() as u64,
    }
}

/// The value of a word read as a value of the given base type or reference type.
pub open spec fn read_word_as(w: u64, reference: bool, base: BaseType) -> Value {
    if reference {
        if w == 0 {
            Value::Null
        } else {
            Value::Object(AbstractObject::spec_at(w as usize))
        }
    } else {
        match base {
            BaseType::Long => Value::Long(w as i64),
            BaseType::Float => Value::Float(w as u32),
            BaseType::Double => Value::Double(w),
            _ => Value::Int((w as u32) as i32),
        }
    }
}

/// A field of the given type read from a word.
pub open spec fn read_value_word(w: u64, t: FieldType) -> Value {
    match t {
        FieldType::Base(b) => read_word_as(w, false, b),
        _ => read_word_as(w, true, BaseType::Int),
    }
}

/// An entry of an array with the given entry type read from a word.
pub open spec fn read_entry_word(w: u64, e: ArrayEntryType) -> Value {
    match e {
        ArrayEntryType::Base(b) => read_word_as(w, false, b),
        _ => read_word_as(w, true, BaseType::Int),
    }
}

/// Whether `v` can be stored in a field of base type `base` (or of a reference type,
/// when `reference` holds) and read back unchanged.
pub open spec fn value_fits(v: Value, reference: bool, base: BaseType) -> bool {
    if reference {
        v is Null || (v matches Value::Object(o) && o.address() != 0)
    } else {
        match v {
            Value::Int(_) => base != BaseType::Long && base != BaseType::Float && base
                != BaseType::Double,
            Value::Long(_) => base == BaseType::Long,
            Value::Float(_) => base == BaseType::Float,
            Value::Double(_) => base == BaseType::Double,
            _ => false,
        }
    }
}

/// The value that a field of the given type holds when its word is zero: the default
/// value of the type.
pub open spec fn default_value(t: FieldType) -> Value {
    match t {
        FieldType::Base(BaseType::Long) => Value::Long(0),
        FieldType::Base(BaseType::Float) => Value::Float(0),
        FieldType::Base(BaseType::Double) => Value::Double(0),
        FieldType::Base(_) => Value::Int(0),
        _ => Value::Null,
    }
}

/// A zero word reads as the default value of the field's type.
pub proof fn law_zero_word_reads_default(t: FieldType)
    ensures
        read_value_word(0, t) == default_value(t),
{
    assert((0u64 as u32) as i32 == 0) by (bit_vector);
    assert(0u64 as i64 == 0) by (bit_vector);
    assert(0u64 as u32 == 0) by (bit_vector);
}

/// Whether `v` can be stored in a field of type `t` and read back unchanged.
pub open spec fn value_fits_field(v: Value, t: FieldType) -> bool {
    match t {
        FieldType::Base(b) => value_fits(v, false, b),
        _ => value_fits(v, true, BaseType::Int),
    }
}

/// Reading a field right after a value that fits its type was written in it gives that
/// value back.
pub proof fn law_field_read_after_write(words: Seq<u64>, k: int, v: Value, t: FieldType)
    requires
        0 <= k < words.len(),
        value_fits_field(v, t),
    ensures
        read_value_word(words.update(k, write_value_word(words[k], v))[k], t) == v,
{
    match t {
        FieldType::Base(b) => lemma_read_after_write(words[k], v, false, b),
        _ => lemma_read_after_write(words[k], v, true, BaseType::Int),
    }
}

/// A field of a reference type reads as null after null, or an uninitialized value, was
/// written in it, and as the object after an object was.
pub proof fn law_reference_field_read_after_write(words: Seq<u64>, k: int, v: Value, t: FieldType)
    requires
        0 <= k < words.len(),
        !(t is Base),
        v is Null || v is Uninitialized || (v matches Value::Object(o) && o.address() != 0),
    ensures
        read_value_word(words.update(k, write_value_word(words[k], v))[k], t) == if v is Object {
            v
        } else {
            Value::Null
        },
{
    if v is Object {
        lemma_read_after_write(words[k], v, true, BaseType::Int);
    }
}

/// Reading a word gives back the value that was written in it.
pub proof fn lemma_read_after_write(old: u64, v: Value, reference: bool, base: BaseType)
    requires
        value_fits(v, reference, base),
    ensures
        read_word_as(write_value_word(old, v), reference, base) == v,
{
    match v {
        Value::Int(i) => {
            let w = (old & HIGH_HALF) | (i as u32) as u64;
            assert(w as u32 == i as u32) by (bit_vector)
                requires
                    w == (old & 0xffff_ffff_0000_0000) | (i as u32) as u64,
            ;
            assert(((i as u32) as i32) == i) by (bit_vector);
        },
        Value::Long(l) => {
            assert((l as u64) as i64 == l) by (bit_vector);
        },
        Value::Float(f) => {
            let w = (old & HIGH_HALF) | f as u64;
            assert(w as u32 == f) by (bit_vector)
                requires
                    w == (old & 0xffff_ffff_0000_0000) | f as u64,
            ;
        },
        Value::Object(o) => {
            AbstractObject::lemma_spec_at(o);
        },
        _ => {},
    }
}

pub fn write_value(old: u64, value: Value) -> (w: u64)
    ensures
        w == write_value_word(old, value),
{
    match value {
        Value::Int(i) => (old & HIGH_HALF) | (i as u32) as u64,
        Value::Long(long) => long as u64,
        Value::Float(float) => (old & HIGH_HALF) | float as u64,
        Value::Double(double) => double,
        Value::Uninitialized | Value::Null => 0,
        Value::Object(obj) => obj.addr() as u64,
    }
}

fn read_word(w: u64, reference: bool, base: BaseType) -> (v: Value)
    ensures
        v == read_word_as(w, reference, base),
{
    if reference {
        if w == 0 {
            Value::Null
        } else {
            Value::Object(AbstractObject::at(w as usize))
        }
    } else {
        match base {
            BaseType::Long => Value::Long(w as i64),
            BaseType::Float => Value::Float(w as u32),
            BaseType::Double => Value::Double(w),
            _ => Value::Int((w as u32) as i32),
        }
    }
}

/// Reads a field of the given type from its word.
pub fn read_value(w: u64, field_type: &FieldType) -> (v: Value)
    ensures
        v == read_value_word(w, *field_type),
{
    match field_type {
        FieldType::Base(b) => read_word(w, false, *b),
        _ => read_word(w, true, BaseType::Int),
    }
}

/// Reads an array entry of the given type from its word.
pub fn read_value2(w: u64, entry_type: &ArrayEntryType) -> (v: Value)
    ensures
        v == read_entry_word(w, *entry_type),
{
    match entry_type {
        ArrayEntryType::Base(b) => read_word(w, false, *b),
        _ => read_word(w, true, BaseType::Int),
    }
}

/// Whether an array whose entries have type `e` is an array of components of type `c`:
/// arrays of arrays do not record the type of their components.
pub open spec fn entries_match(e: ArrayEntryType, c: FieldType, t: Seq<Class>) -> bool {
    match e {
        ArrayEntryType::Base(b) => c == FieldType::Base(b),
        ArrayEntryType::Object(id) => has_class(t, id@ as int) && (c matches FieldType::Object(n)
            && n@ == class_of(t, id@ as int).name@),
        ArrayEntryType::Array => c is Array,
    }
}

/// Whether `v` can be used where a value of type `expected` is expected: an object must
/// be an instance of the class with the expected name (or of a subclass), and an array
/// must have the expected type of components.
pub open spec fn value_matches(v: Value, expected: FieldType, heap: ObjectAllocator, t: Seq<Class>) -> bool {
    match v {
        Value::Uninitialized => false,
        Value::Int(_) => match expected {
            FieldType::Base(b) => b == BaseType::Int || b == BaseType::Byte || b == BaseType::Char
                || b == BaseType::Short || b == BaseType::Boolean,
            _ => false,
        },
        Value::Long(_) => expected == FieldType::Base(BaseType::Long),
        Value::Float(_) => expected == FieldType::Base(BaseType::Float),
        Value::Double(_) => expected == FieldType::Base(BaseType::Double),
        Value::Object(o) => {
            let w = heap.object_words(o);
            if hdr_kind(w[0]) == 0 {
                match expected {
                    FieldType::Object(name) => exists|i: int|
                        last_named(t, name@, i) && is_subclass(t, w[1] as int, i + 1),
                    _ => false,
                }
            } else {
                match expected {
                    FieldType::Array(c) => entries_match(decode_entry_type(w[1]), *c, t),
                    _ => false,
                }
            }
        },
        Value::Null => !(expected is Base),
    }
}

/// An instance of a class matches the type of that class, and of each class it names as
/// its superclass or as one of its interfaces (the class loaded last with that name);
/// null matches every reference type.
pub proof fn law_instance_matches_supertype(heap: ObjectAllocator, t: Seq<Class>, o: AbstractObject, i: int)
    requires
        table_wf(t),
        hdr_kind(heap.object_words(o)[0]) == 0,
        has_class(t, heap.object_words(o)[1] as int),
        last_named(t, t[i].name@, i),
        heap.object_words(o)[1] == i + 1 || declares_supertype(t, heap.object_words(o)[1] as int, i + 1),
    ensures
        value_matches(Value::Object(o), FieldType::Object(t[i].name), heap, t),
        value_matches(Value::Null, FieldType::Object(t[i].name), heap, t),
{
    let c = heap.object_words(o)[1] as int;
    if c == i + 1 {
        law_subclass_reflexive(t, c);
    } else {
        law_subclass_of_declared(t, c, i + 1);
    }
    assert(last_named(t, t[i].name@, i) && is_subclass(t, c, i + 1));
    let fty = FieldType::Object(t[i].name);
    assert(fty->Object_0@ == t[i].name@);
    assert(exists|j: int| last_named(t, fty->Object_0@, j) && is_subclass(t, c, j + 1));
    assert(value_matches(Value::Object(o), fty, heap, t));
}

impl Value {
    /// Whether the value can be used where a value of type `expected_type` is expected.
    pub fn matches_type(&self, expected_type: FieldType, heap: &ObjectAllocator, classes: &ClassManager) -> (res: bool)
        requires
            heap.wf(classes.table()),
            classes.wf(),
            *self matches Value::Object(o) ==> heap.is_object(o),
        ensures
            res == value_matches(*self, expected_type, *heap, classes.table()),
    {
        match self {
            Value::Uninitialized => false,
            Value::Int(_) => match expected_type {
                FieldType::Base(base_type) => matches!(
                    base_type,
                    BaseType::Int | BaseType::Byte | BaseType::Char | BaseType::Short | BaseType::Boolean
                ),
                _ => false,
            },
            Value::Long(_) => match expected_type {
                FieldType::Base(base_type) => base_type.equals(&BaseType::Long),
                _ => false,
            },
            Value::Float(_) => match expected_type {
                FieldType::Base(base_type) => base_type.equals(&BaseType::Float),
                _ => false,
            },
            Value::Double(_) => match expected_type {
                FieldType::Base(base_type) => base_type.equals(&BaseType::Double),
                _ => false,
            },
            Value::Object(object) => {
                proof {
                    heap.lemma_object_layout(classes.table(), *object);
                    classes.lemma_wf();
                }
                match object.kind(heap, classes) {
                    ObjectKind::Object => match expected_type {
                        // With multiple class loaders, the identity of the classes should be
                        // compared rather than their names
                        FieldType::Object(expected_class_name) => {
                            let value_class = classes.find_class_by_id(object.class_id(heap, classes));
                            match value_class {
                                Some(object_class) => {
                                    proof {
                                        assert(class_wf(classes.table(), heap.object_words(*object)[1] - 1));
                                    }
                                    match classes.find_class_by_name(&expected_class_name) {
                                        Some(expected_class) => {
                                            proof {
                                                let i = choose|i: int|
                                                    0 <= i < classes.table().len() && classes.table()[i] == *expected_class
                                                        && expected_class.name@ == expected_class_name@
                                                        && forall|j: int| i < j < classes.table().len() ==> classes.table()[j].name@ != expected_class_name@;
                                                assert(class_wf(classes.table(), i));
                                                assert(last_named(classes.table(), expected_class_name@, i));
                                                assert forall|i2: int| #[trigger] last_named(classes.table(), expected_class_name@, i2) implies i2 == i by {
                                                    if i2 < i {
                                                        assert(classes.table()[i].name@ == expected_class_name@);
                                                    }
                                                }
                                            }
                                            classes.is_subclass_of(object_class.id, expected_class.id)
                                        },
                                        None => false,
                                    }
                                },
                                None => false,
                            }
                        },
                        _ => false,
                    },
                    ObjectKind::Array => match expected_type {
                        FieldType::Array(component) => {
                            let entry_type = object.elements_type(heap, classes);
                            match entry_type {
                                ArrayEntryType::Base(b) => match *component {
                                    FieldType::Base(c) => b.equals(&c),
                                    _ => false,
                                },
                                ArrayEntryType::Object(_) => match entry_type.into_field_type(classes) {
                                    Some(FieldType::Object(name)) => match *component {
                                        FieldType::Object(c) => name == c,
                                        _ => false,
                                    },
                                    _ => false,
                                },
                                ArrayEntryType::Array => match *component {
                                    FieldType::Array(_) => true,
                                    _ => false,
                                },
                            }
                        },
                        _ => false,
                    },
                }
            },
            Value::Null => match expected_type {
                FieldType::Base(_) => false,
                FieldType::Object(_) => true,
                FieldType::Array(_) => true,
            },
        }
    }
}

/// The object at `index` of `vec`, or an error when there is none there.
pub fn expect_object_at(vec: &[Value], index: usize) -> (res: Result<AbstractObject, VmError>)
    ensures
        index < vec@.len() && vec@[index as int] is Object ==> res == Ok::<AbstractObject, VmError>(
            vec@[index as int]->Object_0,
        ),
        !(index < vec@.len() && vec@[index as int] is Object) ==> res == Err::<AbstractObject, VmError>(
            VmError::ValidationException,
        ),
{
    if index < vec.len() {
        if let Value::Object(object) = vec[index] {
            return Ok(object);
        }
    }
    Err(VmError::ValidationException)
}

/// The array at `index` of `vec`, or an error when there is none there.
pub fn expect_array_at(vec: &[Value], index: usize, heap: &ObjectAllocator, classes: &ClassManager) -> (res: Result<AbstractObject, VmError>)
    requires
        heap.wf(classes.table()),
        index < vec@.len() && vec@[index as int] is Object ==> heap.is_object(vec@[index as int]->Object_0),
    ensures
        ({
            let is_array = index < vec@.len() && vec@[index as int] is Object && hdr_kind(
                heap.object_words(vec@[index as int]->Object_0)[0],
            ) == 1;
            &&& is_array ==> res == Ok::<AbstractObject, VmError>(vec@[index as int]->Object_0)
            &&& !is_array ==> res == Err::<AbstractObject, VmError>(VmError::ValidationException)
        }),
{
    if index < vec.len() {
        if let Value::Object(object) = vec[index] {
            if object.kind(heap, classes).into_bits() == 1 {
                return Ok(object);
            }
        }
    }
    Err(VmError::ValidationException)
}

/// The `int` at `index` of `vec`, or an error when there is none there.
pub fn expect_int_at(vec: &[Value], index: usize) -> (res: Result<i32, VmError>)
    ensures
        index < vec@.len() && vec@[index as int] is Int ==> res == Ok::<i32, VmError>(
            vec@[index as int]->Int_0,
        ),
        !(index < vec@.len() && vec@[index as int] is Int) ==> res == Err::<i32, VmError>(
            VmError::ValidationException,
        ),
{
    if index < vec.len() {
        if let Value::Int(v) = vec[index] {
            return Ok(v);
        }
    }
    Err(VmError::ValidationException)
}

/// The bits of the `float` at `index` of `vec`, or an error when there is none there.
pub fn expect_float_at(vec: &[Value], index: usize) -> (res: Result<u32, VmError>)
    ensures
        index < vec@.len() && vec@[index as int] is Float ==> res == Ok::<u32, VmError>(
            vec@[index as int]->Float_0,
        ),
        !(index < vec@.len() && vec@[index as int] is Float) ==> res == Err::<u32, VmError>(
            VmError::ValidationException,
        ),
{
    if index < vec.len() {
        if let Value::Float(float) = vec[index] {
            return Ok(float);
        }
    }
    Err(VmError::ValidationException)
}

/// The bits of the `double` at `index` of `vec`, or an error when there is none there.
pub fn expect_double_at(vec: &[Value], index: usize) -> (res: Result<u64, VmError>)
    ensures
        index < vec@.len() && vec@[index as int] is Double ==> res == Ok::<u64, VmError>(
            vec@[index as int]->Double_0,
        ),
        !(index < vec@.len() && vec@[index as int] is Double) ==> res == Err::<u64, VmError>(
            VmError::ValidationException,
        ),
{
    if index < vec.len() {
        if let Value::Double(double) = vec[index] {
            return Ok(double);
        }
    }
    Err(VmError::ValidationException)
}

/// The receiver of a method call, or an error when there is none.
pub fn expect_receiver(receiver: Option<AbstractObject>) -> (res: Result<AbstractObject, VmError>)
    ensures
        match receiver {
            Some(v) => res == Ok::<AbstractObject, VmError>(v),
            None => res == Err::<AbstractObject, VmError>(VmError::ValidationException),
        },
{
    match receiver {
        Some(v) => Ok(v),
        None => Err(VmError::ValidationException),
    }
}

/// The objects that `vs` refers to, in order.
pub open spec fn object_refs(vs: Seq<Value>) -> Seq<AbstractObject>
    decreases vs.len(),
{
    if vs.len() == 0 {
        Seq::empty()
    } else {
        object_refs(vs.drop_last()) + match vs.last() {
            Value::Object(o) => seq![o],
            _ => Seq::empty(),
        }
    }
}

/// The value `v`, with the object it refers to replaced by the one that `f` maps it to.
pub open spec fn moved_value(v: Value, f: Map<AbstractObject, AbstractObject>) -> Value {
    match v {
        Value::Object(o) => Value::Object(f[o]),
        _ => v,
    }
}

/// The objects referred to by a prefix of `vs` come first among those of `vs`.
pub proof fn lemma_object_refs_prefix(vs: Seq<Value>, i: int)
    requires
        0 <= i < vs.len(),
    ensures
        object_refs(vs.take(i + 1)) == object_refs(vs.take(i)) + match vs[i] {
            Value::Object(o) => seq![o],
            _ => Seq::<AbstractObject>::empty(),
        },
        object_refs(vs.take(i)).len() <= object_refs(vs).len(),
        vs[i] matches Value::Object(o) ==> object_refs(vs.take(i)).len() < object_refs(vs).len()
            && object_refs(vs)[object_refs(vs.take(i)).len() as int] == o,
    decreases vs.len() - i,
{
    assert(vs.take(i + 1).drop_last() =~= vs.take(i));
    if i + 1 < vs.len() {
        lemma_object_refs_prefix(vs, i + 1);
        let a = object_refs(vs.take(i + 1));
        let b = object_refs(vs);
        if vs[i] is Object {
            assert(a[object_refs(vs.take(i)).len() as int] == vs[i]->Object_0);
            lemma_object_refs_take_prefix(vs, i + 1);
        }
    } else {
        assert(vs.take(i + 1) =~= vs);
    }
}

/// The objects referred to by a prefix of `vs` are a prefix of those of `vs`.
pub proof fn lemma_object_refs_take_prefix(vs: Seq<Value>, n: int)
    requires
        0 <= n <= vs.len(),
    ensures
        object_refs(vs.take(n)).len() <= object_refs(vs).len(),
        forall|k: int|
            0 <= k < object_refs(vs.take(n)).len() ==> #[trigger] object_refs(vs)[k] == object_refs(
                vs.take(n),
            )[k],
    decreases vs.len() - n,
{
    if n < vs.len() {
        lemma_object_refs_take_prefix(vs, n + 1);
        assert(vs.take(n + 1).drop_last() =~= vs.take(n));
    } else {
        assert(vs.take(n) =~= vs);
    }
}

/// Appends the objects that `values` refer to, in order.
pub fn collect_refs(values: &[Value], out: &mut Vec<AbstractObject>)
    ensures
        final(out)@ == old(out)@ + object_refs(values@),
{
    let mut i: usize = 0;
    while i < values.len()
        invariant
            i <= values@.len(),
            out@ == old(out)@ + object_refs(values@.take(i as int)),
        decreases values@.len() - i,
    {
        proof {
            assert(values@.take(i + 1).drop_last() =~= values@.take(i as int));
        }
        match values[i] {
            Value::Object(o) => out.push(o),
            _ => {},
        }
        proof {
            if values@[i as int] is Object {
                assert(out@ =~= old(out)@ + object_refs(values@.take(i + 1)));
            } else {
                assert(out@ =~= old(out)@ + object_refs(values@.take(i + 1)));
            }
        }
        i = i + 1;
    }
    proof {
        assert(values@.take(i as int) =~= values@);
    }
}

/// Replaces the objects that `values` refer to, in order, with those of `refs` from
/// position `start`; returns the position after the last one used.
pub fn move_refs(values: &mut Vec<Value>, refs: &Vec<AbstractObject>, start: usize) -> (end: usize)
    requires
        start + object_refs(old(values)@).len() <= refs@.len(),
    ensures
        end == start + object_refs(old(values)@).len(),
        final(values)@.len() == old(values)@.len(),
        forall|k: int|
            0 <= k < old(values)@.len() ==> #[trigger] final(values)@[k] == match old(values)@[k] {
                Value::Object(_) => Value::Object(
                    refs@[start + object_refs(old(values)@.take(k)).len()],
                ),
                _ => old(values)@[k],
            },
{
    let ghost v0 = values@;
    let mut i: usize = 0;
    let mut next: usize = start;
    let refs_len = refs.len();
    while i < values.len()
        invariant
            refs_len == refs@.len(),
            i <= values@.len(),
            values@.len() == v0.len(),
            v0 == old(values)@,
            start + object_refs(v0).len() <= refs@.len(),
            next == start + object_refs(v0.take(i as int)).len(),
            object_refs(v0.take(i as int)).len() <= object_refs(v0).len(),
            forall|k: int| i <= k < v0.len() ==> values@[k] == v0[k],
            forall|k: int|
                0 <= k < i ==> #[trigger] values@[k] == match v0[k] {
                    Value::Object(_) => Value::Object(refs@[start + object_refs(v0.take(k)).len()]),
                    _ => v0[k],
                },
        decreases values@.len() - i,
    {
        proof {
            lemma_object_refs_prefix(v0, i as int);
        }
        match values[i] {
            Value::Object(_) => {
                values.set(i, Value::Object(refs[next]));
                next = next + 1;
            },
            _ => {},
        }
        i = i + 1;
    }
    proof {
        assert(v0.take(i as int) =~= v0);
    }
    next
}

/// Replacing the objects of `v0`, in order, by the images under `f` of the same objects
/// maps each value through `f`.
/// The values with each reference replaced by its image under `f`.
pub open spec fn moved_values(s: Seq<Value>, f: Map<AbstractObject, AbstractObject>) -> Seq<Value> {
    s.map_values(|v: Value| moved_value(v, f))
}

/// The objects that values refer to are those of the values that are references.
#[verifier::spinoff_prover]
pub proof fn lemma_object_refs_contains(vs: Seq<Value>, x: AbstractObject)
    ensures
        object_refs(vs).contains(x) <==> vs.contains(Value::Object(x)),
    decreases vs.len(),
{
    if vs.len() > 0 {
        lemma_object_refs_contains(vs.drop_last(), x);
        let a = object_refs(vs.drop_last());
        let tail = match vs.last() {
            Value::Object(o) => seq![o],
            _ => Seq::<AbstractObject>::empty(),
        };
        if object_refs(vs).contains(x) {
            let k = choose|k: int| 0 <= k < object_refs(vs).len() && object_refs(vs)[k] == x;
            if k < a.len() {
                assert(a[k] == x);
                let j = choose|j: int| 0 <= j < vs.drop_last().len() && vs.drop_last()[j] == Value::Object(x);
                assert(vs[j] == Value::Object(x));
            } else {
                assert(tail[k - a.len()] == x);
                assert(vs[vs.len() - 1] == Value::Object(x));
            }
        }
        if vs.contains(Value::Object(x)) {
            let j = choose|j: int| 0 <= j < vs.len() && vs[j] == Value::Object(x);
            if j < vs.len() - 1 {
                assert(vs.drop_last()[j] == Value::Object(x));
                let k = choose|k: int| 0 <= k < a.len() && a[k] == x;
                assert(object_refs(vs)[k] == x);
            } else {
                assert(object_refs(vs)[a.len() as int] == x);
            }
        }
    }
}

/// The objects, each replaced by its image under `f`.
pub open spec fn moved_refs(s: Seq<AbstractObject>, f: Map<AbstractObject, AbstractObject>) -> Seq<AbstractObject> {
    s.map_values(|p: AbstractObject| f[p])
}

/// Moving the references of values moves the objects they refer to.
pub proof fn lemma_object_refs_moved(vs: Seq<Value>, f: Map<AbstractObject, AbstractObject>)
    ensures
        object_refs(moved_values(vs, f)) == moved_refs(object_refs(vs), f),
    decreases vs.len(),
{
    if vs.len() > 0 {
        assert(moved_values(vs, f).drop_last() =~= moved_values(vs.drop_last(), f));
        lemma_object_refs_moved(vs.drop_last(), f);
        let tail = match vs.last() {
            Value::Object(o) => seq![o],
            _ => Seq::<AbstractObject>::empty(),
        };
        assert(moved_refs(object_refs(vs.drop_last()) + tail, f) =~= moved_refs(object_refs(vs.drop_last()), f) + moved_refs(tail, f));
        assert(object_refs(moved_values(vs, f)) =~= moved_refs(object_refs(vs), f));
    } else {
        assert(object_refs(moved_values(vs, f)) =~= moved_refs(object_refs(vs), f));
    }
}

pub proof fn lemma_moved_values(
    v0: Seq<Value>,
    v1: Seq<Value>,
    refs: Seq<AbstractObject>,
    start: int,
    f: Map<AbstractObject, AbstractObject>,
)
    requires
        v1.len() == v0.len(),
        forall|k: int|
            0 <= k < v0.len() ==> #[trigger] v1[k] == match v0[k] {
                Value::Object(_) => Value::Object(refs[start + object_refs(v0.take(k)).len()]),
                _ => v0[k],
            },
        forall|k: int| 0 <= k < object_refs(v0).len() ==> refs[start + k] == f[#[trigger] object_refs(v0)[k]],
    ensures
        v1 == moved_values(v0, f),
{
    assert forall|k: int| 0 <= k < v0.len() implies #[trigger] v1[k] == moved_value(v0[k], f) by {
        lemma_object_refs_prefix(v0, k);
        if let Value::Object(o) = v0[k] {
            let j = object_refs(v0.take(k)).len() as int;
            assert(object_refs(v0)[j] == o);
        }
    }
    assert(v1 =~= moved_values(v0, f));
}

} // verus!
