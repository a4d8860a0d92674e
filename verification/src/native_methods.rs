//! The native methods of the java library that the virtual machine implements itself.
use vstd::prelude::*;

use crate::abstract_object::{hdr_hash, hdr_kind, AbstractObject};
use crate::array_entry_type::decode_entry_type;
use crate::class_manager::ClassManager;
use crate::exceptions::MethodCallFailed;
use crate::gc::ObjectAllocator;
use crate::native_methods_registry::{EntryView, NativeMethod, NativeMethodsRegistry};
use crate::value::{
    expect_array_at, expect_double_at, expect_float_at, expect_int_at, expect_object_at,
    read_entry_word, write_value_word, Value,
};
use crate::vm_error::VmError;

verus! {

/// The words of the destination array after the first `n` entries were copied, one
/// after the other: each entry is read from the source (which is the destination itself
/// when `same`) and written over the entry of the destination.
pub open spec fn copied_words(
    s0: Seq<u64>,
    d0: Seq<u64>,
    same: bool,
    sp: int,
    dp: int,
    n: nat,
) -> Seq<u64>
    decreases n,
{
    if n == 0 {
        d0
    } else {
        let d = copied_words(s0, d0, same, sp, dp, (n - 1) as nat);
        let s = if same {
            d
        } else {
            s0
        };
        let k = n - 1;
        d.update(
            3 + dp + k,
            write_value_word(d[3 + dp + k], read_entry_word(s[3 + sp + k], decode_entry_type(s0[1]))),
        )
    }
}

/// How many entries can be copied before an index falls outside of one of the arrays.
pub open spec fn copy_limit(src_len: int, sp: int, dest_len: int, dp: int) -> int {
    if sp < 0 || dp < 0 {
        0
    } else {
        let a = if src_len - sp > 0 {
            src_len - sp
        } else {
            0
        };
        let b = if dest_len - dp > 0 {
            dest_len - dp
        } else {
            0
        };
        if a < b {
            a
        } else {
            b
        }
    }
}

/// Copies `length` entries of `src`, from `src_pos`, to `dest`, from `dest_pos`, one
/// entry after the other. Fails when the arrays do not have the same type of entries, or
/// when an index falls outside of one of them; the entries copied until then stay.
pub fn array_copy(
    heap: &mut ObjectAllocator,
    classes: &ClassManager,
    src: AbstractObject,
    src_pos: i32,
    dest: AbstractObject,
    dest_pos: i32,
    length: usize,
) -> (res: Result<(), VmError>)
    requires
        old(heap).wf(classes.table()),
        old(heap).is_object(src),
        old(heap).is_object(dest),
        hdr_kind(old(heap).object_words(src)[0]) == 1,
        hdr_kind(old(heap).object_words(dest)[0]) == 1,
    ensures
        final(heap).wf(classes.table()),
        forall|p: AbstractObject| #[trigger] final(heap).is_object(p) == old(heap).is_object(p),
        forall|p: AbstractObject|
            #[trigger] old(heap).is_object(p) && p != dest ==> final(heap).object_words(p) == old(
                heap,
            ).object_words(p),
        final(heap).free_bytes() == old(heap).free_bytes(),
        ({
            let s0 = old(heap).object_words(src);
            let d0 = old(heap).object_words(dest);
            let lim = copy_limit(s0[2] as int, src_pos as int, d0[2] as int, dest_pos as int);
            let n = if lim < length {
                lim
            } else {
                length as int
            };
            &&& decode_entry_type(s0[1]) != decode_entry_type(d0[1]) ==> res == Err::<(), VmError>(
                VmError::ValidationException,
            ) && final(heap).object_words(dest) == d0
            &&& decode_entry_type(s0[1]) == decode_entry_type(d0[1]) ==> {
                &&& final(heap).object_words(dest) == copied_words(
                    s0,
                    d0,
                    src == dest,
                    src_pos as int,
                    dest_pos as int,
                    n as nat,
                )
                &&& lim < length ==> res == Err::<(), VmError>(VmError::ArrayIndexOutOfBoundsException)
                &&& lim >= length ==> res is Ok
            }
        }),
{
    let ghost ct = classes.table();
    let ghost h0 = *heap;
    let ghost s0 = heap.object_words(src);
    let ghost d0 = heap.object_words(dest);
    let ghost same = src == dest;
    let ghost lim = copy_limit(s0[2] as int, src_pos as int, d0[2] as int, dest_pos as int);
    proof {
        heap.lemma_object_layout(ct, src);
        heap.lemma_object_layout(ct, dest);
    }
    if !dest.elements_type(heap, classes).equals(&src.elements_type(heap, classes)) {
        // An ArrayStoreException should be thrown instead
        return Err(VmError::ValidationException);
    }
    let mut i: usize = 0;
    while i < length
        invariant
            h0 == *old(heap),
            heap.wf(ct),
            ct == classes.table(),
            h0.is_object(src),
            h0.is_object(dest),
            forall|p: AbstractObject| #[trigger] heap.is_object(p) == h0.is_object(p),
            forall|p: AbstractObject|
                #[trigger] h0.is_object(p) && p != dest ==> heap.object_words(p) == h0.object_words(p),
            heap.free_bytes() == h0.free_bytes(),
            s0 == h0.object_words(src),
            d0 == h0.object_words(dest),
            same == (src == dest),
            decode_entry_type(s0[1]) == decode_entry_type(d0[1]),
            hdr_kind(s0[0]) == 1,
            hdr_kind(d0[0]) == 1,
            s0.len() == 3 + s0[2],
            d0.len() == 3 + d0[2],
            s0[2] < 0x1_0000_0000,
            d0[2] < 0x1_0000_0000,
            lim == copy_limit(s0[2] as int, src_pos as int, d0[2] as int, dest_pos as int),
            i <= lim,
            i <= length,
            heap.object_words(dest) == copied_words(s0, d0, same, src_pos as int, dest_pos as int, i as nat),
        decreases length - i,
    {
        let ghost d = heap.object_words(dest);
        proof {
            lemma_copied_header(s0, d0, same, src_pos as int, dest_pos as int, i as nat);
            assert(d.len() == d0.len());
            assert(d[0] == d0[0] && d[1] == d0[1] && d[2] == d0[2]);
        }
        if src_pos < 0 {
            return Err(VmError::ArrayIndexOutOfBoundsException);
        }
        let src_index = src_pos as usize + i;
        let src_item = src.get_element(heap, classes, src_index)?;
        if dest_pos < 0 {
            return Err(VmError::ArrayIndexOutOfBoundsException);
        }
        let dest_index = dest_pos as usize + i;
        proof {
            let s = heap.object_words(src);
            heap.lemma_entry_storable(ct, src, src_index as int);
        }
        let ghost mid = *heap;
        let stored = dest.store_element(heap, classes, dest_index, src_item);
        proof {
            assert forall|p: AbstractObject| #[trigger] h0.is_object(p) && p != dest implies heap.object_words(p)
                == h0.object_words(p) by {
                assert(mid.is_object(p));
            }
            assert forall|p: AbstractObject| #[trigger] heap.is_object(p) == h0.is_object(p) by {
                assert(mid.is_object(p) == h0.is_object(p));
            }
        }
        if let Err(e) = stored {
            return Err(e);
        }
        i = i + 1;
    }
    Ok(())
}

/// Copying entries leaves the header of the destination alone.
pub proof fn lemma_copied_header(s0: Seq<u64>, d0: Seq<u64>, same: bool, sp: int, dp: int, n: nat)
    requires
        n == 0 || (sp >= 0 && dp >= 0 && dp + n + 3 <= d0.len()),
    ensures
        copied_words(s0, d0, same, sp, dp, n).len() == d0.len(),
        forall|k: int|
            0 <= k < 3 ==> #[trigger] copied_words(s0, d0, same, sp, dp, n)[k] == d0[k],
    decreases n,
{
    if n > 0 {
        lemma_copied_header(s0, d0, same, sp, dp, (n - 1) as nat);
    }
}

/// The words of an array into which the first `n` entries of another array were copied:
/// each copied entry is the source's entry written over the destination's; the other
/// words are those of the destination.
pub proof fn lemma_copied_entries(s0: Seq<u64>, d0: Seq<u64>, sp: int, dp: int, n: nat, i: int)
    requires
        sp >= 0,
        dp >= 0,
        dp + n + 3 <= d0.len(),
        0 <= i < d0.len(),
    ensures
        copied_words(s0, d0, false, sp, dp, n)[i] == if 3 + dp <= i < 3 + dp + n {
            write_value_word(d0[i], read_entry_word(s0[i - dp + sp], decode_entry_type(s0[1])))
        } else {
            d0[i]
        },
    decreases n,
{
    if n > 0 {
        lemma_copied_entries(s0, d0, sp, dp, (n - 1) as nat, i);
        lemma_copied_header(s0, d0, false, sp, dp, (n - 1) as nat);
        let k = n - 1;
        lemma_copied_entries(s0, d0, sp, dp, (n - 1) as nat, 3 + dp + k);
    }
}

/// What a method call gives back: its value, unless it is `void`.
pub type MethodCallResult = Result<Option<Value>, MethodCallFailed>;

/// The receiver of a native method, or an error when there is none.
pub fn expect_some_receiver(receiver: Option<AbstractObject>) -> (res: Result<AbstractObject, VmError>)
    ensures
        match receiver {
            Some(v) => res == Ok::<AbstractObject, VmError>(v),
            None => res == Err::<AbstractObject, VmError>(VmError::ValidationException),
        },
{
    match receiver {
        Some(v) => Ok(v),
        None => Err(VmError::ValidationException),
    }
}

/// `System.identityHashCode`: the hash code of the object given as first argument.
pub fn identity_hash_code(args: Vec<Value>, heap: &ObjectAllocator, classes: &ClassManager) -> (res: MethodCallResult)
    requires
        heap.wf(classes.table()),
        args@.len() > 0 && args@[0] is Object ==> heap.is_object(args@[0]->Object_0),
    ensures
        args@.len() > 0 && args@[0] is Object ==> res == Ok::<Option<Value>, MethodCallFailed>(
            Some(Value::Int(hdr_hash(heap.object_words(args@[0]->Object_0)[0]) as i32)),
        ),
        !(args@.len() > 0 && args@[0] is Object) ==> res == Err::<Option<Value>, MethodCallFailed>(
            MethodCallFailed::InternalError(VmError::ValidationException),
        ),
{
    let object = match expect_object_at(args.as_slice(), 0) {
        Ok(object) => object,
        Err(e) => return Err(MethodCallFailed::InternalError(e)),
    };
    Ok(Some(Value::Int(object.identity_hash_code(heap, classes))))
}

/// What `System.arraycopy` does: `h1` is the heap after the call on heap `h0`, and `res`
/// what it returned. A negative length counts as one larger than any array: the entries
/// that fit are copied, then the copy fails as out of bounds.
pub open spec fn array_copy_outcome(args: Seq<Value>, h0: ObjectAllocator, h1: ObjectAllocator, res: MethodCallResult) -> bool {
    &&& forall|p: AbstractObject| #[trigger] h1.is_object(p) == h0.is_object(p)
    &&& res is Ok ==> res == Ok::<Option<Value>, MethodCallFailed>(None)
    &&& ({
            let ok_args = args.len() >= 5 && args[0] is Object && args[2] is Object && args[1] is Int
                && args[3] is Int && args[4] is Int
                && hdr_kind(h0.object_words(args[0]->Object_0)[0]) == 1
                && hdr_kind(h0.object_words(args[2]->Object_0)[0]) == 1;
            &&& !ok_args ==> res == Err::<Option<Value>, MethodCallFailed>(
                MethodCallFailed::InternalError(VmError::ValidationException),
            ) && h1 == h0
            &&& ok_args ==> {
                let src = args[0]->Object_0;
                let dest = args[2]->Object_0;
                let sp = args[1]->Int_0 as int;
                let dp = args[3]->Int_0 as int;
                let length = if args[4]->Int_0 < 0 {
                    usize::MAX as int
                } else {
                    args[4]->Int_0 as int
                };
                let s0 = h0.object_words(src);
                let d0 = h0.object_words(dest);
                let lim = copy_limit(s0[2] as int, sp, d0[2] as int, dp);
                let n = if lim < length {
                    lim
                } else {
                    length
                };
                &&& forall|p: AbstractObject|
                    #[trigger] h0.is_object(p) && p != dest ==> h1.object_words(p) == h0.object_words(p)
                &&& h1.free_bytes() == h0.free_bytes()
                &&& decode_entry_type(s0[1]) != decode_entry_type(d0[1]) ==> res == Err::<Option<Value>, MethodCallFailed>(
                    MethodCallFailed::InternalError(VmError::ValidationException),
                ) && h1.object_words(dest) == d0
                &&& decode_entry_type(s0[1]) == decode_entry_type(d0[1]) ==> {
                    &&& h1.object_words(dest) == copied_words(s0, d0, src == dest, sp, dp, n as nat)
                    &&& lim < length ==> res == Err::<Option<Value>, MethodCallFailed>(
                        MethodCallFailed::InternalError(VmError::ArrayIndexOutOfBoundsException),
                    )
                    &&& lim >= length ==> res == Ok::<Option<Value>, MethodCallFailed>(None)
                }
            }
        })
}

/// `System.arraycopy`: its arguments are the source array and position, the destination
/// array and position, and the number of entries to copy.
pub fn native_array_copy(args: Vec<Value>, heap: &mut ObjectAllocator, classes: &ClassManager) -> (res: MethodCallResult)
    requires
        old(heap).wf(classes.table()),
        forall|i: int| 0 <= i < args@.len() && args@[i] is Object ==> old(heap).is_object(#[trigger] args@[i]->Object_0),
    ensures
        final(heap).wf(classes.table()),
        array_copy_outcome(args@, *old(heap), *final(heap), res),
{
    let src = match expect_array_at(args.as_slice(), 0, heap, classes) {
        Ok(a) => a,
        Err(e) => return Err(MethodCallFailed::InternalError(e)),
    };
    let src_pos = match expect_int_at(args.as_slice(), 1) {
        Ok(v) => v,
        Err(e) => return Err(MethodCallFailed::InternalError(e)),
    };
    let dest = match expect_array_at(args.as_slice(), 2, heap, classes) {
        Ok(a) => a,
        Err(e) => return Err(MethodCallFailed::InternalError(e)),
    };
    let dest_pos = match expect_int_at(args.as_slice(), 3) {
        Ok(v) => v,
        Err(e) => return Err(MethodCallFailed::InternalError(e)),
    };
    let length = match expect_int_at(args.as_slice(), 4) {
        Ok(v) => v,
        Err(e) => return Err(MethodCallFailed::InternalError(e)),
    };
    // A negative length, taken as an unsigned number, is larger than any array
    let count: usize = if length < 0 {
        usize::MAX
    } else {
        length as usize
    };
    match array_copy(heap, classes, src, src_pos, dest, dest_pos, count) {
        Ok(()) => Ok(None),
        Err(e) => Err(MethodCallFailed::InternalError(e)),
    }
}

/// `Float.floatToRawIntBits`: the bits of the `float` given as first argument.
pub fn float_to_raw_int_bits(args: &[Value]) -> (res: MethodCallResult)
    ensures
        args@.len() > 0 && args@[0] is Float ==> res == Ok::<Option<Value>, MethodCallFailed>(
            Some(Value::Int(args@[0]->Float_0 as i32)),
        ),
        !(args@.len() > 0 && args@[0] is Float) ==> res == Err::<Option<Value>, MethodCallFailed>(
            MethodCallFailed::InternalError(VmError::ValidationException),
        ),
{
    let arg = match expect_float_at(args, 0) {
        Ok(v) => v,
        Err(e) => return Err(MethodCallFailed::InternalError(e)),
    };
    let int_bits: i32 = arg as i32;
    Ok(Some(Value::Int(int_bits)))
}

/// `Double.doubleToRawLongBits`: the bits of the `double` given as first argument.
pub fn double_to_raw_long_bits(args: &[Value]) -> (res: MethodCallResult)
    ensures
        args@.len() > 0 && args@[0] is Double ==> res == Ok::<Option<Value>, MethodCallFailed>(
            Some(Value::Long(args@[0]->Double_0 as i64)),
        ),
        !(args@.len() > 0 && args@[0] is Double) ==> res == Err::<Option<Value>, MethodCallFailed>(
            MethodCallFailed::InternalError(VmError::ValidationException),
        ),
{
    let arg = match expect_double_at(args, 0) {
        Ok(v) => v,
        Err(e) => return Err(MethodCallFailed::InternalError(e)),
    };
    let long_bits: i64 = arg as i64;
    Ok(Some(Value::Long(long_bits)))
}

/// `Class.getClassLoader0`: there is only one class loader, represented by `null`.
pub fn get_class_loader(receiver: Option<AbstractObject>) -> (res: MethodCallResult)
    ensures
        res == Ok::<Option<Value>, MethodCallFailed>(Some(Value::Null)),
{
    Ok(Some(Value::Null))
}

/// The native methods that do nothing.
pub open spec fn noop_entries() -> Seq<EntryView> {
    seq![
        ("java/lang/Object"@, "registerNatives"@, "()V"@, NativeMethod::Noop),
        ("java/lang/System"@, "registerNatives"@, "()V"@, NativeMethod::Noop),
        ("java/lang/Class"@, "registerNatives"@, "()V"@, NativeMethod::Noop),
        ("java/lang/ClassLoader"@, "registerNatives"@, "()V"@, NativeMethod::Noop),
    ]
}

/// The native methods that read the system clock.
pub open spec fn time_entries() -> Seq<EntryView> {
    seq![
        ("java/lang/System"@, "nanoTime"@, "()J"@, NativeMethod::NanoTime),
        ("java/lang/System"@, "currentTimeMillis"@, "()J"@, NativeMethod::CurrentTimeMillis),
    ]
}

/// The native methods related to the garbage collector.
pub open spec fn gc_entries() -> Seq<EntryView> {
    seq![
        ("java/lang/System"@, "identityHashCode"@, "(Ljava/lang/Object;)I"@, NativeMethod::IdentityHashCode),
        ("java/lang/System"@, "gc"@, "()V"@, NativeMethod::Gc),
    ]
}

/// The native methods that deal with the internal representation of data.
pub open spec fn native_repr_entries() -> Seq<EntryView> {
    seq![
        ("java/lang/System"@, "arraycopy"@, "(Ljava/lang/Object;ILjava/lang/Object;II)V"@, NativeMethod::ArrayCopy),
        ("java/lang/Float"@, "floatToRawIntBits"@, "(F)I"@, NativeMethod::FloatToRawIntBits),
        ("java/lang/Double"@, "doubleToRawLongBits"@, "(D)J"@, NativeMethod::DoubleToRawLongBits),
    ]
}

/// The native methods related to reflection.
pub open spec fn reflection_entries() -> Seq<EntryView> {
    seq![
        ("java/lang/Class"@, "getClassLoader0"@, "()Ljava/lang/ClassLoader;"@, NativeMethod::GetClassLoader),
        ("java/lang/Class"@, "desiredAssertionStatus0"@, "(Ljava/lang/Class;)Z"@, NativeMethod::DesiredAssertionStatus),
        ("java/lang/Class"@, "getPrimitiveClass"@, "(Ljava/lang/String;)Ljava/lang/Class;"@, NativeMethod::GetPrimitiveClass),
    ]
}

/// The native methods of `java.lang.Throwable`.
pub open spec fn throwable_entries() -> Seq<EntryView> {
    seq![
        ("java/lang/Throwable"@, "fillInStackTrace"@, "(I)Ljava/lang/Throwable;"@, NativeMethod::FillInStackTrace),
        ("java/lang/Throwable"@, "getStackTraceDepth"@, "()I"@, NativeMethod::GetStackTraceDepth),
        ("java/lang/Throwable"@, "getStackTraceElement"@, "(I)Ljava/lang/StackTraceElement;"@, NativeMethod::GetStackTraceElement),
    ]
}

/// All the built-in native methods, in the order of their registration.
pub open spec fn builtin_entries() -> Seq<EntryView> {
    noop_entries() + time_entries() + gc_entries() + native_repr_entries() + reflection_entries() + throwable_entries()
}

/// Registers the built-in native methods.
pub fn register_natives(registry: &mut NativeMethodsRegistry)
    ensures
        final(registry).entries() == old(registry).entries() + builtin_entries(),
        final(registry).has_temp_print(),
{
    registry.register_temp_print();
    register_noops(registry);
    register_time_methods(registry);
    register_gc_methods(registry);
    register_native_repr_methods(registry);
    register_reflection_methods(registry);
    register_throwable_methods(registry);
    proof {
        assert(registry.entries() =~= old(registry).entries() + builtin_entries());
    }
}

/// These various methods are noop, i.e. they do not do anything.
fn register_noops(registry: &mut NativeMethodsRegistry)
    ensures
        final(registry).entries() == old(registry).entries() + noop_entries(),
        final(registry).has_temp_print() == old(registry).has_temp_print(),
{
    registry.register("java/lang/Object", "registerNatives", "()V", NativeMethod::Noop);
    registry.register("java/lang/System", "registerNatives", "()V", NativeMethod::Noop);
    registry.register("java/lang/Class", "registerNatives", "()V", NativeMethod::Noop);
    registry.register("java/lang/ClassLoader", "registerNatives", "()V", NativeMethod::Noop);
    proof {
        assert(registry.entries() =~= old(registry).entries() + noop_entries());
    }
}

/// Methods to access the system clock.
fn register_time_methods(registry: &mut NativeMethodsRegistry)
    ensures
        final(registry).entries() == old(registry).entries() + time_entries(),
        final(registry).has_temp_print() == old(registry).has_temp_print(),
{
    registry.register("java/lang/System", "nanoTime", "()J", NativeMethod::NanoTime);
    registry.register("java/lang/System", "currentTimeMillis", "()J", NativeMethod::CurrentTimeMillis);
    proof {
        assert(registry.entries() =~= old(registry).entries() + time_entries());
    }
}

/// Methods related to the garbage collector.
fn register_gc_methods(registry: &mut NativeMethodsRegistry)
    ensures
        final(registry).entries() == old(registry).entries() + gc_entries(),
        final(registry).has_temp_print() == old(registry).has_temp_print(),
{
    registry.register("java/lang/System", "identityHashCode", "(Ljava/lang/Object;)I", NativeMethod::IdentityHashCode);
    registry.register("java/lang/System", "gc", "()V", NativeMethod::Gc);
    proof {
        assert(registry.entries() =~= old(registry).entries() + gc_entries());
    }
}

/// Native methods that deal with the internal representation of data.
fn register_native_repr_methods(registry: &mut NativeMethodsRegistry)
    ensures
        final(registry).entries() == old(registry).entries() + native_repr_entries(),
        final(registry).has_temp_print() == old(registry).has_temp_print(),
{
    registry.register("java/lang/System", "arraycopy", "(Ljava/lang/Object;ILjava/lang/Object;II)V", NativeMethod::ArrayCopy);
    registry.register("java/lang/Float", "floatToRawIntBits", "(F)I", NativeMethod::FloatToRawIntBits);
    registry.register("java/lang/Double", "doubleToRawLongBits", "(D)J", NativeMethod::DoubleToRawLongBits);
    proof {
        assert(registry.entries() =~= old(registry).entries() + native_repr_entries());
    }
}

/// Methods related to reflection.
fn register_reflection_methods(registry: &mut NativeMethodsRegistry)
    ensures
        final(registry).entries() == old(registry).entries() + reflection_entries(),
        final(registry).has_temp_print() == old(registry).has_temp_print(),
{
    registry.register("java/lang/Class", "getClassLoader0", "()Ljava/lang/ClassLoader;", NativeMethod::GetClassLoader);
    registry.register("java/lang/Class", "desiredAssertionStatus0", "(Ljava/lang/Class;)Z", NativeMethod::DesiredAssertionStatus);
    registry.register("java/lang/Class", "getPrimitiveClass", "(Ljava/lang/String;)Ljava/lang/Class;", NativeMethod::GetPrimitiveClass);
    proof {
        assert(registry.entries() =~= old(registry).entries() + reflection_entries());
    }
}

/// Methods of `java.lang.Throwable`.
fn register_throwable_methods(registry: &mut NativeMethodsRegistry)
    ensures
        final(registry).entries() == old(registry).entries() + throwable_entries(),
        final(registry).has_temp_print() == old(registry).has_temp_print(),
{
    registry.register("java/lang/Throwable", "fillInStackTrace", "(I)Ljava/lang/Throwable;", NativeMethod::FillInStackTrace);
    registry.register("java/lang/Throwable", "getStackTraceDepth", "()I", NativeMethod::GetStackTraceDepth);
    registry.register("java/lang/Throwable", "getStackTraceElement", "(I)Ljava/lang/StackTraceElement;", NativeMethod::GetStackTraceElement);
    proof {
        assert(registry.entries() =~= old(registry).entries() + throwable_entries());
    }
}

} // verus!
